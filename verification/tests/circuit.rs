use rand::rngs::StdRng;
use rand::SeedableRng;
use snarkvm_dpc_core::field::PrimeField;
use snarkvm_dpc_core::r1cs::{Circuit, ConstraintSystem, SynthesisError};
use snarkvm_dpc_core::small::SmallField;

/// Synthesizes the benchmark circuit for random `a`, `b`; the system must
/// accept the public input `a · b` and reject the public input `a`.
fn test_circuit(num_constraints: usize, num_variables: usize) {
    let rng = &mut StdRng::seed_from_u64(0x5eed);

    for _ in 0..100 {
        let a = SmallField::rand(rng);
        let b = SmallField::rand(rng);
        let c = a.mul(&b);

        let circ = Circuit { a: Some(a), b: Some(b), num_constraints, num_variables };

        let mut cs = ConstraintSystem::<SmallField>::new();
        circ.generate_constraints(&mut cs).unwrap();
        assert_eq!(cs.private_variables.len(), num_variables - 1);
        assert_eq!(cs.public_variables.len(), 2);
        assert_eq!(cs.constraints.len(), num_constraints);

        assert!(cs.is_satisfied());
        assert!(cs.is_satisfied_with_inputs(&[c]));
        assert!(!cs.is_satisfied_with_inputs(&[a]));
    }
}

#[test]
fn prove_and_verify_with_tall_matrix_big() {
    let num_constraints = 100;
    let num_variables = 25;

    test_circuit(num_constraints, num_variables);
}

#[test]
fn prove_and_verify_with_tall_matrix_small() {
    let num_constraints = 26;
    let num_variables = 25;

    test_circuit(num_constraints, num_variables);
}

#[test]
fn prove_and_verify_with_squat_matrix_big() {
    let num_constraints = 25;
    let num_variables = 100;

    test_circuit(num_constraints, num_variables);
}

#[test]
fn prove_and_verify_with_squat_matrix_small() {
    let num_constraints = 25;
    let num_variables = 26;

    test_circuit(num_constraints, num_variables);
}

#[test]
fn prove_and_verify_with_square_matrix() {
    let num_constraints = 25;
    let num_variables = 25;

    test_circuit(num_constraints, num_variables);
}

#[test]
fn circuit_assignment_values() {
    let a = SmallField::new(7);
    let b = SmallField::new(9);
    let circ = Circuit { a: Some(a), b: Some(b), num_constraints: 2, num_variables: 5 };
    let mut cs = ConstraintSystem::<SmallField>::new();
    circ.generate_constraints(&mut cs).unwrap();
    let private: Vec<u64> = cs.private_variables.iter().map(|x| x.as_u64()).collect();
    assert_eq!(private, vec![7, 9, 7, 7]);
    let public: Vec<u64> = cs.public_variables.iter().map(|x| x.as_u64()).collect();
    assert_eq!(public, vec![1, 63]);
    assert!(cs.is_satisfied_with_inputs(&[SmallField::new(63)]));
    assert!(!cs.is_satisfied_with_inputs(&[SmallField::new(64)]));
}

#[test]
fn circuit_missing_a() {
    let circ = Circuit::<SmallField> { a: None, b: Some(SmallField::new(2)), num_constraints: 3, num_variables: 4 };
    let mut cs = ConstraintSystem::<SmallField>::new();
    assert_eq!(circ.generate_constraints(&mut cs), Err(SynthesisError::AssignmentMissing));
    assert_eq!(cs.private_variables.len(), 0);
    assert_eq!(cs.public_variables.len(), 1);
    assert_eq!(cs.constraints.len(), 0);
}

#[test]
fn circuit_missing_b() {
    let circ = Circuit::<SmallField> { a: Some(SmallField::new(2)), b: None, num_constraints: 3, num_variables: 4 };
    let mut cs = ConstraintSystem::<SmallField>::new();
    assert_eq!(circ.generate_constraints(&mut cs), Err(SynthesisError::AssignmentMissing));
    assert_eq!(cs.private_variables.len(), 1);
    assert_eq!(cs.public_variables.len(), 1);
    assert_eq!(cs.constraints.len(), 0);
}

#[test]
fn circuit_without_constraints_accepts_any_input() {
    let circ = Circuit { a: Some(SmallField::new(3)), b: Some(SmallField::new(4)), num_constraints: 0, num_variables: 3 };
    let mut cs = ConstraintSystem::<SmallField>::new();
    circ.generate_constraints(&mut cs).unwrap();
    assert!(cs.is_satisfied_with_inputs(&[SmallField::new(12)]));
    assert!(cs.is_satisfied_with_inputs(&[SmallField::new(5)]));
}

#[test]
fn circuit_product_wraps_modulus() {
    let p = snarkvm_dpc_core::small::MODULUS;
    let circ = Circuit { a: Some(SmallField::new(p - 1)), b: Some(SmallField::new(2)), num_constraints: 1, num_variables: 3 };
    let mut cs = ConstraintSystem::<SmallField>::new();
    circ.generate_constraints(&mut cs).unwrap();
    // (p - 1) * 2 = p + (p - 2)
    assert_eq!(cs.public_variables[1].as_u64(), p - 2);
    assert!(cs.is_satisfied_with_inputs(&[SmallField::new(p - 2)]));
}

#[test]
fn circuit_missing_value_with_few_variables() {
    for n in 0..3 {
        let circ = Circuit::<SmallField> { a: None, b: Some(SmallField::new(2)), num_constraints: 1, num_variables: n };
        let mut cs = ConstraintSystem::<SmallField>::new();
        assert_eq!(circ.generate_constraints(&mut cs), Err(SynthesisError::AssignmentMissing));
        assert_eq!(cs.constraints.len(), 0);
        let circ = Circuit::<SmallField> { a: Some(SmallField::new(2)), b: None, num_constraints: 1, num_variables: n };
        let mut cs = ConstraintSystem::<SmallField>::new();
        assert_eq!(circ.generate_constraints(&mut cs), Err(SynthesisError::AssignmentMissing));
        assert_eq!(cs.private_variables.len(), 1);
    }
}
