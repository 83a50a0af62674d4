use rand::rngs::StdRng;
use rand::SeedableRng;
use snarkvm_dpc_core::encryption::{
    EncryptionError,
    EncryptionScheme,
    GroupEncryption,
    GroupEncryptionParameters,
    GroupEncryptionPublicKey,
};
use snarkvm_dpc_core::field::PrimeField;
use snarkvm_dpc_core::group::PrimeOrderGroup;
use snarkvm_dpc_core::small::{SmallField, SmallGroup, MODULUS};

const P: u64 = MODULUS as u64;

fn pow_mod(mut b: u64, mut e: u64) -> u64 {
    let mut r = 1u64;
    b %= P;
    while e > 0 {
        if e & 1 == 1 {
            r = r * b % P;
        }
        b = b * b % P;
        e >>= 1;
    }
    r
}

fn inv_mod(x: u64) -> u64 {
    pow_mod(x, P - 2)
}

fn le8(x: u64) -> Vec<u8> {
    x.to_le_bytes().to_vec()
}

/// Parameters whose generator has discrete logarithm `g`.
fn parameters_with_generator(g: u64) -> GroupEncryptionParameters<SmallGroup> {
    let mut powers = Vec::new();
    let mut x = g % P;
    for _ in 0..64 {
        powers.push(SmallGroup::new(x));
        x = 2 * x % P;
    }
    GroupEncryptionParameters { generator_powers: powers }
}

fn dlogs(v: &[SmallGroup]) -> Vec<u64> {
    v.iter().map(|x| x.as_u64()).collect()
}

#[test]
fn setup_lists_doublings_of_a_generator() {
    let rng = &mut StdRng::seed_from_u64(1);
    let scheme = GroupEncryption::<SmallGroup>::setup(rng);
    let powers = &scheme.parameters().generator_powers;
    // 31 bits, rounded up to a multiple of 64
    assert_eq!(powers.len(), 64);
    let g = powers[0].as_u64();
    for (i, p) in powers.iter().enumerate() {
        assert_eq!(p.as_u64(), g * pow_mod(2, i as u64) % P);
    }
    assert_eq!(GroupEncryption::<SmallGroup>::private_key_size_in_bits(), 31);
}

#[test]
fn public_key_is_private_key_times_generator() {
    let scheme = GroupEncryption::from(parameters_with_generator(3));
    let pk = scheme.generate_public_key(&SmallField::new(10)).unwrap();
    assert_eq!(pk.0.as_u64(), 30);
    let pk = scheme.generate_public_key(&SmallField::new(65520)).unwrap();
    assert_eq!(pk.0.as_u64(), 65520 * 3 % P);
    let pk = scheme.generate_public_key(&SmallField::new(0)).unwrap();
    assert_eq!(pk.0.as_u64(), 0);
}

#[test]
fn encrypt_decrypt_roundtrip() {
    let rng = &mut StdRng::seed_from_u64(7);
    let scheme = GroupEncryption::<SmallGroup>::setup(rng);
    for _ in 0..20 {
        let sk = scheme.generate_private_key(rng);
        let pk = scheme.generate_public_key(&sk).unwrap();
        let r = scheme.generate_randomness(&pk, rng).unwrap();
        let message = vec![SmallGroup::new(5), SmallGroup::new(1000), SmallGroup::new(65520), SmallGroup::new(0)];
        match scheme.encrypt(&pk, &r, &message) {
            Ok(ct) => {
                assert_eq!(ct.len(), message.len() + 1);
                let pt = scheme.decrypt(&sk, &ct).unwrap();
                assert_eq!(dlogs(&pt), dlogs(&message));
            }
            Err(e) => assert_eq!(e, EncryptionError::MissingInverse),
        }
    }
}

#[test]
fn encrypt_exact_ciphertext() {
    let g = 3u64;
    let scheme = GroupEncryption::from(parameters_with_generator(g));
    let sk = 10u64;
    let pk = scheme.generate_public_key(&SmallField::new(sk)).unwrap();
    let r = 1234u64;
    let message = vec![SmallGroup::new(77), SmallGroup::new(4000)];
    let ct = scheme.encrypt(&pk, &SmallField::new(r), &message).unwrap();
    let key = (sk * g % P) * r % P;
    let z = key;
    let mut expected = vec![le8(r * g % P)];
    for (i, m) in [77u64, 4000].iter().enumerate() {
        let b = inv_mod((z + i as u64 + 1) % P);
        expected.push(le8((key * b % P + m) % P));
    }
    assert_eq!(ct, expected);

    let exps = scheme.generate_blinding_exponents(&pk, &SmallField::new(r), 3).unwrap();
    let values: Vec<u64> = exps.iter().map(|x| x.as_u64()).collect();
    assert_eq!(values, vec![inv_mod((z + 1) % P), inv_mod((z + 2) % P), inv_mod((z + 3) % P)]);

    let pt = scheme.decrypt(&SmallField::new(sk), &ct).unwrap();
    assert_eq!(dlogs(&pt), vec![77, 4000]);
}

/// Randomness for which `z + 1` is zero, so that no blinding exponent exists.
fn randomness_without_inverse(pk: u64) -> u64 {
    // key = pk * r must be P - 1
    (P - 1) * inv_mod(pk) % P
}

#[test]
fn encrypt_missing_inverse() {
    let scheme = GroupEncryption::from(parameters_with_generator(3));
    let pk = scheme.generate_public_key(&SmallField::new(10)).unwrap();
    let r = randomness_without_inverse(30);
    let message = vec![SmallGroup::new(1)];
    assert_eq!(scheme.encrypt(&pk, &SmallField::new(r), &message), Err(EncryptionError::MissingInverse));
    assert!(matches!(
        scheme.generate_blinding_exponents(&pk, &SmallField::new(r), 1),
        Err(EncryptionError::MissingInverse)
    ));
    // An empty message needs no blinding exponent.
    let ct = scheme.encrypt(&pk, &SmallField::new(r), &[]).unwrap();
    assert_eq!(ct.len(), 1);
    assert_eq!(scheme.decrypt(&SmallField::new(10), &ct).unwrap().len(), 0);
}

#[test]
fn decrypt_missing_inverse() {
    let scheme = GroupEncryption::from(parameters_with_generator(3));
    // c_0 with logarithm 1; with s = P - 1 the key is P - 1, so z + 1 = 0
    let ct = vec![le8(1), le8(5)];
    assert!(matches!(scheme.decrypt(&SmallField::new(P - 1), &ct), Err(EncryptionError::MissingInverse)));
}

#[test]
fn decrypt_invalid_elements() {
    let scheme = GroupEncryption::from(parameters_with_generator(3));
    let sk = SmallField::new(10);
    let bad = vec![0xffu8; 8];
    assert!(matches!(scheme.decrypt(&sk, &[bad.clone()]), Err(EncryptionError::InvalidCiphertextElement)));
    assert!(matches!(scheme.decrypt(&sk, &[le8(1), vec![1, 2]]), Err(EncryptionError::InvalidCiphertextElement)));
    assert!(matches!(scheme.decrypt(&sk, &[le8(1), le8(2), bad]), Err(EncryptionError::InvalidCiphertextElement)));
    // A lone c_0 decrypts to the empty message.
    assert_eq!(scheme.decrypt(&sk, &[le8(1)]).unwrap().len(), 0);
}

#[test]
fn usable_randomness() {
    let rng = &mut StdRng::seed_from_u64(3);
    let scheme = GroupEncryption::<SmallGroup>::setup(rng);
    let pk = scheme.generate_public_key(&SmallField::new(99)).unwrap();
    let r = scheme.generate_randomness(&pk, rng).unwrap();
    assert!(scheme.is_usable_randomness(&pk, &r));
    assert!(r.as_u64() < P);
}

#[test]
fn public_key_write_read() {
    let pk = GroupEncryptionPublicKey(SmallGroup::new(40000));
    let bytes = pk.write();
    assert_eq!(bytes, le8(40000));
    let back = GroupEncryptionPublicKey::<SmallGroup>::read(&bytes).unwrap();
    assert_eq!(back.0.as_u64(), 40000);
    let pk = GroupEncryptionPublicKey(SmallGroup::new(12));
    let mut bytes = pk.write();
    bytes.extend_from_slice(&[9, 9, 9]);
    assert_eq!(GroupEncryptionPublicKey::<SmallGroup>::read(&bytes).unwrap().0.as_u64(), 12);
}

#[test]
fn public_key_read_errors() {
    assert!(matches!(
        GroupEncryptionPublicKey::<SmallGroup>::read(&[1, 2, 3]),
        Err(EncryptionError::InvalidPublicKey)
    ));
    assert!(matches!(
        GroupEncryptionPublicKey::<SmallGroup>::read(&[0xff; 8]),
        Err(EncryptionError::InvalidPublicKey)
    ));
}

#[test]
fn public_key_default_is_identity() {
    let pk = GroupEncryptionPublicKey::<SmallGroup>::default();
    assert_eq!(pk.0.as_u64(), 0);
}

#[test]
fn group_operations() {
    let a = SmallGroup::new(65000);
    let b = SmallGroup::new(1000);
    assert_eq!(a.add(&b).as_u64(), (65000 + 1000) % P);
    assert_eq!(b.sub(&a).as_u64(), (1000 + P - 65000) % P);
    assert_eq!(a.mul(&SmallField::new(3)).as_u64(), 65000 * 3 % P);
    assert_eq!(SmallGroup::from_bytes(&a.to_bytes()).unwrap().as_u64(), 65000);
    let inv = SmallField::new(12345).inverse().unwrap();
    assert_eq!(inv.as_u64() * 12345 % P, 1);
    assert!(SmallField::new(0).inverse().is_none());
}

#[test]
fn random_draws_vary() {
    let rng = &mut StdRng::seed_from_u64(42);
    let draws: Vec<u64> = (0..16).map(|_| SmallField::rand(rng).as_u64()).collect();
    assert!(draws.iter().any(|d| *d != draws[0]));
    assert!(draws.iter().all(|d| *d < P));
    let scheme = GroupEncryption::<SmallGroup>::setup(rng);
    assert_ne!(scheme.parameters().generator_powers[0].as_u64(), 0);
}

#[test]
fn exactly_nonzero_field_elements_are_invertible() {
    assert!(SmallField::new(0).inverse().is_none());
    assert!(SmallField::new(P).inverse().is_none());
    assert_eq!(SmallField::new(2).inverse().unwrap().as_u64(), 1073741824);
    for x in [1u64, 3, 12345, P - 1, 1 << 30] {
        let inv = SmallField::new(x).inverse().unwrap();
        assert_eq!(inv.mul(&SmallField::new(x)).as_u64(), 1);
        assert_eq!(inv.as_u64(), inv_mod(x));
    }
}

#[test]
fn read_public_key_has_the_coordinate_read() {
    for x in [0u64, 1, 7, P / 2, P / 2 + 1, P - 1] {
        let bytes = le8(x);
        let pk = GroupEncryptionPublicKey::<SmallGroup>::read(&bytes).unwrap();
        assert_eq!(pk.write(), bytes);
    }
}
