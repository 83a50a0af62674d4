use snarkvm_dpc_core::gadgets::{AllocatedBit, Boolean, Int64, UInt64};
use snarkvm_dpc_core::r1cs::{SynthesisError, Variable};

fn le_constants(x: u64) -> Vec<Boolean> {
    (0..64).map(|i| Boolean::Constant((x >> i) & 1 == 1)).collect()
}

#[test]
fn uint64_from_constant_bits() {
    let x = 0x0123_4567_89ab_cdefu64;
    let bits = le_constants(x);
    let u = UInt64::from_bits_le(&bits).unwrap();
    assert_eq!(u.value, Some(x));
    assert!(!u.negated);
    assert_eq!(u.bits, bits);
    let mut be = bits.clone();
    be.reverse();
    assert_eq!(UInt64::from_bits_be(&be).unwrap().value, Some(x));
    assert_eq!(UInt64::from_bits_le_strict(&bits).unwrap().value, Some(x));
    assert_eq!(UInt64::from_bits_be_strict(&be).unwrap().value, Some(x));
}

#[test]
fn uint64_allocated_and_negated_bits() {
    let one = AllocatedBit { variable: Variable::Private(0), value: Some(true) };
    let zero = AllocatedBit { variable: Variable::Private(1), value: Some(false) };
    let mut bits = le_constants(0);
    bits[0] = Boolean::Is(one);
    bits[1] = Boolean::Not(zero);
    bits[2] = Boolean::Not(one);
    bits[63] = Boolean::Is(one);
    assert_eq!(UInt64::from_bits_le(&bits).unwrap().value, Some(3 | (1 << 63)));
}

#[test]
fn uint64_unknown_bit() {
    let unknown = AllocatedBit { variable: Variable::Private(0), value: None };
    let mut bits = le_constants(u64::MAX);
    bits[40] = Boolean::Not(unknown);
    assert_eq!(UInt64::from_bits_le(&bits).unwrap().value, None);
    assert_eq!(UInt64::from_bits_be(&bits).unwrap().value, None);
}

#[test]
fn uint64_wrong_length() {
    let bits = le_constants(5)[..63].to_vec();
    assert!(matches!(UInt64::from_bits_le(&bits), Err(SynthesisError::Unsatisfiable)));
    assert!(matches!(UInt64::from_bits_be(&bits), Err(SynthesisError::Unsatisfiable)));
    assert!(matches!(Int64::from_bits_le(&[]), Err(SynthesisError::Unsatisfiable)));
}

#[test]
fn int64_twos_complement() {
    let bits = le_constants(u64::MAX);
    assert_eq!(Int64::from_bits_le(&bits).unwrap().value, Some(-1));
    let bits = le_constants((-5i64) as u64);
    assert_eq!(Int64::from_bits_le(&bits).unwrap().value, Some(-5));
    let mut be = bits.clone();
    be.reverse();
    assert_eq!(Int64::from_bits_be(&be).unwrap().value, Some(-5));
    assert_eq!(Int64::from_bits_be_strict(&be).unwrap().value, Some(-5));
    assert_eq!(Int64::from_bits_le_strict(&bits).unwrap().value, Some(-5));
}

#[test]
fn uint64_to_bytes_le_splits_bits_and_value() {
    let x = 0x0123_4567_89ab_cdefu64;
    let bits = le_constants(x);
    let u = UInt64::from_bits_le(&bits).unwrap();
    assert_eq!(u.to_bits_le(), bits);
    assert_eq!(u.to_bits_le_strict(), bits);
    let bytes = u.to_bytes_le();
    assert_eq!(bytes.len(), 8);
    let expected = [0xefu8, 0xcd, 0xab, 0x89, 0x67, 0x45, 0x23, 0x01];
    for i in 0..8 {
        assert_eq!(bytes[i].value, Some(expected[i]));
        assert!(!bytes[i].negated);
        assert_eq!(bytes[i].bits, bits[8 * i..8 * i + 8].to_vec());
    }
    let strict = u.to_bytes_le_strict();
    assert_eq!(strict.len(), 8);
    assert_eq!(strict[3].value, Some(0x89));
}

#[test]
fn uint64_to_bytes_le_unknown_value() {
    let unknown = AllocatedBit { variable: Variable::Private(0), value: None };
    let mut bits = le_constants(7);
    bits[9] = Boolean::Is(unknown);
    let u = UInt64::from_bits_le(&bits).unwrap();
    let bytes = u.to_bytes_le();
    assert_eq!(bytes.len(), 8);
    for i in 0..8 {
        assert_eq!(bytes[i].value, None);
        assert_eq!(bytes[i].bits, bits[8 * i..8 * i + 8].to_vec());
    }
}

#[test]
fn int64_to_bytes_le_twos_complement() {
    let bits = le_constants((-2i64) as u64);
    let n = Int64::from_bits_le(&bits).unwrap();
    assert_eq!(n.to_bits_le(), bits);
    assert_eq!(n.to_bits_le_strict(), bits);
    let bytes = n.to_bytes_le();
    assert_eq!(bytes.len(), 8);
    assert_eq!(bytes[0].value, Some(0xfe));
    for i in 1..8 {
        assert_eq!(bytes[i].value, Some(0xff));
    }
    assert_eq!(n.to_bytes_le_strict()[0].value, Some(0xfe));
}

#[test]
fn uint64_bytes_agree_with_their_bits() {
    let x = 0xfedc_ba98_7654_3210u64;
    let u = UInt64::from_bits_le(&le_constants(x)).unwrap();
    for byte in u.to_bytes_le() {
        let mut from_bits = 0u8;
        for (k, b) in byte.bits.iter().enumerate() {
            if let Boolean::Constant(true) = b {
                from_bits |= 1 << k;
            }
        }
        assert_eq!(byte.value, Some(from_bits));
    }
}
