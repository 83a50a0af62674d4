use snarkvm_dpc_core::bits::{bits_to_bytes, bytes_to_bits};
use snarkvm_dpc_core::small::SmallField;
use snarkvm_dpc_core::verifier_input::{
    bytes_to_field_elements,
    AleoAmount,
    InnerCircuitVerifierInput,
    SystemParameterElements,
};

#[test]
fn bits_roundtrip() {
    assert_eq!(bits_to_bytes(&[true, false, true]), vec![5]);
    assert_eq!(bits_to_bytes(&[]), Vec::<u8>::new());
    let bits = vec![true, true, false, false, false, false, false, false, true];
    assert_eq!(bits_to_bytes(&bits), vec![3, 1]);
    assert_eq!(bytes_to_bits(&[5]), vec![true, false, true, false, false, false, false, false]);
    let back = bytes_to_bits(&bits_to_bytes(&bits));
    assert_eq!(&back[..bits.len()], &bits[..]);
    assert!(back[bits.len()..].iter().all(|b| !b));
}

fn values(v: &[SmallField]) -> Vec<u64> {
    v.iter().map(|x| x.as_u64()).collect()
}

/// The little-endian values of `bytes` in pieces of three (a 31-bit modulus
/// holds any three bytes).
fn packed(bytes: &[u8]) -> Vec<u64> {
    bytes.chunks(3).map(|c| c.iter().rev().fold(0u64, |acc, b| acc * 256 + *b as u64)).collect()
}

#[test]
fn bytes_pack_three_per_element() {
    assert_eq!(values(&bytes_to_field_elements::<SmallField>(&[1, 255, 0])), vec![65281]);
    assert_eq!(values(&bytes_to_field_elements::<SmallField>(&[1, 2, 3, 4, 5])), vec![0x030201, 0x0504]);
    assert_eq!(values(&bytes_to_field_elements::<SmallField>(&[0xff; 3])), vec![0xffffff]);
    assert!(bytes_to_field_elements::<SmallField>(&[]).is_empty());
}

fn elements(v: &[u64]) -> Vec<SmallField> {
    v.iter().map(|x| SmallField::new(*x)).collect()
}

#[test]
fn verifier_input_layout() {
    let input = InnerCircuitVerifierInput {
        system_parameters: SystemParameterElements {
            account_commitment: elements(&[1]),
            account_encryption: elements(&[2]),
            account_signature: elements(&[3]),
            record_commitment: elements(&[4]),
            encrypted_record_crh: elements(&[5]),
            program_verification_key_commitment: elements(&[6]),
            local_data_crh: elements(&[7]),
            serial_number_nonce: elements(&[8, 80]),
        },
        ledger_parameters: elements(&[9]),
        ledger_digest: [10; 32],
        old_serial_numbers: vec![[11; 32], [12; 32]],
        new_commitments: vec![[13; 32], [14; 32]],
        new_encrypted_record_hashes: vec![[15; 32]],
        program_commitment: [16; 32],
        local_data_root: [17; 32],
        memo: [18; 32],
        value_balance: AleoAmount(-2),
        network_id: 19,
    };
    let v = values(&input.to_field_elements());
    let mut expected = vec![1, 2, 3, 4, 5, 6, 7, 8, 80, 9];
    expected.extend(packed(&[10; 32]));
    expected.extend(packed(&[11; 32]));
    expected.extend(packed(&[12; 32]));
    // only one commitment has an encrypted record hash beside it
    expected.extend(packed(&[13; 32]));
    expected.extend(packed(&[15; 32]));
    expected.extend(packed(&[16; 32]));
    expected.extend(packed(&[18; 32]));
    expected.push(19);
    expected.extend(packed(&[17; 32]));
    expected.extend(packed(&(-2i64).to_le_bytes()));
    assert_eq!(v.len(), 10 + 8 * 11 + 1 + 3);
    assert_eq!(v, expected);
    assert_eq!(&v[v.len() - 3..], &[0xfffffe, 0xffffff, 0xffff]);
}
