use rand::rngs::StdRng;
use rand::SeedableRng;
use snarkvm_dpc_core::encryption::{EncryptionScheme, GroupEncryption};
use snarkvm_dpc_core::record::{EncryptedRecord, RecordError};
use snarkvm_dpc_core::small::{SmallGroup};
use snarkvm_dpc_core::varint::{read_variable_length_integer, variable_length_integer, VarIntError};

fn le8(x: u64) -> Vec<u8> {
    x.to_le_bytes().to_vec()
}

#[test]
fn record_exact_bytes() {
    let rec = EncryptedRecord { ciphertext: vec![le8(5), le8(2_000_000_000)], final_fq_high_selector: true };
    let bytes = rec.write::<SmallGroup>().unwrap();
    let mut expected = vec![2u8];
    expected.extend_from_slice(&le8(5));
    expected.extend_from_slice(&le8(2_000_000_000));
    // selectors: 5 -> false, 2_000_000_000 -> true, then the final bit true
    expected.push(0b110);
    assert_eq!(bytes, expected);
    assert_eq!(EncryptedRecord::read::<SmallGroup>(&bytes).unwrap(), (rec, bytes.len()));
}

#[test]
fn record_roundtrip_of_encryption() {
    let rng = &mut StdRng::seed_from_u64(11);
    let scheme = GroupEncryption::<SmallGroup>::setup(rng);
    let sk = scheme.generate_private_key(rng);
    let pk = scheme.generate_public_key(&sk).unwrap();
    let message: Vec<SmallGroup> = (0..20u64).map(|i| SmallGroup::new(i * 107_374_182)).collect();
    let mut done = false;
    while !done {
        let r = scheme.generate_randomness(&pk, rng).unwrap();
        if let Ok(ct) = scheme.encrypt(&pk, &r, &message) {
            for final_bit in [false, true] {
                let rec = EncryptedRecord { ciphertext: ct.clone(), final_fq_high_selector: final_bit };
                let bytes = rec.write::<SmallGroup>().unwrap();
                // 1 length byte, 21 coordinates, 22 selector bits in 3 bytes
                assert_eq!(bytes.len(), 1 + 21 * 8 + 3);
                assert_eq!(EncryptedRecord::read::<SmallGroup>(&bytes).unwrap(), (rec, bytes.len()));
            }
            done = true;
        }
    }
}

#[test]
fn record_empty() {
    let rec = EncryptedRecord { ciphertext: vec![], final_fq_high_selector: true };
    let bytes = rec.write::<SmallGroup>().unwrap();
    assert_eq!(bytes, vec![0, 1]);
    assert_eq!(EncryptedRecord::read::<SmallGroup>(&bytes).unwrap(), (rec, bytes.len()));
}

#[test]
fn record_write_invalid_element() {
    let rec = EncryptedRecord { ciphertext: vec![le8(5), vec![0xff; 8]], final_fq_high_selector: false };
    assert_eq!(rec.write::<SmallGroup>(), Err(RecordError::InvalidCiphertextElement));
}

#[test]
fn record_read_errors() {
    assert_eq!(EncryptedRecord::read::<SmallGroup>(&[]), Err(RecordError::UnexpectedEnd));
    assert_eq!(EncryptedRecord::read::<SmallGroup>(&[0xfd, 1, 0]), Err(RecordError::NonCanonicalLength));
    assert_eq!(EncryptedRecord::read::<SmallGroup>(&[1, 5, 0, 0, 0]), Err(RecordError::UnexpectedEnd));
    let mut bad_x = vec![1u8];
    bad_x.extend_from_slice(&[0xff; 8]);
    bad_x.push(0);
    assert_eq!(EncryptedRecord::read::<SmallGroup>(&bad_x), Err(RecordError::InvalidXCoordinate));
    let mut no_selectors = vec![1u8];
    no_selectors.extend_from_slice(&le8(5));
    assert_eq!(EncryptedRecord::read::<SmallGroup>(&no_selectors), Err(RecordError::UnexpectedEnd));
    let mut wrong_selector = no_selectors.clone();
    wrong_selector.push(1);
    assert_eq!(EncryptedRecord::read::<SmallGroup>(&wrong_selector), Err(RecordError::MissingPoint));
    let mut good = no_selectors.clone();
    good.push(0);
    let (rec, used) = EncryptedRecord::read::<SmallGroup>(&good).unwrap();
    assert_eq!(used, 10);
    assert_eq!(rec.ciphertext, vec![le8(5)]);
    assert!(!rec.final_fq_high_selector);
}

#[test]
fn varint_values() {
    assert_eq!(variable_length_integer(0), vec![0]);
    assert_eq!(variable_length_integer(252), vec![252]);
    assert_eq!(variable_length_integer(253), vec![0xfd, 253, 0]);
    assert_eq!(variable_length_integer(65535), vec![0xfd, 0xff, 0xff]);
    assert_eq!(variable_length_integer(65536), vec![0xfe, 0, 0, 1, 0]);
    assert_eq!(variable_length_integer(1 << 32), vec![0xff, 0, 0, 0, 0, 1, 0, 0, 0]);
    for v in [0u64, 1, 252, 253, 300, 65535, 65536, 1 << 31, (1 << 32) - 1, 1 << 32, u64::MAX] {
        let mut bytes = variable_length_integer(v);
        let n = bytes.len();
        bytes.push(42);
        assert_eq!(read_variable_length_integer(&bytes), Ok((v, n)));
    }
}

#[test]
fn varint_errors() {
    assert_eq!(read_variable_length_integer(&[]), Err(VarIntError::UnexpectedEnd));
    assert_eq!(read_variable_length_integer(&[0xfd, 1]), Err(VarIntError::UnexpectedEnd));
    assert_eq!(read_variable_length_integer(&[0xfd, 252, 0]), Err(VarIntError::NonCanonical));
    assert_eq!(read_variable_length_integer(&[0xfe, 0xff, 0xff, 0, 0]), Err(VarIntError::NonCanonical));
    assert_eq!(
        read_variable_length_integer(&[0xff, 0xff, 0xff, 0xff, 0xff, 0, 0, 0, 0]),
        Err(VarIntError::NonCanonical)
    );
    assert_eq!(read_variable_length_integer(&[0xff, 0, 0]), Err(VarIntError::UnexpectedEnd));
}

#[test]
fn record_read_stops_at_its_end() {
    let rec = EncryptedRecord { ciphertext: vec![le8(7), le8(9), le8(2_100_000_000)], final_fq_high_selector: false };
    let mut bytes = rec.write::<SmallGroup>().unwrap();
    let n = bytes.len();
    assert_eq!(n, 1 + 3 * 8 + 1);
    bytes.extend_from_slice(&[0xaa, 0xbb, 0xcc]);
    let (back, used) = EncryptedRecord::read::<SmallGroup>(&bytes).unwrap();
    assert_eq!(back, rec);
    assert_eq!(used, n);
    // nine elements take two selector bytes
    let rec9 = EncryptedRecord { ciphertext: (1..10u64).map(le8).collect(), final_fq_high_selector: true };
    let bytes9 = rec9.write::<SmallGroup>().unwrap();
    assert_eq!(bytes9.len(), 1 + 9 * 8 + 2);
    assert_eq!(EncryptedRecord::read::<SmallGroup>(&bytes9).unwrap(), (rec9, bytes9.len()));
}
