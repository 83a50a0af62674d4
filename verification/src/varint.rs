//! The variable-length encoding of lengths: one byte below 253, otherwise a
//! marker byte (`0xfd`, `0xfe`, `0xff`) followed by the value in 2, 4 or 8
//! little-endian bytes. Only the shortest encoding of a value is accepted.

use vstd::prelude::*;
use vstd::bytes::{
    spec_u16_to_le_bytes,
    spec_u16_from_le_bytes,
    spec_u32_to_le_bytes,
    spec_u32_from_le_bytes,
    spec_u64_to_le_bytes,
    spec_u64_from_le_bytes,
    lemma_auto_spec_u16_to_from_le_bytes,
    lemma_auto_spec_u32_to_from_le_bytes,
    lemma_auto_spec_u64_to_from_le_bytes,
    u16_to_le_bytes,
    u16_from_le_bytes,
    u32_to_le_bytes,
    u32_from_le_bytes,
    u64_to_le_bytes,
    u64_from_le_bytes,
};

verus! {

/// Errors in reading a variable-length integer.
#[derive(Debug, Clone, Copy, PartialEq, Eq)]
pub enum VarIntError {
    /// The bytes end before the integer does.
    UnexpectedEnd,
    /// The value would fit a shorter encoding.
    NonCanonical,
}

/// The encoding of `v`.
pub open spec fn varint_encode(v: u64) -> Seq<u8> {
    if v <= 252 {
        seq![v as u8]
    } else if v <= 0xffff {
        seq![0xfdu8] + spec_u16_to_le_bytes(v as u16)
    } else if v <= 0xffff_ffff {
        seq![0xfeu8] + spec_u32_to_le_bytes(v as u32)
    } else {
        seq![0xffu8] + spec_u64_to_le_bytes(v)
    }
}

/// The value read from the front of `b`, and the number of bytes it takes.
pub open spec fn varint_decode(b: Seq<u8>) -> Result<(u64, nat), VarIntError> {
    if b.len() < 1 {
        Err(VarIntError::UnexpectedEnd)
    } else if b[0] <= 252 {
        Ok((b[0] as u64, 1))
    } else if b[0] == 0xfd {
        if b.len() < 3 {
            Err(VarIntError::UnexpectedEnd)
        } else {
            let s = spec_u16_from_le_bytes(b.subrange(1, 3));
            if s < 253 {
                Err(VarIntError::NonCanonical)
            } else {
                Ok((s as u64, 3))
            }
        }
    } else if b[0] == 0xfe {
        if b.len() < 5 {
            Err(VarIntError::UnexpectedEnd)
        } else {
            let s = spec_u32_from_le_bytes(b.subrange(1, 5));
            if s < 0x1_0000 {
                Err(VarIntError::NonCanonical)
            } else {
                Ok((s as u64, 5))
            }
        }
    } else {
        if b.len() < 9 {
            Err(VarIntError::UnexpectedEnd)
        } else {
            let s = spec_u64_from_le_bytes(b.subrange(1, 9));
            if s < 0x1_0000_0000 {
                Err(VarIntError::NonCanonical)
            } else {
                Ok((s, 9))
            }
        }
    }
}

/// Encodes `value`.
pub fn variable_length_integer(value: u64) -> (r: Vec<u8>)
    ensures
        r@ == varint_encode(value),
{
    if value <= 252 {
        let r = vec![value as u8];
        assert(r@ =~= varint_encode(value));
        r
    } else if value <= 0xffff {
        let mut r = vec![0xfdu8];
        let mut tail = u16_to_le_bytes(value as u16);
        r.append(&mut tail);
        r
    } else if value <= 0xffff_ffff {
        let mut r = vec![0xfeu8];
        let mut tail = u32_to_le_bytes(value as u32);
        r.append(&mut tail);
        r
    } else {
        let mut r = vec![0xffu8];
        let mut tail = u64_to_le_bytes(value);
        r.append(&mut tail);
        r
    }
}

/// Reads an integer from the front of `bytes`; returns it with the number of
/// bytes it takes.
pub fn read_variable_length_integer(bytes: &[u8]) -> (r: Result<(u64, usize), VarIntError>)
    ensures
        r matches Ok((v, n)) ==> varint_decode(bytes@) == Ok::<(u64, nat), VarIntError>(
            (v, n as nat),
        ),
        r matches Err(e) ==> varint_decode(bytes@) == Err::<(u64, nat), VarIntError>(e),
{
    if bytes.len() < 1 {
        return Err(VarIntError::UnexpectedEnd);
    }
    let flag = bytes[0];
    if flag <= 252 {
        Ok((flag as u64, 1))
    } else if flag == 0xfd {
        if bytes.len() < 3 {
            return Err(VarIntError::UnexpectedEnd);
        }
        let s = u16_from_le_bytes(slice_range(bytes, 1, 3));
        if s < 253 {
            Err(VarIntError::NonCanonical)
        } else {
            Ok((s as u64, 3))
        }
    } else if flag == 0xfe {
        if bytes.len() < 5 {
            return Err(VarIntError::UnexpectedEnd);
        }
        let s = u32_from_le_bytes(slice_range(bytes, 1, 5));
        if s < 0x1_0000 {
            Err(VarIntError::NonCanonical)
        } else {
            Ok((s as u64, 5))
        }
    } else {
        if bytes.len() < 9 {
            return Err(VarIntError::UnexpectedEnd);
        }
        let s = u64_from_le_bytes(slice_range(bytes, 1, 9));
        if s < 0x1_0000_0000 {
            Err(VarIntError::NonCanonical)
        } else {
            Ok((s, 9))
        }
    }
}

/// The elements of `bytes` in `start..end`.
pub fn slice_range(bytes: &[u8], start: usize, end: usize) -> (r: &[u8])
    requires
        start <= end <= bytes.len(),
    ensures
        r@ == bytes@.subrange(start as int, end as int),
{
    let r = bytes.split_at(end).0.split_at(start).1;
    assert(r@ =~= bytes@.subrange(start as int, end as int));
    r
}

/// Reading the encoding of a value gives the value back, whatever follows it.
pub proof fn lemma_varint_roundtrip(v: u64, rest: Seq<u8>)
    ensures
        varint_decode(varint_encode(v) + rest) == Ok::<(u64, nat), VarIntError>(
            (v, varint_encode(v).len()),
        ),
        1 <= varint_encode(v).len() <= 9,
{
    lemma_auto_spec_u16_to_from_le_bytes();
    lemma_auto_spec_u32_to_from_le_bytes();
    lemma_auto_spec_u64_to_from_le_bytes();
    let e = varint_encode(v);
    let b = e + rest;
    if v <= 252 {
    } else if v <= 0xffff {
        let t = spec_u16_to_le_bytes(v as u16);
        assert(b.subrange(1, 3) =~= t);
    } else if v <= 0xffff_ffff {
        let t = spec_u32_to_le_bytes(v as u32);
        assert(b.subrange(1, 5) =~= t);
    } else {
        let t = spec_u64_to_le_bytes(v);
        assert(b.subrange(1, 9) =~= t);
    }
}

} // verus!
