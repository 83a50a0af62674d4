//! Integer gadgets: integers held as bits of a constraint system, each bit a
//! constant, an allocated bit, or the negation of one. An integer's value is
//! known when all of its bits are.

use vstd::prelude::*;
use vstd::arithmetic::power2::{pow2, lemma_pow2_unfold, lemma2_to64};
use crate::r1cs::{SynthesisError, Variable};
use vstd::bytes::{spec_u64_to_le_bytes, u64_to_le_bytes};

verus! {

/// A bit allocated in a constraint system, with its value where known.
#[derive(Clone, Copy, Debug, PartialEq, Eq)]
pub struct AllocatedBit {
    pub variable: Variable,
    pub value: Option<bool>,
}

/// A bit of a gadget: a constant, an allocated bit, or its negation.
#[derive(Clone, Copy, Debug, PartialEq, Eq)]
pub enum Boolean {
    Constant(bool),
    Is(AllocatedBit),
    Not(AllocatedBit),
}

/// The value of a bit, where known.
pub open spec fn boolean_value(b: Boolean) -> Option<bool> {
    match b {
        Boolean::Constant(c) => Some(c),
        Boolean::Is(a) => a.value,
        Boolean::Not(a) => match a.value {
            Some(v) => Some(!v),
            None => None,
        },
    }
}

/// The integer whose bits, least significant first, are `bits`, where all
/// of them are known.
pub open spec fn le_bits_value(bits: Seq<Boolean>) -> Option<nat>
    decreases bits.len(),
{
    if bits.len() == 0 {
        Some(0)
    } else {
        match (boolean_value(bits[0]), le_bits_value(bits.drop_first())) {
            (Some(b), Some(v)) => Some((if b { 1nat } else { 0nat }) + 2 * v),
            _ => None,
        }
    }
}

/// The integer whose bits, most significant first, are `bits`, where all
/// of them are known.
pub open spec fn be_bits_value(bits: Seq<Boolean>) -> Option<nat>
    decreases bits.len(),
{
    if bits.len() == 0 {
        Some(0)
    } else {
        match (be_bits_value(bits.drop_last()), boolean_value(bits.last())) {
            (Some(v), Some(b)) => Some(2 * v + (if b { 1nat } else { 0nat })),
            _ => None,
        }
    }
}

/// An unsigned 64-bit integer gadget: its bits, least significant first.
#[derive(Clone, Debug)]
pub struct UInt64 {
    pub bits: Vec<Boolean>,
    pub negated: bool,
    pub value: Option<u64>,
}

/// An unsigned byte gadget: its bits, least significant first.
#[derive(Clone, Debug)]
pub struct UInt8 {
    pub bits: Vec<Boolean>,
    pub negated: bool,
    pub value: Option<u8>,
}

/// A signed 64-bit integer gadget: its bits in two's complement, least
/// significant first.
#[derive(Clone, Debug)]
pub struct Int64 {
    pub bits: Vec<Boolean>,
    pub value: Option<i64>,
}

fn known_bit(b: &Boolean) -> (r: Option<bool>)
    ensures
        r == boolean_value(*b),
{
    match b {
        Boolean::Constant(c) => Some(*c),
        Boolean::Is(a) => a.value,
        Boolean::Not(a) => match a.value {
            Some(v) => Some(!v),
            None => None,
        },
    }
}

fn copy_bits(bits: &[Boolean]) -> (r: Vec<Boolean>)
    ensures
        r@ == bits@,
{
    let mut r: Vec<Boolean> = Vec::new();
    let mut i: usize = 0;
    while i < bits.len()
        invariant
            i <= bits.len(),
            r@ == bits@.take(i as int),
        decreases bits.len() - i,
    {
        r.push(bits[i]);
        proof {
            assert(bits@.take(i + 1) =~= bits@.take(i as int).push(bits@[i as int]));
        }
        i = i + 1;
    }
    assert(bits@.take(bits.len() as int) =~= bits@);
    r
}

proof fn lemma_le_bits_value_bound(bits: Seq<Boolean>)
    ensures
        le_bits_value(bits) matches Some(v) ==> v < pow2(bits.len()),
    decreases bits.len(),
{
    lemma2_to64();
    if bits.len() > 0 {
        lemma_le_bits_value_bound(bits.drop_first());
        lemma_pow2_unfold(bits.len());
    }
}

/// The value of 64 bits, least significant first, where all are known.
fn value_from_bits_le(bits: &[Boolean]) -> (r: Option<u64>)
    requires
        bits.len() == 64,
    ensures
        r matches Some(v) ==> le_bits_value(bits@) == Some(v as nat),
        r is None ==> le_bits_value(bits@) is None,
{
    let mut value: Option<u64> = Some(0);
    let mut k: usize = bits.len();
    proof {
        lemma2_to64();
        assert(bits@.skip(64) =~= Seq::<Boolean>::empty());
    }
    while k > 0
        invariant
            bits.len() == 64,
            k <= 64,
            value matches Some(v) ==> le_bits_value(bits@.skip(k as int)) == Some(v as nat),
            value is None ==> le_bits_value(bits@.skip(k as int)) is None,
        decreases k,
    {
        let ghost suffix = bits@.skip(k as int);
        k = k - 1;
        proof {
            assert(bits@.skip(k as int).drop_first() =~= suffix);
            lemma_le_bits_value_bound(suffix);
            vstd::arithmetic::power2::lemma_pow2_strictly_increases(suffix.len(), 64);
            if suffix.len() < 63 {
                vstd::arithmetic::power2::lemma_pow2_strictly_increases(suffix.len(), 63);
            }
        }
        value = match (value, known_bit(&bits[k])) {
            (Some(v), Some(b)) => {
                proof {
                    vstd::arithmetic::power2::lemma2_to64_rest();
                    assert(v < pow2(63));
                }
                Some(2 * v + if b {
                    1
                } else {
                    0
                })
            },
            _ => None,
        };
    }
    assert(bits@.skip(0) =~= bits@);
    value
}

/// The value of 64 bits, most significant first, where all are known.
fn value_from_bits_be(bits: &[Boolean]) -> (r: Option<u64>)
    requires
        bits.len() == 64,
    ensures
        r matches Some(v) ==> be_bits_value(bits@) == Some(v as nat),
        r is None ==> be_bits_value(bits@) is None,
{
    let mut value: Option<u64> = Some(0);
    let mut k: usize = 0;
    proof {
        lemma2_to64();
        assert(bits@.take(0) =~= Seq::<Boolean>::empty());
    }
    while k < bits.len()
        invariant
            bits.len() == 64,
            k <= 64,
            value matches Some(v) ==> be_bits_value(bits@.take(k as int)) == Some(v as nat),
            value is None ==> be_bits_value(bits@.take(k as int)) is None,
            value matches Some(v) ==> v < pow2(k as nat),
        decreases bits.len() - k,
    {
        let ghost prefix = bits@.take(k as int);
        proof {
            assert(bits@.take(k + 1).drop_last() =~= prefix);
            lemma_pow2_unfold((k + 1) as nat);
            vstd::arithmetic::power2::lemma_pow2_strictly_increases(k as nat, 64);
            if k < 63 {
                vstd::arithmetic::power2::lemma_pow2_strictly_increases(k as nat, 63);
            }
        }
        value = match (value, known_bit(&bits[k])) {
            (Some(v), Some(b)) => {
                proof {
                    vstd::arithmetic::power2::lemma2_to64_rest();
                    assert(v < pow2(63));
                }
                Some(2 * v + if b {
                    1
                } else {
                    0
                })
            },
            _ => None,
        };
        k = k + 1;
    }
    assert(bits@.take(64) =~= bits@);
    value
}

impl UInt64 {
    /// The integer with these bits, least significant first; there must be 64.
    pub fn from_bits_le(bits: &[Boolean]) -> (r: Result<UInt64, SynthesisError>)
        ensures
            bits.len() != 64 ==> r == Err::<UInt64, SynthesisError>(SynthesisError::Unsatisfiable),
            bits.len() == 64 ==> (r matches Ok(x) && x.bits@ == bits@ && !x.negated && match x.value {
                Some(v) => le_bits_value(bits@) == Some(v as nat),
                None => le_bits_value(bits@) is None,
            }),
    {
        if bits.len() != 64 {
            return Err(SynthesisError::Unsatisfiable);
        }
        let value = value_from_bits_le(bits);
        Ok(UInt64 { value, negated: false, bits: copy_bits(bits) })
    }

    /// As `from_bits_le`.
    pub fn from_bits_le_strict(bits: &[Boolean]) -> (r: Result<UInt64, SynthesisError>)
        ensures
            bits.len() != 64 ==> r == Err::<UInt64, SynthesisError>(SynthesisError::Unsatisfiable),
            bits.len() == 64 ==> (r matches Ok(x) && x.bits@ == bits@ && !x.negated && match x.value {
                Some(v) => le_bits_value(bits@) == Some(v as nat),
                None => le_bits_value(bits@) is None,
            }),
    {
        UInt64::from_bits_le(bits)
    }

    /// The integer with these bits, most significant first; there must be 64.
    pub fn from_bits_be(bits: &[Boolean]) -> (r: Result<UInt64, SynthesisError>)
        ensures
            bits.len() != 64 ==> r == Err::<UInt64, SynthesisError>(SynthesisError::Unsatisfiable),
            bits.len() == 64 ==> (r matches Ok(x) && x.bits@ == bits@ && !x.negated && match x.value {
                Some(v) => be_bits_value(bits@) == Some(v as nat),
                None => be_bits_value(bits@) is None,
            }),
    {
        if bits.len() != 64 {
            return Err(SynthesisError::Unsatisfiable);
        }
        let value = value_from_bits_be(bits);
        Ok(UInt64 { value, negated: false, bits: copy_bits(bits) })
    }

    /// As `from_bits_be`.
    pub fn from_bits_be_strict(bits: &[Boolean]) -> (r: Result<UInt64, SynthesisError>)
        ensures
            bits.len() != 64 ==> r == Err::<UInt64, SynthesisError>(SynthesisError::Unsatisfiable),
            bits.len() == 64 ==> (r matches Ok(x) && x.bits@ == bits@ && !x.negated && match x.value {
                Some(v) => be_bits_value(bits@) == Some(v as nat),
                None => be_bits_value(bits@) is None,
            }),
    {
        UInt64::from_bits_be(bits)
    }
}

impl Int64 {
    /// The integer with these two's-complement bits, least significant
    /// first; there must be 64.
    pub fn from_bits_le(bits: &[Boolean]) -> (r: Result<Int64, SynthesisError>)
        ensures
            bits.len() != 64 ==> r == Err::<Int64, SynthesisError>(SynthesisError::Unsatisfiable),
            bits.len() == 64 ==> (r matches Ok(x) && x.bits@ == bits@ && match x.value {
                Some(v) => le_bits_value(bits@) == Some((v as u64) as nat) && exists|u: u64|
                    le_bits_value(bits@) == Some(u as nat) && v == u as i64,
                None => le_bits_value(bits@) is None,
            }),
    {
        if bits.len() != 64 {
            return Err(SynthesisError::Unsatisfiable);
        }
        let value = match value_from_bits_le(bits) {
            Some(u) => {
                assert(((u as i64) as u64) == u) by (bit_vector);
                Some(u as i64)
            },
            None => None,
        };
        Ok(Int64 { value, bits: copy_bits(bits) })
    }

    /// As `from_bits_le`.
    pub fn from_bits_le_strict(bits: &[Boolean]) -> (r: Result<Int64, SynthesisError>)
        ensures
            bits.len() != 64 ==> r == Err::<Int64, SynthesisError>(SynthesisError::Unsatisfiable),
            bits.len() == 64 ==> (r matches Ok(x) && x.bits@ == bits@ && match x.value {
                Some(v) => le_bits_value(bits@) == Some((v as u64) as nat) && exists|u: u64|
                    le_bits_value(bits@) == Some(u as nat) && v == u as i64,
                None => le_bits_value(bits@) is None,
            }),
    {
        Int64::from_bits_le(bits)
    }

    /// The integer with these two's-complement bits, most significant
    /// first; there must be 64.
    pub fn from_bits_be(bits: &[Boolean]) -> (r: Result<Int64, SynthesisError>)
        ensures
            bits.len() != 64 ==> r == Err::<Int64, SynthesisError>(SynthesisError::Unsatisfiable),
            bits.len() == 64 ==> (r matches Ok(x) && x.bits@ == bits@ && match x.value {
                Some(v) => exists|u: u64| be_bits_value(bits@) == Some(u as nat) && v == u as i64,
                None => be_bits_value(bits@) is None,
            }),
    {
        if bits.len() != 64 {
            return Err(SynthesisError::Unsatisfiable);
        }
        let value = match value_from_bits_be(bits) {
            Some(u) => Some(u as i64),
            None => None,
        };
        Ok(Int64 { value, bits: copy_bits(bits) })
    }

    /// As `from_bits_be`.
    pub fn from_bits_be_strict(bits: &[Boolean]) -> (r: Result<Int64, SynthesisError>)
        ensures
            bits.len() != 64 ==> r == Err::<Int64, SynthesisError>(SynthesisError::Unsatisfiable),
            bits.len() == 64 ==> (r matches Ok(x) && x.bits@ == bits@ && match x.value {
                Some(v) => exists|u: u64| be_bits_value(bits@) == Some(u as nat) && v == u as i64,
                None => be_bits_value(bits@) is None,
            }),
    {
        Int64::from_bits_be(bits)
    }
}

/// Reading bits least significant first gives the value that reading them in
/// reverse order, most significant first, gives.
pub proof fn lemma_le_be_reverse(bits: Seq<Boolean>)
    ensures
        le_bits_value(bits) == be_bits_value(bits.reverse()),
    decreases bits.len(),
{
    if bits.len() > 0 {
        let rest = bits.drop_first();
        lemma_le_be_reverse(rest);
        let r = bits.reverse();
        assert(r.drop_last() =~= rest.reverse());
        assert(r.last() == bits[0]);
    }
}

/// Byte `i` of the little-endian encoding of a known value.
pub open spec fn value_byte(value: Option<u64>, i: int) -> Option<u8> {
    match value {
        Some(v) => Some(spec_u64_to_le_bytes(v)[i]),
        None => None,
    }
}

/// The bytes of a 64-bit gadget: eight byte gadgets, byte `i` holding bits
/// `8i .. 8i + 8` and, where the value is known, byte `i` of its
/// little-endian encoding.
pub open spec fn is_byte_split(bytes: Seq<UInt8>, bits: Seq<Boolean>, value: Option<u64>) -> bool {
    &&& bytes.len() == 8
    &&& forall|i: int|
        0 <= i < 8 ==> (#[trigger] bytes[i]).bits@ == bits.subrange(8 * i, 8 * i + 8)
            && !bytes[i].negated && bytes[i].value == value_byte(value, i)
}

/// Splits 64 bits and a value into eight byte gadgets.
fn split_bytes(bits: &Vec<Boolean>, value: Option<u64>) -> (r: Vec<UInt8>)
    requires
        bits.len() == 64,
    ensures
        is_byte_split(r@, bits@, value),
{
    let value_bytes: Option<Vec<u8>> = match value {
        Some(v) => Some(u64_to_le_bytes(v)),
        None => None,
    };
    let mut bytes: Vec<UInt8> = Vec::new();
    let mut i: usize = 0;
    while i < 8
        invariant
            bits.len() == 64,
            i <= 8,
            bytes.len() == i,
            value_bytes matches Some(vb) ==> value is Some && vb@ == spec_u64_to_le_bytes(value->Some_0),
            value_bytes is None ==> value is None,
            forall|j: int|
                0 <= j < i ==> (#[trigger] bytes@[j]).bits@ == bits@.subrange(8 * j, 8 * j + 8)
                    && !bytes@[j].negated && bytes@[j].value == value_byte(value, j),
        decreases 8 - i,
    {
        let chunk = copy_bits(slice_of(bits, 8 * i, 8 * i + 8));
        let byte_value = match &value_bytes {
            Some(vb) => {
                proof {
                    vstd::bytes::lemma_auto_spec_u64_to_from_le_bytes();
                }
                Some(vb[i])
            },
            None => None,
        };
        bytes.push(UInt8 { bits: chunk, negated: false, value: byte_value });
        i = i + 1;
    }
    bytes
}

/// The elements of `bits` in `start..end`.
fn slice_of(bits: &Vec<Boolean>, start: usize, end: usize) -> (r: &[Boolean])
    requires
        start <= end <= bits.len(),
    ensures
        r@ == bits@.subrange(start as int, end as int),
{
    let r = bits.as_slice().split_at(end).0.split_at(start).1;
    assert(r@ =~= bits@.subrange(start as int, end as int));
    r
}

/// Bits least significant first: the value of `a` followed by `b` is that
/// of `a` plus `2^|a|` times that of `b`, known when both are.
proof fn lemma_le_bits_value_append(a: Seq<Boolean>, b: Seq<Boolean>)
    ensures
        match (le_bits_value(a), le_bits_value(b)) {
            (Some(x), Some(y)) => le_bits_value(a + b) == Some(x + pow2(a.len()) * y),
            _ => le_bits_value(a + b) is None,
        },
    decreases a.len(),
{
    if a.len() == 0 {
        assert(a + b =~= b);
        lemma2_to64();
    } else {
        let rest = a.drop_first();
        lemma_le_bits_value_append(rest, b);
        assert((a + b)[0] == a[0]);
        assert((a + b).drop_first() =~= rest + b);
        lemma_pow2_unfold(a.len());
        match (le_bits_value(rest), le_bits_value(b)) {
            (Some(x), Some(y)) => {
                let p = pow2(rest.len());
                assert(2 * (x + p * y) == 2 * x + (2 * p) * y) by (nonlinear_arith);
            },
            _ => {},
        }
    }
}

/// Byte `i` of the little-endian encoding of `v` is `v / 2^(8i)` modulo 256.
proof fn lemma_le_byte(v: u64, i: int)
    requires
        0 <= i < 8,
    ensures
        spec_u64_to_le_bytes(v)[i] as nat == (v as nat / pow2((8 * i) as nat)) % 256,
{
    vstd::bytes::spec_u64_to_le_bytes_to_open(v);
    let s = (8 * i) as u64;
    vstd::bits::lemma_u64_shr_is_div(v, s);
    let y = v >> s;
    assert(((y & 0xff) as u8) as u64 == y % 256) by (bit_vector);
    let bytes = vstd::bytes::spec_u64_to_le_bytes_open(v);
    if i == 0 {
        assert(v >> 0u64 == v) by (bit_vector);
        assert(bytes[i] == (v & 0xff) as u8);
    } else if i == 1 {
        assert(bytes[i] == ((v >> 8u64) & 0xff) as u8);
    } else if i == 2 {
        assert(bytes[i] == ((v >> 16u64) & 0xff) as u8);
    } else if i == 3 {
        assert(bytes[i] == ((v >> 24u64) & 0xff) as u8);
    } else if i == 4 {
        assert(bytes[i] == ((v >> 32u64) & 0xff) as u8);
    } else if i == 5 {
        assert(bytes[i] == ((v >> 40u64) & 0xff) as u8);
    } else if i == 6 {
        assert(bytes[i] == ((v >> 48u64) & 0xff) as u8);
    } else {
        assert(bytes[i] == ((v >> 56u64) & 0xff) as u8);
    }
}

/// The bytes of a 64-bit gadget keep its value consistent with its bits:
/// where the gadget's value is that of its bits, each byte's value is that of
/// the byte's own bits.
pub proof fn lemma_byte_split_consistent(bytes: Seq<UInt8>, bits: Seq<Boolean>, v: u64)
    requires
        bits.len() == 64,
        le_bits_value(bits) == Some(v as nat),
        is_byte_split(bytes, bits, Some(v)),
    ensures
        forall|i: int|
            0 <= i < 8 ==> ((#[trigger] bytes[i]).value matches Some(b) && le_bits_value(
                bytes[i].bits@,
            ) == Some(b as nat)),
{
    assert forall|i: int| 0 <= i < 8 implies ((#[trigger] bytes[i]).value matches Some(b)
        && le_bits_value(bytes[i].bits@) == Some(b as nat)) by {
        let lo = bits.take(8 * i);
        let chunk = bits.subrange(8 * i, 8 * i + 8);
        let hi = bits.skip(8 * i + 8);
        assert(bits =~= lo + (chunk + hi));
        lemma_le_bits_value_append(chunk, hi);
        lemma_le_bits_value_append(lo, chunk + hi);
        lemma_le_bits_value_bound(lo);
        lemma_le_bits_value_bound(chunk);
        lemma2_to64();
        let p = le_bits_value(lo)->Some_0;
        let c = le_bits_value(chunk)->Some_0;
        let h = le_bits_value(hi)->Some_0;
        let d = pow2(lo.len());
        vstd::arithmetic::power2::lemma_pow2_pos(lo.len());
        assert(v == p + d * (c + 256 * h));
        assert(v == (c + 256 * h) * d + p) by (nonlinear_arith)
            requires
                v == p + d * (c + 256 * h),
        ;
        vstd::arithmetic::div_mod::lemma_fundamental_div_mod_converse(v as int, d as int, (c + 256 * h) as int, p as int);
        vstd::arithmetic::div_mod::lemma_fundamental_div_mod_converse((c + 256 * h) as int, 256, h as int, c as int);
        lemma_le_byte(v, i);
        assert(bytes[i].bits@ == chunk);
    }
}

impl UInt64 {
    /// The bits, least significant first.
    pub fn to_bits_le(&self) -> (r: Vec<Boolean>)
        ensures
            r@ == self.bits@,
    {
        copy_bits(self.bits.as_slice())
    }

    /// As `to_bits_le`.
    pub fn to_bits_le_strict(&self) -> (r: Vec<Boolean>)
        ensures
            r@ == self.bits@,
    {
        self.to_bits_le()
    }

    /// The eight bytes, least significant first. Where the value is that of
    /// the bits, each byte's value is that of its own bits.
    pub fn to_bytes_le(&self) -> (r: Vec<UInt8>)
        requires
            self.bits.len() == 64,
        ensures
            is_byte_split(r@, self.bits@, self.value),
            self.value matches Some(u) && le_bits_value(self.bits@) == Some(u as nat) ==> forall|i: int|
                0 <= i < 8 ==> ((#[trigger] r@[i]).value matches Some(b) && le_bits_value(
                    r@[i].bits@,
                ) == Some(b as nat)),
    {
        let r = split_bytes(&self.bits, self.value);
        proof {
            if self.value matches Some(u) && le_bits_value(self.bits@) == Some(u as nat) {
                lemma_byte_split_consistent(r@, self.bits@, self.value->Some_0);
            }
        }
        r
    }

    /// As `to_bytes_le`.
    pub fn to_bytes_le_strict(&self) -> (r: Vec<UInt8>)
        requires
            self.bits.len() == 64,
        ensures
            is_byte_split(r@, self.bits@, self.value),
    {
        self.to_bytes_le()
    }
}

/// The two's-complement bit pattern of a known signed value.
pub open spec fn as_unsigned(value: Option<i64>) -> Option<u64> {
    match value {
        Some(v) => Some(v as u64),
        None => None,
    }
}

impl Int64 {
    /// The bits, least significant first.
    pub fn to_bits_le(&self) -> (r: Vec<Boolean>)
        ensures
            r@ == self.bits@,
    {
        copy_bits(self.bits.as_slice())
    }

    /// As `to_bits_le`.
    pub fn to_bits_le_strict(&self) -> (r: Vec<Boolean>)
        ensures
            r@ == self.bits@,
    {
        self.to_bits_le()
    }

    /// The eight bytes of the two's complement, least significant first.
    /// Where the value is that of the bits, read in two's complement, each
    /// byte's value is that of its own bits.
    pub fn to_bytes_le(&self) -> (r: Vec<UInt8>)
        requires
            self.bits.len() == 64,
        ensures
            is_byte_split(r@, self.bits@, as_unsigned(self.value)),
            self.value matches Some(v) && le_bits_value(self.bits@) == Some((v as u64) as nat)
                ==> forall|i: int|
                0 <= i < 8 ==> ((#[trigger] r@[i]).value matches Some(b) && le_bits_value(
                    r@[i].bits@,
                ) == Some(b as nat)),
    {
        let unsigned = match self.value {
            Some(v) => Some(v as u64),
            None => None,
        };
        let r = split_bytes(&self.bits, unsigned);
        proof {
            if self.value matches Some(v) && le_bits_value(self.bits@) == Some((v as u64) as nat) {
                lemma_byte_split_consistent(r@, self.bits@, self.value->Some_0 as u64);
            }
        }
        r
    }

    /// As `to_bytes_le`.
    pub fn to_bytes_le_strict(&self) -> (r: Vec<UInt8>)
        requires
            self.bits.len() == 64,
        ensures
            is_byte_split(r@, self.bits@, as_unsigned(self.value)),
    {
        self.to_bytes_le()
    }
}

} // verus!
