//! The compact byte format of an encrypted record.
//!
//! A record is a sequence of encoded group elements and one extra selector
//! bit. It is written as the number of elements (a variable-length integer),
//! the x-coordinate of each element, and then the selector bits: one per
//! element, telling which of the two candidates with that x-coordinate it is,
//! followed by the extra bit, packed into bytes.

use vstd::prelude::*;
use vstd::arithmetic::mul::{lemma_mul_inequality, lemma_mul_is_distributive_add_other_way};
use crate::bits::{
    bits_to_bytes,
    lemma_bits_to_bytes_to_bits,
    padded_bit,
    spec_bits_to_bytes,
    spec_bytes_to_bits,
};
use crate::group::PrimeOrderGroup;
use crate::field::PrimeField;
use crate::encryption::{
    blinding_exponents_spec,
    encrypt_spec,
    lemma_masked_sum_range,
    order,
    power_combination,
    scalar_bits,
    shared_key,
};
use crate::varint::{
    VarIntError,
    lemma_varint_roundtrip,
    read_variable_length_integer,
    slice_range,
    variable_length_integer,
    varint_decode,
    varint_encode,
};

verus! {

/// Errors in writing or reading an encrypted record.
#[derive(Debug, Clone, Copy, PartialEq, Eq)]
pub enum RecordError {
    /// A ciphertext element does not read as a group element.
    InvalidCiphertextElement,
    /// The bytes end before the record does.
    UnexpectedEnd,
    /// The element count is not in its shortest encoding.
    NonCanonicalLength,
    /// Bytes in place of an x-coordinate do not encode a coordinate.
    InvalidXCoordinate,
    /// No group element has the x-coordinate and selector read.
    MissingPoint,
}

/// An encrypted record: the encoded ciphertext elements and a selector bit.
#[derive(Clone, Debug, PartialEq, Eq)]
pub struct EncryptedRecord {
    pub ciphertext: Vec<Vec<u8>>,
    pub final_fq_high_selector: bool,
}

/// The concatenation of a sequence of byte strings.
pub open spec fn concat_all(s: Seq<Seq<u8>>) -> Seq<u8>
    decreases s.len(),
{
    if s.len() == 0 {
        Seq::empty()
    } else {
        concat_all(s.drop_last()) + s.last()
    }
}

/// The logarithm of the element that ciphertext element `b` reads as.
pub open spec fn element_dlog<G: PrimeOrderGroup>(b: Seq<u8>) -> int {
    G::decode(b)->Some_0
}

/// The selector of the element with logarithm `d`: whether it is the
/// candidate chosen by `true` for its x-coordinate.
pub open spec fn selector<G: PrimeOrderGroup>(d: int) -> bool {
    G::from_x(G::x_encode(d), true) == Some(d)
}

/// The x-coordinates of the first `n` ciphertext elements.
pub open spec fn x_parts<G: PrimeOrderGroup>(ct: Seq<Seq<u8>>, n: int) -> Seq<Seq<u8>> {
    Seq::new(n as nat, |i: int| G::x_encode(element_dlog::<G>(ct[i])))
}

/// The selectors of the first `n` ciphertext elements.
pub open spec fn selectors<G: PrimeOrderGroup>(ct: Seq<Seq<u8>>, n: int) -> Seq<bool> {
    Seq::new(n as nat, |i: int| selector::<G>(element_dlog::<G>(ct[i])))
}

/// The bytes written for a record, or the error met.
pub open spec fn write_spec<G: PrimeOrderGroup>(ct: Seq<Seq<u8>>, final_selector: bool) -> Result<
    Seq<u8>,
    RecordError,
> {
    if forall|i: int| 0 <= i < ct.len() ==> #[trigger] G::decode(ct[i]) is Some {
        Ok(
            varint_encode(ct.len() as u64) + concat_all(x_parts::<G>(ct, ct.len() as int))
                + spec_bits_to_bytes(selectors::<G>(ct, ct.len() as int).push(final_selector)),
        )
    } else {
        Err(RecordError::InvalidCiphertextElement)
    }
}

/// The bytes in place of the `i`-th x-coordinate, the coordinates starting at `start`.
pub open spec fn x_chunk<G: PrimeOrderGroup>(b: Seq<u8>, start: int, i: int) -> Seq<u8> {
    b.subrange(start + i * G::x_len(), start + (i + 1) * G::x_len())
}

/// The `i`-th x-coordinate is present and encodes a coordinate.
pub open spec fn x_chunk_ok<G: PrimeOrderGroup>(b: Seq<u8>, start: int, i: int) -> bool {
    &&& start + (i + 1) * G::x_len() <= b.len()
    &&& G::is_x(x_chunk::<G>(b, start, i))
}

/// `i` is the first of `n` x-coordinates that is missing or invalid.
pub open spec fn first_bad_chunk<G: PrimeOrderGroup>(b: Seq<u8>, start: int, n: int, i: int) -> bool {
    &&& 0 <= i < n
    &&& !x_chunk_ok::<G>(b, start, i)
    &&& forall|j: int| 0 <= j < i ==> #[trigger] x_chunk_ok::<G>(b, start, j)
}

/// The error for a missing or invalid x-coordinate.
pub open spec fn chunk_error<G: PrimeOrderGroup>(b: Seq<u8>, start: int, i: int) -> RecordError {
    if start + (i + 1) * G::x_len() > b.len() {
        RecordError::UnexpectedEnd
    } else {
        RecordError::InvalidXCoordinate
    }
}

/// The selector bits read after `n` x-coordinates that start at `start`.
pub open spec fn selector_bits<G: PrimeOrderGroup>(b: Seq<u8>, start: int, n: int) -> Seq<bool> {
    let s = start + n * G::x_len();
    spec_bytes_to_bits(b.subrange(s, s + n / 8 + 1))
}

/// The record read from the front of `b`, or the error met first.
pub open spec fn read_spec<G: PrimeOrderGroup>(b: Seq<u8>) -> Result<(Seq<Seq<u8>>, bool), RecordError> {
    match varint_decode(b) {
        Err(VarIntError::UnexpectedEnd) => Err(RecordError::UnexpectedEnd),
        Err(VarIntError::NonCanonical) => Err(RecordError::NonCanonicalLength),
        Ok((count, p)) => {
            let n = count as int;
            let start = p as int;
            if forall|i: int| 0 <= i < n ==> #[trigger] x_chunk_ok::<G>(b, start, i) {
                if start + n * G::x_len() + n / 8 + 1 > b.len() {
                    Err(RecordError::UnexpectedEnd)
                } else {
                    let bits = selector_bits::<G>(b, start, n);
                    if forall|i: int|
                        0 <= i < n ==> #[trigger] G::from_x(x_chunk::<G>(b, start, i), bits[i]) is Some {
                        Ok(
                            (
                                Seq::new(
                                    n as nat,
                                    |i: int|
                                        G::encode(
                                            G::from_x(x_chunk::<G>(b, start, i), bits[i])->Some_0,
                                        ),
                                ),
                                bits[n],
                            ),
                        )
                    } else {
                        Err(RecordError::MissingPoint)
                    }
                }
            } else {
                Err(chunk_error::<G>(b, start, choose|i: int| first_bad_chunk::<G>(b, start, n, i)))
            }
        },
    }
}

/// The number of bytes a record at the front of `b` takes: its element
/// count, the x-coordinates, and the selector bytes.
pub open spec fn record_len<G: PrimeOrderGroup>(b: Seq<u8>) -> int {
    match varint_decode(b) {
        Ok((count, p)) => p + count * G::x_len() + count / 8 + 1,
        Err(_) => 0,
    }
}

/// The contents of a sequence of byte vectors.
pub open spec fn contents(v: Seq<Vec<u8>>) -> Seq<Seq<u8>> {
    v.map_values(|b: Vec<u8>| b@)
}

/// A ciphertext element is the canonical encoding of the element it reads as.
pub open spec fn is_canonical_element<G: PrimeOrderGroup>(b: Seq<u8>) -> bool {
    G::decode(b) matches Some(d) && G::encode(d) == b
}

/// Bit `i` of `bytes`, least significant bit of each byte first.
fn bit_at(bytes: &[u8], i: usize) -> (r: bool)
    requires
        i / 8 < bytes.len(),
    ensures
        r == spec_bytes_to_bits(bytes@)[i as int],
{
    let k = (i % 8) as u8;
    (bytes[i / 8] >> k) & 1u8 == 1u8
}

impl EncryptedRecord {
    /// Writes the record: the element count, the x-coordinate of each
    /// element, then the selector bits.
    pub fn write<G: PrimeOrderGroup>(&self) -> (r: Result<Vec<u8>, RecordError>)
        ensures
            r matches Ok(bytes) ==> write_spec::<G>(
                contents(self.ciphertext@),
                self.final_fq_high_selector,
            ) == Ok::<Seq<u8>, RecordError>(bytes@),
            r matches Err(e) ==> write_spec::<G>(
                contents(self.ciphertext@),
                self.final_fq_high_selector,
            ) == Err::<Seq<u8>, RecordError>(e),
    {
        let ghost ct = contents(self.ciphertext@);
        let n = self.ciphertext.len();
        let mut out = variable_length_integer(n as u64);
        let mut sels: Vec<bool> = Vec::new();
        let mut i: usize = 0;
        while i < n
            invariant
                n == self.ciphertext.len(),
                ct == contents(self.ciphertext@),
                i <= n,
                forall|t: int| 0 <= t < i ==> #[trigger] G::decode(ct[t]) is Some,
                out@ == varint_encode(n as u64) + concat_all(x_parts::<G>(ct, i as int)),
                sels@ == selectors::<G>(ct, i as int),
            decreases n - i,
        {
            let e = match G::from_bytes(&self.ciphertext[i]) {
                Some(e) => e,
                None => {
                    proof {
                        assert(G::decode(ct[i as int]) is None);
                    }
                    return Err(RecordError::InvalidCiphertextElement);
                },
            };
            let mut x = e.x_coordinate_bytes();
            let sel = match G::from_x_coordinate(&x, true) {
                Some(a) => a.equals(&e),
                None => false,
            };
            proof {
                assert(element_dlog::<G>(ct[i as int]) == e.dlog());
                let prev = x_parts::<G>(ct, i as int);
                let next = x_parts::<G>(ct, i + 1);
                assert(next.drop_last() =~= prev);
                assert(concat_all(next) == concat_all(prev) + x@);
            }
            let ghost before = out@;
            out.append(&mut x);
            sels.push(sel);
            proof {
                assert(out@ =~= varint_encode(n as u64) + concat_all(x_parts::<G>(ct, i + 1)));
                assert(sels@ =~= selectors::<G>(ct, i + 1));
            }
            i = i + 1;
        }
        sels.push(self.final_fq_high_selector);
        let mut selector_bytes = bits_to_bytes(&sels);
        out.append(&mut selector_bytes);
        proof {
            assert(ct.len() == n);
            assert(out@ =~= write_spec::<G>(ct, self.final_fq_high_selector)->Ok_0);
        }
        Ok(out)
    }

    /// Reads a record from the front of `bytes`; returns it with the number of
    /// bytes it took.
    pub fn read<G: PrimeOrderGroup>(bytes: &[u8]) -> (r: Result<(EncryptedRecord, usize), RecordError>)
        ensures
            r matches Ok((rec, used)) ==> read_spec::<G>(bytes@) == Ok::<
                (Seq<Seq<u8>>, bool),
                RecordError,
            >((contents(rec.ciphertext@), rec.final_fq_high_selector)) && used == record_len::<G>(
                bytes@,
            ) && used <= bytes.len(),
            r matches Err(e) ==> read_spec::<G>(bytes@) == Err::<(Seq<Seq<u8>>, bool), RecordError>(
                e,
            ),
    {
        let (count, start) = match read_variable_length_integer(bytes) {
            Ok(v) => v,
            Err(VarIntError::UnexpectedEnd) => {
                return Err(RecordError::UnexpectedEnd);
            },
            Err(VarIntError::NonCanonical) => {
                return Err(RecordError::NonCanonicalLength);
            },
        };
        let ghost b = bytes@;
        let ghost n = count as int;
        let x_len = G::x_coordinate_len();
        proof {
            G::lemma_decodings(b, true);
        }
        let mut positions: Vec<usize> = Vec::new();
        let mut pos: usize = start;
        let mut i: u64 = 0;
        while i < count
            invariant
                b == bytes@,
                n == count,
                varint_decode(b) == Ok::<(u64, nat), VarIntError>((count, start as nat)),
                x_len == G::x_len(),
                0 < x_len <= 64,
                i <= count,
                start <= pos <= bytes.len(),
                i <= pos,
                pos == start + i * x_len,
                positions.len() == i,
                forall|t: int| 0 <= t < i ==> #[trigger] positions@[t] == start + t * x_len,
                forall|t: int| 0 <= t < i ==> #[trigger] x_chunk_ok::<G>(b, start as int, t),
            decreases count - i,
        {
            proof {
                lemma_mul_is_distributive_add_other_way(x_len as int, i as int, 1);
            }
            if bytes.len() - pos < x_len {
                proof {
                    assert(!x_chunk_ok::<G>(b, start as int, i as int));
                    lemma_first_bad_chunk::<G>(b, start as int, n, i as int);
                }
                return Err(RecordError::UnexpectedEnd);
            }
            let chunk = slice_range(bytes, pos, pos + x_len);
            proof {
                lemma_mul_is_distributive_add_other_way(x_len as int, i as int, 1);
                assert(chunk@ == x_chunk::<G>(b, start as int, i as int));
            }
            if !G::is_x_coordinate(chunk) {
                proof {
                    lemma_first_bad_chunk::<G>(b, start as int, n, i as int);
                }
                return Err(RecordError::InvalidXCoordinate);
            }
            positions.push(pos);
            pos = pos + x_len;
            i = i + 1;
        }
        proof {
            assert(forall|t: int| 0 <= t < n ==> #[trigger] x_chunk_ok::<G>(b, start as int, t));
        }
        let num: usize = count as usize;
        let num_selector_bytes: usize = num / 8 + 1;
        if bytes.len() - pos < num_selector_bytes {
            return Err(RecordError::UnexpectedEnd);
        }
        let selector_bytes = slice_range(bytes, pos, pos + num_selector_bytes);
        let ghost bits = selector_bits::<G>(b, start as int, n);
        assert(selector_bytes@ == b.subrange(pos as int, pos + n / 8 + 1));
        let mut ciphertext: Vec<Vec<u8>> = Vec::new();
        let mut j: usize = 0;
        while j < num
            invariant
                b == bytes@,
                n == num,
                n == count,
                varint_decode(b) == Ok::<(u64, nat), VarIntError>((count, start as nat)),
                pos == start + n * x_len,
                pos + num_selector_bytes <= bytes.len(),
                bits == selector_bits::<G>(b, start as int, n),
                x_len == G::x_len(),
                j <= num,
                positions.len() == num,
                forall|t: int| 0 <= t < num ==> #[trigger] positions@[t] == start + t * x_len,
                forall|t: int| 0 <= t < num ==> #[trigger] x_chunk_ok::<G>(b, start as int, t),
                num_selector_bytes == num / 8 + 1,
                selector_bytes@.len() == num_selector_bytes,
                bits == spec_bytes_to_bits(selector_bytes@),
                ciphertext.len() == j,
                forall|t: int| 0 <= t < j ==> #[trigger] G::from_x(x_chunk::<G>(b, start as int, t), bits[t]) is Some,
                forall|t: int|
                    0 <= t < j ==> #[trigger] ciphertext@[t]@ == G::encode(
                        G::from_x(x_chunk::<G>(b, start as int, t), bits[t])->Some_0,
                    ),
            decreases num - j,
        {
            let p = positions[j];
            proof {
                assert(x_chunk_ok::<G>(b, start as int, j as int));
                lemma_mul_is_distributive_add_other_way(x_len as int, j as int, 1);
            }
            assert(p + x_len <= bytes.len());
            let chunk = slice_range(bytes, p, p + x_len);
            let sel = bit_at(selector_bytes, j);
            let point = match G::from_x_coordinate(chunk, sel) {
                Some(pt) => pt,
                None => {
                    return Err(RecordError::MissingPoint);
                },
            };
            ciphertext.push(point.to_bytes());
            j = j + 1;
        }
        let final_fq_high_selector = bit_at(selector_bytes, num);
        let rec = EncryptedRecord { ciphertext, final_fq_high_selector };
        proof {
            let spec_r = read_spec::<G>(b);
            assert(contents(rec.ciphertext@) =~= spec_r->Ok_0.0);
        }
        Ok((rec, pos + num_selector_bytes))
    }
}

/// When the `i`-th x-coordinate is the first missing or invalid one, reading
/// stops there.
proof fn lemma_first_bad_chunk<G: PrimeOrderGroup>(b: Seq<u8>, start: int, n: int, i: int)
    requires
        0 <= i < n,
        !x_chunk_ok::<G>(b, start, i),
        forall|j: int| 0 <= j < i ==> #[trigger] x_chunk_ok::<G>(b, start, j),
    ensures
        (choose|k: int| first_bad_chunk::<G>(b, start, n, k)) == i,
        !(forall|j: int| 0 <= j < n ==> #[trigger] x_chunk_ok::<G>(b, start, j)),
{
    assert(first_bad_chunk::<G>(b, start, n, i));
    let k = choose|k: int| first_bad_chunk::<G>(b, start, n, k);
    assert(first_bad_chunk::<G>(b, start, n, k));
    if k < i {
        assert(x_chunk_ok::<G>(b, start, k));
    }
    if k > i {
        assert(x_chunk_ok::<G>(b, start, i));
    }
}

/// In a concatenation of strings of length `l`, the `i`-th string occupies
/// the positions `i·l .. (i+1)·l`.
proof fn lemma_concat_chunks(s: Seq<Seq<u8>>, l: int)
    requires
        l >= 0,
        forall|i: int| 0 <= i < s.len() ==> #[trigger] s[i].len() == l,
    ensures
        concat_all(s).len() == s.len() * l,
        forall|i: int|
            0 <= i < s.len() ==> concat_all(s).subrange(i * l, (i + 1) * l) == #[trigger] s[i],
    decreases s.len(),
{
    if s.len() > 0 {
        let n = s.len() as int;
        let t = s.drop_last();
        assert forall|i: int| 0 <= i < t.len() implies #[trigger] t[i].len() == l by {
            assert(t[i] == s[i]);
        }
        lemma_concat_chunks(t, l);
        let c = concat_all(t);
        assert(concat_all(s) == c + s.last());
        lemma_mul_is_distributive_add_other_way(l, n - 1, 1);
        assert forall|i: int| 0 <= i < s.len() implies concat_all(s).subrange(i * l, (i + 1) * l)
            == #[trigger] s[i] by {
            lemma_mul_is_distributive_add_other_way(l, i, 1);
            vstd::arithmetic::mul::lemma_mul_nonnegative(i, l);
            if i < n - 1 {
                lemma_mul_inequality(i + 1, n - 1, l);
                assert(c.subrange(i * l, (i + 1) * l) == t[i]);
                assert(concat_all(s).subrange(i * l, (i + 1) * l) =~= c.subrange(i * l, (i + 1) * l));
            } else {
                assert(concat_all(s).subrange(i * l, (i + 1) * l) =~= s.last());
            }
        }
    }
}

/// Reading what was written gives the record back: for a record whose
/// elements are canonical encodings, writing succeeds and reading the bytes
/// yields the same elements and the same extra selector bit, taking exactly
/// the bytes written.
pub proof fn lemma_record_roundtrip<G: PrimeOrderGroup>(ct: Seq<Seq<u8>>, final_selector: bool)
    requires
        ct.len() <= u64::MAX,
        forall|i: int| 0 <= i < ct.len() ==> #[trigger] is_canonical_element::<G>(ct[i]),
    ensures
        write_spec::<G>(ct, final_selector) is Ok,
        read_spec::<G>(write_spec::<G>(ct, final_selector)->Ok_0) == Ok::<
            (Seq<Seq<u8>>, bool),
            RecordError,
        >((ct, final_selector)),
        record_len::<G>(write_spec::<G>(ct, final_selector)->Ok_0) == write_spec::<G>(
            ct,
            final_selector,
        )->Ok_0.len(),
{
    let n = ct.len() as int;
    let l = G::x_len() as int;
    G::lemma_decodings(Seq::empty(), true);
    assert forall|i: int| 0 <= i < n implies #[trigger] G::decode(ct[i]) is Some by {
        assert(is_canonical_element::<G>(ct[i]));
    }
    let v = varint_encode(n as u64);
    let parts = x_parts::<G>(ct, n);
    let x = concat_all(parts);
    let sels = selectors::<G>(ct, n).push(final_selector);
    let sb = spec_bits_to_bytes(sels);
    let b = v + x + sb;
    assert(write_spec::<G>(ct, final_selector) == Ok::<Seq<u8>, RecordError>(b));
    assert forall|i: int| 0 <= i < n implies #[trigger] parts[i].len() == l by {
        G::lemma_decodings(ct[i], true);
        G::lemma_encodings(element_dlog::<G>(ct[i]));
    }
    lemma_concat_chunks(parts, l);
    lemma_varint_roundtrip(n as u64, x + sb);
    assert(b =~= v + (x + sb));
    let p = v.len() as int;
    assert forall|i: int| 0 <= i < n implies x_chunk::<G>(b, p, i) == #[trigger] parts[i] by {
        lemma_mul_is_distributive_add_other_way(l, i, 1);
        vstd::arithmetic::mul::lemma_mul_nonnegative(i, l);
        lemma_mul_inequality(i + 1, n, l);
        assert(x_chunk::<G>(b, p, i) =~= x.subrange(i * l, (i + 1) * l));
    }
    assert forall|i: int| 0 <= i < n implies #[trigger] x_chunk_ok::<G>(b, p, i) by {
        assert(x_chunk::<G>(b, p, i) == parts[i]);
        lemma_mul_is_distributive_add_other_way(l, i, 1);
        lemma_mul_inequality(i + 1, n, l);
        G::lemma_decodings(ct[i], true);
        G::lemma_encodings(element_dlog::<G>(ct[i]));
    }
    lemma_bits_to_bytes_to_bits(sels);
    assert(sb.len() == n / 8 + 1);
    let s = p + n * l;
    assert(b.subrange(s, s + n / 8 + 1) =~= sb);
    let bits = selector_bits::<G>(b, p, n);
    assert(bits == spec_bytes_to_bits(sb));
    assert forall|i: int| 0 <= i < n implies #[trigger] G::from_x(x_chunk::<G>(b, p, i), bits[i])
        == Some(element_dlog::<G>(ct[i])) by {
        assert(x_chunk::<G>(b, p, i) == parts[i]);
        G::lemma_decodings(ct[i], true);
        G::lemma_encodings(element_dlog::<G>(ct[i]));
        assert(bits[i] == padded_bit(sels, i));
        assert(sels[i] == selector::<G>(element_dlog::<G>(ct[i])));
    }
    assert(bits[n] == padded_bit(sels, n));
    let r = read_spec::<G>(b);
    assert(r->Ok_0.0 =~= ct) by {
        assert forall|i: int| 0 <= i < n implies r->Ok_0.0[i] == ct[i] by {
            assert(G::from_x(x_chunk::<G>(b, p, i), bits[i]) == Some(element_dlog::<G>(ct[i])));
            assert(is_canonical_element::<G>(ct[i]));
        }
    }
}

/// Every element of a ciphertext produced by encryption is a canonical
/// encoding, so such a ciphertext survives writing and reading as a record.
pub proof fn lemma_ciphertext_canonical<G: PrimeOrderGroup>(
    powers: Seq<G>,
    pk: int,
    r: int,
    message: Seq<G>,
)
    requires
        encrypt_spec(powers, pk, r, message) is Ok,
    ensures
        forall|i: int|
            0 <= i < encrypt_spec(powers, pk, r, message)->Ok_0.len() ==> #[trigger] is_canonical_element::<G>(
                encrypt_spec(powers, pk, r, message)->Ok_0[i],
            ),
{
    let ct = encrypt_spec(powers, pk, r, message)->Ok_0;
    let m = order::<G>();
    let key = shared_key::<G>(pk, r);
    let b = blinding_exponents_spec::<G>(key, message.len())->Ok_0;
    G::ScalarField::lemma_parameters();
    assert forall|i: int| 0 <= i < ct.len() implies #[trigger] is_canonical_element::<G>(ct[i]) by {
        if i == 0 {
            let d = power_combination(powers, r);
            lemma_masked_sum_range(scalar_bits::<G>(r), powers, powers.len());
            G::lemma_encodings(d);
        } else {
            let e = (key * b[i - 1]) % m + message[i - 1].dlog();
            vstd::arithmetic::div_mod::lemma_mod_bound(e, m);
            G::lemma_encodings(e % m);
            assert(ct[i] == G::encode(e % m));
        }
    }
}

/// Encrypting, writing the ciphertext as a record and reading it back
/// gives the ciphertext unchanged, taking exactly the bytes written.
pub proof fn lemma_encrypted_record_roundtrip<G: PrimeOrderGroup>(
    powers: Seq<G>,
    pk: int,
    r: int,
    message: Seq<G>,
    final_selector: bool,
)
    requires
        encrypt_spec(powers, pk, r, message) is Ok,
        encrypt_spec(powers, pk, r, message)->Ok_0.len() <= u64::MAX,
    ensures
        write_spec::<G>(encrypt_spec(powers, pk, r, message)->Ok_0, final_selector) is Ok,
        read_spec::<G>(
            write_spec::<G>(encrypt_spec(powers, pk, r, message)->Ok_0, final_selector)->Ok_0,
        ) == Ok::<(Seq<Seq<u8>>, bool), RecordError>(
            (encrypt_spec(powers, pk, r, message)->Ok_0, final_selector),
        ),
        record_len::<G>(
            write_spec::<G>(encrypt_spec(powers, pk, r, message)->Ok_0, final_selector)->Ok_0,
        ) == write_spec::<G>(encrypt_spec(powers, pk, r, message)->Ok_0, final_selector)->Ok_0.len(),
{
    lemma_ciphertext_canonical(powers, pk, r, message);
    lemma_record_roundtrip::<G>(encrypt_spec(powers, pk, r, message)->Ok_0, final_selector);
}

} // verus!
