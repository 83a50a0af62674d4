//! Little-endian conversions between bytes, bits and integers.

use vstd::prelude::*;
use vstd::arithmetic::power2::{pow2, lemma2_to64, lemma_pow2_unfold};

verus! {

/// The integer encoded by `bytes`, least significant byte first.
pub open spec fn le_value(bytes: Seq<u8>) -> nat
    decreases bytes.len(),
{
    if bytes.len() == 0 {
        0
    } else {
        bytes[0] as nat + 256 * le_value(bytes.drop_first())
    }
}

/// The first four bytes carry the low 32 bits of the value.
pub proof fn lemma_le_value_four_then_rest(bytes: Seq<u8>)
    requires
        bytes.len() >= 4,
    ensures
        le_value(bytes) == bytes[0] as nat + 256 * (bytes[1] as nat) + 65536 * (bytes[2] as nat)
            + 16777216 * (bytes[3] as nat) + 4294967296 * le_value(bytes.skip(4)),
{
    reveal_with_fuel(le_value, 4);
    assert(bytes.drop_first().drop_first().drop_first().drop_first() =~= bytes.skip(4));
}

/// A value is zero exactly when all of its bytes are.
pub proof fn lemma_le_value_zero(bytes: Seq<u8>)
    ensures
        le_value(bytes) == 0 <==> forall|i: int| 0 <= i < bytes.len() ==> bytes[i] == 0,
    decreases bytes.len(),
{
    if bytes.len() > 0 {
        lemma_le_value_zero(bytes.drop_first());
        if le_value(bytes) == 0 {
            assert forall|i: int| 0 <= i < bytes.len() implies bytes[i] == 0 by {
                if i > 0 {
                    assert(bytes[i] == bytes.drop_first()[i - 1]);
                }
            }
        }
        if forall|i: int| 0 <= i < bytes.len() ==> bytes[i] == 0 {
            assert forall|i: int| 0 <= i < bytes.drop_first().len() implies bytes.drop_first()[i]
                == 0 by {
                assert(bytes.drop_first()[i] == bytes[i + 1]);
            }
        }
    }
}

/// The integer encoded by `bits`, least significant bit first.
pub open spec fn bits_value(bits: Seq<bool>) -> nat
    decreases bits.len(),
{
    if bits.len() == 0 {
        0
    } else {
        (if bits[0] { 1nat } else { 0nat }) + 2 * bits_value(bits.drop_first())
    }
}

/// Bit `k` (0 is the least significant) of a byte.
pub open spec fn byte_bit(b: u8, k: int) -> bool {
    (b >> (k as u8)) & 1u8 == 1u8
}

/// The bits of `bytes`: byte after byte, each least significant bit first.
pub open spec fn spec_bytes_to_bits(bytes: Seq<u8>) -> Seq<bool> {
    Seq::new(8 * bytes.len(), |i: int| byte_bit(bytes[i / 8], i % 8))
}

/// `bits` padded with `false` up to a whole number of bytes, then packed
/// byte by byte, least significant bit first.
pub open spec fn spec_bits_to_bytes(bits: Seq<bool>) -> Seq<u8> {
    Seq::new(
        num_bytes_for(bits.len()),
        |j: int| pack_byte(
            padded_bit(bits, 8 * j),
            padded_bit(bits, 8 * j + 1),
            padded_bit(bits, 8 * j + 2),
            padded_bit(bits, 8 * j + 3),
            padded_bit(bits, 8 * j + 4),
            padded_bit(bits, 8 * j + 5),
            padded_bit(bits, 8 * j + 6),
            padded_bit(bits, 8 * j + 7),
        ),
    )
}

/// The number of bytes that hold `n` bits.
pub open spec fn num_bytes_for(n: nat) -> nat {
    if n % 8 == 0 {
        n / 8
    } else {
        n / 8 + 1
    }
}

/// Bit `i` of `bits`, or `false` past its end.
pub open spec fn padded_bit(bits: Seq<bool>, i: int) -> bool {
    0 <= i < bits.len() && bits[i]
}

/// The byte whose bits, least significant first, are `b0` .. `b7`.
pub open spec fn pack_byte(
    b0: bool,
    b1: bool,
    b2: bool,
    b3: bool,
    b4: bool,
    b5: bool,
    b6: bool,
    b7: bool,
) -> u8 {
    (if b0 { 1u8 } else { 0u8 }) | (if b1 { 2u8 } else { 0u8 }) | (if b2 { 4u8 } else { 0u8 }) | (
    if b3 { 8u8 } else { 0u8 }) | (if b4 { 16u8 } else { 0u8 }) | (if b5 { 32u8 } else { 0u8 }) | (
    if b6 { 64u8 } else { 0u8 }) | (if b7 { 128u8 } else { 0u8 })
}

proof fn lemma_pack_byte_bits(
    b0: bool,
    b1: bool,
    b2: bool,
    b3: bool,
    b4: bool,
    b5: bool,
    b6: bool,
    b7: bool,
)
    ensures
        byte_bit(pack_byte(b0, b1, b2, b3, b4, b5, b6, b7), 0) == b0,
        byte_bit(pack_byte(b0, b1, b2, b3, b4, b5, b6, b7), 1) == b1,
        byte_bit(pack_byte(b0, b1, b2, b3, b4, b5, b6, b7), 2) == b2,
        byte_bit(pack_byte(b0, b1, b2, b3, b4, b5, b6, b7), 3) == b3,
        byte_bit(pack_byte(b0, b1, b2, b3, b4, b5, b6, b7), 4) == b4,
        byte_bit(pack_byte(b0, b1, b2, b3, b4, b5, b6, b7), 5) == b5,
        byte_bit(pack_byte(b0, b1, b2, b3, b4, b5, b6, b7), 6) == b6,
        byte_bit(pack_byte(b0, b1, b2, b3, b4, b5, b6, b7), 7) == b7,
{
    let p = pack_byte(b0, b1, b2, b3, b4, b5, b6, b7);
    assert((p >> 0u8) & 1u8 == 1u8 <==> b0) by (bit_vector)
        requires
            p == pack_byte(b0, b1, b2, b3, b4, b5, b6, b7),
    ;
    assert((p >> 1u8) & 1u8 == 1u8 <==> b1) by (bit_vector)
        requires
            p == pack_byte(b0, b1, b2, b3, b4, b5, b6, b7),
    ;
    assert((p >> 2u8) & 1u8 == 1u8 <==> b2) by (bit_vector)
        requires
            p == pack_byte(b0, b1, b2, b3, b4, b5, b6, b7),
    ;
    assert((p >> 3u8) & 1u8 == 1u8 <==> b3) by (bit_vector)
        requires
            p == pack_byte(b0, b1, b2, b3, b4, b5, b6, b7),
    ;
    assert((p >> 4u8) & 1u8 == 1u8 <==> b4) by (bit_vector)
        requires
            p == pack_byte(b0, b1, b2, b3, b4, b5, b6, b7),
    ;
    assert((p >> 5u8) & 1u8 == 1u8 <==> b5) by (bit_vector)
        requires
            p == pack_byte(b0, b1, b2, b3, b4, b5, b6, b7),
    ;
    assert((p >> 6u8) & 1u8 == 1u8 <==> b6) by (bit_vector)
        requires
            p == pack_byte(b0, b1, b2, b3, b4, b5, b6, b7),
    ;
    assert((p >> 7u8) & 1u8 == 1u8 <==> b7) by (bit_vector)
        requires
            p == pack_byte(b0, b1, b2, b3, b4, b5, b6, b7),
    ;
}

/// Unpacking the packed bits gives the bits back, followed by `false` padding.
pub proof fn lemma_bits_to_bytes_to_bits(bits: Seq<bool>)
    ensures
        spec_bytes_to_bits(spec_bits_to_bytes(bits)).len() == 8 * num_bytes_for(bits.len()),
        bits.len() <= spec_bytes_to_bits(spec_bits_to_bytes(bits)).len() < bits.len() + 8,
        forall|i: int|
            0 <= i < spec_bytes_to_bits(spec_bits_to_bytes(bits)).len() ==> #[trigger] spec_bytes_to_bits(
                spec_bits_to_bytes(bits),
            )[i] == padded_bit(bits, i),
{
    let bytes = spec_bits_to_bytes(bits);
    let out = spec_bytes_to_bits(bytes);
    assert forall|i: int| 0 <= i < out.len() implies #[trigger] out[i] == padded_bit(bits, i) by {
        let j = i / 8;
        let k = i % 8;
        lemma_pack_byte_bits(
            padded_bit(bits, 8 * j),
            padded_bit(bits, 8 * j + 1),
            padded_bit(bits, 8 * j + 2),
            padded_bit(bits, 8 * j + 3),
            padded_bit(bits, 8 * j + 4),
            padded_bit(bits, 8 * j + 5),
            padded_bit(bits, 8 * j + 6),
            padded_bit(bits, 8 * j + 7),
        );
        assert(i == 8 * j + k);
    }
}

fn bit_or_false(bits: &[bool], i: usize) -> (b: bool)
    ensures
        b == padded_bit(bits@, i as int),
{
    i < bits.len() && bits[i]
}

/// Packs `bits` into bytes, least significant bit first, padding the last
/// byte with zero bits.
pub fn bits_to_bytes(bits: &[bool]) -> (bytes: Vec<u8>)
    ensures
        bytes@ == spec_bits_to_bytes(bits@),
{
    let n = bits.len();
    let num_bytes: usize = if n % 8 == 0 { n / 8 } else { n / 8 + 1 };
    let mut bytes: Vec<u8> = Vec::new();
    let mut j: usize = 0;
    while j < num_bytes
        invariant
            n == bits.len(),
            num_bytes == num_bytes_for(n as nat),
            j <= num_bytes,
            bytes.len() == j,
            forall|t: int| 0 <= t < j ==> #[trigger] bytes@[t] == spec_bits_to_bytes(bits@)[t],
        decreases num_bytes - j,
    {
        let base: usize = 8 * j;
        let byte = (if bit_or_false(bits, base) { 1u8 } else { 0u8 }) | (if bit_or_false(bits, base + 1) {
            2u8
        } else {
            0u8
        }) | (if bit_or_false(bits, base + 2) { 4u8 } else { 0u8 }) | (if bit_or_false(bits, base + 3) {
            8u8
        } else {
            0u8
        }) | (if bit_or_false(bits, base + 4) { 16u8 } else { 0u8 }) | (if bit_or_false(
            bits,
            base + 5,
        ) {
            32u8
        } else {
            0u8
        }) | (if bit_or_false(bits, base + 6) { 64u8 } else { 0u8 }) | (if bit_or_false(
            bits,
            base + 7,
        ) {
            128u8
        } else {
            0u8
        });
        bytes.push(byte);
        j = j + 1;
    }
    assert(bytes@ =~= spec_bits_to_bytes(bits@));
    bytes
}

/// Unpacks `bytes` into bits: byte after byte, least significant bit first.
pub fn bytes_to_bits(bytes: &[u8]) -> (bits: Vec<bool>)
    requires
        8 * bytes.len() <= usize::MAX,
    ensures
        bits@ == spec_bytes_to_bits(bytes@),
{
    let mut bits: Vec<bool> = Vec::new();
    let mut j: usize = 0;
    while j < bytes.len()
        invariant
            8 * bytes.len() <= usize::MAX,
            j <= bytes.len(),
            bits.len() == 8 * j,
            forall|t: int| 0 <= t < 8 * j ==> #[trigger] bits@[t] == spec_bytes_to_bits(bytes@)[t],
        decreases bytes.len() - j,
    {
        let b = bytes[j];
        let mut k: u8 = 0;
        while k < 8
            invariant
                8 * bytes.len() <= usize::MAX,
                j < bytes.len(),
                b == bytes@[j as int],
                k <= 8,
                bits.len() == 8 * j + k,
                forall|t: int|
                    0 <= t < 8 * j + k ==> #[trigger] bits@[t] == spec_bytes_to_bits(bytes@)[t],
            decreases 8 - k,
        {
            bits.push((b >> k) & 1u8 == 1u8);
            proof {
                let t = 8 * j + k;
                assert(t / 8 == j as int && t % 8 == k as int);
            }
            k = k + 1;
        }
        j = j + 1;
    }
    assert(bits@ =~= spec_bytes_to_bits(bytes@));
    bits
}

/// Appending a bit adds it at the next power of two.
pub proof fn lemma_bits_value_push(bits: Seq<bool>, b: bool)
    ensures
        bits_value(bits.push(b)) == bits_value(bits) + (if b { pow2(bits.len()) } else { 0 }),
    decreases bits.len(),
{
    if bits.len() == 0 {
        assert(bits.push(b).drop_first() =~= Seq::<bool>::empty());
        reveal_with_fuel(bits_value, 2);
        lemma2_to64();
    } else {
        assert(bits.push(b).drop_first() =~= bits.drop_first().push(b));
        lemma_bits_value_push(bits.drop_first(), b);
        lemma_pow2_unfold(bits.len());
    }
}

/// The value of a concatenation of bit strings.
pub proof fn lemma_bits_value_append(x: Seq<bool>, y: Seq<bool>)
    ensures
        bits_value(x + y) == bits_value(x) + pow2(x.len()) * bits_value(y),
    decreases x.len(),
{
    if x.len() == 0 {
        assert(x + y =~= y);
        lemma2_to64();
    } else {
        assert((x + y).drop_first() =~= x.drop_first() + y);
        lemma_bits_value_append(x.drop_first(), y);
        lemma_pow2_unfold(x.len());
        assert(pow2(x.len()) * bits_value(y) == 2 * (pow2((x.len() - 1) as nat) * bits_value(y)))
            by (nonlinear_arith)
            requires
                pow2(x.len()) == 2 * pow2((x.len() - 1) as nat),
        ;
    }
}

proof fn lemma_byte_bits_value(b: u8)
    ensures
        bits_value(spec_bytes_to_bits(seq![b])) == b,
{
    let s = spec_bytes_to_bits(seq![b]);
    reveal_with_fuel(bits_value, 9);
    assert(s.drop_first().drop_first().drop_first().drop_first().drop_first().drop_first().drop_first().drop_first().len() == 0);
    let t0 = byte_bit(b, 0);
    let t1 = byte_bit(b, 1);
    let t2 = byte_bit(b, 2);
    let t3 = byte_bit(b, 3);
    let t4 = byte_bit(b, 4);
    let t5 = byte_bit(b, 5);
    let t6 = byte_bit(b, 6);
    let t7 = byte_bit(b, 7);
    assert(s[0] == t0 && s[1] == t1 && s[2] == t2 && s[3] == t3 && s[4] == t4 && s[5] == t5 && s[6]
        == t6 && s[7] == t7);
    assert(b == (if (b >> 0u8) & 1u8 == 1u8 { 1u8 } else { 0u8 }) + 2 * (if (b >> 1u8) & 1u8 == 1u8 {
        1u8
    } else {
        0u8
    }) + 4 * (if (b >> 2u8) & 1u8 == 1u8 { 1u8 } else { 0u8 }) + 8 * (if (b >> 3u8) & 1u8 == 1u8 {
        1u8
    } else {
        0u8
    }) + 16 * (if (b >> 4u8) & 1u8 == 1u8 { 1u8 } else { 0u8 }) + 32 * (if (b >> 5u8) & 1u8 == 1u8 {
        1u8
    } else {
        0u8
    }) + 64 * (if (b >> 6u8) & 1u8 == 1u8 { 1u8 } else { 0u8 }) + 128 * (if (b >> 7u8) & 1u8 == 1u8 {
        1u8
    } else {
        0u8
    })) by (bit_vector);
}

/// Unpacking bytes into bits preserves the encoded integer.
pub proof fn lemma_bytes_to_bits_value(bytes: Seq<u8>)
    ensures
        bits_value(spec_bytes_to_bits(bytes)) == le_value(bytes),
    decreases bytes.len(),
{
    if bytes.len() > 0 {
        let head = spec_bytes_to_bits(seq![bytes[0]]);
        let tail = spec_bytes_to_bits(bytes.drop_first());
        assert(spec_bytes_to_bits(bytes) =~= head + tail) by {
            assert forall|i: int| 0 <= i < 8 * bytes.len() implies spec_bytes_to_bits(bytes)[i] == (
            head + tail)[i] by {
                if i >= 8 {
                    assert((i - 8) / 8 == i / 8 - 1);
                    assert((i - 8) % 8 == i % 8);
                }
            }
        }
        lemma_bytes_to_bits_value(bytes.drop_first());
        lemma_byte_bits_value(bytes[0]);
        lemma_bits_value_append(head, tail);
        lemma2_to64();
    }
}

/// The value of a concatenation of byte strings.
pub proof fn lemma_le_value_append(x: Seq<u8>, y: Seq<u8>)
    ensures
        le_value(x + y) == le_value(x) + pow2(8 * x.len()) * le_value(y),
    decreases x.len(),
{
    if x.len() == 0 {
        assert(x + y =~= y);
        lemma2_to64();
    } else {
        assert((x + y).drop_first() =~= x.drop_first() + y);
        lemma_le_value_append(x.drop_first(), y);
        let k = (8 * (x.len() - 1)) as nat;
        vstd::arithmetic::power2::lemma_pow2_adds(8, k);
        lemma2_to64();
        assert(pow2(8 * x.len()) * le_value(y) == 256 * (pow2(k) * le_value(y))) by (nonlinear_arith)
            requires
                pow2(8 * x.len()) == 256 * pow2(k),
        ;
    }
}

/// A byte string of length `n` encodes a value below `2^(8n)`.
pub proof fn lemma_le_value_bound(x: Seq<u8>)
    ensures
        le_value(x) < pow2(8 * x.len()),
    decreases x.len(),
{
    lemma2_to64();
    if x.len() > 0 {
        lemma_le_value_bound(x.drop_first());
        let k = (8 * (x.len() - 1)) as nat;
        vstd::arithmetic::power2::lemma_pow2_adds(8, k);
        assert(x[0] as nat + 256 * le_value(x.drop_first()) < 256 * pow2(k)) by (nonlinear_arith)
            requires
                x[0] < 256,
                le_value(x.drop_first()) < pow2(k),
        ;
    }
}

} // verus!
