//! The interface of a prime field, with every operation specified over the
//! integers modulo the field's modulus.

use vstd::prelude::*;
use crate::bits::le_value;
use vstd::arithmetic::div_mod::{lemma_mul_mod_noop_right, lemma_small_mod};
use rand::rngs::StdRng;

verus! {

/// `v` is a multiplicative inverse of `x` modulo `m`.
pub open spec fn is_inverse_mod(v: int, x: int, m: int) -> bool {
    (v * x) % m == 1
}

/// `x` has a multiplicative inverse modulo `m`.
pub open spec fn invertible_mod(x: int, m: int) -> bool {
    exists|v: int| 0 <= v < m && #[trigger] is_inverse_mod(v, x, m)
}

/// The inverse of `x` modulo `m`, where it exists.
pub open spec fn inverse_of(x: int, m: int) -> int {
    choose|v: int| 0 <= v < m && is_inverse_mod(v, x, m)
}

/// An inverse modulo `m` is unique among `0..m`.
pub proof fn lemma_inverse_unique(v1: int, v2: int, x: int, m: int)
    requires
        1 < m,
        0 <= v1 < m,
        0 <= v2 < m,
        is_inverse_mod(v1, x, m),
        is_inverse_mod(v2, x, m),
    ensures
        v1 == v2,
{
    lemma_mul_mod_noop_right(v1, v2 * x, m);
    lemma_mul_mod_noop_right(v2, v1 * x, m);
    assert(v1 * (v2 * x) == v2 * (v1 * x)) by (nonlinear_arith);
    lemma_small_mod(v1 as nat, m as nat);
    lemma_small_mod(v2 as nat, m as nat);
}

/// Any inverse in `0..m` is the one `inverse_of` names.
pub proof fn lemma_inverse_of(v: int, x: int, m: int)
    requires
        1 < m,
        0 <= v < m,
        is_inverse_mod(v, x, m),
    ensures
        inverse_of(x, m) == v,
        invertible_mod(x, m),
{
    let w = inverse_of(x, m);
    lemma_inverse_unique(w, v, x, m);
}

/// `n` rounded up to a multiple of 64.
pub open spec fn round_up_64(n: nat) -> nat {
    ((n + 63) / 64) * 64
}

/// A prime field. Each element stands for an integer in `0..modulus()`, its
/// `value`; the operations are those of the integers modulo `modulus()`.
pub trait PrimeField: Sized + Copy {
    /// The number of elements of the field.
    spec fn modulus() -> int;

    /// The integer in `0..modulus()` that the element stands for.
    spec fn value(&self) -> int;

    /// The number of bytes of the canonical encoding.
    spec fn byte_len() -> nat;

    /// The number of bits of the modulus.
    spec fn bit_size() -> nat;

    /// The canonical encoding of the element with value `v`.
    spec fn encode(v: int) -> Seq<u8>;

    /// The value that reading `bytes` yields, if any.
    spec fn decode(bytes: Seq<u8>) -> Option<int>;

    proof fn lemma_parameters()
        ensures
            1 < Self::modulus(),
            Self::modulus() <= vstd::arithmetic::power::pow(256, Self::byte_len()),
            0 < Self::byte_len() <= 64,
            9 <= Self::bit_size() <= 512,
            vstd::arithmetic::power2::pow2((Self::bit_size() - 1) as nat) <= Self::modulus(),
            8 * Self::byte_len() == round_up_64(Self::bit_size()),
    ;

    proof fn lemma_value_range(x: &Self)
        ensures
            0 <= x.value() < Self::modulus(),
    ;

    proof fn lemma_encode(v: int)
        requires
            0 <= v < Self::modulus(),
        ensures
            Self::encode(v).len() == Self::byte_len(),
            le_value(Self::encode(v)) == v,
            Self::decode(Self::encode(v)) == Some(v),
    ;

    proof fn lemma_decode(bytes: Seq<u8>)
        ensures
            Self::decode(bytes) matches Some(v) ==> 0 <= v < Self::modulus(),
            bytes.len() == Self::byte_len() && le_value(bytes) < Self::modulus() ==> Self::decode(bytes)
                == Some(le_value(bytes) as int),
    ;

    fn zero() -> (r: Self)
        ensures
            r.value() == 0,
    ;

    fn one() -> (r: Self)
        ensures
            r.value() == 1,
    ;

    fn add(&self, other: &Self) -> (r: Self)
        ensures
            r.value() == (self.value() + other.value()) % Self::modulus(),
    ;

    fn mul(&self, other: &Self) -> (r: Self)
        ensures
            r.value() == (self.value() * other.value()) % Self::modulus(),
    ;

    /// The modulus is prime: exactly the nonzero values below it have
    /// inverses.
    proof fn lemma_nonzero_invertible(x: int)
        requires
            0 <= x < Self::modulus(),
        ensures
            invertible_mod(x, Self::modulus()) <==> x != 0,
    ;

    /// The inverse, or `None` for zero, which has none.
    fn inverse(&self) -> (r: Option<Self>)
        ensures
            r is Some <==> self.value() != 0,
            r is Some <==> invertible_mod(self.value(), Self::modulus()),
            r matches Some(v) ==> is_inverse_mod(v.value(), self.value(), Self::modulus()),
    ;

    fn equals(&self, other: &Self) -> (r: bool)
        ensures
            r == (self.value() == other.value()),
    ;

    fn size_in_bits() -> (r: usize)
        ensures
            r == Self::bit_size(),
    ;

    /// The canonical encoding: `byte_len()` bytes, least significant first.
    fn to_bytes(&self) -> (r: Vec<u8>)
        ensures
            r@ == Self::encode(self.value()),
    ;

    /// Reads an element from the front of `bytes`.
    fn read(bytes: &[u8]) -> (r: Option<Self>)
        ensures
            r is Some <==> Self::decode(bytes@) is Some,
            r matches Some(x) ==> Some(x.value()) == Self::decode(bytes@),
    ;

    /// A uniformly drawn element.
    fn rand(rng: &mut StdRng) -> (r: Self);
}

} // verus!
