//! The interface of a cyclic group of prime order, in which each element is
//! specified by its discrete logarithm to a fixed generator.

use vstd::prelude::*;
use crate::field::PrimeField;
use rand::rngs::StdRng;

verus! {

/// A cyclic group whose order is the modulus of its scalar field. Each
/// element stands for its discrete logarithm `dlog` to a fixed generator, an
/// integer in `0..order`: adding elements adds logarithms, multiplying an
/// element by a scalar multiplies its logarithm, both modulo the order.
///
/// Elements have a canonical byte encoding, and a compressed one: the bytes of
/// an affine x-coordinate. Of the (at most two) curve points with a given
/// x-coordinate, at most one lies in the group; a selector bit names the
/// candidate, and recovery yields an element only when the candidate named
/// lies in the group.
pub trait PrimeOrderGroup: Sized + Copy {
    type ScalarField: PrimeField;

    /// The discrete logarithm of the element.
    spec fn dlog(&self) -> int;

    /// The canonical encoding of the element with logarithm `d`.
    spec fn encode(d: int) -> Seq<u8>;

    /// The logarithm of the element that reading `bytes` yields, if any.
    spec fn decode(bytes: Seq<u8>) -> Option<int>;

    /// The number of bytes of an encoded x-coordinate.
    spec fn x_len() -> nat;

    /// The encoded x-coordinate of the element with logarithm `d`.
    spec fn x_encode(d: int) -> Seq<u8>;

    /// `bytes` encode a coordinate (an element of the base field).
    spec fn is_x(bytes: Seq<u8>) -> bool;

    /// The logarithm of the element recovered from an encoded x-coordinate and
    /// a selector, if the candidate named lies in the group.
    spec fn from_x(bytes: Seq<u8>, greatest: bool) -> Option<int>;

    proof fn lemma_dlog_range(x: &Self)
        ensures
            0 <= x.dlog() < Self::ScalarField::modulus(),
    ;

    /// Encodings of an element read back as that element; its x-coordinate
    /// recovers it under one of the two selectors, and recovers no other
    /// element under either.
    proof fn lemma_encodings(d: int)
        requires
            0 <= d < Self::ScalarField::modulus(),
        ensures
            Self::decode(Self::encode(d)) == Some(d),
            Self::x_encode(d).len() == Self::x_len(),
            Self::is_x(Self::x_encode(d)),
            Self::from_x(Self::x_encode(d), true) == Some(d) || Self::from_x(Self::x_encode(d), false)
                == Some(d),
            Self::from_x(Self::x_encode(d), true) matches Some(e) ==> e == d,
            Self::from_x(Self::x_encode(d), false) matches Some(e) ==> e == d,
    ;

    /// Decoded elements lie in the group, and an element recovered from an
    /// x-coordinate has that x-coordinate.
    proof fn lemma_decodings(bytes: Seq<u8>, greatest: bool)
        ensures
            Self::decode(bytes) matches Some(d) ==> 0 <= d < Self::ScalarField::modulus(),
            Self::from_x(bytes, greatest) matches Some(d) ==> 0 <= d < Self::ScalarField::modulus(),
            Self::from_x(bytes, greatest) matches Some(d) ==> Self::x_encode(d) == bytes,
            0 < Self::x_len() <= 64,
    ;

    /// The identity element.
    fn zero() -> (r: Self)
        ensures
            r.dlog() == 0,
    ;

    fn add(&self, other: &Self) -> (r: Self)
        ensures
            r.dlog() == (self.dlog() + other.dlog()) % Self::ScalarField::modulus(),
    ;

    fn sub(&self, other: &Self) -> (r: Self)
        ensures
            r.dlog() == (self.dlog() - other.dlog()) % Self::ScalarField::modulus(),
    ;

    /// Scalar multiplication.
    fn mul(&self, scalar: &Self::ScalarField) -> (r: Self)
        ensures
            r.dlog() == (self.dlog() * scalar.value()) % Self::ScalarField::modulus(),
    ;

    fn equals(&self, other: &Self) -> (r: bool)
        ensures
            r == (self.dlog() == other.dlog()),
    ;

    fn to_bytes(&self) -> (r: Vec<u8>)
        ensures
            r@ == Self::encode(self.dlog()),
    ;

    /// Reads an element from the front of `bytes`.
    fn from_bytes(bytes: &[u8]) -> (r: Option<Self>)
        ensures
            r is Some <==> Self::decode(bytes@) is Some,
            r matches Some(x) ==> Some(x.dlog()) == Self::decode(bytes@),
    ;

    fn x_coordinate_len() -> (r: usize)
        ensures
            r == Self::x_len(),
    ;

    /// The encoded affine x-coordinate of the element.
    fn x_coordinate_bytes(&self) -> (r: Vec<u8>)
        ensures
            r@ == Self::x_encode(self.dlog()),
    ;

    /// Whether `bytes` encode a coordinate.
    fn is_x_coordinate(bytes: &[u8]) -> (r: bool)
        ensures
            r == Self::is_x(bytes@),
    ;

    /// Recovers an element from an encoded x-coordinate and a selector.
    fn from_x_coordinate(bytes: &[u8], greatest: bool) -> (r: Option<Self>)
        ensures
            r is Some <==> Self::from_x(bytes@, greatest) is Some,
            r matches Some(x) ==> Some(x.dlog()) == Self::from_x(bytes@, greatest),
    ;

    /// A uniformly drawn element.
    fn rand(rng: &mut StdRng) -> (r: Self);
}

} // verus!
