//! A small instance of the field and group interfaces: the integers modulo
//! the prime 2^31 - 1, and the additive group of that field, generated by 1.
//! It exercises every algorithm of the crate; at this size it offers no
//! security.

use vstd::prelude::*;
use crate::bits::{le_value, lemma_le_value_four_then_rest, lemma_le_value_zero};
use crate::field::{PrimeField, is_inverse_mod, invertible_mod};
use crate::group::PrimeOrderGroup;
use crate::rng::random_below;
use vstd::arithmetic::div_mod::{lemma_fundamental_div_mod, lemma_mod_multiples_vanish};
use rand::rngs::StdRng;

verus! {

/// The modulus, the prime 2^31 - 1.
pub const MODULUS: u64 = 2147483647;

/// The eight-byte little-endian encoding of `d`, a value below 2^31.
pub open spec fn encode_small(d: int) -> Seq<u8> {
    seq![
        (d % 256) as u8,
        ((d / 256) % 256) as u8,
        ((d / 65536) % 256) as u8,
        (d / 16777216) as u8,
        0u8,
        0u8,
        0u8,
        0u8,
    ]
}

/// The value of the first eight bytes, if there are eight and it is below the modulus.
pub open spec fn decode_small(bytes: Seq<u8>) -> Option<int> {
    if bytes.len() >= 8 && le_value(bytes.take(8)) < MODULUS {
        Some(le_value(bytes.take(8)) as int)
    } else {
        None
    }
}

proof fn lemma_encode_small(d: int)
    requires
        0 <= d < MODULUS,
    ensures
        le_value(encode_small(d)) == d,
        decode_small(encode_small(d)) == Some(d),
{
    let e = encode_small(d);
    lemma_le_value_four_then_rest(e);
    lemma_le_value_zero(e.skip(4));
    assert(e.take(8) =~= e);
}

/// Eight bytes whose value is below the modulus are the encoding of that value.
proof fn lemma_small_canonical(b: Seq<u8>)
    requires
        b.len() == 8,
        le_value(b) < MODULUS,
    ensures
        encode_small(le_value(b) as int) == b,
{
    lemma_le_value_four_then_rest(b);
    let rest = b.skip(4);
    if le_value(rest) != 0 {
        assert(le_value(b) >= 4294967296);
    }
    lemma_le_value_zero(rest);
    assert(rest[0] == 0 && rest[1] == 0 && rest[2] == 0 && rest[3] == 0);
    let v = le_value(b) as int;
    let b0 = b[0] as int;
    let b1 = b[1] as int;
    let b2 = b[2] as int;
    let b3 = b[3] as int;
    assert(v == b0 + 256 * (b1 + 256 * (b2 + 256 * b3)));
    vstd::arithmetic::div_mod::lemma_fundamental_div_mod_converse(v, 256, b1 + 256 * (b2 + 256 * b3), b0);
    let v1 = v / 256;
    vstd::arithmetic::div_mod::lemma_fundamental_div_mod_converse(v1, 256, b2 + 256 * b3, b1);
    vstd::arithmetic::div_mod::lemma_fundamental_div_mod_converse(v, 65536, b2 + 256 * b3, b0 + 256 * b1);
    let v2 = v / 65536;
    vstd::arithmetic::div_mod::lemma_fundamental_div_mod_converse(v2, 256, b3, b2);
    vstd::arithmetic::div_mod::lemma_fundamental_div_mod_converse(v, 16777216, b3, b0 + 256 * b1 + 65536 * b2);
    assert(encode_small(v) =~= b);
}

fn encode_value(x: u64) -> (r: Vec<u8>)
    requires
        x < MODULUS,
    ensures
        r@ == encode_small(x as int),
{
    let r = vec![
        (x % 256) as u8,
        ((x / 256) % 256) as u8,
        ((x / 65536) % 256) as u8,
        (x / 16777216) as u8,
        0u8,
        0u8,
        0u8,
        0u8,
    ];
    assert(r@ =~= encode_small(x as int));
    r
}

/// The value of eight bytes, if it is below the modulus.
fn decode_eight(bytes: &[u8]) -> (r: Option<u64>)
    requires
        bytes.len() == 8,
    ensures
        r matches Some(x) ==> le_value(bytes@) < MODULUS && x == le_value(bytes@),
        r is None ==> le_value(bytes@) >= MODULUS,
{
    proof {
        lemma_le_value_four_then_rest(bytes@);
        lemma_le_value_zero(bytes@.skip(4));
    }
    let rest_is_zero = bytes[4] == 0 && bytes[5] == 0 && bytes[6] == 0 && bytes[7] == 0;
    let x: u64 = bytes[0] as u64 + 256 * (bytes[1] as u64) + 65536 * (bytes[2] as u64) + 16777216 * (
    bytes[3] as u64);
    if rest_is_zero && x < MODULUS {
        assert(le_value(bytes@.skip(4)) == 0);
        Some(x)
    } else {
        proof {
            if !rest_is_zero {
                let s = bytes@;
                let i: int = if s[4] != 0 {
                    0
                } else if s[5] != 0 {
                    1
                } else if s[6] != 0 {
                    2
                } else {
                    3
                };
                assert(s.skip(4)[i] != 0);
            }
        }
        None
    }
}

fn decode_bytes(bytes: &[u8]) -> (r: Option<u64>)
    ensures
        r matches Some(x) ==> decode_small(bytes@) == Some(x as int),
        r is None ==> decode_small(bytes@) is None,
{
    if bytes.len() < 8 {
        return None;
    }
    let first = crate::varint::slice_range(bytes, 0, 8);
    assert(first@ =~= bytes@.take(8));
    decode_eight(first)
}

/// `d` divides `n`.
pub open spec fn divides(d: int, n: int) -> bool {
    n % d == 0
}

/// No `d` in `2..46341` times any `e` below 2^31 makes the modulus.
#[verifier::rlimit(100)]
proof fn lemma_no_small_factor(d: u32, e: u32)
    by (bit_vector)
    requires
        2 <= d < 46341,
        e < 0x8000_0000,
    ensures
        d * e != 0x7fff_ffff,
{
}

/// The modulus 2^31 - 1 is prime: no `d` with `1 < d < 2^31 - 1` divides it.
pub proof fn lemma_modulus_prime()
    ensures
        forall|d: int| 1 < d < MODULUS ==> !#[trigger] divides(d, MODULUS as int),
{
    assert forall|d: int| 1 < d < MODULUS implies !#[trigger] divides(d, MODULUS as int) by {
        if divides(d, MODULUS as int) {
            let n = MODULUS as int;
            let e = n / d;
            lemma_fundamental_div_mod(n, d);
            assert(n == d * e);
            assert(e >= 2) by (nonlinear_arith)
                requires
                    n == d * e,
                    1 < d < n,
            ;
            assert(e < n) by (nonlinear_arith)
                requires
                    n == d * e,
                    1 < d,
                    n > 0,
            ;
            if d < 46341 {
                lemma_no_small_factor(d as u32, e as u32);
            } else {
                assert(e < 46341) by (nonlinear_arith)
                    requires
                        n == d * e,
                        d >= 46341,
                        e >= 0,
                        n == 0x7fff_ffff,
                ;
                assert(e * d == n) by (nonlinear_arith)
                    requires
                        n == d * e,
                ;
                lemma_no_small_factor(e as u32, d as u32);
            }
        }
    }
}

/// Bezout's identity by the extended Euclidean algorithm: for `a > 0`, a
/// common divisor `g = a·x + b·y` of `a` and `b`, returned as
/// `(g, x, y, a / g, b / g)`.
proof fn lemma_bezout(a: int, b: int) -> (r: (int, int, int, int, int))
    requires
        a > 0,
        b >= 0,
    ensures
        r.0 > 0,
        a * r.1 + b * r.2 == r.0,
        a == r.0 * r.3,
        b == r.0 * r.4,
    decreases b,
{
    if b == 0 {
        (a, 1, 0, 1, 0)
    } else {
        lemma_fundamental_div_mod(a, b);
        let q = a / b;
        let m = a % b;
        let (g, x, y, kb, km) = lemma_bezout(b, m);
        assert(a * y + b * (x - q * y) == g) by (nonlinear_arith)
            requires
                b * x + m * y == g,
                a == b * q + m,
        ;
        assert(a == g * (q * kb + km)) by (nonlinear_arith)
            requires
                a == b * q + m,
                b == g * kb,
                m == g * km,
        ;
        (g, y, x - q * y, q * kb + km, kb)
    }
}

/// Exactly the nonzero values below the prime modulus have inverses.
proof fn lemma_small_invertible(x: int)
    requires
        0 <= x < MODULUS,
    ensures
        invertible_mod(x, MODULUS as int) <==> x != 0,
{
    let n = MODULUS as int;
    if x == 0 {
        assert forall|v: int| 0 <= v < n implies !#[trigger] is_inverse_mod(v, x, n) by {
            assert(v * x == 0);
        }
    } else {
        let (g, s, t, kn, kx) = lemma_bezout(n, x);
        lemma_modulus_prime();
        vstd::arithmetic::div_mod::lemma_mod_multiples_basic(kn, g);
        assert(n == kn * g) by (nonlinear_arith)
            requires
                n == g * kn,
        ;
        assert(divides(g, n));
        assert(g <= n) by (nonlinear_arith)
            requires
                n == g * kn,
                g > 0,
                n > 0,
        ;
        if g == n {
            assert(false) by (nonlinear_arith)
                requires
                    x == g * kx,
                    g == n,
                    0 < x < n,
            ;
        }
        assert(g == 1);
        let v = t % n;
        vstd::arithmetic::div_mod::lemma_mul_mod_noop_right(x, t, n);
        vstd::arithmetic::div_mod::lemma_mod_multiples_vanish(s, x * t, n);
        assert(n * (-s) + 1 == x * t) by (nonlinear_arith)
            requires
                n * s + x * t == 1,
        ;
        vstd::arithmetic::div_mod::lemma_mod_multiples_vanish(-s, 1, n);
        assert((x * t) % n == 1);
        assert(v * x == x * v) by (nonlinear_arith);
        assert(is_inverse_mod(v, x, n));
        vstd::arithmetic::div_mod::lemma_mod_bound(t, n);
    }
}

/// The product of two values below the modulus, reduced.
fn mul_mod(a: u64, b: u64) -> (r: u64)
    requires
        a < MODULUS,
        b < MODULUS,
    ensures
        r == (a * b) % (MODULUS as int),
        r < MODULUS,
{
    assert(a * b < MODULUS * MODULUS) by (nonlinear_arith)
        requires
            a < MODULUS,
            b < MODULUS,
    ;
    (a * b) % MODULUS
}

/// The inverse of `a` modulo the modulus, by the extended Euclidean
/// algorithm, or `None` when `a` has none.
fn inverse_mod(a: u64) -> (r: Option<u64>)
    requires
        a < MODULUS,
    ensures
        r is Some <==> invertible_mod(a as int, MODULUS as int),
        r matches Some(v) ==> v < MODULUS && is_inverse_mod(v as int, a as int, MODULUS as int),
{
    let p: u64 = MODULUS;
    let mut r0: u64 = p;
    let mut r1: u64 = a;
    let mut t0: u64 = 0;
    let mut t1: u64 = 1;
    let ghost mut e0: int = -1;
    let ghost mut e1: int = 0;
    let ghost mut c0: int = 0;
    let ghost mut c1: int = 1;
    let ghost mut d0: int = 1;
    let ghost mut d1: int = 0;
    while r1 != 0
        invariant
            p == MODULUS,
            a < p,
            r0 <= p,
            r1 < p,
            t0 < p,
            t1 < p,
            t0 * a - r0 == e0 * p,
            t1 * a - r1 == e1 * p,
            a == c0 * r0 + c1 * r1,
            p == d0 * r0 + d1 * r1,
        decreases r1,
    {
        let q = r0 / r1;
        let r2 = r0 % r1;
        let qm = q % p;
        let s = mul_mod(qm, t1);
        let u = t0 + (p - s);
        let t2 = u % p;
        proof {
            let pi = p as int;
            lemma_fundamental_div_mod(q as int, pi);
            lemma_fundamental_div_mod((qm * t1) as int, pi);
            lemma_fundamental_div_mod(u as int, pi);
            lemma_fundamental_div_mod(r0 as int, r1 as int);
            let ka = q as int / pi;
            let kb = (qm * t1) as int / pi;
            let kc = u as int / pi;
            let w = 1 + ka * t1 + kb - kc;
            assert(t2 == t0 - q * t1 + pi * w) by (nonlinear_arith)
                requires
                    q == pi * ka + qm,
                    qm * t1 == pi * kb + s,
                    u == pi * kc + t2,
                    u == t0 + (pi - s),
                    w == 1 + ka * t1 + kb - kc,
            ;
            assert(t2 * a - r2 == (e0 - q * e1 + w * a) * pi) by (nonlinear_arith)
                requires
                    t2 == t0 - q * t1 + pi * w,
                    r0 == r1 * q + r2,
                    t0 * a - r0 == e0 * pi,
                    t1 * a - r1 == e1 * pi,
            ;
            assert(a == (c0 * q + c1) * r1 + c0 * r2) by (nonlinear_arith)
                requires
                    a == c0 * r0 + c1 * r1,
                    r0 == r1 * q + r2,
            ;
            assert(p == (d0 * q + d1) * r1 + d0 * r2) by (nonlinear_arith)
                requires
                    p == d0 * r0 + d1 * r1,
                    r0 == r1 * q + r2,
            ;
            let ne1 = e0 - q * e1 + w * a;
            e0 = e1;
            e1 = ne1;
            let nc0 = c0 * q + c1;
            c1 = c0;
            c0 = nc0;
            let nd0 = d0 * q + d1;
            d1 = d0;
            d0 = nd0;
        }
        r0 = r1;
        r1 = r2;
        t0 = t1;
        t1 = t2;
    }
    if r0 == 1 {
        proof {
            lemma_mod_multiples_vanish(e0, 1, p as int);
            assert(is_inverse_mod(t0 as int, a as int, p as int));
        }
        Some(t0)
    } else {
        proof {
            assert forall|v: int| 0 <= v < p implies !#[trigger] is_inverse_mod(v, a as int, p as int) by {
                if is_inverse_mod(v, a as int, p as int) {
                    lemma_fundamental_div_mod(v * a, p as int);
                    let k = (v * a) / (p as int);
                    assert(r0 * (v * c0 - k * d0) == 1) by (nonlinear_arith)
                        requires
                            v * a == p * k + 1,
                            a == c0 * r0,
                            p == d0 * r0,
                    ;
                    assert(false) by (nonlinear_arith)
                        requires
                            r0 * (v * c0 - k * d0) == 1,
                            r0 != 1,
                            r0 >= 0,
                    ;
                }
            }
        }
        None
    }
}

/// An element of the field of integers modulo 2^31 - 1.
#[derive(Clone, Copy, Debug)]
pub struct SmallField {
    v: u64,
}

impl SmallField {
    /// The element that stands for `n` modulo the modulus.
    pub fn new(n: u64) -> (r: Self)
        ensures
            r.value() == n as int % MODULUS as int,
    {
        SmallField { v: n % MODULUS }
    }

    /// The element as an integer below the modulus.
    pub fn as_u64(&self) -> (r: u64)
        ensures
            r == self.value(),
    {
        self.v % MODULUS
    }
}

impl PrimeField for SmallField {
    open spec fn modulus() -> int {
        MODULUS as int
    }

    closed spec fn value(&self) -> int {
        self.v as int % MODULUS as int
    }

    open spec fn byte_len() -> nat {
        8
    }

    open spec fn bit_size() -> nat {
        31
    }

    open spec fn encode(v: int) -> Seq<u8> {
        encode_small(v)
    }

    open spec fn decode(bytes: Seq<u8>) -> Option<int> {
        decode_small(bytes)
    }

    proof fn lemma_encode(v: int) {
        lemma_encode_small(v);
    }

    proof fn lemma_parameters() {
        reveal_with_fuel(vstd::arithmetic::power::pow, 9);
        vstd::arithmetic::power2::lemma2_to64();
    }

    proof fn lemma_value_range(x: &Self) {
    }

    proof fn lemma_nonzero_invertible(x: int) {
        lemma_small_invertible(x);
    }

    proof fn lemma_decode(bytes: Seq<u8>) {
        if bytes.len() == 8 {
            assert(bytes.take(8) =~= bytes);
        }
    }

    fn zero() -> (r: Self) {
        SmallField { v: 0 }
    }

    fn one() -> (r: Self) {
        SmallField { v: 1 }
    }

    fn add(&self, other: &Self) -> (r: Self) {
        SmallField { v: (self.v % MODULUS + other.v % MODULUS) % MODULUS }
    }

    fn mul(&self, other: &Self) -> (r: Self) {
        SmallField { v: mul_mod(self.v % MODULUS, other.v % MODULUS) }
    }

    fn inverse(&self) -> (r: Option<Self>) {
        proof {
            lemma_small_invertible(self.value());
        }
        match inverse_mod(self.v % MODULUS) {
            Some(v) => Some(SmallField { v }),
            None => None,
        }
    }

    fn equals(&self, other: &Self) -> (r: bool) {
        self.v % MODULUS == other.v % MODULUS
    }

    fn size_in_bits() -> (r: usize) {
        31
    }

    fn to_bytes(&self) -> (r: Vec<u8>) {
        encode_value(self.v % MODULUS)
    }

    fn read(bytes: &[u8]) -> (r: Option<Self>) {
        match decode_bytes(bytes) {
            Some(x) => Some(SmallField { v: x }),
            None => None,
        }
    }

    fn rand(rng: &mut StdRng) -> (r: Self) {
        SmallField { v: random_below(rng, MODULUS) }
    }
}

/// An element of the additive group of the field modulo 2^31 - 1, generated
/// by 1: the element with representative `v` has discrete logarithm `v`. Its
/// x-coordinate is `v`; of the two candidates for an x-coordinate, the one in
/// the group is named by the selector `v > (2^31 - 2) / 2`.
#[derive(Clone, Copy, Debug)]
pub struct SmallGroup {
    v: u64,
}

impl SmallGroup {
    /// The element with discrete logarithm `n` modulo the order.
    pub fn new(n: u64) -> (r: Self)
        ensures
            r.dlog() == n as int % MODULUS as int,
    {
        SmallGroup { v: n % MODULUS }
    }

    /// The discrete logarithm of the element.
    pub fn as_u64(&self) -> (r: u64)
        ensures
            r == self.dlog(),
    {
        self.v % MODULUS
    }
}

/// Whether the group element with x-coordinate `x` is the candidate named by
/// the selector `true`: here, the elements above half the modulus.
pub open spec fn small_selector(x: int) -> bool {
    x > (MODULUS - 1) / 2
}

impl PrimeOrderGroup for SmallGroup {
    type ScalarField = SmallField;

    closed spec fn dlog(&self) -> int {
        self.v as int % MODULUS as int
    }

    open spec fn encode(d: int) -> Seq<u8> {
        encode_small(d)
    }

    open spec fn decode(bytes: Seq<u8>) -> Option<int> {
        decode_small(bytes)
    }

    open spec fn x_len() -> nat {
        8
    }

    open spec fn x_encode(d: int) -> Seq<u8> {
        encode_small(d)
    }

    open spec fn is_x(bytes: Seq<u8>) -> bool {
        bytes.len() == 8 && le_value(bytes) < MODULUS
    }

    open spec fn from_x(bytes: Seq<u8>, greatest: bool) -> Option<int> {
        if Self::is_x(bytes) && greatest == small_selector(le_value(bytes) as int) {
            Some(le_value(bytes) as int)
        } else {
            None
        }
    }

    proof fn lemma_dlog_range(x: &Self) {
    }

    proof fn lemma_encodings(d: int) {
        lemma_encode_small(d);
    }

    proof fn lemma_decodings(bytes: Seq<u8>, greatest: bool) {
        if Self::from_x(bytes, greatest) is Some {
            lemma_small_canonical(bytes);
        }
    }

    fn zero() -> (r: Self) {
        SmallGroup { v: 0 }
    }

    fn add(&self, other: &Self) -> (r: Self) {
        SmallGroup { v: (self.v % MODULUS + other.v % MODULUS) % MODULUS }
    }

    fn sub(&self, other: &Self) -> (r: Self) {
        SmallGroup { v: (self.v % MODULUS + (MODULUS - other.v % MODULUS)) % MODULUS }
    }

    fn mul(&self, scalar: &SmallField) -> (r: Self) {
        SmallGroup { v: mul_mod(self.v % MODULUS, scalar.as_u64()) }
    }

    fn equals(&self, other: &Self) -> (r: bool) {
        self.v % MODULUS == other.v % MODULUS
    }

    fn to_bytes(&self) -> (r: Vec<u8>) {
        encode_value(self.v % MODULUS)
    }

    fn from_bytes(bytes: &[u8]) -> (r: Option<Self>) {
        match decode_bytes(bytes) {
            Some(x) => Some(SmallGroup { v: x }),
            None => None,
        }
    }

    fn x_coordinate_len() -> (r: usize) {
        8
    }

    fn x_coordinate_bytes(&self) -> (r: Vec<u8>) {
        encode_value(self.v % MODULUS)
    }

    fn is_x_coordinate(bytes: &[u8]) -> (r: bool) {
        bytes.len() == 8 && decode_eight(bytes).is_some()
    }

    fn from_x_coordinate(bytes: &[u8], greatest: bool) -> (r: Option<Self>) {
        if bytes.len() != 8 {
            return None;
        }
        let x: u64 = match decode_eight(bytes) {
            Some(x) => x,
            None => {
                return None;
            },
        };
        if greatest == (x > (MODULUS - 1) / 2) {
            Some(SmallGroup { v: x })
        } else {
            None
        }
    }

    fn rand(rng: &mut StdRng) -> (r: Self) {
        SmallGroup { v: random_below(rng, MODULUS) }
    }
}

} // verus!
