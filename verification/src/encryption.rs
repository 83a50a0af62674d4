//! Group-based public-key encryption of sequences of group elements.
//!
//! A private key is a scalar `s`; its public key is `s·G` for a generator
//! `G`, computed from the doubling chain `G, 2G, 4G, ...` selected by the bits
//! of `s`. To encrypt a message `m_1 .. m_n` with randomness `r`, the sender
//! forms `c_0 = r·G` and the shared key `K = r·pk`, reads the x-coordinate of
//! `K` as a scalar `z`, and sends `c_i = m_i + K / (z + i)`. The holder of `s`
//! recovers `K = s·c_0` and with it each `m_i`.

use vstd::prelude::*;
use vstd::arithmetic::power2::{pow2, lemma_pow2_unfold, lemma2_to64};
use vstd::arithmetic::div_mod::{
    lemma_mod_bound,
    lemma_mod_twice,
    lemma_add_mod_noop,
    lemma_mul_mod_noop_left,
    lemma_small_mod,
};
use crate::bits::{
    bits_value,
    bytes_to_bits,
    lemma_bits_value_push,
    lemma_bytes_to_bits_value,
    spec_bytes_to_bits,
};
use crate::field::{PrimeField, round_up_64, inverse_of, is_inverse_mod};
use crate::group::PrimeOrderGroup;
use rand::rngs::StdRng;

verus! {

/// The order of the group `G`, the modulus of its scalar field.
pub open spec fn order<G: PrimeOrderGroup>() -> int {
    G::ScalarField::modulus()
}

/// The logarithm of the sum of those of the first `n` elements of `powers`
/// whose bit in `bits` is set.
pub open spec fn masked_sum<G: PrimeOrderGroup>(bits: Seq<bool>, powers: Seq<G>, n: nat) -> int
    decreases n,
{
    if n == 0 {
        0
    } else {
        (masked_sum(bits, powers, (n - 1) as nat) + (if bits[n - 1] {
            powers[n - 1].dlog()
        } else {
            0
        })) % order::<G>()
    }
}

/// The bits of the canonical encoding of the scalar with value `s`.
pub open spec fn scalar_bits<G: PrimeOrderGroup>(s: int) -> Seq<bool> {
    spec_bytes_to_bits(G::ScalarField::encode(s))
}

/// The logarithm of the sum of the powers selected by the bits of scalar `s`.
pub open spec fn power_combination<G: PrimeOrderGroup>(powers: Seq<G>, s: int) -> int {
    masked_sum(scalar_bits::<G>(s), powers, powers.len())
}

/// Each element is twice the one before it: `powers[i] = 2^i · powers[0]`.
pub open spec fn is_doubling_chain<G: PrimeOrderGroup>(powers: Seq<G>) -> bool {
    forall|i: int|
        0 <= i < powers.len() ==> #[trigger] powers[i].dlog() == (pow2(i as nat) * powers[0].dlog())
            % order::<G>()
}

/// The public parameters: the powers `G, 2G, 4G, ...` of a generator.
pub struct GroupEncryptionParameters<G: PrimeOrderGroup> {
    pub generator_powers: Vec<G>,
}

/// Errors of the encryption scheme.
#[derive(Debug, Clone, Copy, PartialEq, Eq)]
pub enum EncryptionError {
    /// Some `z + i` has no inverse.
    MissingInverse,
    /// The x-coordinate of the shared key does not read as a scalar.
    InvalidSharedKey,
    /// A ciphertext element does not read as a group element.
    InvalidCiphertextElement,
    /// No usable randomness was drawn.
    RandomnessExhausted,
    /// The bytes do not hold the x-coordinate of a group element.
    InvalidPublicKey,
}

impl<G: PrimeOrderGroup> GroupEncryptionParameters<G> {
    /// Draws a generator and lists its first `private_key_size_in_bits`
    /// doublings, rounded up to a multiple of 64.
    pub fn setup(rng: &mut StdRng, private_key_size_in_bits: usize) -> (r: Self)
        requires
            private_key_size_in_bits <= usize::MAX - 63,
        ensures
            r.generator_powers.len() == round_up_64(private_key_size_in_bits as nat),
            is_doubling_chain(r.generator_powers@),
    {
        let num_powers: usize = (private_key_size_in_bits + 63) / 64 * 64;
        let mut generator_powers: Vec<G> = Vec::new();
        let first = G::rand(rng);
        let mut generator = first;
        let ghost g = first.dlog();
        proof {
            G::lemma_dlog_range(&first);
            lemma2_to64();
            lemma_small_mod(g as nat, order::<G>() as nat);
        }
        let mut i: usize = 0;
        while i < num_powers
            invariant
                i <= num_powers,
                num_powers == round_up_64(private_key_size_in_bits as nat),
                generator_powers.len() == i,
                g == first.dlog(),
                0 <= g < order::<G>(),
                i > 0 ==> generator_powers@[0].dlog() == g,
                generator.dlog() == (pow2(i as nat) * g) % order::<G>(),
                forall|j: int|
                    0 <= j < i ==> #[trigger] generator_powers@[j].dlog() == (pow2(j as nat) * g)
                        % order::<G>(),
            decreases num_powers - i,
        {
            generator_powers.push(generator);
            let doubled = generator.add(&generator);
            proof {
                G::lemma_dlog_range(&generator);
                let m = order::<G>();
                let x = pow2(i as nat) * g;
                lemma_pow2_unfold((i + 1) as nat);
                lemma_add_mod_noop(x, x, m);
                assert(pow2((i + 1) as nat) * g == x + x) by (nonlinear_arith)
                    requires
                        pow2((i + 1) as nat) == 2 * pow2(i as nat),
                        x == pow2(i as nat) * g,
                ;
                if i == 0 {
                    lemma2_to64();
                    lemma_small_mod(g as nat, m as nat);
                    assert(generator_powers@[0].dlog() == g);
                }
            }
            generator = doubled;
            i = i + 1;
        }
        GroupEncryptionParameters { generator_powers }
    }
}

/// The sum of the powers selected by `bits`, pairing bit `i` with power `i`.
fn combine_powers<G: PrimeOrderGroup>(bits: &Vec<bool>, powers: &Vec<G>) -> (r: G)
    requires
        bits.len() == powers.len(),
    ensures
        r.dlog() == masked_sum(bits@, powers@, powers.len() as nat),
{
    let mut acc = G::zero();
    let mut i: usize = 0;
    while i < powers.len()
        invariant
            bits.len() == powers.len(),
            i <= powers.len(),
            acc.dlog() == masked_sum(bits@, powers@, i as nat),
        decreases powers.len() - i,
    {
        proof {
            G::lemma_dlog_range(&acc);
            G::ScalarField::lemma_parameters();
            lemma_small_mod(acc.dlog() as nat, order::<G>() as nat);
        }
        if bits[i] {
            acc = acc.add(&powers[i]);
        }
        i = i + 1;
    }
    acc
}

/// A masked sum is the logarithm of an element: it lies in `0..order`.
pub proof fn lemma_masked_sum_range<G: PrimeOrderGroup>(bits: Seq<bool>, powers: Seq<G>, n: nat)
    ensures
        0 <= masked_sum(bits, powers, n) < order::<G>(),
{
    G::ScalarField::lemma_parameters();
    if n > 0 {
        lemma_mod_bound(
            masked_sum(bits, powers, (n - 1) as nat) + (if bits[n - 1] {
                powers[n - 1].dlog()
            } else {
                0
            }),
            order::<G>(),
        );
    }
}

/// Bit `i` of the scalar selects the `i`-th power of a doubling chain, so the
/// selected powers add up to the scalar times the generator.
pub proof fn lemma_masked_sum_doubling<G: PrimeOrderGroup>(bits: Seq<bool>, powers: Seq<G>, n: nat)
    requires
        is_doubling_chain(powers),
        n <= powers.len(),
        n <= bits.len(),
        powers.len() > 0,
    ensures
        masked_sum(bits, powers, n) == (bits_value(bits.take(n as int)) * powers[0].dlog()) % order::<
            G,
        >(),
    decreases n,
{
    let m = order::<G>();
    let g = powers[0].dlog();
    G::lemma_dlog_range(&powers[0]);
    G::ScalarField::lemma_parameters();
    if n == 0 {
        reveal_with_fuel(bits_value, 1);
        assert(bits.take(0).len() == 0);
        assert(bits_value(bits.take(0)) == 0);
        lemma_small_mod(0, m as nat);
        assert(0 * g == 0);
        assert(masked_sum(bits, powers, n) == (bits_value(bits.take(n as int)) * g) % m);
    } else {
        let k = (n - 1) as nat;
        lemma_masked_sum_doubling(bits, powers, k);
        assert(bits.take(n as int) =~= bits.take(k as int).push(bits[k as int]));
        lemma_bits_value_push(bits.take(k as int), bits[k as int]);
        let a = bits_value(bits.take(k as int));
        let p = pow2(k);
        assert(powers[k as int].dlog() == (p * g) % m);
        if bits[k as int] {
            lemma_add_mod_noop(a * g, p * g, m);
            lemma_mod_twice(a * g, m);
            lemma_mod_twice(p * g, m);
            assert((a + p) * g == a * g + p * g) by (nonlinear_arith);
            assert(bits_value(bits.take(n as int)) == a + p);
            assert(masked_sum(bits, powers, n) == (masked_sum(bits, powers, k) + (p * g) % m) % m);
            assert(masked_sum(bits, powers, n) == (bits_value(bits.take(n as int)) * g) % m);
        } else {
            lemma_mod_twice(a * g, m);
            assert(bits_value(bits.take(n as int)) == a);
            assert(masked_sum(bits, powers, n) == (masked_sum(bits, powers, k) + 0) % m);
            assert(masked_sum(bits, powers, n) == (bits_value(bits.take(n as int)) * g) % m);
        }
    }
}

/// Over a doubling chain as long as the scalar's bits, the selected powers add
/// up to `s` times the generator.
pub proof fn lemma_power_combination<G: PrimeOrderGroup>(powers: Seq<G>, s: int)
    requires
        is_doubling_chain(powers),
        powers.len() == 8 * G::ScalarField::byte_len(),
        0 <= s < order::<G>(),
    ensures
        power_combination(powers, s) == (s * powers[0].dlog()) % order::<G>(),
{
    G::ScalarField::lemma_encode(s);
    G::ScalarField::lemma_parameters();
    let bits = scalar_bits::<G>(s);
    lemma_masked_sum_doubling(bits, powers, powers.len());
    assert(bits.take(powers.len() as int) =~= bits);
    lemma_bytes_to_bits_value(G::ScalarField::encode(s));
}

/// The logarithm of the shared key `r · pk`.
pub open spec fn shared_key<G: PrimeOrderGroup>(pk: int, r: int) -> int {
    (pk * r) % order::<G>()
}

/// The scalar read from the x-coordinate of the element with logarithm `key`.
pub open spec fn key_scalar<G: PrimeOrderGroup>(key: int) -> Option<int> {
    G::ScalarField::decode(G::x_encode(key))
}

/// `z + i` is nonzero, and so invertible, for each `i` in `1..=n`.
pub open spec fn all_nonzero<G: PrimeOrderGroup>(z: int, n: int) -> bool {
    forall|i: int| 1 <= i <= n ==> #[trigger] ((z + i) % order::<G>()) != 0
}

/// The blinding exponents `1 / (z + i)` for `i` in `1..=n`, where `z` is read
/// from the shared key `key`.
pub open spec fn blinding_exponents_spec<G: PrimeOrderGroup>(key: int, n: nat) -> Result<
    Seq<int>,
    EncryptionError,
> {
    match key_scalar::<G>(key) {
        None => Err(EncryptionError::InvalidSharedKey),
        Some(z) => if all_nonzero::<G>(z, n as int) {
            Ok(
                Seq::new(
                    n,
                    |j: int| inverse_of((z + j + 1) % order::<G>(), order::<G>()),
                ),
            )
        } else {
            Err(EncryptionError::MissingInverse)
        },
    }
}

/// Each blinding exponent is the inverse of its `z + i`: where the exponents
/// exist, exponent `j` times `z + j + 1` is 1 modulo the order.
pub proof fn lemma_blinding_exponents_are_inverses<G: PrimeOrderGroup>(key: int, n: nat)
    requires
        blinding_exponents_spec::<G>(key, n) is Ok,
    ensures
        ({
            let b = blinding_exponents_spec::<G>(key, n)->Ok_0;
            let z = key_scalar::<G>(key)->Some_0;
            &&& b.len() == n
            &&& forall|j: int|
                0 <= j < n ==> 0 <= #[trigger] b[j] < order::<G>() && is_inverse_mod(
                    b[j],
                    (z + j + 1) % order::<G>(),
                    order::<G>(),
                )
        }),
{
    let m = order::<G>();
    G::ScalarField::lemma_parameters();
    let b = blinding_exponents_spec::<G>(key, n)->Ok_0;
    let z = key_scalar::<G>(key)->Some_0;
    assert forall|j: int| 0 <= j < n implies 0 <= #[trigger] b[j] < m && is_inverse_mod(
        b[j],
        (z + j + 1) % m,
        m,
    ) by {
        let x = (z + j + 1) % m;
        assert((z + (j + 1)) % m != 0);
        lemma_mod_bound(z + j + 1, m);
        G::ScalarField::lemma_nonzero_invertible(x);
    }
}

/// The ciphertext of `message` under public key `pk` with randomness `r`: the
/// encoding of `r·G`, then for each message element `m_i` the encoding of
/// `K·b_i + m_i`, with `K` the shared key and `b_i` the blinding exponents.
pub open spec fn encrypt_spec<G: PrimeOrderGroup>(
    powers: Seq<G>,
    pk: int,
    r: int,
    message: Seq<G>,
) -> Result<Seq<Seq<u8>>, EncryptionError> {
    let key = shared_key::<G>(pk, r);
    match blinding_exponents_spec::<G>(key, message.len()) {
        Err(e) => Err(e),
        Ok(b) => Ok(
            seq![G::encode(power_combination(powers, r))] + Seq::new(
                message.len(),
                |i: int| G::encode(((key * b[i]) % order::<G>() + message[i].dlog()) % order::<G>()),
            ),
        ),
    }
}

/// Element `k` of the ciphertext can be decrypted: `z + k` is nonzero, and so
/// invertible, and the element reads as a group element.
pub open spec fn decrypt_step_ok<G: PrimeOrderGroup>(z: int, ct: Seq<Seq<u8>>, k: int) -> bool {
    &&& (z + k) % order::<G>() != 0
    &&& G::decode(ct[k]) is Some
}

/// The error at an element that cannot be decrypted.
pub open spec fn decrypt_step_error<G: PrimeOrderGroup>(z: int, k: int) -> EncryptionError {
    if (z + k) % order::<G>() != 0 {
        EncryptionError::InvalidCiphertextElement
    } else {
        EncryptionError::MissingInverse
    }
}

/// `k` is the first element after the leading one that cannot be decrypted.
pub open spec fn first_failure<G: PrimeOrderGroup>(z: int, ct: Seq<Seq<u8>>, k: int) -> bool {
    &&& 1 <= k < ct.len()
    &&& !decrypt_step_ok::<G>(z, ct, k)
    &&& forall|j: int| 1 <= j < k ==> #[trigger] decrypt_step_ok::<G>(z, ct, j)
}

/// The message element recovered from ciphertext element `k`.
pub open spec fn decrypted_element<G: PrimeOrderGroup>(z: int, key: int, ct: Seq<Seq<u8>>, k: int) -> int {
    (G::decode(ct[k])->0 - (key * inverse_of((z + k) % order::<G>(), order::<G>())) % order::<G>())
        % order::<G>()
}

/// The decryption of `ct` with private key `s`: `K = s · c_0`, then each
/// `c_i - K·b_i`; or the error met first.
pub open spec fn decrypt_spec<G: PrimeOrderGroup>(s: int, ct: Seq<Seq<u8>>) -> Result<
    Seq<int>,
    EncryptionError,
> {
    match G::decode(ct[0]) {
        None => Err(EncryptionError::InvalidCiphertextElement),
        Some(c0) => {
            let key = (c0 * s) % order::<G>();
            match key_scalar::<G>(key) {
                None => Err(EncryptionError::InvalidSharedKey),
                Some(z) => if forall|k: int| 1 <= k < ct.len() ==> #[trigger] decrypt_step_ok::<G>(z, ct, k) {
                    Ok(Seq::new((ct.len() - 1) as nat, |j: int| decrypted_element::<G>(z, key, ct, j + 1)))
                } else {
                    Err(decrypt_step_error::<G>(z, choose|k: int| first_failure::<G>(z, ct, k)))
                },
            }
        },
    }
}

/// The values of a sequence of scalars.
pub open spec fn scalar_values<F: PrimeField>(v: Seq<F>) -> Seq<int> {
    v.map_values(|x: F| x.value())
}

/// The logarithms of a sequence of group elements.
pub open spec fn dlogs<G: PrimeOrderGroup>(v: Seq<G>) -> Seq<int> {
    v.map_values(|x: G| x.dlog())
}

/// The contents of a sequence of byte vectors.
pub open spec fn byte_strings(v: Seq<Vec<u8>>) -> Seq<Seq<u8>> {
    v.map_values(|b: Vec<u8>| b@)
}

/// A public key: the private key times the generator.
pub struct GroupEncryptionPublicKey<G: PrimeOrderGroup>(pub G);

/// The public key read from the front of `b`: an x-coordinate, recovered
/// with the selector `true` if that names a group element, else with `false`.
pub open spec fn public_key_decode<G: PrimeOrderGroup>(b: Seq<u8>) -> Option<int> {
    if b.len() < G::x_len() {
        None
    } else {
        let x = b.take(G::x_len() as int);
        if !G::is_x(x) {
            None
        } else if G::from_x(x, true) is Some {
            G::from_x(x, true)
        } else {
            G::from_x(x, false)
        }
    }
}

impl<G: PrimeOrderGroup> GroupEncryptionPublicKey<G> {
    /// Writes the x-coordinate of the public key.
    pub fn write(&self) -> (r: Vec<u8>)
        ensures
            r@ == G::x_encode(self.0.dlog()),
    {
        self.0.x_coordinate_bytes()
    }

    /// Reads a public key from its x-coordinate at the front of `bytes`.
    pub fn read(bytes: &[u8]) -> (r: Result<Self, EncryptionError>)
        ensures
            public_key_decode::<G>(bytes@) matches Some(d) ==> (r matches Ok(pk) && pk.0.dlog() == d),
            public_key_decode::<G>(bytes@) is None ==> r == Err::<Self, EncryptionError>(
                EncryptionError::InvalidPublicKey,
            ),
            r matches Ok(pk) ==> G::x_encode(pk.0.dlog()) == bytes@.take(G::x_len() as int),
    {
        proof {
            if bytes.len() >= G::x_len() {
                G::lemma_decodings(bytes@.take(G::x_len() as int), true);
                G::lemma_decodings(bytes@.take(G::x_len() as int), false);
            }
        }
        let len = G::x_coordinate_len();
        if bytes.len() < len {
            return Err(EncryptionError::InvalidPublicKey);
        }
        let x = crate::varint::slice_range(bytes, 0, len);
        assert(x@ =~= bytes@.take(len as int));
        if !G::is_x_coordinate(x) {
            return Err(EncryptionError::InvalidPublicKey);
        }
        match G::from_x_coordinate(x, true) {
            Some(e) => {
                return Ok(GroupEncryptionPublicKey(e));
            },
            None => {},
        }
        match G::from_x_coordinate(x, false) {
            Some(e) => Ok(GroupEncryptionPublicKey(e)),
            None => Err(EncryptionError::InvalidPublicKey),
        }
    }
}

impl<G: PrimeOrderGroup> Default for GroupEncryptionPublicKey<G> {
    /// The identity element.
    fn default() -> (r: Self)
        ensures
            r.0.dlog() == 0,
    {
        GroupEncryptionPublicKey(G::zero())
    }
}

/// A written public key reads back as the same key, whatever follows it.
pub proof fn lemma_public_key_roundtrip<G: PrimeOrderGroup>(d: int, rest: Seq<u8>)
    requires
        0 <= d < order::<G>(),
    ensures
        public_key_decode::<G>(G::x_encode(d) + rest) == Some(d),
{
    G::lemma_encodings(d);
    let b = G::x_encode(d) + rest;
    assert(b.take(G::x_len() as int) =~= G::x_encode(d));
}

/// A public-key encryption scheme for sequences of texts.
pub trait EncryptionScheme: Sized {
    type Parameters;
    type PrivateKey;
    type PublicKey;
    type Text;
    type Randomness;
    type BlindingExponent;

    /// The parameters suit private keys of the scheme's size.
    spec fn ready(&self) -> bool;

    fn setup(rng: &mut StdRng) -> (r: Self)
        ensures
            r.ready(),
    ;

    fn generate_private_key(&self, rng: &mut StdRng) -> Self::PrivateKey;

    fn generate_public_key(&self, private_key: &Self::PrivateKey) -> Result<
        Self::PublicKey,
        EncryptionError,
    >
        requires
            self.ready(),
    ;

    fn generate_randomness(&self, public_key: &Self::PublicKey, rng: &mut StdRng) -> Result<
        Self::Randomness,
        EncryptionError,
    >;

    fn generate_blinding_exponents(
        &self,
        public_key: &Self::PublicKey,
        randomness: &Self::Randomness,
        message_length: usize,
    ) -> Result<Vec<Self::BlindingExponent>, EncryptionError>;

    fn encrypt(
        &self,
        public_key: &Self::PublicKey,
        randomness: &Self::Randomness,
        message: &[Self::Text],
    ) -> Result<Vec<Vec<u8>>, EncryptionError>
        requires
            self.ready(),
    ;

    fn decrypt(&self, private_key: &Self::PrivateKey, ciphertext: &[Vec<u8>]) -> Result<
        Vec<Self::Text>,
        EncryptionError,
    >
        requires
            ciphertext.len() > 0,
    ;

    fn parameters(&self) -> &Self::Parameters;

    fn private_key_size_in_bits() -> usize;
}

/// The encryption scheme over the group `G`, with its parameters.
pub struct GroupEncryption<G: PrimeOrderGroup> {
    pub parameters: GroupEncryptionParameters<G>,
}

impl<G: PrimeOrderGroup> GroupEncryption<G> {
    /// The parameters are well formed: a doubling chain with one power per bit
    /// of an encoded scalar.
    pub open spec fn well_formed(&self) -> bool {
        &&& self.parameters.generator_powers.len() == 8 * G::ScalarField::byte_len()
        &&& is_doubling_chain(self.parameters.generator_powers@)
    }

    /// Wraps given parameters.
    pub fn from(parameters: GroupEncryptionParameters<G>) -> (r: Self)
        ensures
            r.parameters == parameters,
    {
        GroupEncryption { parameters }
    }

    /// The logarithm of the generator.
    pub open spec fn generator(&self) -> int {
        self.parameters.generator_powers@[0].dlog()
    }


    /// Whether `randomness` yields a shared key whose x-coordinate reads as a
    /// scalar, so that blinding exponents can be derived from it.
    pub fn is_usable_randomness(
        &self,
        public_key: &GroupEncryptionPublicKey<G>,
        randomness: &G::ScalarField,
    ) -> (r: bool)
        ensures
            r == key_scalar::<G>(shared_key::<G>(public_key.0.dlog(), randomness.value())) is Some,
    {
        let key = public_key.0.mul(randomness);
        let z_bytes = key.x_coordinate_bytes();
        G::ScalarField::read(&z_bytes).is_some()
    }

}

impl<G: PrimeOrderGroup> EncryptionScheme for GroupEncryption<G> {
    type Parameters = GroupEncryptionParameters<G>;
    type PrivateKey = G::ScalarField;
    type PublicKey = GroupEncryptionPublicKey<G>;
    type Text = G;
    type Randomness = G::ScalarField;
    type BlindingExponent = G::ScalarField;

    open spec fn ready(&self) -> bool {
        self.parameters.generator_powers.len() == 8 * G::ScalarField::byte_len()
    }

    /// Sets up parameters for private keys of the scalar field's size.
    fn setup(rng: &mut StdRng) -> (r: Self)
        ensures
            r.parameters.generator_powers.len() == round_up_64(G::ScalarField::bit_size()),
            r.well_formed(),
    {
        let bits = G::ScalarField::size_in_bits();
        proof {
            G::ScalarField::lemma_parameters();
        }
        GroupEncryption { parameters: GroupEncryptionParameters::setup(rng, bits) }
    }

    /// The parameters.
    fn parameters(&self) -> (r: &GroupEncryptionParameters<G>)
        ensures
            r == &self.parameters,
    {
        &self.parameters
    }

    /// The number of bits of a private key.
    fn private_key_size_in_bits() -> (r: usize)
        ensures
            r == G::ScalarField::bit_size(),
    {
        G::ScalarField::size_in_bits()
    }

    /// A uniformly drawn private key.
    fn generate_private_key(&self, rng: &mut StdRng) -> (r: G::ScalarField) {
        G::ScalarField::rand(rng)
    }

    /// The public key: the generator powers selected by the bits of the
    /// private key, added up.
    fn generate_public_key(&self, private_key: &G::ScalarField) -> (r: Result<
        GroupEncryptionPublicKey<G>,
        EncryptionError,
    >)
        ensures
            r matches Ok(pk) && pk.0.dlog() == power_combination(
                self.parameters.generator_powers@,
                private_key.value(),
            ),
            self.well_formed() ==> (r matches Ok(pk) && pk.0.dlog() == (private_key.value()
                * self.generator()) % order::<G>()),
    {
        let bytes = private_key.to_bytes();
        proof {
            G::ScalarField::lemma_value_range(private_key);
            G::ScalarField::lemma_parameters();
            G::ScalarField::lemma_encode(private_key.value());
        }
        let bits = bytes_to_bits(&bytes);
        let pk = combine_powers(&bits, &self.parameters.generator_powers);
        proof {
            if self.well_formed() {
                lemma_power_combination(self.parameters.generator_powers@, private_key.value());
            }
        }
        Ok(GroupEncryptionPublicKey(pk))
    }
    /// Draws randomness until it is usable with `public_key`; gives up, with
    /// `RandomnessExhausted`, only after `u64::MAX` unusable draws.
    fn generate_randomness(
        &self,
        public_key: &GroupEncryptionPublicKey<G>,
        rng: &mut StdRng,
    ) -> (r: Result<G::ScalarField, EncryptionError>)
        ensures
            r matches Ok(y) ==> key_scalar::<G>(shared_key::<G>(public_key.0.dlog(), y.value())) is Some,
            r matches Err(e) ==> e == EncryptionError::RandomnessExhausted,
    {
        let mut attempts: u64 = 0;
        while attempts < u64::MAX
            decreases u64::MAX - attempts,
        {
            let y = G::ScalarField::rand(rng);
            if self.is_usable_randomness(public_key, &y) {
                return Ok(y);
            }
            attempts = attempts + 1;
        }
        Err(EncryptionError::RandomnessExhausted)
    }

    /// The blinding exponents `1 / (z + i)`, `i` in `1..=message_length`, with
    /// `z` read from the x-coordinate of the shared key `randomness · pk`.
    fn generate_blinding_exponents(
        &self,
        public_key: &GroupEncryptionPublicKey<G>,
        randomness: &G::ScalarField,
        message_length: usize,
    ) -> (r: Result<Vec<G::ScalarField>, EncryptionError>)
        ensures
            r matches Ok(v) ==> blinding_exponents_spec::<G>(
                shared_key::<G>(public_key.0.dlog(), randomness.value()),
                message_length as nat,
            ) == Ok::<Seq<int>, EncryptionError>(scalar_values(v@)),
            r matches Err(e) ==> blinding_exponents_spec::<G>(
                shared_key::<G>(public_key.0.dlog(), randomness.value()),
                message_length as nat,
            ) == Err::<Seq<int>, EncryptionError>(e),
    {
        let key = public_key.0.mul(randomness);
        blinding_exponents_for_key(&key, message_length)
    }

    /// Encrypts `message` under `public_key` with `randomness`.
    fn encrypt(
        &self,
        public_key: &GroupEncryptionPublicKey<G>,
        randomness: &G::ScalarField,
        message: &[G],
    ) -> (r: Result<Vec<Vec<u8>>, EncryptionError>)
        ensures
            r matches Ok(ct) ==> encrypt_spec(
                self.parameters.generator_powers@,
                public_key.0.dlog(),
                randomness.value(),
                message@,
            ) == Ok::<Seq<Seq<u8>>, EncryptionError>(byte_strings(ct@)),
            r matches Err(e) ==> encrypt_spec(
                self.parameters.generator_powers@,
                public_key.0.dlog(),
                randomness.value(),
                message@,
            ) == Err::<Seq<Seq<u8>>, EncryptionError>(e),
            r matches Ok(ct) ==> ct.len() == message.len() + 1,
    {
        let key = public_key.0.mul(randomness);
        let r_bytes = randomness.to_bytes();
        proof {
            G::ScalarField::lemma_value_range(randomness);
            G::ScalarField::lemma_parameters();
            G::ScalarField::lemma_encode(randomness.value());
        }
        let r_bits = bytes_to_bits(&r_bytes);
        let c_0 = combine_powers(&r_bits, &self.parameters.generator_powers);
        let mut ciphertext: Vec<Vec<u8>> = Vec::new();
        ciphertext.push(c_0.to_bytes());
        let blinding_exponents = match blinding_exponents_for_key(&key, message.len()) {
            Ok(b) => b,
            Err(e) => {
                return Err(e);
            },
        };
        assert(scalar_values(blinding_exponents@).len() == blinding_exponents.len());
        let ghost m = order::<G>();
        let ghost kd = key.dlog();
        let mut i: usize = 0;
        while i < message.len()
            invariant
                m == order::<G>(),
                kd == key.dlog(),
                blinding_exponents.len() == message.len(),
                i <= message.len(),
                ciphertext.len() == i + 1,
                ciphertext@[0]@ == G::encode(c_0.dlog()),
                forall|t: int|
                    0 <= t < i ==> #[trigger] ciphertext@[t + 1]@ == G::encode(
                        ((kd * blinding_exponents@[t].value()) % m + message@[t].dlog()) % m,
                    ),
            decreases message.len() - i,
        {
            let h = key.mul(&blinding_exponents[i]);
            let c = h.add(&message[i]);
            ciphertext.push(c.to_bytes());
            i = i + 1;
        }
        proof {
            let spec_ct = encrypt_spec(
                self.parameters.generator_powers@,
                public_key.0.dlog(),
                randomness.value(),
                message@,
            );
            let b = blinding_exponents_spec::<G>(kd, message.len() as nat)->Ok_0;
            assert(b == scalar_values(blinding_exponents@));
            assert(byte_strings(ciphertext@) =~= spec_ct->Ok_0) by {
                assert forall|t: int| 0 <= t < ciphertext.len() implies byte_strings(ciphertext@)[t]
                    == spec_ct->Ok_0[t] by {
                    if t > 0 {
                        assert(ciphertext@[(t - 1) + 1]@ == G::encode(
                            ((kd * blinding_exponents@[t - 1].value()) % m + message@[t - 1].dlog()) % m,
                        ));
                    }
                }
            }
        }
        Ok(ciphertext)
    }

    /// Decrypts `ciphertext` with `private_key`.
    fn decrypt(&self, private_key: &G::ScalarField, ciphertext: &[Vec<u8>]) -> (r: Result<
        Vec<G>,
        EncryptionError,
    >)
        ensures
            r matches Ok(v) ==> decrypt_spec::<G>(private_key.value(), byte_strings(ciphertext@))
                == Ok::<Seq<int>, EncryptionError>(dlogs(v@)),
            r matches Err(e) ==> decrypt_spec::<G>(private_key.value(), byte_strings(ciphertext@))
                == Err::<Seq<int>, EncryptionError>(e),
            r matches Ok(v) ==> v.len() + 1 == ciphertext.len(),
    {
        let ghost ct = byte_strings(ciphertext@);
        let ghost m = order::<G>();
        proof {
            G::ScalarField::lemma_parameters();
            assert(ct[0] == ciphertext@[0]@);
        }
        let c_0 = match G::from_bytes(&ciphertext[0]) {
            Some(c) => c,
            None => {
                return Err(EncryptionError::InvalidCiphertextElement);
            },
        };
        let key = c_0.mul(private_key);
        let z_bytes = key.x_coordinate_bytes();
        let z = match G::ScalarField::read(&z_bytes) {
            Some(z) => z,
            None => {
                return Err(EncryptionError::InvalidSharedKey);
            },
        };
        let ghost zv = z.value();
        let ghost kd = key.dlog();
        assert(G::decode(ct[0]) == Some(c_0.dlog()));
        assert(key_scalar::<G>(kd) == Some(zv));
        let one = G::ScalarField::one();
        let mut i = G::ScalarField::one();
        let mut plaintext: Vec<G> = Vec::new();
        let mut k: usize = 1;
        proof {
            lemma_small_mod(1, m as nat);
        }
        while k < ciphertext.len()
            invariant
                m == order::<G>(),
                1 < m,
                ct == byte_strings(ciphertext@),
                ct.len() == ciphertext.len(),
                zv == z.value(),
                kd == key.dlog(),
                G::decode(ct[0]) == Some(c_0.dlog()),
                kd == (c_0.dlog() * private_key.value()) % m,
                key_scalar::<G>(kd) == Some(zv),
                one.value() == 1,
                1 <= k <= ciphertext.len(),
                i.value() == k as int % m,
                plaintext.len() == k - 1,
                forall|j: int| 1 <= j < k ==> #[trigger] decrypt_step_ok::<G>(zv, ct, j),
                forall|j: int|
                    1 <= j < k ==> #[trigger] plaintext@[j - 1].dlog() == decrypted_element::<G>(
                        zv,
                        kd,
                        ct,
                        j,
                    ),
            decreases ciphertext.len() - k,
        {
            let t = z.add(&i);
            proof {
                G::ScalarField::lemma_value_range(&z);
                vstd::arithmetic::div_mod::lemma_add_mod_noop_right(zv, k as int, m);
                assert(t.value() == (zv + k) % m);
                assert(ct[k as int] == ciphertext@[k as int]@);
            }
            let inv = match t.inverse() {
                Some(v) => v,
                None => {
                    proof {
                        lemma_first_failure::<G>(zv, ct, k as int);
                    }
                    return Err(EncryptionError::MissingInverse);
                },
            };
            proof {
                G::ScalarField::lemma_value_range(&inv);
                crate::field::lemma_inverse_of(inv.value(), t.value(), m);
            }
            let h = key.mul(&inv);
            let c = match G::from_bytes(&ciphertext[k]) {
                Some(c) => c,
                None => {
                    proof {
                        lemma_first_failure::<G>(zv, ct, k as int);
                    }
                    return Err(EncryptionError::InvalidCiphertextElement);
                },
            };
            let p = c.sub(&h);
            plaintext.push(p);
            proof {
                assert(decrypt_step_ok::<G>(zv, ct, k as int));
                assert(plaintext@[k - 1].dlog() == decrypted_element::<G>(zv, kd, ct, k as int));
                vstd::arithmetic::div_mod::lemma_add_mod_noop(k as int, 1, m);
                lemma_small_mod(1, m as nat);
            }
            i = i.add(&one);
            k = k + 1;
        }
        proof {
            let d = decrypt_spec::<G>(private_key.value(), ct);
            assert(dlogs(plaintext@) =~= d->Ok_0) by {
                assert forall|j: int| 0 <= j < plaintext.len() implies dlogs(plaintext@)[j]
                    == d->Ok_0[j] by {
                    assert(plaintext@[(j + 1) - 1].dlog() == decrypted_element::<G>(zv, kd, ct, j + 1));
                }
            }
        }
        Ok(plaintext)
    }
}

/// When every element before `k` decrypts and `k` does not, `k` is the
/// element the decryption stops at.
proof fn lemma_first_failure<G: PrimeOrderGroup>(z: int, ct: Seq<Seq<u8>>, k: int)
    requires
        1 <= k < ct.len(),
        !decrypt_step_ok::<G>(z, ct, k),
        forall|j: int| 1 <= j < k ==> #[trigger] decrypt_step_ok::<G>(z, ct, j),
    ensures
        (choose|k2: int| first_failure::<G>(z, ct, k2)) == k,
        !(forall|j: int| 1 <= j < ct.len() ==> #[trigger] decrypt_step_ok::<G>(z, ct, j)),
{
    assert(first_failure::<G>(z, ct, k));
    let k2 = choose|k2: int| first_failure::<G>(z, ct, k2);
    assert(first_failure::<G>(z, ct, k2));
    if k2 < k {
        assert(decrypt_step_ok::<G>(z, ct, k2));
    }
    if k2 > k {
        assert(decrypt_step_ok::<G>(z, ct, k));
    }
}

/// The blinding exponents for the shared key `key`.
fn blinding_exponents_for_key<G: PrimeOrderGroup>(key: &G, message_length: usize) -> (r: Result<
    Vec<G::ScalarField>,
    EncryptionError,
>)
    ensures
        r matches Ok(v) ==> blinding_exponents_spec::<G>(key.dlog(), message_length as nat) == Ok::<
            Seq<int>,
            EncryptionError,
        >(scalar_values(v@)),
        r matches Err(e) ==> blinding_exponents_spec::<G>(key.dlog(), message_length as nat) == Err::<
            Seq<int>,
            EncryptionError,
        >(e),
{
    let ghost m = order::<G>();
    proof {
        G::ScalarField::lemma_parameters();
    }
    let z_bytes = key.x_coordinate_bytes();
    let z = match G::ScalarField::read(&z_bytes) {
        Some(z) => z,
        None => {
            return Err(EncryptionError::InvalidSharedKey);
        },
    };
    let ghost zv = z.value();
    assert(key_scalar::<G>(key.dlog()) == Some(zv));
    let one = G::ScalarField::one();
    let mut i = G::ScalarField::one();
    let mut exponents: Vec<G::ScalarField> = Vec::new();
    let mut k: usize = 0;
    proof {
        lemma_small_mod(1, m as nat);
    }
    while k < message_length
        invariant
            m == order::<G>(),
            1 < m,
            zv == z.value(),
            key_scalar::<G>(key.dlog()) == Some(zv),
            one.value() == 1,
            k <= message_length,
            i.value() == (k + 1) as int % m,
            exponents.len() == k,
            forall|j: int|
                1 <= j <= k ==> #[trigger] ((zv + j) % order::<G>()) != 0,
            forall|j: int|
                0 <= j < k ==> #[trigger] exponents@[j].value() == inverse_of((zv + j + 1) % m, m),
        decreases message_length - k,
    {
        let t = z.add(&i);
        proof {
            G::ScalarField::lemma_value_range(&z);
            vstd::arithmetic::div_mod::lemma_add_mod_noop_right(zv, k + 1, m);
            assert(t.value() == (zv + (k + 1)) % m);
        }
        match t.inverse() {
            Some(v) => {
                proof {
                    G::ScalarField::lemma_value_range(&v);
                    crate::field::lemma_inverse_of(v.value(), t.value(), m);
                }
                exponents.push(v);
            },
            None => {
                proof {
                    assert(((zv + (k + 1)) % m) == 0);
                    assert(!all_nonzero::<G>(zv, message_length as int));
                }
                return Err(EncryptionError::MissingInverse);
            },
        }
        proof {
            vstd::arithmetic::div_mod::lemma_add_mod_noop((k + 1) as int, 1, m);
            lemma_small_mod(1, m as nat);
        }
        i = i.add(&one);
        k = k + 1;
    }
    proof {
        let spec_b = blinding_exponents_spec::<G>(key.dlog(), message_length as nat);
        assert(all_nonzero::<G>(zv, message_length as int));
        assert(scalar_values(exponents@) =~= spec_b->Ok_0);
    }
    Ok(exponents)
}

/// The shared key the sender derives, `r · (s·G)`, equals the one the
/// receiver derives from `c_0 = r·G`, `s · (r·G)`.
pub proof fn lemma_shared_key_agreement<G: PrimeOrderGroup>(g: int, s: int, r: int)
    requires
        1 < order::<G>(),
    ensures
        shared_key::<G>((s * g) % order::<G>(), r) == (((r * g) % order::<G>()) * s) % order::<G>(),
{
    let m = order::<G>();
    lemma_mul_mod_noop_left(s * g, r, m);
    lemma_mul_mod_noop_left(r * g, s, m);
    assert((s * g) * r == (r * g) * s) by (nonlinear_arith);
}

/// Decryption undoes encryption: over well-formed parameters, a message that
/// encrypts under the public key of private key `s` decrypts with `s` to the
/// same group elements.
pub proof fn lemma_decrypt_encrypt<G: PrimeOrderGroup>(
    powers: Seq<G>,
    s: int,
    r: int,
    message: Seq<G>,
)
    requires
        is_doubling_chain(powers),
        powers.len() == 8 * G::ScalarField::byte_len(),
        0 <= s < order::<G>(),
        0 <= r < order::<G>(),
        encrypt_spec(powers, power_combination(powers, s), r, message) is Ok,
    ensures
        decrypt_spec::<G>(s, encrypt_spec(powers, power_combination(powers, s), r, message)->Ok_0)
            == Ok::<Seq<int>, EncryptionError>(dlogs(message)),
{
    let m = order::<G>();
    G::ScalarField::lemma_parameters();
    let g = powers[0].dlog();
    let pk = power_combination(powers, s);
    lemma_power_combination(powers, s);
    lemma_power_combination(powers, r);
    let c0 = power_combination(powers, r);
    let key = shared_key::<G>(pk, r);
    lemma_shared_key_agreement::<G>(g, s, r);
    assert(key == (c0 * s) % m);
    let n = message.len();
    let b = blinding_exponents_spec::<G>(key, n)->Ok_0;
    let z = key_scalar::<G>(key)->Some_0;
    let ct = encrypt_spec(powers, pk, r, message)->Ok_0;
    lemma_mod_bound(r * g, m);
    G::lemma_encodings(c0);
    assert(ct[0] == G::encode(c0));
    assert(G::decode(ct[0]) == Some(c0));
    assert forall|k: int| 1 <= k < ct.len() implies #[trigger] decrypt_step_ok::<G>(z, ct, k) by {
        let c = ((key * b[k - 1]) % m + message[k - 1].dlog()) % m;
        lemma_mod_bound((key * b[k - 1]) % m + message[k - 1].dlog(), m);
        G::lemma_encodings(c);
        assert(ct[k] == G::encode(c));
        assert((z + k) % m != 0);
    }
    let d = decrypt_spec::<G>(s, ct);
    assert(d->Ok_0 =~= dlogs(message)) by {
        assert forall|j: int| 0 <= j < n implies d->Ok_0[j] == dlogs(message)[j] by {
            let h = (key * b[j]) % m;
            let mj = message[j].dlog();
            let c = (h + mj) % m;
            lemma_mod_bound(h + mj, m);
            lemma_mod_bound(key * b[j], m);
            G::lemma_encodings(c);
            assert(ct[j + 1] == G::encode(c));
            assert(G::decode(ct[j + 1])->Some_0 == c);
            assert(b[j] == inverse_of((z + j + 1) % m, m));
            assert(decrypted_element::<G>(z, key, ct, j + 1) == (c - h) % m);
            vstd::arithmetic::div_mod::lemma_sub_mod_noop(h + mj, h, m);
            lemma_mod_twice(key * b[j], m);
            G::lemma_dlog_range(&message[j]);
            lemma_small_mod(mj as nat, m as nat);
            assert((c - h) % m == mj);
        }
    }
}

} // verus!
