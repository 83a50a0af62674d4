//! The public input of the inner circuit, as a sequence of field elements.

use vstd::prelude::*;
use vstd::bytes::{spec_u64_to_le_bytes, u64_to_le_bytes};
use vstd::arithmetic::power2::pow2;
use crate::bits::{le_value, lemma_le_value_append, lemma_le_value_bound, lemma_le_value_zero};
use crate::field::PrimeField;
use crate::r1cs::field_values;

verus! {

/// A 32-byte digest: a serial number, a commitment, a Merkle root.
pub type TransactionHash = [u8; 32];

/// An amount of credits, which may be negative as a balance.
#[derive(Clone, Copy, Debug, PartialEq, Eq)]
pub struct AleoAmount(pub i64);

/// The field elements of the system parameters: those of each commitment,
/// encryption, signature and hash scheme of the system.
pub struct SystemParameterElements<F: PrimeField> {
    pub account_commitment: Vec<F>,
    pub account_encryption: Vec<F>,
    pub account_signature: Vec<F>,
    pub record_commitment: Vec<F>,
    pub encrypted_record_crh: Vec<F>,
    pub program_verification_key_commitment: Vec<F>,
    pub local_data_crh: Vec<F>,
    pub serial_number_nonce: Vec<F>,
}

/// What the verifier of the inner circuit is given.
pub struct InnerCircuitVerifierInput<F: PrimeField> {
    /// Commitment, CRH, and signature parameters
    pub system_parameters: SystemParameterElements<F>,
    /// Ledger parameters and digest
    pub ledger_parameters: Vec<F>,
    pub ledger_digest: TransactionHash,
    /// Input record serial numbers
    pub old_serial_numbers: Vec<TransactionHash>,
    /// Output record commitments
    pub new_commitments: Vec<TransactionHash>,
    /// New encrypted record hashes
    pub new_encrypted_record_hashes: Vec<TransactionHash>,
    /// Program input commitment and local data root
    pub program_commitment: TransactionHash,
    pub local_data_root: TransactionHash,
    pub memo: [u8; 32],
    pub value_balance: AleoAmount,
    pub network_id: u8,
}

/// The number of bytes packed into one field element: all that fit below
/// the modulus whatever their values.
pub open spec fn capacity_bytes<F: PrimeField>() -> int {
    (F::bit_size() - 1) / 8
}

/// `bytes` cut into pieces of `capacity_bytes` (the last one possibly
/// shorter), each read as a little-endian integer.
pub open spec fn packed_bytes<F: PrimeField>(bytes: Seq<u8>) -> Seq<int>
    decreases bytes.len(),
{
    let cap = capacity_bytes::<F>();
    if bytes.len() == 0 || cap <= 0 {
        Seq::empty()
    } else if bytes.len() <= cap {
        seq![le_value(bytes) as int]
    } else {
        seq![le_value(bytes.take(cap)) as int] + packed_bytes::<F>(bytes.skip(cap))
    }
}

/// The concatenation of a sequence of sequences.
pub open spec fn concat_values(s: Seq<Seq<int>>) -> Seq<int>
    decreases s.len(),
{
    if s.len() == 0 {
        Seq::empty()
    } else {
        concat_values(s.drop_last()) + s.last()
    }
}

/// The packed serial numbers.
pub open spec fn serial_number_values<F: PrimeField>(sns: Seq<TransactionHash>) -> Seq<int> {
    concat_values(Seq::new(sns.len(), |i: int| packed_bytes::<F>(sns[i]@)))
}

/// The packed commitments, each followed by its encrypted record hash, for
/// as many pairs as both lists have.
pub open spec fn commitment_values<F: PrimeField>(
    cms: Seq<TransactionHash>,
    hashes: Seq<TransactionHash>,
) -> Seq<int> {
    let n = if cms.len() <= hashes.len() {
        cms.len()
    } else {
        hashes.len()
    };
    concat_values(Seq::new(n, |i: int| packed_bytes::<F>(cms[i]@) + packed_bytes::<F>(hashes[i]@)))
}

/// The field elements of the system parameters, in order.
pub open spec fn system_parameter_values<F: PrimeField>(p: SystemParameterElements<F>) -> Seq<int> {
    field_values(p.account_commitment@) + field_values(p.account_encryption@) + field_values(
        p.account_signature@,
    ) + field_values(p.record_commitment@) + field_values(p.encrypted_record_crh@) + field_values(
        p.program_verification_key_commitment@,
    ) + field_values(p.local_data_crh@) + field_values(p.serial_number_nonce@)
}

/// The public input as field elements: the system and ledger parameters, the
/// ledger digest, the serial numbers, the commitments with their encrypted
/// record hashes, the program commitment, the memo, the network id, the local
/// data root, and the value balance (as 8 little-endian bytes).
pub open spec fn verifier_input_values<F: PrimeField>(x: InnerCircuitVerifierInput<F>) -> Seq<int> {
    system_parameter_values(x.system_parameters) + field_values(x.ledger_parameters@) + packed_bytes::<
        F,
    >(x.ledger_digest@) + serial_number_values::<F>(x.old_serial_numbers@) + commitment_values::<F>(
        x.new_commitments@,
        x.new_encrypted_record_hashes@,
    ) + packed_bytes::<F>(x.program_commitment@) + packed_bytes::<F>(x.memo@) + packed_bytes::<F>(
        seq![x.network_id],
    ) + packed_bytes::<F>(x.local_data_root@) + packed_bytes::<F>(
        spec_u64_to_le_bytes(x.value_balance.0 as u64),
    )
}

/// The number of field elements a 32-byte digest packs into.
pub open spec fn digest_elements<F: PrimeField>() -> int {
    (32 + capacity_bytes::<F>() - 1) / capacity_bytes::<F>()
}

/// Where the commitments start in the public input: after the system and
/// ledger parameters, the ledger digest and the serial numbers.
pub open spec fn commitments_offset<F: PrimeField>(x: InnerCircuitVerifierInput<F>) -> int {
    let p = x.system_parameters;
    p.account_commitment.len() + p.account_encryption.len() + p.account_signature.len()
        + p.record_commitment.len() + p.encrypted_record_crh.len()
        + p.program_verification_key_commitment.len() + p.local_data_crh.len()
        + p.serial_number_nonce.len() + x.ledger_parameters.len() + (1 + x.old_serial_numbers.len())
        * digest_elements::<F>()
}

/// Packing `n` bytes gives `n / capacity` elements, rounded up.
proof fn lemma_packed_len<F: PrimeField>(bytes: Seq<u8>)
    requires
        capacity_bytes::<F>() > 0,
    ensures
        packed_bytes::<F>(bytes).len() == (bytes.len() + capacity_bytes::<F>() - 1)
            / capacity_bytes::<F>(),
    decreases bytes.len(),
{
    let c = capacity_bytes::<F>();
    let n = bytes.len() as int;
    if n == 0 {
        assert((c - 1) / c == 0) by (nonlinear_arith)
            requires
                c > 0,
        ;
    } else if n <= c {
        assert((n + c - 1) / c == 1) by (nonlinear_arith)
            requires
                0 < n <= c,
        ;
    } else {
        lemma_packed_len::<F>(bytes.skip(c));
        assert((n + c - 1) / c == 1 + (n - c + c - 1) / c) by (nonlinear_arith)
            requires
                c > 0,
                n > c,
        ;
    }
}

/// In a concatenation of sequences of length `l`, the `i`-th occupies the
/// positions `i·l .. (i+1)·l`.
proof fn lemma_concat_values_chunks(s: Seq<Seq<int>>, l: int)
    requires
        l >= 0,
        forall|i: int| 0 <= i < s.len() ==> #[trigger] s[i].len() == l,
    ensures
        concat_values(s).len() == s.len() * l,
        forall|i: int|
            0 <= i < s.len() ==> concat_values(s).subrange(i * l, (i + 1) * l) == #[trigger] s[i],
    decreases s.len(),
{
    if s.len() > 0 {
        let n = s.len() as int;
        let t = s.drop_last();
        assert forall|i: int| 0 <= i < t.len() implies #[trigger] t[i].len() == l by {
            assert(t[i] == s[i]);
        }
        lemma_concat_values_chunks(t, l);
        let c = concat_values(t);
        assert(concat_values(s) == c + s.last());
        vstd::arithmetic::mul::lemma_mul_is_distributive_add_other_way(l, n - 1, 1);
        assert forall|i: int| 0 <= i < s.len() implies concat_values(s).subrange(i * l, (i + 1) * l)
            == #[trigger] s[i] by {
            vstd::arithmetic::mul::lemma_mul_is_distributive_add_other_way(l, i, 1);
            vstd::arithmetic::mul::lemma_mul_nonnegative(i, l);
            if i < n - 1 {
                vstd::arithmetic::mul::lemma_mul_inequality(i + 1, n - 1, l);
                assert(c.subrange(i * l, (i + 1) * l) == t[i]);
                assert(concat_values(s).subrange(i * l, (i + 1) * l) =~= c.subrange(i * l, (i + 1) * l));
            } else {
                assert(concat_values(s).subrange(i * l, (i + 1) * l) =~= s.last());
            }
        }
    }
}

/// The commitments and their encrypted record hashes come interleaved: in
/// the public input, after the serial numbers, the elements of commitment `i`
/// are followed at once by those of encrypted record hash `i`, for each `i`
/// below the shorter of the two lists.
pub proof fn lemma_commitments_interleaved<F: PrimeField>(x: InnerCircuitVerifierInput<F>)
    ensures
        forall|i: int|
            0 <= i < x.new_commitments.len() && i < x.new_encrypted_record_hashes.len()
                ==> #[trigger] verifier_input_values(x).subrange(
                commitments_offset(x) + 2 * i * digest_elements::<F>(),
                commitments_offset(x) + (2 * i + 1) * digest_elements::<F>(),
            ) == packed_bytes::<F>(x.new_commitments@[i]@),
        forall|i: int|
            0 <= i < x.new_commitments.len() && i < x.new_encrypted_record_hashes.len()
                ==> #[trigger] verifier_input_values(x).subrange(
                commitments_offset(x) + (2 * i + 1) * digest_elements::<F>(),
                commitments_offset(x) + (2 * i + 2) * digest_elements::<F>(),
            ) == packed_bytes::<F>(x.new_encrypted_record_hashes@[i]@),
{
    F::lemma_parameters();
    let c = capacity_bytes::<F>();
    assert(c >= 1);
    let l = digest_elements::<F>();
    assert(l >= 1) by (nonlinear_arith)
        requires
            c >= 1,
            l == (32 + c - 1) / c,
    ;
    assert forall|h: TransactionHash| #[trigger] packed_bytes::<F>(h@).len() == l by {
        lemma_packed_len::<F>(h@);
    }
    let p = x.system_parameters;
    let sp = system_parameter_values(p);
    let lp = field_values(x.ledger_parameters@);
    let dig = packed_bytes::<F>(x.ledger_digest@);
    let sns = Seq::new(x.old_serial_numbers@.len(), |i: int| packed_bytes::<F>(x.old_serial_numbers@[i]@));
    assert forall|i: int| 0 <= i < sns.len() implies #[trigger] sns[i].len() == l by {
        assert(packed_bytes::<F>(x.old_serial_numbers@[i]@).len() == l);
    }
    lemma_concat_values_chunks(sns, l);
    let sn = serial_number_values::<F>(x.old_serial_numbers@);
    let cms = x.new_commitments@;
    let hs = x.new_encrypted_record_hashes@;
    let n = if cms.len() <= hs.len() { cms.len() } else { hs.len() };
    let pairs = Seq::new(n, |i: int| packed_bytes::<F>(cms[i]@) + packed_bytes::<F>(hs[i]@));
    assert forall|i: int| 0 <= i < pairs.len() implies #[trigger] pairs[i].len() == 2 * l by {
        assert(packed_bytes::<F>(cms[i]@).len() == l);
        assert(packed_bytes::<F>(hs[i]@).len() == l);
    }
    lemma_concat_values_chunks(pairs, 2 * l);
    let cmv = commitment_values::<F>(cms, hs);
    assert(cmv == concat_values(pairs));
    let prefix = sp + lp + dig + sn;
    let off = commitments_offset(x);
    assert(dig.len() == l);
    assert(prefix.len() == off) by {
        vstd::arithmetic::mul::lemma_mul_is_distributive_add_other_way(l, 1, x.old_serial_numbers.len() as int);
        assert(sn.len() == x.old_serial_numbers.len() * l);
    }
    let v = verifier_input_values(x);
    let tail = v.skip((prefix.len() + cmv.len()) as int);
    assert(v =~= prefix + cmv + tail);
    assert forall|i: int|
        0 <= i < x.new_commitments.len() && i < x.new_encrypted_record_hashes.len() implies {
            &&& v.subrange(off + 2 * i * l, off + (2 * i + 1) * l) == packed_bytes::<F>(cms[i]@)
            &&& v.subrange(off + (2 * i + 1) * l, off + (2 * i + 2) * l) == packed_bytes::<F>(hs[i]@)
        } by {
        assert(i < n);
        assert(cmv.subrange(i * (2 * l), (i + 1) * (2 * l)) == pairs[i]);
        assert(i * (2 * l) == 2 * i * l) by (nonlinear_arith);
        assert((i + 1) * (2 * l) == 2 * i * l + 2 * l) by (nonlinear_arith);
        assert((2 * i + 1) * l == 2 * i * l + l) by (nonlinear_arith);
        assert((2 * i + 2) * l == 2 * i * l + 2 * l) by (nonlinear_arith);
        vstd::arithmetic::mul::lemma_mul_nonnegative(2 * i, l);
        vstd::arithmetic::mul::lemma_mul_inequality(i + 1, n as int, 2 * l);
        let a = 2 * i * l;
        assert(v.subrange(off + a, off + a + l) =~= pairs[i].subrange(0, l));
        assert(pairs[i].subrange(0, l) =~= packed_bytes::<F>(cms[i]@));
        assert(v.subrange(off + a + l, off + a + 2 * l) =~= pairs[i].subrange(l, 2 * l));
        assert(pairs[i].subrange(l, 2 * l) =~= packed_bytes::<F>(hs[i]@));
    }
}

/// The field element whose value is that of `chunk`, a string shorter than
/// the capacity.
fn chunk_to_field<F: PrimeField>(chunk: &[u8]) -> (r: F)
    requires
        0 < chunk.len() <= capacity_bytes::<F>(),
    ensures
        r.value() == le_value(chunk@),
{
    proof {
        F::lemma_parameters();
    }
    let n = chunk.len();
    let mut padded: Vec<u8> = Vec::new();
    let mut i: usize = 0;
    while i < n
        invariant
            n == chunk.len(),
            i <= n,
            padded@ == chunk@.take(i as int),
        decreases n - i,
    {
        padded.push(chunk[i]);
        proof {
            assert(chunk@.take(i + 1) =~= chunk@.take(i as int).push(chunk@[i as int]));
        }
        i = i + 1;
    }
    let ghost zeros_start = padded@.len();
    let len = byte_length::<F>();
    while padded.len() < len
        invariant
            len == F::byte_len(),
            padded@.len() <= len,
            padded@.take(n as int) == chunk@,
            n <= padded@.len(),
            forall|j: int| n <= j < padded@.len() ==> padded@[j] == 0,
        decreases len - padded.len(),
    {
        let ghost before = padded@;
        padded.push(0u8);
        proof {
            assert(padded@.take(n as int) =~= before.take(n as int));
        }
    }
    proof {
        assert(chunk@ =~= padded@.take(n as int));
        let zeros = padded@.skip(n as int);
        assert(padded@ =~= chunk@ + zeros);
        lemma_le_value_append(chunk@, zeros);
        lemma_le_value_zero(zeros);
        lemma_le_value_bound(chunk@);
        assert(pow2(8 * n as nat) <= pow2((F::bit_size() - 1) as nat)) by {
            if 8 * n < F::bit_size() - 1 {
                vstd::arithmetic::power2::lemma_pow2_strictly_increases(
                    8 * n as nat,
                    (F::bit_size() - 1) as nat,
                );
            }
        }
        F::lemma_decode(padded@);
    }
    match F::read(&padded) {
        Some(x) => x,
        None => F::zero(),
    }
}

/// The number of bytes of an encoded field element.
fn byte_length<F: PrimeField>() -> (r: usize)
    ensures
        r == F::byte_len(),
{
    proof {
        F::lemma_parameters();
        F::lemma_encode(0);
    }
    F::zero().to_bytes().len()
}

/// Packs bytes into field elements, `capacity_bytes` per element.
pub fn bytes_to_field_elements<F: PrimeField>(bytes: &[u8]) -> (r: Vec<F>)
    ensures
        field_values(r@) == packed_bytes::<F>(bytes@),
{
    proof {
        F::lemma_parameters();
    }
    let cap: usize = (F::size_in_bits() - 1) / 8;
    let mut out: Vec<F> = Vec::new();
    let mut start: usize = 0;
    proof {
        assert(bytes@.skip(0) =~= bytes@);
        assert(field_values(out@) + packed_bytes::<F>(bytes@) =~= packed_bytes::<F>(bytes@));
    }
    while start < bytes.len()
        invariant
            cap == capacity_bytes::<F>(),
            cap > 0,
            start <= bytes.len(),
            field_values(out@) + packed_bytes::<F>(bytes@.skip(start as int)) == packed_bytes::<F>(
                bytes@,
            ),
        decreases bytes.len() - start,
    {
        let rest = bytes.len() - start;
        let take = if rest <= cap {
            rest
        } else {
            cap
        };
        let chunk = crate::varint::slice_range(bytes, start, start + take);
        let x = chunk_to_field::<F>(chunk);
        let ghost before = out@;
        out.push(x);
        proof {
            let s = bytes@.skip(start as int);
            assert(s.take(take as int) =~= chunk@);
            assert(s.skip(take as int) =~= bytes@.skip(start + take));
            if rest > cap {
                assert(packed_bytes::<F>(s) == seq![le_value(s.take(cap as int)) as int]
                    + packed_bytes::<F>(s.skip(cap as int)));
            } else {
                assert(s =~= chunk@);
                assert(bytes@.skip(start + take).len() == 0);
            }
            assert(field_values(out@) =~= field_values(before).push(x.value()));
            assert(field_values(out@) + packed_bytes::<F>(bytes@.skip(start + take)) =~= field_values(
                before,
            ) + packed_bytes::<F>(s));
        }
        start = start + take;
    }
    proof {
        assert(bytes@.skip(start as int).len() == 0);
        assert(field_values(out@) + Seq::<int>::empty() =~= field_values(out@));
    }
    out
}

/// Appends `w` to `v`.
fn append_elements<F: PrimeField>(v: &mut Vec<F>, w: &Vec<F>)
    ensures
        field_values(final(v)@) == field_values(old(v)@) + field_values(w@),
{
    let ghost start = v@;
    let mut i: usize = 0;
    while i < w.len()
        invariant
            i <= w.len(),
            v@ == start + w@.take(i as int),
        decreases w.len() - i,
    {
        v.push(w[i]);
        proof {
            assert(start + w@.take(i + 1) =~= (start + w@.take(i as int)).push(w@[i as int]));
        }
        i = i + 1;
    }
    proof {
        assert(w@.take(w.len() as int) =~= w@);
        assert(field_values(v@) =~= field_values(start) + field_values(w@));
    }
}

/// Appends the packing of `bytes` to `v`.
fn append_packed<F: PrimeField>(v: &mut Vec<F>, bytes: &[u8])
    ensures
        field_values(final(v)@) == field_values(old(v)@) + packed_bytes::<F>(bytes@),
{
    let packed = bytes_to_field_elements::<F>(bytes);
    append_elements(v, &packed);
}

impl<F: PrimeField> InnerCircuitVerifierInput<F> {
    /// The public input as field elements, in the order the inner circuit
    /// reads them.
    pub fn to_field_elements(&self) -> (r: Vec<F>)
        ensures
            field_values(r@) == verifier_input_values(*self),
            forall|i: int|
                0 <= i < self.new_commitments.len() && i < self.new_encrypted_record_hashes.len()
                    ==> #[trigger] field_values(r@).subrange(
                    commitments_offset(*self) + 2 * i * digest_elements::<F>(),
                    commitments_offset(*self) + (2 * i + 1) * digest_elements::<F>(),
                ) == packed_bytes::<F>(self.new_commitments@[i]@),
            forall|i: int|
                0 <= i < self.new_commitments.len() && i < self.new_encrypted_record_hashes.len()
                    ==> #[trigger] field_values(r@).subrange(
                    commitments_offset(*self) + (2 * i + 1) * digest_elements::<F>(),
                    commitments_offset(*self) + (2 * i + 2) * digest_elements::<F>(),
                ) == packed_bytes::<F>(self.new_encrypted_record_hashes@[i]@),
    {
        proof {
            lemma_commitments_interleaved(*self);
        }
        let sp = &self.system_parameters;
        let mut v: Vec<F> = Vec::new();
        append_elements(&mut v, &sp.account_commitment);
        append_elements(&mut v, &sp.account_encryption);
        append_elements(&mut v, &sp.account_signature);
        append_elements(&mut v, &sp.record_commitment);
        append_elements(&mut v, &sp.encrypted_record_crh);
        append_elements(&mut v, &sp.program_verification_key_commitment);
        append_elements(&mut v, &sp.local_data_crh);
        append_elements(&mut v, &sp.serial_number_nonce);
        append_elements(&mut v, &self.ledger_parameters);
        append_packed(&mut v, self.ledger_digest.as_slice());
        let ghost prefix = field_values(v@);
        let mut i: usize = 0;
        while i < self.old_serial_numbers.len()
            invariant
                i <= self.old_serial_numbers.len(),
                field_values(v@) == prefix + concat_values(
                    Seq::new(i as nat, |t: int| packed_bytes::<F>(self.old_serial_numbers@[t]@)),
                ),
            decreases self.old_serial_numbers.len() - i,
        {
            append_packed(&mut v, self.old_serial_numbers[i].as_slice());
            proof {
                let s1 = Seq::new(
                    (i + 1) as nat,
                    |t: int| packed_bytes::<F>(self.old_serial_numbers@[t]@),
                );
                let s0 = Seq::new(i as nat, |t: int| packed_bytes::<F>(self.old_serial_numbers@[t]@));
                assert(s1.drop_last() =~= s0);
            }
            i = i + 1;
        }
        let ghost prefix2 = field_values(v@);
        let n = if self.new_commitments.len() <= self.new_encrypted_record_hashes.len() {
            self.new_commitments.len()
        } else {
            self.new_encrypted_record_hashes.len()
        };
        let mut j: usize = 0;
        while j < n
            invariant
                n <= self.new_commitments.len(),
                n <= self.new_encrypted_record_hashes.len(),
                j <= n,
                field_values(v@) == prefix2 + concat_values(
                    Seq::new(
                        j as nat,
                        |t: int|
                            packed_bytes::<F>(self.new_commitments@[t]@) + packed_bytes::<F>(
                                self.new_encrypted_record_hashes@[t]@,
                            ),
                    ),
                ),
            decreases n - j,
        {
            append_packed(&mut v, self.new_commitments[j].as_slice());
            append_packed(&mut v, self.new_encrypted_record_hashes[j].as_slice());
            proof {
                let f = |t: int|
                    packed_bytes::<F>(self.new_commitments@[t]@) + packed_bytes::<F>(
                        self.new_encrypted_record_hashes@[t]@,
                    );
                assert(Seq::new((j + 1) as nat, f).drop_last() =~= Seq::new(j as nat, f));
            }
            j = j + 1;
        }
        append_packed(&mut v, self.program_commitment.as_slice());
        append_packed(&mut v, self.memo.as_slice());
        let network_id = vec![self.network_id];
        append_packed(&mut v, network_id.as_slice());
        append_packed(&mut v, self.local_data_root.as_slice());
        let balance = u64_to_le_bytes(self.value_balance.0 as u64);
        append_packed(&mut v, balance.as_slice());
        proof {
            assert(network_id@ =~= seq![self.network_id]);
            assert(field_values(v@) =~= verifier_input_values(*self));
        }
        v
    }
}

} // verus!
