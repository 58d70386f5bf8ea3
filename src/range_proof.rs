use vstd::prelude::*;
use ark_bls12_381::Fr;
use ark_ff::{BigInteger, PrimeField, UniformRand};
use merlin::Transcript;
use crate::commitment_scheme::{combined_coeff, linear, combine, commitment_of, commit, lemma_combined_bounded, poly_values, CommitError, create_witness, Commitment, ProvingKey, VerifyingKey};
use crate::field::{mod_add, mod_mul, mod_pow, mod_sub, fe_add, fe_from_u64, fe_inverse, fe_mul, fe_pow, fe_sub, DecodingError, FieldElement};
use crate::group::{g1_from_bytes, msm, msm_of, pairing_check, G1Point};
use crate::poly::{DomainError, mul_coeff, mul_values, sub_values, vanishing, bounded, coeff, lemma_degree_bounded, lemma_len_bounded, add_values, check_domain_size, domain_gen, domain_generator, eval, evaluate, same_poly, valid_domain_size, Polynomial};
use crate::polynomial::{value_mask, first_quotient, last_quotient, step_values, blinding_mask, partial_sum, bit_at, bit_of, compute_f, compute_g, compute_q, compute_w1_w2, compute_w3, compute_w_cap};
use crate::transcript::{append_message, appended, challenge_of, challenge_scalar, challenged, transcript_state};

verus! {

/// Length of an encoded proof: three field elements and five points.
pub const PROOF_LEN: usize = 336;

pub const LABEL_TAU: &'static str = "tau";
pub const LABEL_F: &'static str = "f_commitment";
pub const LABEL_G: &'static str = "g_commitment";
pub const LABEL_Q: &'static str = "q_commitment";
pub const LABEL_RHO: &'static str = "rho";
pub const LABEL_G_EVAL: &'static str = "g_eval";
pub const LABEL_G_SHIFTED_EVAL: &'static str = "g_shifted_eval";
pub const LABEL_W_CAP_EVAL: &'static str = "w_cap_eval";
pub const LABEL_AGGREGATION: &'static str = "aggregation_challenge";

/// A range proof: three evaluations and five commitments.
#[derive(Debug, Clone, Copy, PartialEq, Eq)]
pub struct Proof {
    pub g_eval: FieldElement,
    pub g_shifted_eval: FieldElement,
    pub w_cap_eval: FieldElement,
    pub f_commitment: Commitment,
    pub g_commitment: Commitment,
    pub q_commitment: Commitment,
    pub aggregate_witness_commitment: Commitment,
    pub shifted_witness_commitment: Commitment,
}

/// Why a proof could not be made.
#[derive(Debug, Clone, Copy, PartialEq, Eq)]
pub enum ProofError {
    Domain(DomainError),
    Commit(CommitError),
    ValueOutOfRange,
}

/// Why a proof was rejected.
#[derive(Debug, Clone, Copy, PartialEq, Eq)]
pub enum VerificationError {
    Domain(DomainError),
    EvaluationMismatch,
    PairingCheckFailed,
}

impl Proof {
    pub open spec fn wf(&self) -> bool {
        self.g_eval.wf() && self.g_shifted_eval.wf() && self.w_cap_eval.wf() && self.f_commitment.wf()
            && self.g_commitment.wf() && self.q_commitment.wf() && self.aggregate_witness_commitment.wf()
            && self.shifted_witness_commitment.wf()
    }

    /// The encoding: the evaluations, then the commitments, in declared order.
    pub open spec fn spec_encode(&self) -> Seq<u8> {
        self.g_eval.spec_bytes() + self.g_shifted_eval.spec_bytes() + self.w_cap_eval.spec_bytes()
            + self.f_commitment.spec_bytes() + self.g_commitment.spec_bytes() + self.q_commitment.spec_bytes()
            + self.aggregate_witness_commitment.spec_bytes() + self.shifted_witness_commitment.spec_bytes()
    }
}

/// Whether bytes encode a proof: the right length, canonical evaluations and
/// valid points.
pub open spec fn decodable(b: Seq<u8>) -> bool {
    b.len() == PROOF_LEN
        && crate::utils::le_value(b.subrange(0, 32)) < crate::field::modulus()
        && crate::utils::le_value(b.subrange(32, 64)) < crate::field::modulus()
        && crate::utils::le_value(b.subrange(64, 96)) < crate::field::modulus()
        && crate::group::valid_g1(b.subrange(96, 144))
        && crate::group::valid_g1(b.subrange(144, 192))
        && crate::group::valid_g1(b.subrange(192, 240))
        && crate::group::valid_g1(b.subrange(240, 288))
        && crate::group::valid_g1(b.subrange(288, 336))
}

/// The sponge state before `rho` is drawn, from state `s0` when `p` is made
/// or checked.
pub open spec fn state_before_rho(s0: Seq<u8>, p: Proof) -> Seq<u8> {
    let s1 = challenged(s0, LABEL_TAU@);
    let s2 = appended(s1, LABEL_F@, p.f_commitment.spec_bytes());
    let s3 = appended(s2, LABEL_G@, p.g_commitment.spec_bytes());
    appended(s3, LABEL_Q@, p.q_commitment.spec_bytes())
}

/// The sponge state before the aggregation challenge is drawn.
pub open spec fn state_before_aggregation(s0: Seq<u8>, p: Proof) -> Seq<u8> {
    let s5 = challenged(state_before_rho(s0, p), LABEL_RHO@);
    let s6 = appended(s5, LABEL_G_EVAL@, p.g_eval.spec_bytes());
    let s7 = appended(s6, LABEL_G_SHIFTED_EVAL@, p.g_shifted_eval.spec_bytes());
    appended(s7, LABEL_W_CAP_EVAL@, p.w_cap_eval.spec_bytes())
}

/// The sponge state after `p` is made or checked from state `s0`: `tau` is
/// drawn, the three commitments absorbed, `rho` drawn, the three evaluations
/// absorbed and the aggregation challenge drawn, in that order.
pub open spec fn state_after(s0: Seq<u8>, p: Proof) -> Seq<u8> {
    challenged(state_before_aggregation(s0, p), LABEL_AGGREGATION@)
}

fn read32(b: &[u8], off: usize) -> (r: [u8; 32])
    requires
        off + 32 <= b@.len(),
    ensures
        r@ == b@.subrange(off as int, off + 32),
{
    let mut out: [u8; 32] = [0u8; 32];
    let len = b.len();
    let mut i: usize = 0;
    while i < 32
        invariant
            i <= 32,
            len == b@.len(),
            off + 32 <= b@.len(),
            forall|j: int| 0 <= j < i ==> out@[j] == b@[off + j],
        decreases 32 - i,
    {
        assert(off + i < b@.len());
        out[i] = b[off + i];
        i = i + 1;
    }
    assert(out@ =~= b@.subrange(off as int, off + 32));
    out
}

fn read48(b: &[u8], off: usize) -> (r: [u8; 48])
    requires
        off + 48 <= b@.len(),
    ensures
        r@ == b@.subrange(off as int, off + 48),
{
    let mut out: [u8; 48] = [0u8; 48];
    let len = b.len();
    let mut i: usize = 0;
    while i < 48
        invariant
            i <= 48,
            len == b@.len(),
            off + 48 <= b@.len(),
            forall|j: int| 0 <= j < i ==> out@[j] == b@[off + j],
        decreases 48 - i,
    {
        assert(off + i < b@.len());
        out[i] = b[off + i];
        i = i + 1;
    }
    assert(out@ =~= b@.subrange(off as int, off + 48));
    out
}

fn push_all(out: &mut Vec<u8>, b: &[u8])
    ensures
        final(out)@ == old(out)@ + b@,
{
    let mut i: usize = 0;
    while i < b.len()
        invariant
            i <= b@.len(),
            out@ == old(out)@ + b@.subrange(0, i as int),
        decreases b@.len() - i,
    {
        out.push(b[i]);
        i = i + 1;
        assert(out@ =~= old(out)@ + b@.subrange(0, i as int));
    }
    assert(b@.subrange(0, b@.len() as int) =~= b@);
}

impl Proof {
    /// The proof's bytes: its evaluations, then its commitments.
    pub fn encode(&self) -> (r: Vec<u8>)
        ensures
            r@ == self.spec_encode(),
    {
        let mut out: Vec<u8> = Vec::new();
        push_all(&mut out, &self.g_eval.to_bytes());
        push_all(&mut out, &self.g_shifted_eval.to_bytes());
        push_all(&mut out, &self.w_cap_eval.to_bytes());
        push_all(&mut out, &self.f_commitment.to_bytes());
        push_all(&mut out, &self.g_commitment.to_bytes());
        push_all(&mut out, &self.q_commitment.to_bytes());
        push_all(&mut out, &self.aggregate_witness_commitment.to_bytes());
        push_all(&mut out, &self.shifted_witness_commitment.to_bytes());
        out
    }

    /// Reads a proof; refuses bytes of the wrong length, a non-canonical
    /// evaluation or an invalid point.
    pub fn decode(b: &[u8]) -> (r: Result<Proof, DecodingError>)
        ensures
            r is Ok <==> decodable(b@),
            r is Err ==> r == Err::<Proof, DecodingError>(DecodingError::MalformedBytes),
            r matches Ok(p) ==> p.wf() && p.spec_encode() == b@,
    {
        if b.len() != PROOF_LEN {
            return Err(DecodingError::MalformedBytes);
        }
        let e0 = FieldElement::from_bytes(&read32(b, 0));
        let e1 = FieldElement::from_bytes(&read32(b, 32));
        let e2 = FieldElement::from_bytes(&read32(b, 64));
        let c0 = g1_from_bytes(&read48(b, 96));
        let c1 = g1_from_bytes(&read48(b, 144));
        let c2 = g1_from_bytes(&read48(b, 192));
        let c3 = g1_from_bytes(&read48(b, 240));
        let c4 = g1_from_bytes(&read48(b, 288));
        match (e0, e1, e2, c0, c1, c2, c3, c4) {
            (Ok(g_eval), Ok(g_shifted_eval), Ok(w_cap_eval), Some(f), Some(g), Some(q), Some(a), Some(s)) => {
                let p = Proof {
                    g_eval,
                    g_shifted_eval,
                    w_cap_eval,
                    f_commitment: f,
                    g_commitment: g,
                    q_commitment: q,
                    aggregate_witness_commitment: a,
                    shifted_witness_commitment: s,
                };
                assert(p.spec_encode() =~= b@);
                Ok(p)
            },
            _ => Err(DecodingError::MalformedBytes),
        }
    }
}

/// Decoding what a proof encodes to gives that proof back.
pub proof fn lemma_proof_round_trip(p: Proof, q: Proof)
    requires
        p.wf(),
        q.spec_encode() == p.spec_encode(),
    ensures
        decodable(p.spec_encode()),
        q == p,
{
    let b = p.spec_encode();
    crate::field::lemma_field_len(p.g_eval);
    crate::field::lemma_field_len(p.g_shifted_eval);
    crate::field::lemma_field_len(p.w_cap_eval);
    crate::field::lemma_field_len(q.g_eval);
    crate::field::lemma_field_len(q.g_shifted_eval);
    crate::field::lemma_field_len(q.w_cap_eval);
    crate::group::lemma_g1_len(p.f_commitment);
    crate::group::lemma_g1_len(p.g_commitment);
    crate::group::lemma_g1_len(p.q_commitment);
    crate::group::lemma_g1_len(p.aggregate_witness_commitment);
    crate::group::lemma_g1_len(p.shifted_witness_commitment);
    crate::group::lemma_g1_len(q.f_commitment);
    crate::group::lemma_g1_len(q.g_commitment);
    crate::group::lemma_g1_len(q.q_commitment);
    crate::group::lemma_g1_len(q.aggregate_witness_commitment);
    crate::group::lemma_g1_len(q.shifted_witness_commitment);
    assert(q.g_eval.spec_bytes() =~= b.subrange(0, 32));
    assert(p.g_eval.spec_bytes() =~= b.subrange(0, 32));
    assert(q.g_shifted_eval.spec_bytes() =~= b.subrange(32, 64));
    assert(p.g_shifted_eval.spec_bytes() =~= b.subrange(32, 64));
    assert(q.w_cap_eval.spec_bytes() =~= b.subrange(64, 96));
    assert(p.w_cap_eval.spec_bytes() =~= b.subrange(64, 96));
    assert(q.f_commitment.spec_bytes() =~= b.subrange(96, 144));
    assert(p.f_commitment.spec_bytes() =~= b.subrange(96, 144));
    assert(q.g_commitment.spec_bytes() =~= b.subrange(144, 192));
    assert(p.g_commitment.spec_bytes() =~= b.subrange(144, 192));
    assert(q.q_commitment.spec_bytes() =~= b.subrange(192, 240));
    assert(p.q_commitment.spec_bytes() =~= b.subrange(192, 240));
    assert(q.aggregate_witness_commitment.spec_bytes() =~= b.subrange(240, 288));
    assert(p.aggregate_witness_commitment.spec_bytes() =~= b.subrange(240, 288));
    assert(q.shifted_witness_commitment.spec_bytes() =~= b.subrange(288, 336));
    assert(p.shifted_witness_commitment.spec_bytes() =~= b.subrange(288, 336));
    crate::field::lemma_field_round_trip(p.g_eval, q.g_eval);
    crate::field::lemma_field_round_trip(p.g_shifted_eval, q.g_shifted_eval);
    crate::field::lemma_field_round_trip(p.w_cap_eval, q.w_cap_eval);
    crate::group::lemma_g1_round_trip(p.f_commitment, q.f_commitment);
    crate::group::lemma_g1_round_trip(p.g_commitment, q.g_commitment);
    crate::group::lemma_g1_round_trip(p.q_commitment, q.q_commitment);
    crate::group::lemma_g1_round_trip(p.aggregate_witness_commitment, q.aggregate_witness_commitment);
    crate::group::lemma_g1_round_trip(p.shifted_witness_commitment, q.shifted_witness_commitment);
}

/// Whether `z` has a bit set at or above position `n`.
pub open spec fn out_of_range(z: FieldElement, n: nat) -> bool {
    exists|i: int| n <= i < 256 && #[trigger] bit_of(z.spec_bytes(), i)
}

/// Whether `z` has a bit set at or above position `n`.
pub fn exceeds_bits(z: &FieldElement, n: usize) -> (r: bool)
    ensures
        r == out_of_range(*z, n as nat),
{
    let mut i: usize = n;
    while i < 256
        invariant
            n <= i || i == n,
            forall|j: int| n <= j < i ==> !#[trigger] bit_of(z.spec_bytes(), j),
        decreases 256 - i,
    {
        if bit_at(z, i) {
            return true;
        }
        i = i + 1;
    }
    proof {
        crate::field::lemma_field_len(*z);
    }
    false
}

/// Relies on `UniformRand::rand` for `Fr` with a thread-local generator
/// seeded from the operating system: some element of the field.
#[verifier::external_body]
fn random_scalar() -> (r: FieldElement)
    ensures
        r.wf(),
{
    let x = Fr::rand(&mut rand::thread_rng());
    FieldElement { bytes: x.into_bigint().to_bytes_le().try_into().unwrap() }
}

/// `f` takes `z` at `1` and zero on the rest of the domain, plus the
/// blinding mask of `r`.
pub open spec fn encodes_value(f: Seq<nat>, n: nat, z: nat, r: nat) -> bool {
    exists|h: Seq<nat>|
        #![trigger add_values(h, value_mask(n, r))]
        h.len() <= n
        && (forall|i: nat| i < n ==> eval(h, #[trigger] mod_pow(domain_gen(n), i)) == (if i == 0 { z } else { 0 }))
        && same_poly(f, add_values(h, value_mask(n, r)))
}

/// `g` is the polynomial of the partial sums of the bits of `z` on the
/// domain, plus the blinding mask of `alpha` and `beta`.
pub open spec fn encodes_bits(g: Seq<nat>, n: nat, z: FieldElement, alpha: nat, beta: nat) -> bool {
    exists|h: Seq<nat>|
        #![trigger add_values(h, blinding_mask(n, alpha, beta))]
        h.len() <= n
        && (forall|i: nat| i < n ==> eval(h, #[trigger] mod_pow(domain_gen(n), i)) == partial_sum(z.spec_bytes(), n, i))
        && same_poly(g, add_values(h, blinding_mask(n, alpha, beta)))
}

/// `w` is the witness that `p` takes its value at `x`:
/// `w (X - x) = p - p(x)`.
pub open spec fn is_witness(w: Seq<nat>, p: Seq<nat>, x: nat) -> bool {
    forall|k: int| k >= 0 ==> #[trigger] mul_coeff(w, linear(x), k)
        == (if k == 0 { mod_sub(coeff(p, 0), eval(p, x)) } else { coeff(p, k) })
}

/// The three constraint polynomials built from `f` and `g`.
pub open spec fn constraints_hold(w1: Seq<nat>, w2: Seq<nat>, w3: Seq<nat>, f: Seq<nat>, g: Seq<nat>, n: nat) -> bool {
    let last = mod_pow(domain_gen(n), (n - 1) as nat);
    let sv = step_values(g, domain_gen(n));
    &&& same_poly(w1, mul_values(sub_values(g, f), first_quotient(n)))
    &&& same_poly(w2, mul_values(mul_values(g, sub_values(seq![1nat], g)), last_quotient(n, last)))
    &&& same_poly(w3, mul_values(mul_values(sv, sub_values(seq![1nat], sv)), linear(last)))
}

/// The polynomials behind a proof.
pub struct Witnesses {
    pub f: Polynomial,
    pub g: Polynomial,
    pub w1: Polynomial,
    pub w2: Polynomial,
    pub w3: Polynomial,
    pub q: Polynomial,
    pub rem: Polynomial,
    pub w_cap: Polynomial,
    pub shifted: Polynomial,
    pub combined: Polynomial,
    pub aggregate: Polynomial,
}

/// How a proof's fields follow from its polynomials, under the challenges
/// `tau`, `rho` and `gamma`:
/// - `f`, `g`, `q` and the two witnesses are committed under `pk`;
/// - the evaluations are `g(rho)`, `g(rho ω)` and `w_cap(rho)`;
/// - `w1 + tau w2 + tau^2 w3 = q (X^n - 1) + rem`, `rem` of degree below `n`;
/// - `w_cap = A f + Z(rho) q`, `A = ((X^n - 1) / (X - 1))(rho)`;
/// - the witnesses are those of `g` at `rho ω` and of `g + gamma w_cap` at `rho`.
pub open spec fn binds(p: Proof, pk: ProvingKey, n: nat, tau: nat, rho: nat, gamma: nat, w: Witnesses) -> bool {
    let omega = domain_gen(n);
    &&& p.f_commitment.spec_bytes() == commitment_of(pk, w.f)
    &&& p.g_commitment.spec_bytes() == commitment_of(pk, w.g)
    &&& p.q_commitment.spec_bytes() == commitment_of(pk, w.q)
    &&& p.shifted_witness_commitment.spec_bytes() == commitment_of(pk, w.shifted)
    &&& p.aggregate_witness_commitment.spec_bytes() == commitment_of(pk, w.aggregate)
    &&& p.g_eval.value() == eval(w.g.spec_values(), rho)
    &&& p.g_shifted_eval.value() == eval(w.g.spec_values(), mod_mul(rho, omega))
    &&& p.w_cap_eval.value() == eval(w.w_cap.spec_values(), rho)
    &&& constraints_hold(w.w1.spec_values(), w.w2.spec_values(), w.w3.spec_values(), w.f.spec_values(), w.g.spec_values(), n)
    &&& w.rem.coeffs@.len() <= n
    &&& forall|k: int| k >= 0 ==> combined_coeff(seq![w.w1.spec_values(), w.w2.spec_values(), w.w3.spec_values()], tau, k)
            == mod_add(#[trigger] mul_coeff(w.q.spec_values(), vanishing(n), k), coeff(w.rem.spec_values(), k))
    &&& forall|k: int| #[trigger] coeff(w.w_cap.spec_values(), k) == mod_add(
            mod_mul(eval(first_quotient(n), rho), coeff(w.f.spec_values(), k)),
            mod_mul(eval(vanishing(n), rho), coeff(w.q.spec_values(), k)))
    &&& is_witness(w.shifted.spec_values(), w.g.spec_values(), mod_mul(rho, omega))
    &&& forall|k: int| #[trigger] coeff(w.combined.spec_values(), k)
            == combined_coeff(seq![w.g.spec_values(), w.w_cap.spec_values()], gamma, k)
    &&& is_witness(w.aggregate.spec_values(), w.combined.spec_values(), rho)
}

/// `p` was made, from a transcript in state `log0`, out of polynomials `f`
/// and `g` that encode `z` with the blinding scalars `r`, `alpha`, `beta`.
pub open spec fn made_from(p: Proof, pk: ProvingKey, n: nat, log0: Seq<u8>, z: FieldElement, r: nat, alpha: nat, beta: nat) -> bool {
    let (tau, rho, gamma) = challenges(log0, p);
    exists|w: Witnesses|
        #![trigger binds(p, pk, n, tau, rho, gamma, w)]
        binds(p, pk, n, tau, rho, gamma, w)
        && encodes_value(w.f.spec_values(), n, z.value(), r)
        && encodes_bits(w.g.spec_values(), n, z, alpha, beta)
}

proof fn lemma_made_from(p: Proof, pk: ProvingKey, n: nat, log0: Seq<u8>, z: FieldElement, r: nat, alpha: nat, beta: nat, w: Witnesses)
    requires
        binds(p, pk, n, challenges(log0, p).0, challenges(log0, p).1, challenges(log0, p).2, w),
        encodes_value(w.f.spec_values(), n, z.value(), r),
        encodes_bits(w.g.spec_values(), n, z, alpha, beta),
    ensures
        made_from(p, pk, n, log0, z, r, alpha, beta),
{
}

/// Proves that `z < 2^n`, with the blinding scalars `r`, `alpha`, `beta`
/// given; the transcript takes the protocol's entries in order.
#[verifier::rlimit(100)]
pub fn prove_with_blinding(
    pk: &ProvingKey,
    n: usize,
    z: &FieldElement,
    r: &FieldElement,
    alpha: &FieldElement,
    beta: &FieldElement,
    transcript: &mut Transcript,
) -> (res: Result<Proof, ProofError>)
    requires
        pk.wf(),
        z.wf(),
        r.wf(),
        alpha.wf(),
        beta.wf(),
    ensures
        !valid_domain_size(n as nat) <==> res == Err::<Proof, ProofError>(ProofError::Domain(DomainError::InvalidSize)),
        valid_domain_size(n as nat) && out_of_range(*z, n as nat) <==> res == Err::<Proof, ProofError>(ProofError::ValueOutOfRange),
        valid_domain_size(n as nat) && !out_of_range(*z, n as nat) && pk.powers@.len() < 2 * n + 3
            <==> res == Err::<Proof, ProofError>(ProofError::Commit(CommitError::PolynomialTooLarge)),
        valid_domain_size(n as nat) && !out_of_range(*z, n as nat) && pk.powers@.len() >= 2 * n + 3 ==> res is Ok,
        res is Err ==> *final(transcript) == *old(transcript),
        res matches Ok(p) ==> p.wf() && transcript_state(*final(transcript)) == state_after(transcript_state(*old(transcript)), p),
        res matches Ok(p) ==> made_from(p, *pk, n as nat, transcript_state(*old(transcript)), *z, r.value(), alpha.value(), beta.value()),
{
    if !check_domain_size(n) {
        return Err(ProofError::Domain(DomainError::InvalidSize));
    }
    if exceeds_bits(z, n) {
        return Err(ProofError::ValueOutOfRange);
    }
    // The largest degree committed to is at most 2n + 2 (that of `q`).
    if (pk.powers.len() - 1) / 2 < n + 1 {
        return Err(ProofError::Commit(CommitError::PolynomialTooLarge));
    }
    let ghost log0 = transcript_state(*transcript);
    let f = compute_f(n, z, r);
    let g = compute_g(n, z, alpha, beta);
    let (w1, w2) = compute_w1_w2(n, &g, &f);
    let w3 = compute_w3(n, &g);
    let ghost (w1c, w2c, w3c) = (w1, w2, w3);
    proof {
        assert forall|i: int| i > 3 * n + 2 implies #[trigger] coeff(w3.spec_values(), i) == 0 by {
            assert(i > 2 * n + 3);
        }
        assert forall|i: int| i > 3 * n + 2 implies #[trigger] coeff(w1.spec_values(), i) == 0 by {
            assert(i > 2 * n);
        }
        assert forall|i: int| i > 3 * n + 2 implies #[trigger] coeff(w2.spec_values(), i) == 0 by {
            assert(i > 3 * n + 1);
        }
    }
    let tau = challenge_scalar(transcript, LABEL_TAU);
    // `z` is below 2^n, so every constraint vanishes on the domain and the
    // remainder is zero; only the quotient is committed.
    let (q, rem) = compute_q(n, w1, w2, w3, &tau);
    proof {
        lemma_degree_bounded(f.spec_values(), n as int);
        lemma_degree_bounded(g.spec_values(), n + 1);
        lemma_degree_bounded(q.spec_values(), 2 * n + 2);
        assert forall|i: int| i > 2 * n + 2 implies #[trigger] coeff(f.spec_values(), i) == 0 by {
            assert(i > n);
        }
        assert forall|i: int| i > 2 * n + 2 implies #[trigger] coeff(g.spec_values(), i) == 0 by {
            assert(i > n + 1);
        }
    }

    let f_commitment = match commit(pk, &f) {
        Ok(c) => c,
        Err(e) => return Err(ProofError::Commit(e)),
    };
    let g_commitment = match commit(pk, &g) {
        Ok(c) => c,
        Err(e) => return Err(ProofError::Commit(e)),
    };
    let q_commitment = match commit(pk, &q) {
        Ok(c) => c,
        Err(e) => return Err(ProofError::Commit(e)),
    };
    append_message(transcript, LABEL_F, &f_commitment.to_bytes());
    append_message(transcript, LABEL_G, &g_commitment.to_bytes());
    append_message(transcript, LABEL_Q, &q_commitment.to_bytes());

    let ghost log5 = transcript_state(*transcript);
    let rho = challenge_scalar(transcript, LABEL_RHO);
    let g_eval = evaluate(&g, &rho);
    let omega = domain_generator(n);
    let rho_omega = fe_mul(&rho, &omega);
    let g_shifted_eval = evaluate(&g, &rho_omega);
    let w_cap = compute_w_cap(n, &f, &q, &rho);
    let w_cap_eval = evaluate(&w_cap, &rho);
    append_message(transcript, LABEL_G_EVAL, &g_eval.to_bytes());
    append_message(transcript, LABEL_G_SHIFTED_EVAL, &g_shifted_eval.to_bytes());
    append_message(transcript, LABEL_W_CAP_EVAL, &w_cap_eval.to_bytes());

    let shifted_witness = create_witness(&g, &rho_omega);
    proof {
        lemma_len_bounded(shifted_witness.spec_values(), n as int);
        lemma_degree_bounded(shifted_witness.spec_values(), n as int);
    }
    let shifted_witness_commitment = match commit(pk, &shifted_witness) {
        Ok(c) => c,
        Err(e) => return Err(ProofError::Commit(e)),
    };
    let ghost pre_gamma = transcript_state(*transcript);
    let aggregation_challenge = challenge_scalar(transcript, LABEL_AGGREGATION);
    let ghost g_copy = g;
    let ghost w_cap_copy = w_cap;
    let mut polys: Vec<Polynomial> = Vec::new();
    polys.push(g);
    polys.push(w_cap);
    let combined = combine(&polys, &aggregation_challenge);
    proof {
        let vs = poly_values(polys@);
        assert(vs =~= seq![g_copy.spec_values(), w_cap_copy.spec_values()]);
        assert forall|i: int| 0 <= i < vs.len() implies bounded(#[trigger] vs[i], 2 * n + 2) by {
            if i == 0 {
                assert(vs[i] == g_copy.spec_values());
            } else {
                assert(vs[i] == w_cap_copy.spec_values());
            }
        }
        assert forall|i: int| i > 2 * n + 2 implies #[trigger] coeff(combined.spec_values(), i) == 0 by {
            lemma_combined_bounded(vs, aggregation_challenge.value(), 2 * n + 2, i);
        }
        lemma_degree_bounded(combined.spec_values(), 2 * n + 2);
    }
    let aggregate_witness = create_witness(&combined, &rho);
    proof {
        lemma_len_bounded(aggregate_witness.spec_values(), 2 * n + 1);
        lemma_degree_bounded(aggregate_witness.spec_values(), 2 * n + 1);
    }
    let aggregate_witness_commitment = match commit(pk, &aggregate_witness) {
        Ok(c) => c,
        Err(e) => return Err(ProofError::Commit(e)),
    };
    let p = Proof {
        g_eval,
        g_shifted_eval,
        w_cap_eval,
        f_commitment,
        g_commitment,
        q_commitment,
        aggregate_witness_commitment,
        shifted_witness_commitment,
    };
    proof {
        assert(log5 == state_before_rho(log0, p));
        assert(pre_gamma == state_before_aggregation(log0, p));
        assert(log0 == transcript_state(*old(transcript)));
        let ch = challenges(log0, p);
        assert(ch.0 == tau.value() && ch.1 == rho.value() && ch.2 == aggregation_challenge.value());
        let w = Witnesses {
            f: f,
            g: g_copy,
            w1: w1c,
            w2: w2c,
            w3: w3c,
            q: q,
            rem: rem,
            w_cap: w_cap_copy,
            shifted: shifted_witness,
            combined: combined,
            aggregate: aggregate_witness,
        };
        assert(constraints_hold(w1c.spec_values(), w2c.spec_values(), w3c.spec_values(), f.spec_values(), g_copy.spec_values(), n as nat));
        assert forall|k: int| #[trigger] coeff(combined.spec_values(), k)
            == combined_coeff(seq![g_copy.spec_values(), w_cap_copy.spec_values()], aggregation_challenge.value(), k) by {
            assert(poly_values(polys@) =~= seq![g_copy.spec_values(), w_cap_copy.spec_values()]);
        }
        assert(binds(p, *pk, n as nat, ch.0, ch.1, ch.2, w));
        assert(encodes_value(f.spec_values(), n as nat, z.value(), r.value()));
        assert(encodes_bits(g_copy.spec_values(), n as nat, *z, alpha.value(), beta.value()));
        lemma_made_from(p, *pk, n as nat, log0, *z, r.value(), alpha.value(), beta.value(), w);
    }
    Ok(p)
}

/// `e(c - [v] G + [x] w, H) == e(w, [s] H)`: the pairing equation that
/// accepts `w` as a witness that the polynomial committed in `c` takes `v` at `x`.
pub fn opening_holds(vk: &VerifyingKey, c: &Commitment, v: &FieldElement, x: &FieldElement, w: &Commitment) -> (r: bool)
    requires
        vk.wf(),
        c.wf(),
        v.wf(),
        x.wf(),
        w.wf(),
    ensures
        r == opening_equation_at(*vk, c.spec_bytes(), v.value(), x.value(), *w),
{
    let zero = fe_from_u64(0);
    let one = fe_from_u64(1);
    let mut points: Vec<G1Point> = Vec::new();
    points.push(*c);
    points.push(vk.g);
    points.push(*w);
    let mut scalars: Vec<FieldElement> = Vec::new();
    scalars.push(one);
    scalars.push(fe_sub(&zero, v));
    scalars.push(*x);
    let left = msm(points.as_slice(), scalars.as_slice());
    proof {
        crate::field::lemma_modulus_large();
        assert(points@.subrange(0, 3) =~= points@);
        vstd::arithmetic::div_mod::lemma_small_mod(0, crate::field::modulus());
        assert(crate::group::point_bytes(points@) =~= seq![c.spec_bytes(), vk.g.spec_bytes(), w.spec_bytes()]);
        assert(crate::group::scalar_values(scalars@) =~= seq![1nat, crate::field::mod_sub(0, v.value()), x.value()]);
    }
    pairing_check(&left, &vk.h, w, &vk.beta_h)
}

/// The value that the combined constraint, less its unopened part, takes at
/// `rho`, given the evaluations of `g`, the challenges, and inverses of
/// `rho - 1` and of `rho - ω^(n-1)`.
pub open spec fn constraint_value(ge: nat, gs: nat, tau: nat, rho: nat, last: nat, z_rho: nat, inv_first: nat, inv_last: nat) -> nat {
    let a = mod_mul(z_rho, inv_first);
    let b = mod_mul(z_rho, inv_last);
    let t1 = mod_mul(ge, a);
    let t2 = mod_mul(mod_mul(ge, mod_sub(1, ge)), b);
    let step = mod_sub(ge, mod_mul(2, gs));
    let t3 = mod_mul(mod_mul(step, mod_sub(1, step)), mod_sub(rho, last));
    mod_add(t1, mod_mul(tau, mod_add(t2, mod_mul(tau, t3))))
}

/// The challenges that a transcript in state `s0` draws while `p` is made
/// or checked: `tau`, `rho` and the aggregation challenge.
pub open spec fn challenges(s0: Seq<u8>, p: Proof) -> (nat, nat, nat) {
    (
        challenge_of(s0, LABEL_TAU@),
        challenge_of(state_before_rho(s0, p), LABEL_RHO@),
        challenge_of(state_before_aggregation(s0, p), LABEL_AGGREGATION@),
    )
}

/// The three checks of a proof, given the challenges and the two inverses
/// that the relation at `rho` divides by.
pub open spec fn accepting(p: Proof, vk: VerifyingKey, n: nat, tau: nat, rho: nat, gamma: nat, inv_first: nat, inv_last: nat) -> bool {
    let omega = crate::poly::domain_gen(n);
    let last = mod_pow(omega, (n - 1) as nat);
    let z_rho = mod_sub(mod_pow(rho, n), 1);
    let a = mod_mul(z_rho, inv_first);
    let w_cap_commitment = msm_of(seq![p.f_commitment.spec_bytes(), p.q_commitment.spec_bytes()], seq![a, z_rho]);
    let agg_commitment = msm_of(seq![p.g_commitment.spec_bytes(), w_cap_commitment], seq![1nat, gamma]);
    let agg_eval = mod_add(p.g_eval.value(), mod_mul(gamma, p.w_cap_eval.value()));
    &&& inv_first < crate::field::modulus() && mod_mul(mod_sub(rho, 1), inv_first) == 1
    &&& inv_last < crate::field::modulus() && mod_mul(mod_sub(rho, last), inv_last) == 1
    &&& p.w_cap_eval.value() == constraint_value(p.g_eval.value(), p.g_shifted_eval.value(), tau, rho, last, z_rho, inv_first, inv_last)
    &&& opening_equation_at(vk, agg_commitment, agg_eval, rho, p.aggregate_witness_commitment)
    &&& opening_equation_at(vk, p.g_commitment.spec_bytes(), p.g_shifted_eval.value(), mod_mul(rho, omega), p.shifted_witness_commitment)
}

/// The pairing equation of an opening, for a commitment given by its encoding.
pub open spec fn opening_equation_at(vk: VerifyingKey, c: Seq<u8>, v: nat, x: nat, w: Commitment) -> bool {
    crate::group::pairings_equal(
        msm_of(seq![c, vk.g.spec_bytes(), w.spec_bytes()], seq![1nat, crate::field::mod_sub(0, v), x]),
        vk.h.spec_bytes(),
        w.spec_bytes(),
        vk.beta_h.spec_bytes(),
    )
}

/// Where only one pair of inverses can make `p` accept and that pair does
/// not, nothing does.
proof fn lemma_no_other_inverses(p: Proof, vk: VerifyingKey, n: nat, tau: nat, rho: nat, gamma: nat, a1: nat, a2: nat)
    requires
        forall|i1: nat, i2: nat| #[trigger] accepting(p, vk, n, tau, rho, gamma, i1, i2) ==> i1 == a1 && i2 == a2,
        !accepting(p, vk, n, tau, rho, gamma, a1, a2),
    ensures
        forall|i1: nat, i2: nat| !accepting(p, vk, n, tau, rho, gamma, i1, i2),
{
}

/// Checks a proof that some committed value is below `2^n`: replays the
/// transcript, checks the evaluations against the constraint relation at the
/// challenge point, then the two openings.
pub fn verify(p: &Proof, vk: &VerifyingKey, n: usize, transcript: &mut Transcript) -> (res: Result<(), VerificationError>)
    requires
        p.wf(),
        vk.wf(),
    ensures
        !valid_domain_size(n as nat) <==> res == Err::<(), VerificationError>(VerificationError::Domain(DomainError::InvalidSize)),
        !valid_domain_size(n as nat) ==> *final(transcript) == *old(transcript),
        valid_domain_size(n as nat) ==> transcript_state(*final(transcript)) == state_after(transcript_state(*old(transcript)), *p),
        valid_domain_size(n as nat) ==> (res is Ok <==> ({
            let (tau, rho, gamma) = challenges(transcript_state(*old(transcript)), *p);
            exists|inv_first: nat, inv_last: nat| accepting(*p, *vk, n as nat, tau, rho, gamma, inv_first, inv_last)
        })),
{
    if !check_domain_size(n) {
        return Err(VerificationError::Domain(DomainError::InvalidSize));
    }
    let ghost log0 = transcript_state(*transcript);
    let tau = challenge_scalar(transcript, LABEL_TAU);
    append_message(transcript, LABEL_F, &p.f_commitment.to_bytes());
    append_message(transcript, LABEL_G, &p.g_commitment.to_bytes());
    append_message(transcript, LABEL_Q, &p.q_commitment.to_bytes());
    let ghost log5 = transcript_state(*transcript);
    let rho = challenge_scalar(transcript, LABEL_RHO);
    append_message(transcript, LABEL_G_EVAL, &p.g_eval.to_bytes());
    append_message(transcript, LABEL_G_SHIFTED_EVAL, &p.g_shifted_eval.to_bytes());
    append_message(transcript, LABEL_W_CAP_EVAL, &p.w_cap_eval.to_bytes());
    let ghost pre_gamma = transcript_state(*transcript);
    let gamma = challenge_scalar(transcript, LABEL_AGGREGATION);
    proof {
        assert(log5 == state_before_rho(log0, *p));
        assert(pre_gamma == state_before_aggregation(log0, *p));
    }
    let ghost ch = challenges(log0, *p);
    assert(ch.0 == tau.value() && ch.1 == rho.value() && ch.2 == gamma.value());

    let zero = fe_from_u64(0);
    let one = fe_from_u64(1);
    let two = fe_from_u64(2);
    let omega = domain_generator(n);
    let last = fe_pow(&omega, (n - 1) as u64);
    let z_rho = fe_sub(&fe_pow(&rho, n as u64), &one);
    let inv_first = match fe_inverse(&fe_sub(&rho, &one)) {
        Some(x) => x,
        None => {
            proof {
                assert forall|i1: nat, i2: nat| !accepting(*p, *vk, n as nat, ch.0, ch.1, ch.2, i1, i2) by {
                    crate::field::lemma_zero_no_inverse(i1);
                }
            }
            return Err(VerificationError::EvaluationMismatch);
        },
    };
    let inv_last = match fe_inverse(&fe_sub(&rho, &last)) {
        Some(x) => x,
        None => {
            proof {
                assert forall|i1: nat, i2: nat| !accepting(*p, *vk, n as nat, ch.0, ch.1, ch.2, i1, i2) by {
                    crate::field::lemma_zero_no_inverse(i2);
                }
            }
            return Err(VerificationError::EvaluationMismatch);
        },
    };
    proof {
        assert forall|i1: nat, i2: nat| #[trigger] accepting(*p, *vk, n as nat, ch.0, ch.1, ch.2, i1, i2)
            implies i1 == inv_first.value() && i2 == inv_last.value() by {
            crate::field::lemma_inverse_unique(mod_sub(rho.value(), 1), i1, inv_first.value());
            crate::field::lemma_inverse_unique(mod_sub(rho.value(), last.value()), i2, inv_last.value());
        }
    }
    let a = fe_mul(&z_rho, &inv_first);
    let b = fe_mul(&z_rho, &inv_last);
    let ge = p.g_eval;
    let gs = p.g_shifted_eval;
    let t1 = fe_mul(&ge, &a);
    let t2 = fe_mul(&fe_mul(&ge, &fe_sub(&one, &ge)), &b);
    let step = fe_sub(&ge, &fe_mul(&two, &gs));
    let t3 = fe_mul(&fe_mul(&step, &fe_sub(&one, &step)), &fe_sub(&rho, &last));
    let expected = fe_add(&t1, &fe_mul(&tau, &fe_add(&t2, &fe_mul(&tau, &t3))));
    if !expected.equals(&p.w_cap_eval) {
        proof {
            lemma_no_other_inverses(*p, *vk, n as nat, ch.0, ch.1, ch.2, inv_first.value(), inv_last.value());
        }
        return Err(VerificationError::EvaluationMismatch);
    }

    let mut lin_points: Vec<G1Point> = Vec::new();
    lin_points.push(p.f_commitment);
    lin_points.push(p.q_commitment);
    let mut lin_scalars: Vec<FieldElement> = Vec::new();
    lin_scalars.push(a);
    lin_scalars.push(z_rho);
    let w_cap_commitment = msm(lin_points.as_slice(), lin_scalars.as_slice());

    let mut agg_points: Vec<G1Point> = Vec::new();
    agg_points.push(p.g_commitment);
    agg_points.push(w_cap_commitment);
    let mut agg_scalars: Vec<FieldElement> = Vec::new();
    agg_scalars.push(one);
    agg_scalars.push(gamma);
    let agg_commitment = msm(agg_points.as_slice(), agg_scalars.as_slice());
    let agg_eval = fe_add(&ge, &fe_mul(&gamma, &p.w_cap_eval));
    proof {
        assert(crate::group::point_bytes(lin_points@.subrange(0, 2)) =~= seq![p.f_commitment.spec_bytes(), p.q_commitment.spec_bytes()]);
        assert(crate::group::scalar_values(lin_scalars@) =~= seq![a.value(), z_rho.value()]);
        assert(crate::group::point_bytes(agg_points@.subrange(0, 2)) =~= seq![p.g_commitment.spec_bytes(), w_cap_commitment.spec_bytes()]);
        assert(crate::group::scalar_values(agg_scalars@) =~= seq![1nat, gamma.value()]);
    }
    if !opening_holds(vk, &agg_commitment, &agg_eval, &rho, &p.aggregate_witness_commitment) {
        proof {
            lemma_no_other_inverses(*p, *vk, n as nat, ch.0, ch.1, ch.2, inv_first.value(), inv_last.value());
        }
        return Err(VerificationError::PairingCheckFailed);
    }
    let rho_omega = fe_mul(&rho, &omega);
    if !opening_holds(vk, &p.g_commitment, &gs, &rho_omega, &p.shifted_witness_commitment) {
        proof {
            lemma_no_other_inverses(*p, *vk, n as nat, ch.0, ch.1, ch.2, inv_first.value(), inv_last.value());
        }
        return Err(VerificationError::PairingCheckFailed);
    }
    proof {
        assert(accepting(*p, *vk, n as nat, tau.value(), rho.value(), gamma.value(), inv_first.value(), inv_last.value()));
    }
    Ok(())
}

/// Proves that `z < 2^n` with fresh blinding scalars.
pub fn prove(pk: &ProvingKey, n: usize, z: &FieldElement, transcript: &mut Transcript) -> (res: Result<Proof, ProofError>)
    requires
        pk.wf(),
        z.wf(),
    ensures
        !valid_domain_size(n as nat) <==> res == Err::<Proof, ProofError>(ProofError::Domain(DomainError::InvalidSize)),
        valid_domain_size(n as nat) && out_of_range(*z, n as nat) <==> res == Err::<Proof, ProofError>(ProofError::ValueOutOfRange),
        valid_domain_size(n as nat) && !out_of_range(*z, n as nat) && pk.powers@.len() < 2 * n + 3
            <==> res == Err::<Proof, ProofError>(ProofError::Commit(CommitError::PolynomialTooLarge)),
        valid_domain_size(n as nat) && !out_of_range(*z, n as nat) && pk.powers@.len() >= 2 * n + 3 ==> res is Ok,
        res is Err ==> *final(transcript) == *old(transcript),
        res matches Ok(p) ==> p.wf() && transcript_state(*final(transcript)) == state_after(transcript_state(*old(transcript)), p),
        res matches Ok(p) ==> exists|r: nat, alpha: nat, beta: nat|
            #![trigger made_from(p, *pk, n as nat, transcript_state(*old(transcript)), *z, r, alpha, beta)]
            made_from(p, *pk, n as nat, transcript_state(*old(transcript)), *z, r, alpha, beta),
{
    let r = random_scalar();
    let alpha = random_scalar();
    let beta = random_scalar();
    prove_with_blinding(pk, n, z, &r, &alpha, &beta, transcript)
}

} // verus!
