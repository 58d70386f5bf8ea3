use vstd::prelude::*;
use ark_bls12_381::{Bls12_381, Fr};
use ark_ff::{BigInteger, PrimeField};
use ark_poly::univariate::DensePolynomial;
use ark_poly::DenseUVPolynomial;
use ark_poly_commit::kzg10::{Randomness, KZG10};
use ark_poly_commit::PCRandomness;
use ark_serialize::CanonicalSerialize;
use crate::field::{fe_mul, mod_add, mod_mul, mod_pow, mod_sub, FieldElement};
use crate::group::{msm, msm_of, point_bytes, valid_g1, valid_g2, G1Point, G2Point};
use crate::poly::{bounded, coeff, eval, lemma_zero_ops, mul_coeff, poly_add, poly_scale, values, Polynomial};

verus! {

/// The largest maximum degree that `trusted_setup` accepts.
pub const MAX_DEGREE: usize = 1048576;

/// Why a setup was refused.
#[derive(Debug, Clone, Copy, PartialEq, Eq)]
pub enum SetupError {
    InvalidDegree,
    DegreeTooLarge,
}

/// Why a commitment was refused.
#[derive(Debug, Clone, Copy, PartialEq, Eq)]
pub enum CommitError {
    PolynomialTooLarge,
}

/// The powers `[s^i] G` of the setup's secret, `i` from zero.
#[derive(Debug, Clone, PartialEq, Eq)]
pub struct ProvingKey {
    pub powers: Vec<G1Point>,
}

/// The generators `G`, `H` and the image `[s] H` of the setup's secret.
#[derive(Debug, Clone, Copy, PartialEq, Eq)]
pub struct VerifyingKey {
    pub g: G1Point,
    pub h: G2Point,
    pub beta_h: G2Point,
}

/// A commitment to a polynomial: one point of G1.
pub type Commitment = G1Point;

impl ProvingKey {
    pub open spec fn wf(&self) -> bool {
        self.powers@.len() >= 2 && forall|i: int| 0 <= i < self.powers@.len() ==> #[trigger] self.powers@[i].wf()
    }

    /// How many coefficients the key can commit to.
    pub fn len(&self) -> (r: usize)
        ensures
            r == self.powers@.len(),
    {
        self.powers.len()
    }
}

impl VerifyingKey {
    pub open spec fn wf(&self) -> bool {
        self.g.wf() && self.h.wf() && self.beta_h.wf()
    }
}

/// Relies on `KZG10::setup` with a thread-local random generator: the powers
/// of a fresh secret times a random generator of G1, `max_degree + 1` of
/// them, and a random generator of G2 with its multiple by the secret.
#[verifier::external_body]
fn kzg_setup(max_degree: usize) -> (r: (Vec<G1Point>, G2Point, G2Point))
    requires
        1 <= max_degree <= MAX_DEGREE,
    ensures
        r.0@.len() == max_degree + 1,
        forall|i: int| 0 <= i < r.0@.len() ==> valid_g1(#[trigger] r.0@[i].spec_bytes()),
        valid_g2(r.1.spec_bytes()),
        valid_g2(r.2.spec_bytes()),
{
    let pp = KZG10::<Bls12_381, DensePolynomial<Fr>>::setup(max_degree, false, &mut rand::thread_rng()).unwrap();
    let mut powers = Vec::new();
    for p in pp.powers_of_g.iter() {
        let mut b = [0u8; 48];
        p.serialize_compressed(&mut b[..]).unwrap();
        powers.push(G1Point { bytes: b });
    }
    let (mut h, mut beta_h) = ([0u8; 96], [0u8; 96]);
    pp.h.serialize_compressed(&mut h[..]).unwrap();
    pp.beta_h.serialize_compressed(&mut beta_h[..]).unwrap();
    (powers, G2Point { bytes: h }, G2Point { bytes: beta_h })
}

/// Samples a fresh secret and derives a key pair for polynomials of degree
/// up to `max_degree`; the secret is dropped inside the call.
pub fn trusted_setup(max_degree: usize) -> (r: Result<(ProvingKey, VerifyingKey), SetupError>)
    ensures
        max_degree == 0 <==> r == Err::<(ProvingKey, VerifyingKey), SetupError>(SetupError::InvalidDegree),
        max_degree > MAX_DEGREE <==> r == Err::<(ProvingKey, VerifyingKey), SetupError>(SetupError::DegreeTooLarge),
        r matches Ok((pk, vk)) ==> pk.wf() && vk.wf() && pk.powers@.len() == max_degree + 1 && vk.g == pk.powers@[0],
{
    if max_degree == 0 {
        return Err(SetupError::InvalidDegree);
    }
    if max_degree > MAX_DEGREE {
        return Err(SetupError::DegreeTooLarge);
    }
    let (powers, h, beta_h) = kzg_setup(max_degree);
    let g = powers[0];
    Ok((ProvingKey { powers }, VerifyingKey { g, h, beta_h }))
}

/// The number of coefficients up to the degree: none for an empty vector.
pub open spec fn significant_len(p: Polynomial) -> nat {
    if p.coeffs@.len() == 0 {
        0
    } else {
        p.spec_degree() + 1
    }
}

/// The commitment to `p` under `pk`: the sum of the key's powers times the
/// coefficients up to the degree.
pub open spec fn commitment_of(pk: ProvingKey, p: Polynomial) -> Seq<u8> {
    let k = significant_len(p) as int;
    msm_of(point_bytes(pk.powers@.subrange(0, k)), values(p.coeffs@.subrange(0, k)))
}

/// Commits to a polynomial whose degree is below the key's length.
pub fn commit(pk: &ProvingKey, p: &Polynomial) -> (r: Result<Commitment, CommitError>)
    requires
        pk.wf(),
        p.wf(),
    ensures
        p.spec_degree() >= pk.powers@.len() <==> r == Err::<Commitment, CommitError>(CommitError::PolynomialTooLarge),
        r matches Ok(c) ==> c.wf() && c.spec_bytes() == commitment_of(*pk, *p),
{
    let d = p.degree();
    if d >= pk.powers.len() {
        return Err(CommitError::PolynomialTooLarge);
    }
    let k: usize = if p.coeffs.len() == 0 { 0 } else { d + 1 };
    let mut scalars: Vec<FieldElement> = Vec::new();
    let mut i: usize = 0;
    while i < k
        invariant
            k <= p.coeffs@.len(),
            i <= k,
            scalars@ == p.coeffs@.subrange(0, i as int),
        decreases k - i,
    {
        scalars.push(p.coeffs[i]);
        i = i + 1;
        assert(scalars@ =~= p.coeffs@.subrange(0, i as int));
    }
    let c = msm(pk.powers.as_slice(), scalars.as_slice());
    Ok(c)
}

/// The linear polynomial `X - z`.
pub open spec fn linear(z: nat) -> Seq<nat> {
    seq![mod_sub(0, z), 1nat]
}

/// Relies on `KZG10::compute_witness_polynomial` without hiding: the quotient
/// `(p(X) - p(z)) / (X - z)`.
#[verifier::external_body]
fn witness_polynomial(p: &Polynomial, z: &FieldElement) -> (r: Polynomial)
    requires
        p.wf(),
        z.wf(),
    ensures
        r.wf(),
        r.coeffs@.len() <= p.spec_degree(),
        forall|k: int| k >= 0 ==> #[trigger] mul_coeff(r.spec_values(), linear(z.value()), k)
            == (if k == 0 { mod_sub(coeff(p.spec_values(), 0), eval(p.spec_values(), z.value())) } else { coeff(p.spec_values(), k) }),
{
    let a = DensePolynomial::from_coefficients_vec(p.coeffs.iter().map(|c| Fr::from_le_bytes_mod_order(&c.bytes)).collect());
    let point = Fr::from_le_bytes_mod_order(&z.bytes);
    let (w, _) = KZG10::<Bls12_381, DensePolynomial<Fr>>::compute_witness_polynomial(&a, point, &Randomness::empty()).unwrap();
    let coeffs = w.coeffs.iter().map(|x| FieldElement { bytes: x.into_bigint().to_bytes_le().try_into().unwrap() });
    Polynomial { coeffs: coeffs.collect() }
}

/// The witness that `p` takes its value at `point`: the quotient of
/// `p(X) - p(point)` by `X - point`.
pub fn create_witness(p: &Polynomial, point: &FieldElement) -> (r: Polynomial)
    requires
        p.wf(),
        point.wf(),
    ensures
        r.wf(),
        r.coeffs@.len() <= p.spec_degree(),
        forall|k: int| k >= 0 ==> #[trigger] mul_coeff(r.spec_values(), linear(point.value()), k)
            == (if k == 0 { mod_sub(coeff(p.spec_values(), 0), eval(p.spec_values(), point.value())) } else { coeff(p.spec_values(), k) }),
{
    witness_polynomial(p, point)
}

/// Coefficient `k` of `sum_i c^i * ps[i]`.
pub open spec fn combined_coeff(ps: Seq<Seq<nat>>, c: nat, k: int) -> nat
    decreases ps.len(),
{
    if ps.len() == 0 {
        0
    } else {
        mod_add(combined_coeff(ps.drop_last(), c, k), mod_mul(mod_pow(c, (ps.len() - 1) as nat), coeff(ps.last(), k)))
    }
}

pub open spec fn poly_values(ps: Seq<Polynomial>) -> Seq<Seq<nat>> {
    ps.map_values(|p: Polynomial| p.spec_values())
}

/// A combination of polynomials bounded by `d` is bounded by `d`.
pub proof fn lemma_combined_bounded(ps: Seq<Seq<nat>>, c: nat, d: int, k: int)
    requires
        k > d,
        forall|i: int| 0 <= i < ps.len() ==> bounded(#[trigger] ps[i], d),
    ensures
        combined_coeff(ps, c, k) == 0,
    decreases ps.len(),
{
    if ps.len() > 0 {
        let t = ps.drop_last();
        assert forall|i: int| 0 <= i < t.len() implies bounded(#[trigger] t[i], d) by {
            assert(t[i] == ps[i]);
        }
        lemma_combined_bounded(t, c, d, k);
        assert(bounded(ps[ps.len() - 1], d));
        assert(coeff(ps.last(), k) == 0);
        lemma_zero_ops(mod_pow(c, (ps.len() - 1) as nat));
    }
}

/// The combination `sum_i challenge^i * polys[i]`.
pub fn combine(polys: &Vec<Polynomial>, challenge: &FieldElement) -> (r: Polynomial)
    requires
        challenge.wf(),
        forall|i: int| 0 <= i < polys@.len() ==> #[trigger] polys@[i].wf(),
    ensures
        r.wf(),
        forall|k: int| #[trigger] coeff(r.spec_values(), k) == combined_coeff(poly_values(polys@), challenge.value(), k),
{
    let mut acc = Polynomial { coeffs: Vec::new() };
    let mut power = crate::field::fe_from_u64(1);
    let mut j: usize = 0;
    while j < polys.len()
        invariant
            j <= polys@.len(),
            challenge.wf(),
            forall|i: int| 0 <= i < polys@.len() ==> #[trigger] polys@[i].wf(),
            acc.wf(),
            power.wf(),
            power.value() == mod_pow(challenge.value(), j as nat),
            forall|k: int| #[trigger] coeff(acc.spec_values(), k) == combined_coeff(poly_values(polys@.subrange(0, j as int)), challenge.value(), k),
        decreases polys@.len() - j,
    {
        let term = poly_scale(&polys[j], &power);
        let next = poly_add(&acc, &term);
        proof {
            let pre = poly_values(polys@.subrange(0, j as int));
            let post = poly_values(polys@.subrange(0, j as int + 1));
            assert(post.drop_last() =~= pre);
            assert(post.last() == polys@[j as int].spec_values());
            assert forall|k: int| #[trigger] coeff(next.spec_values(), k) == combined_coeff(post, challenge.value(), k) by {
                assert(coeff(next.spec_values(), k) == mod_add(coeff(acc.spec_values(), k), coeff(term.spec_values(), k)));
                assert(coeff(acc.spec_values(), k) == combined_coeff(pre, challenge.value(), k));
            }
        }
        acc = next;
        power = fe_mul(&power, challenge);
        proof {
            assert(mod_pow(challenge.value(), (j + 1) as nat) == mod_mul(challenge.value(), mod_pow(challenge.value(), j as nat)));
            assert(mod_mul(power.value(), challenge.value()) == mod_mul(challenge.value(), power.value())) by (nonlinear_arith);
        }
        j = j + 1;
    }
    assert(polys@.subrange(0, polys@.len() as int) =~= polys@);
    acc
}

/// One witness for all of `polys` at `point`: the witness of their
/// combination weighted by the powers of `challenge`.
pub fn create_aggregate_witness(polys: &Vec<Polynomial>, point: &FieldElement, challenge: &FieldElement) -> (r: Polynomial)
    requires
        point.wf(),
        challenge.wf(),
        forall|i: int| 0 <= i < polys@.len() ==> #[trigger] polys@[i].wf(),
    ensures
        r.wf(),
        exists|c: Polynomial|
            #![trigger c.spec_values()]
            (forall|k: int| #[trigger] coeff(c.spec_values(), k) == combined_coeff(poly_values(polys@), challenge.value(), k))
            && forall|k: int| k >= 0 ==> #[trigger] mul_coeff(r.spec_values(), linear(point.value()), k)
                == (if k == 0 { mod_sub(coeff(c.spec_values(), 0), eval(c.spec_values(), point.value())) } else { coeff(c.spec_values(), k) }),
{
    let c = combine(polys, challenge);
    let w = create_witness(&c, point);
    assert(c.spec_values() == c.spec_values());
    w
}

} // verus!
