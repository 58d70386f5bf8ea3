use vstd::prelude::*;
use ark_bls12_381::Fr;
use ark_ff::{BigInteger, PrimeField};
use ark_poly::univariate::DensePolynomial;
use ark_poly::{DenseUVPolynomial, EvaluationDomain, GeneralEvaluationDomain, Polynomial as ArkPolynomial};
use crate::field::{mod_add, mod_mul, mod_pow, mod_sub, modulus, FieldElement};

verus! {

/// A univariate polynomial over the scalar field, lowest coefficient first.
#[derive(Debug, Clone, PartialEq, Eq)]
pub struct Polynomial {
    pub coeffs: Vec<FieldElement>,
}

/// The coefficient values of a sequence of field elements.
pub open spec fn values(c: Seq<FieldElement>) -> Seq<nat> {
    c.map_values(|x: FieldElement| x.value())
}

/// Coefficient `i`, zero past the end.
pub open spec fn coeff(c: Seq<nat>, i: int) -> nat {
    if 0 <= i < c.len() {
        c[i]
    } else {
        0
    }
}

/// The value of a polynomial at `x`, reduced modulo the field order.
pub open spec fn eval(c: Seq<nat>, x: nat) -> nat
    decreases c.len(),
{
    if c.len() == 0 {
        0
    } else {
        mod_add(c[0], mod_mul(x, eval(c.drop_first(), x)))
    }
}

/// The sum of `a[i] * b[k - i]` for `i < j`, modulo the field order.
pub open spec fn conv(a: Seq<nat>, b: Seq<nat>, k: int, j: int) -> nat
    decreases j,
{
    if j <= 0 {
        0
    } else {
        mod_add(conv(a, b, k, j - 1), mod_mul(coeff(a, j - 1), coeff(b, k - (j - 1))))
    }
}

/// Coefficient `k` of the product of two polynomials.
pub open spec fn mul_coeff(a: Seq<nat>, b: Seq<nat>, k: int) -> nat {
    conv(a, b, k, k + 1)
}

/// The coefficientwise difference of two coefficient sequences.
pub open spec fn sub_values(a: Seq<nat>, b: Seq<nat>) -> Seq<nat> {
    Seq::new(if a.len() >= b.len() { a.len() } else { b.len() }, |i: int| mod_sub(coeff(a, i), coeff(b, i)))
}

/// The product of two coefficient sequences.
pub open spec fn mul_values(a: Seq<nat>, b: Seq<nat>) -> Seq<nat> {
    Seq::new(if a.len() == 0 || b.len() == 0 { 0 } else { (a.len() + b.len() - 1) as nat }, |k: int| mul_coeff(a, b, k))
}

/// Whether two coefficient sequences stand for the same polynomial.
pub open spec fn same_poly(a: Seq<nat>, b: Seq<nat>) -> bool {
    forall|i: int| #[trigger] coeff(a, i) == coeff(b, i)
}

proof fn lemma_conv_ext(a1: Seq<nat>, a2: Seq<nat>, b1: Seq<nat>, b2: Seq<nat>, k: int, j: int)
    requires
        same_poly(a1, a2),
        same_poly(b1, b2),
    ensures
        conv(a1, b1, k, j) == conv(a2, b2, k, j),
    decreases j,
{
    if j > 0 {
        lemma_conv_ext(a1, a2, b1, b2, k, j - 1);
        assert(coeff(a1, j - 1) == coeff(a2, j - 1));
        assert(coeff(b1, k - (j - 1)) == coeff(b2, k - (j - 1)));
    }
}

/// Products of the same polynomials have the same coefficients.
pub proof fn lemma_mul_ext(a1: Seq<nat>, a2: Seq<nat>, b1: Seq<nat>, b2: Seq<nat>)
    requires
        same_poly(a1, a2),
        same_poly(b1, b2),
    ensures
        forall|k: int| #[trigger] mul_coeff(a1, b1, k) == mul_coeff(a2, b2, k),
{
    assert forall|k: int| #[trigger] mul_coeff(a1, b1, k) == mul_coeff(a2, b2, k) by {
        lemma_conv_ext(a1, a2, b1, b2, k, k + 1);
    }
}

proof fn lemma_conv_zero(a: Seq<nat>, b: Seq<nat>, k: int, j: int)
    requires
        forall|i: int| 0 <= i < j ==> coeff(a, i) == 0 || coeff(b, k - i) == 0,
    ensures
        conv(a, b, k, j) == 0,
    decreases j,
{
    crate::field::lemma_modulus_large();
    if j > 0 {
        lemma_conv_zero(a, b, k, j - 1);
        let x = coeff(a, j - 1);
        let y = coeff(b, k - (j - 1));
        assert(x * y == 0) by (nonlinear_arith)
            requires
                x == 0 || y == 0,
        ;
        vstd::arithmetic::div_mod::lemma_small_mod(0, modulus());
    }
}

/// The coefficients of `mul_values` are those of the product.
pub proof fn lemma_mul_values(a: Seq<nat>, b: Seq<nat>)
    ensures
        forall|k: int| k >= 0 ==> #[trigger] coeff(mul_values(a, b), k) == mul_coeff(a, b, k),
{
    assert forall|k: int| k >= 0 implies #[trigger] coeff(mul_values(a, b), k) == mul_coeff(a, b, k) by {
        if k >= mul_values(a, b).len() {
            assert forall|i: int| 0 <= i < k + 1 implies coeff(a, i) == 0 || coeff(b, k - i) == 0 by {
                if i < a.len() && k - i < b.len() {
                    assert(false);
                }
            }
            lemma_conv_zero(a, b, k, k + 1);
        }
    }
}

/// Every coefficient past index `d` is zero.
pub open spec fn bounded(c: Seq<nat>, d: int) -> bool {
    forall|i: int| i > d ==> #[trigger] coeff(c, i) == 0
}

/// A sequence is bounded by its last index.
pub proof fn lemma_len_bounded(c: Seq<nat>, d: int)
    requires
        c.len() <= d + 1,
    ensures
        bounded(c, d),
{
}

/// A bounded polynomial has degree at most the bound.
pub proof fn lemma_degree_bounded(c: Seq<nat>, d: int)
    requires
        d >= 0,
        bounded(c, d),
    ensures
        degree_of(c) <= d,
    decreases c.len(),
{
    if c.len() > 0 && c.last() == 0 {
        let t = c.drop_last();
        assert forall|i: int| i > d implies #[trigger] coeff(t, i) == 0 by {
            assert(coeff(c, i) == 0);
        }
        lemma_degree_bounded(t, d);
    } else if c.len() > 0 {
        assert(coeff(c, c.len() - 1) != 0);
    }
}

/// Products of bounded polynomials are bounded by the sum of the bounds.
pub proof fn lemma_mul_bounded(a: Seq<nat>, b: Seq<nat>, da: int, db: int)
    requires
        da >= 0,
        db >= 0,
        bounded(a, da),
        bounded(b, db),
    ensures
        forall|k: int| k > da + db ==> #[trigger] mul_coeff(a, b, k) == 0,
{
    assert forall|k: int| k > da + db implies #[trigger] mul_coeff(a, b, k) == 0 by {
        assert forall|i: int| 0 <= i < k + 1 implies coeff(a, i) == 0 || coeff(b, k - i) == 0 by {
            if i <= da {
                assert(coeff(b, k - i) == 0);
            } else {
                assert(coeff(a, i) == 0);
            }
        }
        lemma_conv_zero(a, b, k, k + 1);
    }
}

/// Sums, differences and multiples of zero are zero.
pub proof fn lemma_zero_ops(c: nat)
    ensures
        mod_add(0, 0) == 0,
        mod_sub(0, 0) == 0,
        mod_mul(c, 0) == 0,
{
    crate::field::lemma_modulus_large();
    vstd::arithmetic::div_mod::lemma_small_mod(0, modulus());
    vstd::arithmetic::div_mod::lemma_mod_self_0(modulus() as int);
    assert(c * 0 == 0);
}

/// A polynomial whose coefficients are the differences of those of `a` and
/// `b` is their difference.
pub proof fn lemma_sub_same(r: Seq<nat>, a: Seq<nat>, b: Seq<nat>, a2: Seq<nat>, b2: Seq<nat>)
    requires
        forall|i: int| #[trigger] coeff(r, i) == mod_sub(coeff(a, i), coeff(b, i)),
        same_poly(a, a2),
        same_poly(b, b2),
    ensures
        same_poly(r, sub_values(a2, b2)),
{
    crate::field::lemma_modulus_large();
    assert(mod_sub(0, 0) == 0) by {
        vstd::arithmetic::div_mod::lemma_mod_self_0(modulus() as int);
    }
    assert forall|i: int| #[trigger] coeff(r, i) == coeff(sub_values(a2, b2), i) by {
        assert(coeff(r, i) == mod_sub(coeff(a, i), coeff(b, i)));
        assert(coeff(a, i) == coeff(a2, i));
        assert(coeff(b, i) == coeff(b2, i));
    }
}

/// The coefficientwise sum of two coefficient sequences.
pub open spec fn add_values(a: Seq<nat>, b: Seq<nat>) -> Seq<nat> {
    Seq::new(if a.len() >= b.len() { a.len() } else { b.len() }, |i: int| mod_add(coeff(a, i), coeff(b, i)))
}

/// A polynomial whose coefficients are the sums of those of `a` and `b` is
/// their sum.
pub proof fn lemma_add_same(r: Seq<nat>, a: Seq<nat>, b: Seq<nat>, a2: Seq<nat>, b2: Seq<nat>)
    requires
        forall|i: int| #[trigger] coeff(r, i) == mod_add(coeff(a, i), coeff(b, i)),
        same_poly(a, a2),
        same_poly(b, b2),
    ensures
        same_poly(r, add_values(a2, b2)),
{
    crate::field::lemma_modulus_large();
    assert(mod_add(0, 0) == 0) by {
        vstd::arithmetic::div_mod::lemma_small_mod(0, modulus());
    }
    assert forall|i: int| #[trigger] coeff(r, i) == coeff(add_values(a2, b2), i) by {
        assert(coeff(r, i) == mod_add(coeff(a, i), coeff(b, i)));
        assert(coeff(a, i) == coeff(a2, i));
        assert(coeff(b, i) == coeff(b2, i));
    }
}

/// `a` with every coefficient times `c`.
pub open spec fn scale_values(c: nat, a: Seq<nat>) -> Seq<nat> {
    Seq::new(a.len(), |i: int| mod_mul(c, a[i]))
}

/// A polynomial whose coefficients are those of `a` times `c` is `a` scaled by `c`.
pub proof fn lemma_scale_same(r: Seq<nat>, c: nat, a: Seq<nat>, a2: Seq<nat>)
    requires
        forall|i: int| #[trigger] coeff(r, i) == mod_mul(c, coeff(a, i)),
        same_poly(a, a2),
    ensures
        same_poly(r, scale_values(c, a2)),
{
    crate::field::lemma_modulus_large();
    assert(mod_mul(c, 0) == 0) by {
        assert(c * 0 == 0);
        vstd::arithmetic::div_mod::lemma_small_mod(0, modulus());
    }
    assert forall|i: int| #[trigger] coeff(r, i) == coeff(scale_values(c, a2), i) by {
        assert(coeff(r, i) == mod_mul(c, coeff(a, i)));
        assert(coeff(a, i) == coeff(a2, i));
    }
}

/// A polynomial whose coefficients are those of the product of `a` and `b`
/// is the product of any polynomials equal to them.
pub proof fn lemma_mul_same(r: Seq<nat>, a: Seq<nat>, b: Seq<nat>, a2: Seq<nat>, b2: Seq<nat>)
    requires
        forall|k: int| #[trigger] coeff(r, k) == (if k < 0 { 0 } else { mul_coeff(a, b, k) }),
        same_poly(a, a2),
        same_poly(b, b2),
    ensures
        same_poly(r, mul_values(a2, b2)),
{
    lemma_mul_ext(a, a2, b, b2);
    lemma_mul_values(a2, b2);
    assert forall|k: int| #[trigger] coeff(r, k) == coeff(mul_values(a2, b2), k) by {
        assert(coeff(r, k) == (if k < 0 { 0 } else { mul_coeff(a, b, k) }));
        if k >= 0 {
            assert(mul_coeff(a, b, k) == mul_coeff(a2, b2, k));
        }
    }
}

/// The vanishing polynomial `X^n - 1` of a domain of size `n`.
pub open spec fn vanishing(n: nat) -> Seq<nat> {
    Seq::new(n + 1, |i: int| if i == 0 { (modulus() - 1) as nat } else if i == n { 1nat } else { 0nat })
}

/// The generator of the multiplicative subgroup of order `n`.
pub uninterp spec fn domain_gen(n: nat) -> nat;

/// Why a domain size was refused.
#[derive(Debug, Clone, Copy, PartialEq, Eq)]
pub enum DomainError {
    InvalidSize,
}

/// Whether `n` is a power of two.
pub open spec fn is_pow2(n: nat) -> bool
    decreases n,
{
    if n <= 1 {
        n == 1
    } else {
        n % 2 == 0 && is_pow2(n / 2)
    }
}

/// Sizes for which the field has a multiplicative subgroup, and whose double
/// has one too: the powers of two from 1 to 2^31.
pub open spec fn valid_domain_size(n: nat) -> bool {
    1 <= n <= 0x8000_0000 && is_pow2(n)
}

/// Whether `n` is a usable domain size.
pub fn check_domain_size(n: usize) -> (r: bool)
    ensures
        r == valid_domain_size(n as nat),
{
    if n < 1 || n > 0x8000_0000 {
        return false;
    }
    let mut m: usize = n;
    while m > 1
        invariant
            m >= 1,
            is_pow2(n as nat) == is_pow2(m as nat),
        decreases m,
    {
        if m % 2 != 0 {
            return false;
        }
        m = m / 2;
    }
    true
}

impl Polynomial {
    pub open spec fn wf(&self) -> bool {
        forall|i: int| 0 <= i < self.coeffs@.len() ==> #[trigger] self.coeffs@[i].wf()
    }

    pub open spec fn spec_values(&self) -> Seq<nat> {
        values(self.coeffs@)
    }

    /// The degree: the index of the highest nonzero coefficient, or zero.
    pub open spec fn spec_degree(&self) -> nat {
        degree_of(self.spec_values())
    }

    /// The index of the highest nonzero coefficient, or zero for the zero polynomial.
    pub fn degree(&self) -> (r: usize)
        ensures
            r == self.spec_degree(),
            self.coeffs@.len() > 0 ==> r < self.coeffs@.len(),
    {
        let mut i: usize = self.coeffs.len();
        assert(self.spec_values().subrange(0, i as int) =~= self.spec_values());
        while i > 0
            invariant
                i <= self.coeffs@.len(),
                forall|j: int| i <= j < self.coeffs@.len() ==> self.spec_values()[j] == 0,
                degree_of(self.spec_values()) == degree_of(self.spec_values().subrange(0, i as int)),
            decreases i,
        {
            let c = &self.coeffs[i - 1];
            if !c.is_zero() {
                proof {
                    assert(self.spec_values().subrange(0, i as int).last() != 0);
                }
                return i - 1;
            }
            proof {
                let s = self.spec_values().subrange(0, i as int);
                assert(s.drop_last() =~= self.spec_values().subrange(0, i - 1));
            }
            i = i - 1;
        }
        0
    }
}

/// Degree of a coefficient sequence.
pub open spec fn degree_of(c: Seq<nat>) -> nat
    decreases c.len(),
{
    if c.len() == 0 {
        0
    } else if c.last() != 0 {
        (c.len() - 1) as nat
    } else {
        degree_of(c.drop_last())
    }
}

/// Relies on `GeneralEvaluationDomain::group_gen`: the subgroup's generator,
/// a primitive `n`-th root of unity.
#[verifier::external_body]
pub(crate) fn domain_generator(n: usize) -> (r: FieldElement)
    requires
        valid_domain_size(n as nat),
    ensures
        r.value() == domain_gen(n as nat),
        r.wf(),
        mod_pow(r.value(), n as nat) == 1,
        forall|k: nat| 0 < k < n ==> #[trigger] mod_pow(r.value(), k) != 1,
{
    let g = GeneralEvaluationDomain::<Fr>::new(n).unwrap().group_gen();
    let out = g.into_bigint().to_bytes_le();
    let mut bytes = [0u8; 32];
    bytes.copy_from_slice(&out);
    FieldElement { bytes }
}

/// Relies on `EvaluationDomain::ifft`: the polynomial of degree below `n`
/// that takes the given values at the powers of the generator.
#[verifier::external_body]
pub(crate) fn interpolate(n: usize, evals: &Vec<FieldElement>) -> (r: Polynomial)
    requires
        valid_domain_size(n as nat),
        evals@.len() == n,
        forall|i: int| 0 <= i < n ==> #[trigger] evals@[i].wf(),
    ensures
        r.wf(),
        r.coeffs@.len() <= n,
        forall|i: nat| i < n ==> eval(r.spec_values(), #[trigger] mod_pow(domain_gen(n as nat), i)) == evals@[i as int].value(),
{
    let e: Vec<Fr> = evals.iter().map(|c| Fr::from_le_bytes_mod_order(&c.bytes)).collect();
    let c = DensePolynomial::from_coefficients_vec(GeneralEvaluationDomain::<Fr>::new(n).unwrap().ifft(&e));
    let coeffs = c.coeffs.iter().map(|x| FieldElement { bytes: x.into_bigint().to_bytes_le().try_into().unwrap() });
    Polynomial { coeffs: coeffs.collect() }
}

/// Relies on `Polynomial::evaluate` of `DensePolynomial`: the value at `x`.
#[verifier::external_body]
pub(crate) fn evaluate(p: &Polynomial, x: &FieldElement) -> (r: FieldElement)
    requires
        p.wf(),
        x.wf(),
    ensures
        r.value() == eval(p.spec_values(), x.value()),
        r.wf(),
{
    let a = DensePolynomial::from_coefficients_vec(p.coeffs.iter().map(|c| Fr::from_le_bytes_mod_order(&c.bytes)).collect());
    let v = a.evaluate(&Fr::from_le_bytes_mod_order(&x.bytes));
    FieldElement { bytes: v.into_bigint().to_bytes_le().try_into().unwrap() }
}

/// Relies on `&DensePolynomial + &DensePolynomial`: the coefficientwise sum.
#[verifier::external_body]
pub(crate) fn poly_add(p: &Polynomial, q: &Polynomial) -> (r: Polynomial)
    requires
        p.wf(),
        q.wf(),
    ensures
        r.wf(),
        forall|i: int| #[trigger] coeff(r.spec_values(), i) == mod_add(coeff(p.spec_values(), i), coeff(q.spec_values(), i)),
{
    let a = DensePolynomial::from_coefficients_vec(p.coeffs.iter().map(|c| Fr::from_le_bytes_mod_order(&c.bytes)).collect());
    let b = DensePolynomial::from_coefficients_vec(q.coeffs.iter().map(|c| Fr::from_le_bytes_mod_order(&c.bytes)).collect());
    let c = &a + &b;
    let coeffs = c.coeffs.iter().map(|x| FieldElement { bytes: x.into_bigint().to_bytes_le().try_into().unwrap() });
    Polynomial { coeffs: coeffs.collect() }
}

/// Relies on `&DensePolynomial - &DensePolynomial`: the coefficientwise difference.
#[verifier::external_body]
pub(crate) fn poly_sub(p: &Polynomial, q: &Polynomial) -> (r: Polynomial)
    requires
        p.wf(),
        q.wf(),
    ensures
        r.wf(),
        forall|i: int| #[trigger] coeff(r.spec_values(), i) == mod_sub(coeff(p.spec_values(), i), coeff(q.spec_values(), i)),
{
    let a = DensePolynomial::from_coefficients_vec(p.coeffs.iter().map(|c| Fr::from_le_bytes_mod_order(&c.bytes)).collect());
    let b = DensePolynomial::from_coefficients_vec(q.coeffs.iter().map(|c| Fr::from_le_bytes_mod_order(&c.bytes)).collect());
    let c = &a - &b;
    let coeffs = c.coeffs.iter().map(|x| FieldElement { bytes: x.into_bigint().to_bytes_le().try_into().unwrap() });
    Polynomial { coeffs: coeffs.collect() }
}

/// Relies on `&DensePolynomial * Fr`: every coefficient times `s`.
#[verifier::external_body]
pub(crate) fn poly_scale(p: &Polynomial, s: &FieldElement) -> (r: Polynomial)
    requires
        p.wf(),
        s.wf(),
    ensures
        r.wf(),
        forall|i: int| #[trigger] coeff(r.spec_values(), i) == mod_mul(s.value(), coeff(p.spec_values(), i)),
{
    let a = DensePolynomial::from_coefficients_vec(p.coeffs.iter().map(|c| Fr::from_le_bytes_mod_order(&c.bytes)).collect());
    let c = &a * Fr::from_le_bytes_mod_order(&s.bytes);
    let coeffs = c.coeffs.iter().map(|x| FieldElement { bytes: x.into_bigint().to_bytes_le().try_into().unwrap() });
    Polynomial { coeffs: coeffs.collect() }
}

/// Relies on `&DensePolynomial * &DensePolynomial`: the product.
#[verifier::external_body]
pub(crate) fn poly_mul(p: &Polynomial, q: &Polynomial) -> (r: Polynomial)
    requires
        p.wf(),
        q.wf(),
    ensures
        r.wf(),
        forall|k: int| #[trigger] coeff(r.spec_values(), k) == (if k < 0 { 0 } else { mul_coeff(p.spec_values(), q.spec_values(), k) }),
{
    let a = DensePolynomial::from_coefficients_vec(p.coeffs.iter().map(|c| Fr::from_le_bytes_mod_order(&c.bytes)).collect());
    let b = DensePolynomial::from_coefficients_vec(q.coeffs.iter().map(|c| Fr::from_le_bytes_mod_order(&c.bytes)).collect());
    let c = &a * &b;
    let coeffs = c.coeffs.iter().map(|x| FieldElement { bytes: x.into_bigint().to_bytes_le().try_into().unwrap() });
    Polynomial { coeffs: coeffs.collect() }
}

/// Relies on `DensePolynomial::divide_by_vanishing_poly`: quotient and
/// remainder of the division by `X^n - 1`, the remainder below degree `n`.
#[verifier::external_body]
pub(crate) fn divide_by_vanishing(p: &Polynomial, n: usize) -> (r: (Polynomial, Polynomial))
    requires
        p.wf(),
        valid_domain_size(n as nat),
    ensures
        r.0.wf(),
        r.1.wf(),
        r.1.coeffs@.len() <= n,
        r.0.coeffs@.len() == 0 || r.0.coeffs@.len() + n <= p.spec_degree() + 1,
        forall|k: int| #[trigger] coeff(p.spec_values(), k) == (if k < 0 { 0 } else { mod_add(mul_coeff(r.0.spec_values(), vanishing(n as nat), k), coeff(r.1.spec_values(), k)) }),
{
    let a = DensePolynomial::from_coefficients_vec(p.coeffs.iter().map(|c| Fr::from_le_bytes_mod_order(&c.bytes)).collect());
    let (q, rem) = a.divide_by_vanishing_poly(GeneralEvaluationDomain::<Fr>::new(n).unwrap()).unwrap();
    let qc = q.coeffs.iter().map(|x| FieldElement { bytes: x.into_bigint().to_bytes_le().try_into().unwrap() });
    let rc = rem.coeffs.iter().map(|x| FieldElement { bytes: x.into_bigint().to_bytes_le().try_into().unwrap() });
    (Polynomial { coeffs: qc.collect() }, Polynomial { coeffs: rc.collect() })
}

} // verus!
