use vstd::prelude::*;
use crate::commitment_scheme::{combine, combined_coeff, lemma_combined_bounded, linear, poly_values};
use crate::field::{modulus, fe_add, fe_from_u64, fe_mul, fe_pow, fe_sub, mod_add, mod_mul, mod_pow, FieldElement};
use crate::poly::{
    bounded, lemma_degree_bounded, lemma_len_bounded, lemma_mul_bounded, lemma_zero_ops, coeff, domain_gen, eval, interpolate, add_values, lemma_add_same, lemma_mul_same, lemma_scale_same, lemma_sub_same, scale_values, mul_coeff, mul_values, same_poly,
    sub_values, vanishing, poly_mul, poly_scale, poly_sub, poly_add, valid_domain_size,
    Polynomial,
};
use crate::utils::{le_value, lsb_bits};

verus! {

/// Bit `i` of an encoding, least significant first; false past its end.
pub open spec fn bit_of(b: Seq<u8>, i: int) -> bool {
    0 <= i < 8 * b.len() && lsb_bits(b)[i]
}

/// Bit `i` of a field element's encoding.
pub fn bit_at(z: &FieldElement, i: usize) -> (r: bool)
    ensures
        r == bit_of(z.spec_bytes(), i as int),
{
    let b = z.to_bytes();
    if i < 256 {
        (b[i / 8] >> ((i % 8) as u8)) & 1u8 == 1u8
    } else {
        false
    }
}

/// `X^n - 1`.
pub fn vanishing_polynomial(n: usize) -> (r: Polynomial)
    requires
        valid_domain_size(n as nat),
    ensures
        r.wf(),
        r.spec_values() == vanishing(n as nat),
{
    let zero = fe_from_u64(0);
    let one = fe_from_u64(1);
    let minus_one = fe_sub(&zero, &one);
    proof {
        crate::field::lemma_modulus_large();
        vstd::arithmetic::div_mod::lemma_small_mod((modulus() - 1) as nat, modulus());
    }
    let mut coeffs: Vec<FieldElement> = Vec::new();
    coeffs.push(minus_one);
    let mut i: usize = 1;
    while i < n
        invariant
            1 <= i <= n,
            n <= 0x8000_0000,
            coeffs@.len() == i,
            zero.wf() && zero.value() == 0,
            forall|j: int| 0 <= j < coeffs@.len() ==> #[trigger] coeffs@[j].wf(),
            forall|j: int| 0 <= j < coeffs@.len() ==> #[trigger] coeffs@[j].value() == vanishing(n as nat)[j],
        decreases n - i,
    {
        coeffs.push(zero);
        i = i + 1;
    }
    coeffs.push(one);
    let r = Polynomial { coeffs };
    assert(r.spec_values() =~= vanishing(n as nat));
    r
}

/// `1 + X + ... + X^(n-1)`, the quotient of `X^n - 1` by `X - 1`.
pub open spec fn first_quotient(n: nat) -> Seq<nat> {
    Seq::new(n, |i: int| 1nat)
}

/// `sum_k a^(n-1-k) X^k`, the quotient of `X^n - 1` by `X - a` when `a^n = 1`.
pub open spec fn last_quotient(n: nat, a: nat) -> Seq<nat> {
    Seq::new(n, |k: int| mod_pow(a, (n - 1 - k) as nat))
}

/// The quotient of `X^n - 1` by `X - 1`.
pub fn first_quotient_polynomial(n: usize) -> (r: Polynomial)
    requires
        valid_domain_size(n as nat),
    ensures
        r.wf(),
        r.spec_values() == first_quotient(n as nat),
{
    let one = fe_from_u64(1);
    let mut coeffs: Vec<FieldElement> = Vec::new();
    let mut i: usize = 0;
    while i < n
        invariant
            i <= n,
            coeffs@.len() == i,
            one.wf() && one.value() == 1,
            forall|j: int| 0 <= j < coeffs@.len() ==> #[trigger] coeffs@[j] == one,
        decreases n - i,
    {
        coeffs.push(one);
        i = i + 1;
    }
    let r = Polynomial { coeffs };
    assert(r.spec_values() =~= first_quotient(n as nat));
    r
}

/// The quotient of `X^n - 1` by `X - a`, for `a` an `n`-th root of unity.
pub fn last_quotient_polynomial(n: usize, a: &FieldElement) -> (r: Polynomial)
    requires
        valid_domain_size(n as nat),
        a.wf(),
    ensures
        r.wf(),
        r.spec_values() == last_quotient(n as nat, a.value()),
{
    let mut coeffs: Vec<FieldElement> = Vec::new();
    let mut i: usize = 0;
    while i < n
        invariant
            i <= n,
            n <= 0x8000_0000,
            a.wf(),
            coeffs@.len() == i,
            forall|j: int| 0 <= j < coeffs@.len() ==> #[trigger] coeffs@[j].wf(),
            forall|j: int| 0 <= j < coeffs@.len() ==> #[trigger] coeffs@[j].value() == last_quotient(n as nat, a.value())[j],
        decreases n - i,
    {
        coeffs.push(fe_pow(a, (n - 1 - i) as u64));
        i = i + 1;
    }
    let r = Polynomial { coeffs };
    assert(r.spec_values() =~= last_quotient(n as nat, a.value()));
    r
}

/// `r (X^n - 1)`, which vanishes on the domain.
pub open spec fn value_mask(n: nat, r: nat) -> Seq<nat> {
    scale_values(r, vanishing(n))
}

/// The polynomial that takes `z` at `1` and zero on the rest of the domain of
/// size `n`, blinded by `r (X^n - 1)`.
pub fn compute_f(n: usize, z: &FieldElement, r: &FieldElement) -> (f: Polynomial)
    requires
        valid_domain_size(n as nat),
        z.wf(),
        r.wf(),
    ensures
        f.wf(),
        bounded(f.spec_values(), n as int),
        exists|h: Seq<nat>|
            #![trigger add_values(h, value_mask(n as nat, r.value()))]
            h.len() <= n
            && (forall|i: nat| i < n ==> eval(h, #[trigger] mod_pow(domain_gen(n as nat), i)) == (if i == 0 { z.value() } else { 0 }))
            && same_poly(f.spec_values(), add_values(h, value_mask(n as nat, r.value()))),
{
    let zero = fe_from_u64(0);
    let mut evals: Vec<FieldElement> = Vec::new();
    evals.push(*z);
    let mut i: usize = 1;
    while i < n
        invariant
            1 <= i <= n,
            n <= 0x8000_0000,
            evals@.len() == i,
            zero.wf() && zero.value() == 0,
            evals@[0] == *z,
            forall|j: int| 0 <= j < evals@.len() ==> #[trigger] evals@[j].wf(),
            forall|j: int| 1 <= j < evals@.len() ==> #[trigger] evals@[j].value() == 0,
        decreases n - i,
    {
        evals.push(zero);
        i = i + 1;
    }
    let f_domain = interpolate(n, &evals);
    let zh = vanishing_polynomial(n);
    let mask = poly_scale(&zh, r);
    let f = poly_add(&f_domain, &mask);
    proof {
        let mv = value_mask(n as nat, r.value());
        lemma_scale_same(mask.spec_values(), r.value(), zh.spec_values(), vanishing(n as nat));
        lemma_add_same(f.spec_values(), f_domain.spec_values(), mask.spec_values(), f_domain.spec_values(), mv);
        let h = f_domain.spec_values();
        assert(forall|i: nat| i < n ==> eval(h, #[trigger] mod_pow(domain_gen(n as nat), i)) == (if i == 0 { z.value() } else { 0 }));
        assert(same_poly(f.spec_values(), add_values(h, mv)));
        lemma_len_bounded(f_domain.spec_values(), n as int);
        lemma_len_bounded(zh.spec_values(), n as int);
        lemma_zero_ops(r.value());
        assert forall|i: int| i > n implies #[trigger] coeff(f.spec_values(), i) == 0 by {
            assert(coeff(mask.spec_values(), i) == mod_mul(r.value(), coeff(zh.spec_values(), i)));
            assert(coeff(f_domain.spec_values(), i) == 0);
        }
    }
    f
}

/// `sum_{i <= j < n} bit_j * 2^(j - i)` for the bits of `b`, modulo the field order.
pub open spec fn partial_sum(b: Seq<u8>, n: nat, i: nat) -> nat
    decreases n - i,
{
    let bit: nat = if bit_of(b, i as int) { 1 } else { 0 };
    if i + 1 >= n {
        bit
    } else {
        mod_add(mod_mul(2, partial_sum(b, n, i + 1)), bit)
    }
}

/// `sum_{i <= j < m} bit_j * 2^(j - i)` for the bits of `b`, as an integer.
pub open spec fn bit_sum(b: Seq<u8>, m: nat, i: nat) -> nat
    decreases m - i,
{
    if i >= m {
        0
    } else {
        (if bit_of(b, i as int) { 1nat } else { 0nat }) + 2 * bit_sum(b, m, i + 1)
    }
}

proof fn lemma_partial_sum_mod(b: Seq<u8>, n: nat, i: nat)
    requires
        i < n,
    ensures
        partial_sum(b, n, i) == bit_sum(b, n, i) % modulus(),
    decreases n - i,
{
    crate::field::lemma_modulus_large();
    let m = modulus() as int;
    let bit: nat = if bit_of(b, i as int) { 1 } else { 0 };
    vstd::arithmetic::div_mod::lemma_small_mod(bit, modulus());
    if i + 1 >= n {
        assert(bit_sum(b, n, i + 1) == 0);
    } else {
        lemma_partial_sum_mod(b, n, i + 1);
        let s = bit_sum(b, n, i + 1) as int;
        vstd::arithmetic::div_mod::lemma_mul_mod_noop_right(2, s, m);
        vstd::arithmetic::div_mod::lemma_add_mod_noop(2 * s, bit as int, m);
        vstd::arithmetic::div_mod::lemma_mod_twice(2 * s, m);
    }
}

proof fn lemma_bit_sum_zero(b: Seq<u8>, m: nat, i: nat)
    requires
        forall|j: int| i <= j < m ==> !#[trigger] bit_of(b, j),
    ensures
        bit_sum(b, m, i) == 0,
    decreases m - i,
{
    if i < m {
        lemma_bit_sum_zero(b, m, i + 1);
    }
}

proof fn lemma_bit_sum_extend(b: Seq<u8>, m1: nat, m2: nat, i: nat)
    requires
        i <= m1 <= m2,
        forall|j: int| m1 <= j < m2 ==> !#[trigger] bit_of(b, j),
    ensures
        bit_sum(b, m1, i) == bit_sum(b, m2, i),
    decreases m1 - i,
{
    if i == m1 {
        lemma_bit_sum_zero(b, m2, i);
    } else {
        lemma_bit_sum_extend(b, m1, m2, i + 1);
    }
}

proof fn lemma_bit_sum_shift(b: Seq<u8>, m: nat, i: nat)
    requires
        b.len() >= 1,
        8 * b.len() == m,
        i <= m - 8,
    ensures
        bit_sum(b, m, i + 8) == bit_sum(b.drop_first(), (m - 8) as nat, i),
    decreases m - 8 - i,
{
    let r = b.drop_first();
    if i < m - 8 {
        lemma_bit_sum_shift(b, m, i + 1);
        let j = i as int;
        assert((j + 8) / 8 == j / 8 + 1);
        assert((j + 8) % 8 == j % 8);
        assert(b[(j + 8) / 8] == r[j / 8]);
        assert(bit_of(b, j + 8) == bit_of(r, j));
    }
}

proof fn lemma_byte_bits(x: u8)
    ensures
        x as nat == ((x >> 0u8) & 1u8) as nat + 2 * ((x >> 1u8) & 1u8) as nat + 4 * ((x >> 2u8) & 1u8) as nat
            + 8 * ((x >> 3u8) & 1u8) as nat + 16 * ((x >> 4u8) & 1u8) as nat + 32 * ((x >> 5u8) & 1u8) as nat
            + 64 * ((x >> 6u8) & 1u8) as nat + 128 * ((x >> 7u8) & 1u8) as nat,
{
    assert(x as u32 == ((x >> 0u8) & 1u8) as u32 + 2 * ((x >> 1u8) & 1u8) as u32 + 4 * ((x >> 2u8) & 1u8) as u32
        + 8 * ((x >> 3u8) & 1u8) as u32 + 16 * ((x >> 4u8) & 1u8) as u32 + 32 * ((x >> 5u8) & 1u8) as u32
        + 64 * ((x >> 6u8) & 1u8) as u32 + 128 * ((x >> 7u8) & 1u8) as u32) by (bit_vector);
}

proof fn lemma_bit_sum_value(b: Seq<u8>)
    ensures
        bit_sum(b, 8 * b.len(), 0) == le_value(b),
    decreases b.len(),
{
    let m = 8 * b.len();
    if b.len() == 0 {
    } else {
        let r = b.drop_first();
        lemma_bit_sum_value(r);
        lemma_bit_sum_shift(b, m, 0);
        let x = b[0];
        lemma_byte_bits(x);
        assert forall|k: int| 0 <= k < 8 implies #[trigger] bit_of(b, k) == ((x >> (k as u8)) & 1u8 == 1u8) by {
            assert(k / 8 == 0);
            assert(k % 8 == k);
        }
        assert forall|k: u8| k < 8 implies (((x >> k) & 1u8) == 1u8 || ((x >> k) & 1u8) == 0u8) by {
            assert(((x >> k) & 1u8) <= 1u8) by (bit_vector);
        }
        assert(bit_sum(b, m, 8) == bit_sum(r, (m - 8) as nat, 0));
        reveal_with_fuel(bit_sum, 9);
    }
}

/// For `z` below `2^n`, the weighted sum of its bits at the first point of
/// the domain is `z` itself.
pub proof fn lemma_partial_sum_is_value(z: FieldElement, n: nat)
    requires
        z.wf(),
        n >= 1,
        forall|j: int| n <= j < 256 ==> !#[trigger] bit_of(z.spec_bytes(), j),
    ensures
        partial_sum(z.spec_bytes(), n, 0) == z.value(),
{
    let b = z.spec_bytes();
    crate::field::lemma_field_len(z);
    lemma_partial_sum_mod(b, n, 0);
    lemma_bit_sum_value(b);
    if n <= 256 {
        lemma_bit_sum_extend(b, n, 256, 0);
    } else {
        lemma_bit_sum_extend(b, 256, n, 0);
    }
    vstd::arithmetic::div_mod::lemma_small_mod(z.value(), modulus());
}

/// `(alpha + beta X) (X^n - 1)`, which vanishes on the domain.
pub open spec fn blinding_mask(n: nat, alpha: nat, beta: nat) -> Seq<nat> {
    mul_values(seq![alpha, beta], vanishing(n))
}

/// The weighted partial sums of the bits of `z` on the domain: at the `i`-th
/// power of the generator, `sum_{i <= j < n} bit_j * 2^(j - i)`.
pub fn partial_sums(n: usize, z: &FieldElement) -> (r: Vec<FieldElement>)
    requires
        valid_domain_size(n as nat),
        z.wf(),
    ensures
        r@.len() == n,
        forall|i: int| 0 <= i < n ==> #[trigger] r@[i].wf(),
        forall|i: int| 0 <= i < n ==> #[trigger] r@[i].value() == partial_sum(z.spec_bytes(), n as nat, i as nat),
{
    let zero = fe_from_u64(0);
    let one = fe_from_u64(1);
    let two = fe_from_u64(2);
    let mut r: Vec<FieldElement> = Vec::new();
    let mut k: usize = 0;
    while k < n
        invariant
            k <= n,
            n <= 0x8000_0000,
            r@.len() == k,
            zero.wf() && zero.value() == 0,
            one.wf() && one.value() == 1,
        decreases n - k,
    {
        r.push(zero);
        k = k + 1;
    }
    let mut acc = zero;
    let mut i: usize = n;
    while i > 0
        invariant
            i <= n,
            n >= 1,
            r@.len() == n,
            zero.wf() && zero.value() == 0,
            one.wf() && one.value() == 1,
            two.wf() && two.value() == 2,
            acc.wf(),
            i == n ==> acc.value() == 0,
            i < n ==> acc == r@[i as int],
            forall|j: int| i <= j < n ==> #[trigger] r@[j].wf(),
            forall|j: int| i <= j < n ==> #[trigger] r@[j].value() == partial_sum(z.spec_bytes(), n as nat, j as nat),
        decreases i,
    {
        i = i - 1;
        let bit = if bit_at(z, i) { one } else { zero };
        let doubled = fe_mul(&two, &acc);
        let v = fe_add(&doubled, &bit);
        proof {
            if i == n - 1 {
                crate::field::lemma_modulus_large();
                assert(mod_mul(2, 0) == 0) by {
                    vstd::arithmetic::div_mod::lemma_small_mod(0, crate::field::modulus());
                }
                assert(mod_add(0, bit.value()) == bit.value()) by {
                    vstd::arithmetic::div_mod::lemma_small_mod(bit.value(), crate::field::modulus());
                }
            }
        }
        r.set(i, v);
        acc = v;
    }
    r
}

/// The polynomial of the partial sums of `z`'s bits on the domain, blinded by
/// `(alpha + beta X) (X^n - 1)`, which vanishes there.
pub fn compute_g(n: usize, z: &FieldElement, alpha: &FieldElement, beta: &FieldElement) -> (g: Polynomial)
    requires
        valid_domain_size(n as nat),
        z.wf(),
        alpha.wf(),
        beta.wf(),
    ensures
        g.wf(),
        bounded(g.spec_values(), n + 1),
        exists|h: Seq<nat>|
            #![trigger add_values(h, blinding_mask(n as nat, alpha.value(), beta.value()))]
            h.len() <= n
            && (forall|i: nat| i < n ==> eval(h, #[trigger] mod_pow(domain_gen(n as nat), i)) == partial_sum(z.spec_bytes(), n as nat, i))
            && same_poly(g.spec_values(), add_values(h, blinding_mask(n as nat, alpha.value(), beta.value()))),
{
    let sums = partial_sums(n, z);
    let g_domain = interpolate(n, &sums);
    let mut blind: Vec<FieldElement> = Vec::new();
    blind.push(*alpha);
    blind.push(*beta);
    let blind = Polynomial { coeffs: blind };
    let zh = vanishing_polynomial(n);
    let mask = poly_mul(&blind, &zh);
    let g = poly_add(&g_domain, &mask);
    proof {
        let mv = blinding_mask(n as nat, alpha.value(), beta.value());
        assert(blind.spec_values() =~= seq![alpha.value(), beta.value()]);
        lemma_mul_same(mask.spec_values(), blind.spec_values(), zh.spec_values(), seq![alpha.value(), beta.value()], vanishing(n as nat));
        lemma_add_same(g.spec_values(), g_domain.spec_values(), mask.spec_values(), g_domain.spec_values(), mv);
        lemma_len_bounded(blind.spec_values(), 1);
        lemma_len_bounded(zh.spec_values(), n as int);
        lemma_len_bounded(g_domain.spec_values(), n + 1);
        lemma_mul_bounded(blind.spec_values(), zh.spec_values(), 1, n as int);
        lemma_zero_ops(0);
        assert forall|i: int| i > n + 1 implies #[trigger] coeff(g.spec_values(), i) == 0 by {
            assert(coeff(mask.spec_values(), i) == mul_coeff(blind.spec_values(), zh.spec_values(), i));
            assert(coeff(g_domain.spec_values(), i) == 0);
        }
        let h = g_domain.spec_values();
        assert(forall|i: nat| i < n ==> eval(h, #[trigger] mod_pow(domain_gen(n as nat), i)) == partial_sum(z.spec_bytes(), n as nat, i));
        assert(same_poly(g.spec_values(), add_values(h, mv)));
    }
    g
}

/// The coefficients of `g(X ω)`: coefficient `i` times `ω^i`.
pub open spec fn shift_values(a: Seq<nat>, omega: nat) -> Seq<nat> {
    Seq::new(a.len(), |i: int| mod_mul(a[i], mod_pow(omega, i as nat)))
}

/// The coefficients of `g(X) - 2 g(X ω)`.
pub open spec fn step_values(g: Seq<nat>, omega: nat) -> Seq<nat> {
    sub_values(g, scale_values(2, shift_values(g, omega)))
}

/// `g(X ω)`: coefficient `i` times `ω^i`.
pub fn shift(p: &Polynomial, omega: &FieldElement) -> (r: Polynomial)
    requires
        p.wf(),
        omega.wf(),
    ensures
        r.wf(),
        r.coeffs@.len() == p.coeffs@.len(),
        forall|i: int| 0 <= i < p.coeffs@.len() ==> #[trigger] r.coeffs@[i].value()
            == mod_mul(p.coeffs@[i].value(), mod_pow(omega.value(), i as nat)),
{
    let mut coeffs: Vec<FieldElement> = Vec::new();
    let mut power = fe_from_u64(1);
    let mut i: usize = 0;
    while i < p.coeffs.len()
        invariant
            i <= p.coeffs@.len(),
            p.wf(),
            omega.wf(),
            power.wf(),
            power.value() == mod_pow(omega.value(), i as nat),
            coeffs@.len() == i,
            forall|j: int| 0 <= j < i ==> #[trigger] coeffs@[j].wf(),
            forall|j: int| 0 <= j < i ==> #[trigger] coeffs@[j].value()
                == mod_mul(p.coeffs@[j].value(), mod_pow(omega.value(), j as nat)),
        decreases p.coeffs@.len() - i,
    {
        coeffs.push(fe_mul(&p.coeffs[i], &power));
        let next = fe_mul(&power, omega);
        proof {
            assert(mod_mul(power.value(), omega.value()) == mod_mul(omega.value(), power.value())) by (nonlinear_arith);
        }
        power = next;
        i = i + 1;
    }
    Polynomial { coeffs }
}

/// The two constraints that vanish on the domain when `g(1) = f(1)` and when
/// `g` is a bit at the last point: `(g - f) (X^n - 1) / (X - 1)` and
/// `g (1 - g) (X^n - 1) / (X - ω^(n-1))`.
pub fn compute_w1_w2(n: usize, g: &Polynomial, f: &Polynomial) -> (r: (Polynomial, Polynomial))
    requires
        valid_domain_size(n as nat),
        g.wf(),
        f.wf(),
    ensures
        r.0.wf(),
        r.1.wf(),
        same_poly(r.0.spec_values(), mul_values(sub_values(g.spec_values(), f.spec_values()), first_quotient(n as nat))),
        same_poly(r.1.spec_values(), mul_values(
            mul_values(g.spec_values(), sub_values(seq![1nat], g.spec_values())),
            last_quotient(n as nat, mod_pow(domain_gen(n as nat), (n - 1) as nat)),
        )),
        bounded(g.spec_values(), n + 1) && bounded(f.spec_values(), n as int) ==> bounded(r.0.spec_values(), 2 * n) && bounded(r.1.spec_values(), 3 * n + 1),
{
    let one = fe_from_u64(1);
    let omega = crate::poly::domain_generator(n);
    let last = fe_pow(&omega, (n - 1) as u64);
    let to_first = first_quotient_polynomial(n);
    let to_last = last_quotient_polynomial(n, &last);
    let diff = poly_sub(g, f);
    let w1 = poly_mul(&diff, &to_first);
    let mut one_coeffs: Vec<FieldElement> = Vec::new();
    one_coeffs.push(one);
    let one_poly = Polynomial { coeffs: one_coeffs };
    let not_g = poly_sub(&one_poly, g);
    let bool_check = poly_mul(g, &not_g);
    let w2 = poly_mul(&bool_check, &to_last);
    proof {
        let gv = g.spec_values();
        assert(one_poly.spec_values() =~= seq![1nat]);
        lemma_sub_same(diff.spec_values(), gv, f.spec_values(), gv, f.spec_values());
        lemma_mul_same(w1.spec_values(), diff.spec_values(), to_first.spec_values(),
            sub_values(gv, f.spec_values()), first_quotient(n as nat));
        lemma_sub_same(not_g.spec_values(), seq![1nat], gv, seq![1nat], gv);
        lemma_mul_same(bool_check.spec_values(), gv, not_g.spec_values(), gv, sub_values(seq![1nat], gv));
        lemma_mul_same(w2.spec_values(), bool_check.spec_values(), to_last.spec_values(),
            mul_values(gv, sub_values(seq![1nat], gv)), last_quotient(n as nat, last.value()));
        if bounded(g.spec_values(), n + 1) && bounded(f.spec_values(), n as int) {
            lemma_zero_ops(0);
            assert forall|i: int| i > n + 1 implies #[trigger] coeff(diff.spec_values(), i) == 0 by {
                assert(coeff(g.spec_values(), i) == 0 && coeff(f.spec_values(), i) == 0);
            }
            assert forall|i: int| i > n + 1 implies #[trigger] coeff(not_g.spec_values(), i) == 0 by {
                assert(coeff(g.spec_values(), i) == 0 && coeff(one_poly.spec_values(), i) == 0);
            }
            lemma_len_bounded(to_first.spec_values(), n - 1);
            lemma_len_bounded(to_last.spec_values(), n - 1);
            lemma_mul_bounded(diff.spec_values(), to_first.spec_values(), n + 1, n - 1);
            lemma_mul_bounded(g.spec_values(), not_g.spec_values(), n + 1, n + 1);
            assert(bounded(bool_check.spec_values(), 2 * n + 2));
            lemma_mul_bounded(bool_check.spec_values(), to_last.spec_values(), 2 * n + 2, n - 1);
            assert(bounded(w1.spec_values(), 2 * n));
            assert(bounded(w2.spec_values(), 3 * n + 1));
        }
    }
    (w1, w2)
}

/// The constraint that vanishes on the domain but at its last point when each
/// step `g(x) - 2 g(x ω)` is a bit:
/// `(g - 2 g(X ω)) (1 - g + 2 g(X ω)) (X - ω^(n-1))`.
pub fn compute_w3(n: usize, g: &Polynomial) -> (r: Polynomial)
    requires
        valid_domain_size(n as nat),
        g.wf(),
    ensures
        r.wf(),
        same_poly(r.spec_values(), mul_values(
            mul_values(
                step_values(g.spec_values(), domain_gen(n as nat)),
                sub_values(seq![1nat], step_values(g.spec_values(), domain_gen(n as nat))),
            ),
            linear(mod_pow(domain_gen(n as nat), (n - 1) as nat)),
        )),
        bounded(g.spec_values(), n + 1) ==> bounded(r.spec_values(), 2 * n + 3),
{
    let zero = fe_from_u64(0);
    let one = fe_from_u64(1);
    let two = fe_from_u64(2);
    let omega = crate::poly::domain_generator(n);
    let last = fe_pow(&omega, (n - 1) as u64);
    let g_shifted = shift(g, &omega);
    let doubled = poly_scale(&g_shifted, &two);
    let step = poly_sub(g, &doubled);
    let mut one_coeffs: Vec<FieldElement> = Vec::new();
    one_coeffs.push(one);
    let one_poly = Polynomial { coeffs: one_coeffs };
    let not_step = poly_sub(&one_poly, &step);
    let mut lin: Vec<FieldElement> = Vec::new();
    lin.push(fe_sub(&zero, &last));
    lin.push(one);
    let lin = Polynomial { coeffs: lin };
    let product = poly_mul(&step, &not_step);
    let r = poly_mul(&product, &lin);
    proof {
        let gv = g.spec_values();
        let sh = shift_values(gv, omega.value());
        let sv = step_values(gv, omega.value());
        assert(g_shifted.spec_values() =~= sh);
        lemma_scale_same(doubled.spec_values(), 2, g_shifted.spec_values(), sh);
        lemma_sub_same(step.spec_values(), gv, doubled.spec_values(), gv, scale_values(2, sh));
        assert(one_poly.spec_values() =~= seq![1nat]);
        lemma_sub_same(not_step.spec_values(), seq![1nat], step.spec_values(), seq![1nat], sv);
        lemma_mul_same(product.spec_values(), step.spec_values(), not_step.spec_values(), sv, sub_values(seq![1nat], sv));
        assert(lin.spec_values() =~= linear(last.value()));
        lemma_mul_same(r.spec_values(), product.spec_values(), lin.spec_values(),
            mul_values(sv, sub_values(seq![1nat], sv)), linear(last.value()));
        if bounded(gv, n + 1) {
            lemma_zero_ops(2);
            assert forall|i: int| i > n + 1 implies #[trigger] coeff(step.spec_values(), i) == 0 by {
                assert(coeff(gv, i) == 0);
                if i < g_shifted.coeffs@.len() {
                    assert(g_shifted.coeffs@[i].value() == mod_mul(g.coeffs@[i].value(), mod_pow(omega.value(), i as nat)));
                    assert(g.coeffs@[i].value() == coeff(gv, i));
                    assert(mod_mul(0, mod_pow(omega.value(), i as nat)) == 0) by {
                        crate::field::lemma_zero_no_inverse(mod_pow(omega.value(), i as nat));
                    }
                }
                assert(coeff(g_shifted.spec_values(), i) == 0);
                assert(coeff(doubled.spec_values(), i) == 0);
            }
            assert forall|i: int| i > n + 1 implies #[trigger] coeff(not_step.spec_values(), i) == 0 by {
                assert(coeff(step.spec_values(), i) == 0 && coeff(one_poly.spec_values(), i) == 0);
            }
            lemma_mul_bounded(step.spec_values(), not_step.spec_values(), n + 1, n + 1);
            assert(bounded(product.spec_values(), 2 * n + 2));
            lemma_len_bounded(lin.spec_values(), 1);
            lemma_mul_bounded(product.spec_values(), lin.spec_values(), 2 * n + 2, 1);
        }
    }
    r
}

/// The quotient of `w1 + tau w2 + tau^2 w3` by `X^n - 1`, and the remainder,
/// which is zero when all three constraints vanish on the domain.
pub fn compute_q(n: usize, w1: Polynomial, w2: Polynomial, w3: Polynomial, tau: &FieldElement) -> (r: (Polynomial, Polynomial))
    requires
        valid_domain_size(n as nat),
        w1.wf(),
        w2.wf(),
        w3.wf(),
        tau.wf(),
    ensures
        r.0.wf(),
        r.1.wf(),
        r.1.coeffs@.len() <= n,
        forall|k: int| k >= 0 ==> combined_coeff(seq![w1.spec_values(), w2.spec_values(), w3.spec_values()], tau.value(), k)
            == mod_add(#[trigger] mul_coeff(r.0.spec_values(), vanishing(n as nat), k), coeff(r.1.spec_values(), k)),
        bounded(w1.spec_values(), 3 * n + 2) && bounded(w2.spec_values(), 3 * n + 2) && bounded(w3.spec_values(), 3 * n + 2)
            ==> bounded(r.0.spec_values(), 2 * n + 2),
{
    let ghost vs = seq![w1.spec_values(), w2.spec_values(), w3.spec_values()];
    let mut ws: Vec<Polynomial> = Vec::new();
    ws.push(w1);
    ws.push(w2);
    ws.push(w3);
    assert(poly_values(ws@) =~= vs);
    let w = combine(&ws, tau);
    let r = crate::poly::divide_by_vanishing(&w, n);
    assert forall|k: int| k >= 0 implies combined_coeff(vs, tau.value(), k)
        == mod_add(#[trigger] mul_coeff(r.0.spec_values(), vanishing(n as nat), k), coeff(r.1.spec_values(), k)) by {
        assert(coeff(w.spec_values(), k) == combined_coeff(poly_values(ws@), tau.value(), k));
        assert(coeff(w.spec_values(), k) == mod_add(mul_coeff(r.0.spec_values(), vanishing(n as nat), k), coeff(r.1.spec_values(), k)));
    }
    proof {
        if bounded(vs[0], 3 * n + 2) && bounded(vs[1], 3 * n + 2) && bounded(vs[2], 3 * n + 2) {
            assert forall|i: int| i > 3 * n + 2 implies #[trigger] coeff(w.spec_values(), i) == 0 by {
                assert(coeff(w.spec_values(), i) == combined_coeff(poly_values(ws@), tau.value(), i));
                lemma_combined_bounded(vs, tau.value(), 3 * n + 2, i);
            }
            lemma_degree_bounded(w.spec_values(), 3 * n + 2);
            lemma_len_bounded(r.0.spec_values(), 2 * n + 2);
        }
    }
    r
}

/// `A f + Z(rho) q`, with `A = (rho^n - 1) / (rho - 1)` and
/// `Z(rho) = rho^n - 1`: the part of the combined constraint at `rho` that
/// depends on the polynomials that are never opened.
pub fn compute_w_cap(n: usize, f: &Polynomial, q: &Polynomial, rho: &FieldElement) -> (r: Polynomial)
    requires
        valid_domain_size(n as nat),
        f.wf(),
        q.wf(),
        rho.wf(),
    ensures
        r.wf(),
        forall|k: int| #[trigger] coeff(r.spec_values(), k) == mod_add(
            mod_mul(eval(first_quotient(n as nat), rho.value()), coeff(f.spec_values(), k)),
            mod_mul(eval(vanishing(n as nat), rho.value()), coeff(q.spec_values(), k)),
        ),
        bounded(f.spec_values(), 2 * n + 2) && bounded(q.spec_values(), 2 * n + 2) ==> bounded(r.spec_values(), 2 * n + 2),
{
    let zh = vanishing_polynomial(n);
    let to_first = first_quotient_polynomial(n);
    let a = crate::poly::evaluate(&to_first, rho);
    let z_rho = crate::poly::evaluate(&zh, rho);
    let fa = poly_scale(f, &a);
    let qz = poly_scale(q, &z_rho);
    let r = poly_add(&fa, &qz);
    proof {
        if bounded(f.spec_values(), 2 * n + 2) && bounded(q.spec_values(), 2 * n + 2) {
            lemma_zero_ops(a.value());
            lemma_zero_ops(z_rho.value());
            assert forall|i: int| i > 2 * n + 2 implies #[trigger] coeff(r.spec_values(), i) == 0 by {
                assert(coeff(fa.spec_values(), i) == mod_mul(a.value(), coeff(f.spec_values(), i)));
                assert(coeff(qz.spec_values(), i) == mod_mul(z_rho.value(), coeff(q.spec_values(), i)));
            }
        }
    }
    r
}

} // verus!
