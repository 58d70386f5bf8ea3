use range_proof::commitment_scheme::{combine, create_witness};
use range_proof::field::{FieldElement, MODULUS_LE};
use range_proof::poly::{check_domain_size, Polynomial};
use range_proof::polynomial::{bit_at, compute_f, compute_g, compute_q, compute_w1_w2, compute_w3, first_quotient_polynomial, last_quotient_polynomial, partial_sums, shift, vanishing_polynomial};

fn fe(v: u64) -> FieldElement {
    FieldElement::from_u64(v)
}

fn poly(cs: &[u64]) -> Polynomial {
    Polynomial { coeffs: cs.iter().map(|c| fe(*c)).collect() }
}

fn minus_one() -> FieldElement {
    let mut b = MODULUS_LE;
    b[0] = 0;
    FieldElement::from_bytes(&b).unwrap()
}

#[test]
fn field_elements() {
    assert_eq!(fe(258).to_bytes()[..3], [2, 1, 0]);
    assert!(fe(0).is_zero());
    assert!(!fe(256).is_zero());
    assert!(fe(9).equals(&fe(9)));
    assert!(!fe(9).equals(&fe(10)));
}

#[test]
fn polynomial_degree() {
    assert_eq!(poly(&[1, 2, 3]).degree(), 2);
    assert_eq!(poly(&[1, 0, 0]).degree(), 0);
    assert_eq!(poly(&[0, 4, 0]).degree(), 1);
    assert_eq!(poly(&[]).degree(), 0);
}

#[test]
fn quotients_of_vanishing_polynomial() {
    let z = vanishing_polynomial(4);
    assert_eq!(z.coeffs.len(), 5);
    assert_eq!(z.coeffs[0], minus_one());
    assert_eq!(z.coeffs[4], fe(1));
    assert_eq!(first_quotient_polynomial(4).coeffs, poly(&[1, 1, 1, 1]).coeffs);
    // for n = 2 the last point of the domain is -1: (X^2 - 1) / (X + 1) = X - 1
    let q = last_quotient_polynomial(2, &minus_one());
    assert_eq!(q.coeffs, vec![minus_one(), fe(1)]);
}

#[test]
fn witness_of_linear_division() {
    // (X^2 - 1) / (X - 1) = X + 1
    let mut c = vec![minus_one(), fe(0), fe(1)];
    let w = create_witness(&Polynomial { coeffs: c.clone() }, &fe(1));
    assert_eq!(w.coeffs, poly(&[1, 1]).coeffs);
    // (X^2 + 4 - 5) / (X - 1) = X + 1 as well
    c[0] = fe(4);
    let w = create_witness(&Polynomial { coeffs: c }, &fe(1));
    assert_eq!(w.coeffs, poly(&[1, 1]).coeffs);
    // (X^2 + 3X + 2) / (X - 2) = X + 5, remainder 12 dropped
    let w = create_witness(&poly(&[2, 3, 1]), &fe(2));
    assert_eq!(w.coeffs, poly(&[5, 1]).coeffs);
}

#[test]
fn combination_by_powers() {
    let c = combine(&vec![poly(&[1, 1]), poly(&[2]), poly(&[0, 0, 1])], &fe(3));
    // (1 + X) + 3 * 2 + 9 * X^2
    assert_eq!(c.coeffs, poly(&[7, 1, 9]).coeffs);
}

#[test]
fn shift_scales_by_powers() {
    let s = shift(&poly(&[1, 1, 1, 1]), &fe(2));
    assert_eq!(s.coeffs, poly(&[1, 2, 4, 8]).coeffs);
}

#[test]
fn constraint_w3_on_constant() {
    // g = 1 gives step = 1 - 2 = -1, 1 - step = 2; for n = 2 the last point is -1,
    // so w3 = (-1) * 2 * (X + 1) = -2X - 2
    let w3 = compute_w3(2, &poly(&[1]));
    let mut b = MODULUS_LE;
    b[0] = 0xff;
    b[1] = 0xff;
    b[2] = 0xff;
    b[3] = 0xff;
    b[4] = 0xfe;
    let minus_two = FieldElement::from_bytes(&b).unwrap();
    assert_eq!(w3.coeffs, vec![minus_two, minus_two]);
}

#[test]
fn domain_sizes() {
    assert!(check_domain_size(2));
    assert!(check_domain_size(64));
    assert!(!check_domain_size(0));
    assert!(check_domain_size(1));
    assert!(!check_domain_size(24));
}

#[test]
fn bits_and_partial_sums() {
    let z = fe(0b1101);
    assert!(bit_at(&z, 0));
    assert!(!bit_at(&z, 1));
    assert!(bit_at(&z, 3));
    assert!(!bit_at(&z, 300));
    let sums = partial_sums(4, &z);
    assert_eq!(sums, vec![fe(13), fe(6), fe(3), fe(1)]);
}

#[test]
fn honest_constraints_divide_exactly() {
    for (n, z) in [(8usize, 0u64), (8, 255), (16, 12345)] {
        let f = compute_f(n, &fe(z), &fe(77));
        let g = compute_g(n, &fe(z), &fe(5), &fe(9));
        let (w1, w2) = compute_w1_w2(n, &g, &f);
        let w3 = compute_w3(n, &g);
        let (q, rem) = compute_q(n, w1, w2, w3, &fe(1234567));
        assert!(rem.coeffs.iter().all(|c| c.is_zero()), "remainder for n = {}, z = {}", n, z);
        assert!(q.degree() <= 2 * n + 2);
    }
    // an out-of-range value leaves a remainder
    let n = 8usize;
    let f = compute_f(n, &fe(256), &fe(77));
    let g = compute_g(n, &fe(256), &fe(5), &fe(9));
    let (w1, w2) = compute_w1_w2(n, &g, &f);
    let w3 = compute_w3(n, &g);
    let (_, rem) = compute_q(n, w1, w2, w3, &fe(1234567));
    assert!(!rem.coeffs.iter().all(|c| c.is_zero()));
}
