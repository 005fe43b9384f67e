use stark_primitives::field::{Field, FieldElement, STARK_MODULUS};
use stark_primitives::math::{
    extended_gcd, interpolate_domain, poly_long_division, test_colinearity, zerofier_domain,
};
use stark_primitives::polynomial::Polynomial;

fn field() -> Field {
    Field::new(STARK_MODULUS)
}

fn fe(v: u128) -> FieldElement {
    FieldElement::new(v, field())
}

fn poly(coeffs: &[u128]) -> Polynomial {
    Polynomial::new(coeffs.iter().map(|&v| fe(v)).collect())
}

fn values(p: &Polynomial) -> Vec<u128> {
    p.coeffs.iter().map(|c| c.value).collect()
}

#[test]
fn new_trims_trailing_zeros() {
    let p = poly(&[1, 2, 0, 0]);
    assert_eq!(values(&p), vec![1, 2]);
    let z = poly(&[0, 0, 0]);
    assert_eq!(values(&z), Vec::<u128>::new());
    assert!(z.is_zero());
    assert_eq!(z.degree(), -1);
    assert_eq!(p.degree(), 1);
}

#[test]
fn leading_coefficient_and_field() {
    let p = poly(&[1, 2, 3]);
    assert_eq!(p.leading_coefficient().unwrap().value, 3);
    assert!(poly(&[]).leading_coefficient().is_none());
    assert_eq!(p.field().value, 1);
}

#[test]
fn add_sub_mul_concrete() {
    let a = poly(&[1, 2, 3]);
    let b = poly(&[4, 5]);
    assert_eq!(values(&a.add(&b)), vec![5, 7, 3]);
    assert_eq!(values(&a.sub(&b)), vec![STARK_MODULUS - 3, STARK_MODULUS - 3, 3]);
    // (1 + 2x + 3x^2)(4 + 5x) = 4 + 13x + 22x^2 + 15x^3.
    assert_eq!(values(&a.mul(&b)), vec![4, 13, 22, 15]);
    // Adding the negation cancels to the zero polynomial.
    assert!(a.add(&a.neg()).is_zero());
}

#[test]
fn mul_by_zero_gives_zero() {
    let a = poly(&[1, 2, 3]);
    let z = poly(&[]);
    assert!(a.mul(&z).is_zero());
    assert!(z.mul(&a).is_zero());
    assert_eq!(values(&a.add(&z)), values(&a));
}

#[test]
fn evaluate_and_evaluate_domain() {
    // 2 + 3x + x^2 at x = 5 is 42.
    let p = poly(&[2, 3, 1]);
    assert_eq!(p.evaluate(fe(5)).value, 42);
    assert_eq!(p.evaluate(fe(0)).value, 2);
    let outs = p.evaluate_domain(vec![fe(0), fe(1), fe(2)]);
    let got: Vec<u128> = outs.iter().map(|e| e.value).collect();
    assert_eq!(got, vec![2, 6, 12]);
}

#[test]
fn scale_substitutes_a_scaled_variable() {
    // p(x) = 1 + x + x^2; p(3x) = 1 + 3x + 9x^2.
    let p = poly(&[1, 1, 1]);
    let s = p.scale(fe(3));
    assert_eq!(values(&s), vec![1, 3, 9]);
    for x in [0u128, 1, 2, 7] {
        assert_eq!(s.evaluate(fe(x)).value, p.evaluate(fe(3 * x)).value);
    }
}

#[test]
fn pow_squares_and_multiplies() {
    // (1 + x)^2 = 1 + 2x + x^2.
    let p = poly(&[1, 1]);
    assert_eq!(values(&p.pow(2)), vec![1, 2, 1]);
    assert_eq!(values(&p.pow(0)), vec![1]);
    assert!(poly(&[]).pow(0).is_zero());
    assert!(poly(&[]).pow(3).is_zero());
    // (1 + x)^5 evaluated matches the power of the evaluation.
    let p5 = p.pow(5);
    for x in [0u128, 1, 2, 9] {
        assert_eq!(p5.evaluate(fe(x)).value, p.evaluate(fe(x)).pow(5).value);
    }
}

#[test]
fn long_division_divides_exactly() {
    // N = D * Q + R with D = 3 + 2x + x^2, Q = 1 + x, R = 7 + x:
    // N = 10 + 6x + 3x^2 + x^3.
    let n = poly(&[10, 6, 3, 1]);
    let d = poly(&[3, 2, 1]);
    let (q, r) = poly_long_division(n.clone(), d.clone());
    assert_eq!(values(&q), vec![1, 1]);
    assert_eq!(values(&r), vec![7, 1]);
    // Reassemble: N == D * Q + R.
    let back = d.mul(&q).add(&r);
    assert_eq!(values(&back), values(&n));
    assert!((r.degree() as i128) < d.degree());
}

#[test]
fn long_division_small_numerator_returns_it_unchanged() {
    let n = poly(&[5, 1]);
    let d = poly(&[3, 2, 1]);
    let (q, r) = poly_long_division(n.clone(), d);
    assert!(q.is_zero());
    assert_eq!(values(&r), values(&n));
}

#[test]
fn interpolation_round_trip() {
    let domain = vec![fe(1), fe(2), fe(3)];
    let vals = vec![fe(4), fe(9), fe(16)];
    let p = interpolate_domain(domain.clone(), vals.clone());
    assert!(p.degree() <= 2);
    for i in 0..domain.len() {
        assert_eq!(p.evaluate(domain[i]).value, vals[i].value);
    }
}

#[test]
fn interpolation_with_a_zero_value_still_passes_through() {
    let domain = vec![fe(0), fe(1), fe(5), fe(7)];
    let vals = vec![fe(0), fe(3), fe(0), fe(11)];
    let p = interpolate_domain(domain.clone(), vals.clone());
    for i in 0..domain.len() {
        assert_eq!(p.evaluate(domain[i]).value, vals[i].value);
    }
}

#[test]
fn interpolate_and_zerofier_are_reachable_as_methods() {
    let domain = vec![fe(2), fe(4)];
    let vals = vec![fe(10), fe(20)];
    let p = Polynomial::interpolate(domain.clone(), vals);
    assert_eq!(p.evaluate(fe(2)).value, 10);
    let z = Polynomial::zerofier(domain);
    assert_eq!(z.evaluate(fe(4)).value, 0);
}

#[test]
fn zerofier_vanishes_exactly_on_the_domain() {
    let domain = vec![fe(2), fe(5), fe(7)];
    let z = zerofier_domain(domain.clone());
    assert_eq!(z.degree(), 3);
    assert_eq!(z.leading_coefficient().unwrap().value, 1);
    for d in &domain {
        assert_eq!(z.evaluate(*d).value, 0);
    }
    assert_ne!(z.evaluate(fe(3)).value, 0);
}

#[test]
fn colinearity_of_three_points() {
    let on_line = vec![(fe(1), fe(1)), (fe(2), fe(2)), (fe(3), fe(3))];
    assert!(test_colinearity(on_line));
    let off_line = vec![(fe(1), fe(1)), (fe(2), fe(4)), (fe(3), fe(9))];
    assert!(!test_colinearity(off_line));
}

#[test]
fn div_returns_the_exact_quotient() {
    // (3 + 2x + x^2)(1 + x) = 3 + 5x + 3x^2 + x^3.
    let d = poly(&[3, 2, 1]);
    let q = poly(&[1, 1]);
    let n = d.mul(&q);
    assert_eq!(values(&n.div(&d)), values(&q));
    assert_eq!(values(&n.div(&q)), values(&d));
}

#[test]
fn rem_is_the_division_remainder() {
    let n = poly(&[10, 6, 3, 1]);
    let d = poly(&[3, 2, 1]);
    let r = n.rem(&d);
    assert_eq!(values(&r), vec![7, 1]);
    // An exact multiple leaves the zero remainder.
    let m = d.mul(&poly(&[4, 5]));
    assert!(m.rem(&d).is_zero());
}

#[test]
fn pow_has_exact_degree_and_leading_coefficient() {
    // (2 + x^2)^4 has degree exactly 8 with a unit leading coefficient.
    let p = poly(&[2, 0, 1]);
    let r = p.pow(4);
    assert_eq!(r.degree(), 8);
    assert_eq!(r.leading_coefficient().unwrap().value, 1);
    // (3x)^5 = 243 x^5.
    let q = poly(&[0, 3]);
    let r5 = q.pow(5);
    assert_eq!(r5.degree(), 5);
    assert_eq!(r5.leading_coefficient().unwrap().value, 243);
}

#[test]
fn pow_takes_large_exponents() {
    // A constant polynomial raised to a power far beyond sixteen bits.
    let c = poly(&[2]);
    let r = c.pow(1_000_000);
    assert_eq!(values(&r), vec![fe(2).pow(1_000_000).value]);
}

#[test]
fn colinearity_of_trivial_point_sets() {
    // Zero or one point is always collinear.
    assert!(test_colinearity(vec![]));
    assert!(test_colinearity(vec![(fe(5), fe(9))]));
    // Two points with distinct first coordinates always are.
    assert!(test_colinearity(vec![(fe(1), fe(7)), (fe(4), fe(2))]));
}

#[test]
fn extended_gcd_bezout() {
    let (s, t, g) = extended_gcd(240, 46);
    assert_eq!(g, 2);
    assert_eq!(s * 240 + t * 46, 2);
    let (s, t, g) = extended_gcd(0, 5);
    assert_eq!((s * 0 + t * 5, g), (5, 5));
    let (s, t, g) = extended_gcd(7, 0);
    assert_eq!((s, t, g), (1, 0, 7));
    let (s, t, g) = extended_gcd(17, 13);
    assert_eq!(g, 1);
    assert_eq!(s * 17 + t * 13, 1);
}
