use stark_primitives::field::{Field, FieldElement, STARK_MODULUS};
use stark_primitives::multivariate_polynomial::MPolynomial;
use stark_primitives::polynomial::Polynomial;

fn field() -> Field {
    Field::new(STARK_MODULUS)
}

fn fe(v: u128) -> FieldElement {
    FieldElement::new(v, field())
}

fn mp(terms: &[(&[u128], u128)]) -> MPolynomial {
    MPolynomial::new(terms.iter().map(|(k, v)| (k.to_vec(), fe(*v))).collect())
}

fn has_key(m: &MPolynomial, key: &[u128]) -> bool {
    m.dictionary.iter().any(|(k, _)| k.as_slice() == key)
}

fn coeff_of(m: &MPolynomial, key: &[u128]) -> Option<u128> {
    m.dictionary.iter().find(|(k, _)| k.as_slice() == key).map(|(_, c)| c.value)
}

#[test]
fn new_drops_zero_coefficients() {
    let m = MPolynomial::new(vec![(vec![1], fe(5)), (vec![2], fe(0))]);
    assert!(has_key(&m, &[1]));
    assert!(!has_key(&m, &[2]));
    assert_eq!(m.dictionary.len(), 1);
}

#[test]
fn zero_and_constant() {
    assert!(MPolynomial::zero().is_zero());
    assert!(MPolynomial::constant(fe(0)).is_zero());
    let c = MPolynomial::constant(fe(9));
    assert_eq!(c.dictionary.len(), 1);
    assert_eq!(coeff_of(&c, &[]), Some(9));
    assert_eq!(c.num_vars(), 0);
}

#[test]
fn num_vars_is_the_longest_key() {
    let m = mp(&[(&[1], 2), (&[0, 0, 3], 4)]);
    assert_eq!(m.num_vars(), 3);
    assert_eq!(MPolynomial::zero().num_vars(), 0);
}

#[test]
fn field_of_a_nonzero_polynomial() {
    let m = mp(&[(&[1], 2)]);
    let f = m.field();
    let one = f.one();
    assert_eq!(one.value, 1);
}

#[test]
fn add_combines_like_terms_across_variable_counts() {
    // (5 x0) + (3 x0 + 7 x1) = 8 x0 + 7 x1; keys pad to two variables.
    let a = mp(&[(&[1], 5)]);
    let b = mp(&[(&[1, 0], 3), (&[0, 1], 7)]);
    let s = a.add(&b);
    assert_eq!(s.num_vars(), 2);
    assert_eq!(coeff_of(&s, &[1, 0]), Some(8));
    assert_eq!(coeff_of(&s, &[0, 1]), Some(7));
    assert_eq!(s.evaluate(&vec![fe(10), fe(100)]).value, 780);
}

#[test]
fn cancelled_terms_leave_no_key_behind() {
    // After an add or sub that cancels a term, its key is absent.
    let a = mp(&[(&[1], 5), (&[0, 1], 2)]);
    let b = mp(&[(&[1], STARK_MODULUS - 5)]);
    let s = a.add(&b);
    assert!(!has_key(&s, &[1, 0]));
    assert!(!has_key(&s, &[1]));
    assert_eq!(coeff_of(&s, &[0, 1]), Some(2));
    let d = a.sub(&a);
    assert!(d.is_zero());
    assert_eq!(d.dictionary.len(), 0);
}

#[test]
fn neg_negates_every_coefficient() {
    let a = mp(&[(&[1], 5), (&[], 3)]);
    let n = a.neg();
    assert_eq!(coeff_of(&n, &[1]), Some(STARK_MODULUS - 5));
    assert_eq!(coeff_of(&n, &[]), Some(STARK_MODULUS - 3));
    assert!(a.add(&n).is_zero());
}

#[test]
fn mul_multiplies_terms_and_adds_exponents() {
    // (x0 + 1)(x0 - 1) = x0^2 - 1.
    let xp1 = mp(&[(&[1], 1), (&[], 1)]);
    let xm1 = mp(&[(&[1], 1), (&[], STARK_MODULUS - 1)]);
    let prod = xp1.mul(&xm1);
    assert_eq!(coeff_of(&prod, &[2]), Some(1));
    // The constant term's key is padded to the common variable count.
    assert_eq!(coeff_of(&prod, &[0]), Some(STARK_MODULUS - 1));
    assert!(!has_key(&prod, &[1]));
    assert_eq!(prod.evaluate(&vec![fe(3)]).value, 8);
}

#[test]
fn mul_across_different_variable_counts() {
    // (2 x0) * (3 x1) = 6 x0 x1.
    let a = mp(&[(&[1], 2)]);
    let b = mp(&[(&[0, 1], 3)]);
    let prod = a.mul(&b);
    assert_eq!(coeff_of(&prod, &[1, 1]), Some(6));
    assert_eq!(prod.evaluate(&vec![fe(5), fe(7)]).value, 210);
}

#[test]
fn pow_by_squaring() {
    // (x0 + 1)^3 = x0^3 + 3x0^2 + 3x0 + 1.
    let p = mp(&[(&[1], 1), (&[], 1)]);
    let c = p.pow(3);
    assert_eq!(coeff_of(&c, &[3]), Some(1));
    assert_eq!(coeff_of(&c, &[2]), Some(3));
    assert_eq!(coeff_of(&c, &[1]), Some(3));
    assert_eq!(coeff_of(&c, &[0]), Some(1));
    assert_eq!(coeff_of(&p.pow(0), &[]), Some(1));
    assert!(MPolynomial::zero().pow(4).is_zero());
}

#[test]
fn evaluate_uses_each_coordinate() {
    // 2 x0^2 x1 + 3 x1 + 4 at (5, 7): 2*25*7 + 21 + 4 = 375.
    let m = mp(&[(&[2, 1], 2), (&[0, 1], 3), (&[], 4)]);
    assert_eq!(m.evaluate(&vec![fe(5), fe(7)]).value, 375);
    // The zero polynomial at a nonempty point is zero in the point's field.
    assert_eq!(MPolynomial::zero().evaluate(&vec![fe(5)]).value, 0);
}

#[test]
fn variables_are_single_term_polynomials() {
    let vars = MPolynomial::variables(3, field());
    assert_eq!(vars.len(), 3);
    let pt = vec![fe(4), fe(5), fe(6)];
    assert_eq!(vars[0].evaluate(&pt).value, 4);
    assert_eq!(vars[1].evaluate(&pt).value, 5);
    assert_eq!(vars[2].evaluate(&pt).value, 6);
    assert_eq!(vars[1].num_vars(), 3);
}

#[test]
fn lift_embeds_a_univariate_polynomial() {
    // x^2 + 3, lifted into variable 1, evaluated at (9, 2) gives 7.
    let p = Polynomial::new(vec![fe(3), fe(0), fe(1)]);
    let m = MPolynomial::lift(&p, 1);
    assert_eq!(m.num_vars(), 2);
    assert_eq!(m.evaluate(&vec![fe(9), fe(2)]).value, 7);
    assert!(MPolynomial::lift(&Polynomial::new(vec![]), 0).is_zero());
}

#[test]
fn evaluate_symbolic_accepts_long_substituted_polynomials() {
    // Substituting x + x^1100 for x0 in 3 * x0: no fixed size cap applies.
    let m = mp(&[(&[1], 3)]);
    let mut coeffs = vec![fe(0); 1101];
    coeffs[1] = fe(1);
    coeffs[1100] = fe(1);
    let sub = vec![Polynomial::new(coeffs)];
    let r = m.evaluate_symbolic(&sub);
    assert_eq!(r.degree(), 1100);
    assert_eq!(r.evaluate(fe(1)).value, 6);
}

#[test]
fn evaluate_symbolic_substitutes_polynomials() {
    // m = x0^2 - 1, substituting x0 = (x + 1): (x+1)^2 - 1 = x^2 + 2x.
    let m = mp(&[(&[2], 1), (&[], STARK_MODULUS - 1)]);
    let sub = vec![Polynomial::new(vec![fe(1), fe(1)])];
    let r = m.evaluate_symbolic(&sub);
    let got: Vec<u128> = r.coeffs.iter().map(|c| c.value).collect();
    assert_eq!(got, vec![0, 2, 1]);
    for t in [0u128, 1, 5, 9] {
        assert_eq!(r.evaluate(fe(t)).value, m.evaluate(&vec![fe(t + 1)]).value);
    }
}
