use stark_primitives::field::{Field, FieldElement, STARK_GENERATOR, STARK_MODULUS};

const P: u128 = STARK_MODULUS;
const A: u128 = 1234567890123456789012345678901234567;
const B: u128 = 987654321098765432109876543210987654;

fn field() -> Field {
    Field::new(P)
}

#[test]
fn modulus_constant_matches_its_definition() {
    assert_eq!(P, 1 + 407 * (1u128 << 119));
    assert!(STARK_GENERATOR < P);
}

#[test]
fn new_reduces_the_value() {
    let f = field();
    let e = FieldElement::new(P + 5, f);
    assert_eq!(e.value, 5);
    assert_eq!(FieldElement::new(P, f).value, 0);
}

#[test]
fn add_sub_mul_neg_concrete() {
    let f = field();
    let a = FieldElement::new(A, f);
    let b = FieldElement::new(B, f);
    assert_eq!(a.add(b).value, 2222222211222222221122222222112222221);
    assert_eq!(a.sub(b).value, 246913569024691356902469135690246913);
    assert_eq!(a.mul(b).value, 170496697148943604353811038445514827305);
    assert_eq!(a.neg().value, 269263329252106923346912391088148886650);
}

#[test]
fn add_and_mul_near_the_modulus_do_not_overflow() {
    let f = field();
    let a = FieldElement::new(P - 1, f);
    let b = FieldElement::new(P - 2, f);
    // (p-1) + (p-2) = 2p - 3, reduced to p - 3.
    assert_eq!(a.add(b).value, P - 3);
    // (p-1) * (p-2) = p^2 - 3p + 2, reduced to 2.
    assert_eq!(a.mul(b).value, 2);
}

#[test]
fn inverse_concrete_and_law() {
    let f = field();
    let a = FieldElement::new(A, f);
    let inv = a.inv();
    assert_eq!(inv.value, 251016246711941845158063669265373107500);
    // For all nonzero a, a * inverse(a) == one().
    assert_eq!(a.mul(inv).value, f.one().value);
}

#[test]
fn add_negate_gives_zero() {
    let f = field();
    for v in [0u128, 1, 2, A, B, P - 1] {
        let a = FieldElement::new(v, f);
        assert_eq!(a.add(a.neg()).value, f.zero().value);
    }
}

#[test]
fn add_and_mul_commute_and_associate() {
    let f = field();
    let a = FieldElement::new(A, f);
    let b = FieldElement::new(B, f);
    let c = FieldElement::new(31337, f);
    assert_eq!(a.add(b).value, b.add(a).value);
    assert_eq!(a.mul(b).value, b.mul(a).value);
    assert_eq!(a.add(b).add(c).value, a.add(b.add(c)).value);
    assert_eq!(a.mul(b).mul(c).value, a.mul(b.mul(c)).value);
}

#[test]
fn divide_recovers_the_left_operand() {
    let f = field();
    let a = FieldElement::new(A, f);
    let b = FieldElement::new(B, f);
    let q = a.div(b);
    assert_eq!(q.value, 105641089333982031041761126090787670885);
    assert_eq!(q.mul(b).value, a.value);
}

#[test]
fn pow_concrete_and_edge_cases() {
    let f = field();
    let a = FieldElement::new(A, f);
    assert_eq!(a.pow(12345).value, 180810911628552472183129998541517471322);
    assert_eq!(a.pow(0).value, 1);
    assert_eq!(a.pow(1).value, a.value);
    // By convention zero to the zeroth power is one.
    assert_eq!(f.zero().pow(0).value, 1);
    assert_eq!(f.zero().pow(5).value, 0);
}

#[test]
fn pow_splits_over_added_exponents() {
    let f = field();
    let a = FieldElement::new(A, f);
    for (m, n) in [(0u128, 0u128), (1, 0), (3, 4), (100, 23), (12345, 54321)] {
        assert_eq!(a.pow(m + n).value, a.pow(m).mul(a.pow(n)).value);
    }
}

#[test]
fn generator_and_roots_of_unity() {
    let f = field();
    let g = f.generator();
    assert_eq!(g.value, STARK_GENERATOR);
    let r2 = f.primitive_nth_root(2);
    assert_eq!(r2.value, 270497897142230380135924736767050121216);
    assert_eq!(r2.mul(r2).value, 1);
    let r16 = f.primitive_nth_root(16);
    assert_eq!(r16.value, 22186728119017901039385635608201850931);
    assert_eq!(r16.pow(16).value, 1);
    assert_ne!(r16.pow(8).value, 1);
    // n == 1 asks for the trivial root.
    assert_eq!(f.primitive_nth_root(1).value, 1);
}

#[test]
fn sample_reads_big_endian_and_reduces() {
    let f = field();
    assert_eq!(f.sample(vec![1, 2, 3, 4]).value, 16909060);
    assert_eq!(f.sample(vec![]).value, 0);
    // Twenty bytes: more than the modulus width, still reduced exactly.
    let long: Vec<u8> = (1u8..=20).collect();
    assert_eq!(f.sample(long).value, 62505012196532287182978981484970213344);
}

#[test]
fn bytes_is_sixteen_little_endian_bytes() {
    let f = field();
    let a = FieldElement::new(A, f);
    assert_eq!(
        a.bytes(),
        vec![135, 75, 159, 124, 110, 142, 58, 45, 181, 158, 102, 126, 229, 196, 237, 0]
    );
    assert_eq!(f.zero().bytes(), vec![0; 16]);
    assert_eq!(f.one().bytes()[0], 1);
}

#[test]
fn eq_and_is_zero_look_at_the_value() {
    let f = field();
    let a = FieldElement::new(7, f);
    let b = FieldElement::new(7 + P, f);
    assert!(a.eq(b));
    assert!(!a.eq(f.zero()));
    assert!(f.zero().is_zero());
    assert!(!a.is_zero());
}

#[test]
fn small_field_arithmetic_works_too() {
    let f = Field::new(17);
    let a = FieldElement::new(13, f);
    let b = FieldElement::new(9, f);
    assert_eq!(a.add(b).value, 5);
    assert_eq!(a.mul(b).value, (13 * 9) % 17);
    assert_eq!(a.inv().mul(a).value, 1);
}
