//! A prime finite field and its elements.
//!
//! All arithmetic is exact modular arithmetic: every operation returns a value
//! reduced into `[0, modulus)`, and intermediate products are handled without
//! silent overflow even for a modulus close to `2^128`.

use vstd::prelude::*;

verus! {

use vstd::arithmetic::div_mod::*;
use vstd::arithmetic::mul::*;
use vstd::arithmetic::power::*;
use vstd::arithmetic::power2::*;

/// The one modulus for which a generator and roots of unity are known:
/// `1 + 407 * 2^119`.
pub const STARK_MODULUS: u128 = 270497897142230380135924736767050121217;

/// A generator of the multiplicative group of the field of order
/// [`STARK_MODULUS`].
pub const STARK_GENERATOR: u128 = 85408008396924667383611388730472331217;

/// Sum in the field of modulus `p`.
pub open spec fn fadd(a: int, b: int, p: int) -> int {
    (a + b) % p
}

/// Difference in the field of modulus `p`.
pub open spec fn fsub(a: int, b: int, p: int) -> int {
    (a - b) % p
}

/// Product in the field of modulus `p`.
pub open spec fn fmul(a: int, b: int, p: int) -> int {
    (a * b) % p
}

/// Additive inverse in the field of modulus `p`.
pub open spec fn fneg(a: int, p: int) -> int {
    (p - a) % p
}

/// Power in the field of modulus `p`.
pub open spec fn fpow(a: int, e: nat, p: int) -> int {
    pow(a, e) % p
}

/// Greatest common divisor, by Euclid's recursion.
pub open spec fn gcd(a: nat, b: nat) -> nat
    decreases b,
{
    if b == 0 {
        a
    } else {
        gcd(b, a % b)
    }
}

/// A prime finite field, identified by its modulus. The modulus is assumed
/// prime by its users; it is nowhere checked.
#[derive(Copy, Clone, Debug, PartialEq, Eq, Structural)]
pub struct Field(u128);

/// An element of a prime field: a value in `[0, modulus)` tagged with its
/// field.
#[derive(Copy, Clone, Debug, PartialEq, Eq, Structural)]
pub struct FieldElement {
    pub value: u128,
    pub field: Field,
}

impl Field {
    /// The modulus that defines this field.
    pub closed spec fn modulus(self) -> u128 {
        self.0
    }

    /// Creates a new field with the given prime modulus.
    pub fn new(field: u128) -> (r: Field)
        requires
            field > 0,
        ensures
            r.modulus() == field,
    {
        Field(field)
    }

    /// The modulus, as a value; for the crate's own arithmetic.
    pub(crate) fn modulus_value(&self) -> (r: u128)
        ensures
            r == self.modulus(),
    {
        self.0
    }

    /// The additive identity of this field.
    pub fn zero(&self) -> (r: FieldElement)
        requires
            self.modulus() > 0,
        ensures
            r.wf(),
            r.field == *self,
            r.value == 0,
    {
        FieldElement { value: 0, field: *self }
    }

    /// The multiplicative identity of this field.
    pub fn one(&self) -> (r: FieldElement)
        requires
            self.modulus() > 0,
        ensures
            r.wf(),
            r.field == *self,
            r.value as int == 1int % (self.modulus() as int),
    {
        let p = self.0;
        if p == 1 {
            proof {
                lemma_mod_self_0(1int);
            }
            FieldElement { value: 0, field: *self }
        } else {
            proof {
                lemma_small_mod(1nat, p as nat);
            }
            FieldElement { value: 1, field: *self }
        }
    }
}

impl FieldElement {
    /// The value is reduced and the modulus is positive.
    pub open spec fn wf(self) -> bool {
        self.field.modulus() > 0 && self.value < self.field.modulus()
    }

    /// Creates a new element, reducing the value into the field.
    pub fn new(value: u128, field: Field) -> (r: FieldElement)
        requires
            field.modulus() > 0,
        ensures
            r.wf(),
            r.field == field,
            r.value as int == value as int % field.modulus() as int,
    {
        FieldElement { value: value % field.0, field }
    }

    /// True iff the two elements have the same value (the field is implied by
    /// context).
    pub fn eq(&self, other: FieldElement) -> (r: bool)
        ensures
            r == (self.value == other.value),
    {
        self.value == other.value
    }

    /// True iff this is the additive identity.
    pub fn is_zero(&self) -> (r: bool)
        ensures
            r == (self.value == 0),
    {
        self.value == 0
    }
}

/// The greatest common divisor, by Euclid's loop.
pub(crate) fn gcd_exec(a: u128, b: u128) -> (r: u128)
    ensures
        r as nat == gcd(a as nat, b as nat),
{
    let mut x = a;
    let mut y = b;
    while y != 0
        invariant
            gcd(x as nat, y as nat) == gcd(a as nat, b as nat),
        decreases y,
    {
        proof {
            lemma_mod_bound(x as int, y as int);
            assert(gcd(x as nat, y as nat) == gcd(y as nat, (x % y) as nat));
        }
        let t = x % y;
        x = y;
        y = t;
    }
    proof {
        assert(gcd(x as nat, 0nat) == x as nat);
    }
    x
}

/// `a + b` modulo `p`, without overflow.
pub(crate) fn add_mod(a: u128, b: u128, p: u128) -> (r: u128)
    requires
        p > 0,
        a < p,
        b < p,
    ensures
        r as int == fadd(a as int, b as int, p as int),
        r < p,
{
    let diff = p - b;
    if a >= diff {
        proof {
            lemma_fundamental_div_mod_converse(a + b, p as int, 1, a + b - p);
        }
        a - diff
    } else {
        proof {
            lemma_small_mod((a + b) as nat, p as nat);
        }
        a + b
    }
}

/// `a - b` modulo `p`, without overflow.
pub(crate) fn sub_mod(a: u128, b: u128, p: u128) -> (r: u128)
    requires
        p > 0,
        a < p,
        b < p,
    ensures
        r as int == fsub(a as int, b as int, p as int),
        r < p,
{
    if a >= b {
        proof {
            lemma_small_mod((a - b) as nat, p as nat);
        }
        a - b
    } else {
        proof {
            lemma_mod_add_multiples_vanish(a - b, p as int);
            lemma_small_mod((a + p - b) as nat, p as nat);
        }
        a + (p - b)
    }
}

/// `-a` modulo `p`.
pub(crate) fn neg_mod(a: u128, p: u128) -> (r: u128)
    requires
        p > 0,
        a < p,
    ensures
        r as int == fneg(a as int, p as int),
        r < p,
        (r == 0) <==> (a == 0),
{
    if a == 0 {
        proof {
            lemma_mod_self_0(p as int);
        }
        0
    } else {
        proof {
            lemma_small_mod((p - a) as nat, p as nat);
        }
        p - a
    }
}

/// Congruence is preserved when the left summand is reduced first.
proof fn lemma_mod_add_left(a: int, b: int, p: int)
    requires
        p > 0,
    ensures
        (a % p + b) % p == (a + b) % p,
{
    lemma_add_mod_noop_right(b, a, p);
}

/// Congruence is preserved when a factor of a summand is reduced first.
proof fn lemma_mod_mul_term(r: int, x: int, y: int, p: int)
    requires
        p > 0,
    ensures
        (r + (x % p) * y) % p == (r + x * y) % p,
{
    lemma_mul_mod_noop_left(x, y, p);
    lemma_add_mod_noop_right(r, (x % p) * y, p);
    lemma_add_mod_noop_right(r, x * y, p);
}

/// `a * b` modulo `p`, by modular doubling: correct even where the plain
/// 128-bit product would overflow.
pub(crate) fn mul_mod(a: u128, b: u128, p: u128) -> (r: u128)
    requires
        p > 0,
        a < p,
        b < p,
    ensures
        r as int == fmul(a as int, b as int, p as int),
        r < p,
{
    let mut result: u128 = 0;
    let mut x: u128 = a;
    let mut y: u128 = b;
    proof {
        lemma_mod_bound(a as int * b as int, p as int);
    }
    while y > 0
        invariant
            p > 0,
            result < p,
            x < p,
            (result as int + x as int * y as int) % (p as int) == fmul(a as int, b as int, p as int),
        decreases y,
    {
        let ghost result0 = result as int;
        let ghost x0 = x as int;
        let ghost y0 = y as int;
        let ghost h = y as int / 2;
        if y % 2 == 1 {
            result = add_mod(result, x, p);
            proof {
                lemma_fundamental_div_mod(y0, 2);
                assert(result0 + x0 * y0 == (result0 + x0) + (2 * x0) * h) by (nonlinear_arith)
                    requires y0 == 2 * h + 1;
                lemma_mod_add_left(result0 + x0, (2 * x0) * h, p as int);
                lemma_mod_mul_term(result as int, 2 * x0, h, p as int);
            }
        } else {
            proof {
                lemma_fundamental_div_mod(y0, 2);
                assert(result0 + x0 * y0 == result0 + (2 * x0) * h) by (nonlinear_arith)
                    requires y0 == 2 * h;
                lemma_mod_mul_term(result0, 2 * x0, h, p as int);
            }
        }
        x = add_mod(x, x, p);
        y = y / 2;
        proof {
            lemma_mod_mul_term(result as int, x0 + x0, y as int, p as int);
        }
    }
    proof {
        lemma_small_mod(result as nat, p as nat);
    }
    result
}

impl Field {
    /// Sum of two elements of this field.
    pub fn add(&self, left: FieldElement, right: FieldElement) -> (r: FieldElement)
        requires
            left.wf(),
            right.wf(),
            left.field == *self,
            right.field == *self,
        ensures
            r.wf(),
            r.field == *self,
            r.value as int == fadd(left.value as int, right.value as int, self.modulus() as int),
    {
        FieldElement { value: add_mod(left.value, right.value, self.0), field: *self }
    }

    /// Difference of two elements of this field.
    pub fn sub(&self, left: FieldElement, right: FieldElement) -> (r: FieldElement)
        requires
            left.wf(),
            right.wf(),
            left.field == *self,
            right.field == *self,
        ensures
            r.wf(),
            r.field == *self,
            r.value as int == fsub(left.value as int, right.value as int, self.modulus() as int),
    {
        FieldElement { value: sub_mod(left.value, right.value, self.0), field: *self }
    }

    /// Product of two elements of this field.
    pub fn mul(&self, left: FieldElement, right: FieldElement) -> (r: FieldElement)
        requires
            left.wf(),
            right.wf(),
            left.field == *self,
            right.field == *self,
        ensures
            r.wf(),
            r.field == *self,
            r.value as int == fmul(left.value as int, right.value as int, self.modulus() as int),
    {
        FieldElement { value: mul_mod(left.value, right.value, self.0), field: *self }
    }

    /// Additive inverse of an element of this field.
    pub fn negate(&self, operand: FieldElement) -> (r: FieldElement)
        requires
            operand.wf(),
            operand.field == *self,
        ensures
            r.wf(),
            r.field == *self,
            r.value as int == fneg(operand.value as int, self.modulus() as int),
            (r.value == 0) <==> (operand.value == 0),
    {
        FieldElement { value: neg_mod(operand.value, self.0), field: *self }
    }

    /// Multiplicative inverse, by the extended Euclidean algorithm with the
    /// Bezout coefficient tracked modulo the modulus.
    ///
    /// The returned element is the inverse: multiplied by the operand it gives
    /// the multiplicative identity.
    pub fn inverse(&self, operand: FieldElement) -> (r: FieldElement)
        requires
            operand.wf(),
            operand.field == *self,
            operand.value != 0,
            gcd(operand.value as nat, self.modulus() as nat) == 1,
        ensures
            r.wf(),
            r.field == *self,
            fmul(r.value as int, operand.value as int, self.modulus() as int) == 1,
    {
        let p = self.0;
        let v = operand.value;
        proof {
            // The modulus is at least 2: were it 1, no nonzero value below it
            // would exist.
            assert(p >= 2);
            lemma_small_mod(v as nat, p as nat);
            lemma_mod_self_0(p as int);
            // gcd(v, p) unfolds to gcd(p, v % p) == gcd(p, v).
            assert(gcd(v as nat, p as nat) == gcd(p as nat, v as nat));
            assert(0int * v as int == 0) by (nonlinear_arith);
            assert((0int * v as int) % p as int == p as int % p as int);
            assert(1int * v as int == v as int) by (nonlinear_arith);
        }
        let mut r0: u128 = p;
        let mut r1: u128 = v;
        let mut t0: u128 = 0;
        let mut t1: u128 = 1;
        while r1 != 0
            invariant
                p >= 2,
                1 <= r0,
                r1 < p,
                r1 <= r0,
                r0 <= p,
                t0 < p,
                t1 < p,
                gcd(r0 as nat, r1 as nat) == 1,
                (t0 as int * v as int) % (p as int) == r0 as int % (p as int),
                (t1 as int * v as int) % (p as int) == r1 as int % (p as int),
            decreases r1,
        {
            let q = r0 / r1;
            let r2 = r0 % r1;
            let qt = mul_mod(q % p, t1, p);
            let t2 = sub_mod(t0, qt, p);
            proof {
                let pi = p as int;
                let qi = q as int;
                let vi = v as int;
                let t0i = t0 as int;
                let t1i = t1 as int;
                let r1i = r1 as int;
                lemma_mod_bound(r0 as int, r1i);
                lemma_fundamental_div_mod(r0 as int, r1i);
                assert(r2 as int == r0 as int - qi * r1i);
                // gcd recursion step: unfolding the definition once.
                assert(gcd(r0 as nat, r1 as nat) == gcd(r1 as nat, r2 as nat));
                // qt is congruent to q * t1.
                lemma_small_mod(qt as nat, p as nat);
                lemma_mul_mod_noop_left(qi, t1i, pi);
                assert(qt as int % pi == (qi * t1i) % pi);
                // t2 * v is congruent to (t0 - q * t1) * v.
                lemma_mul_mod_noop_left(t0i - qt as int, vi, pi);
                assert((t2 as int * vi) % pi == ((t0i - qt as int) * vi) % pi);
                lemma_mul_is_distributive_sub_other_way(vi, t0i, qt as int);
                assert((t0i - qt as int) * vi == t0i * vi - qt as int * vi);
                // Replace qt by q * t1 under the modulus.
                lemma_mul_mod_noop_left(qt as int, vi, pi);
                lemma_mul_mod_noop_left(qi * t1i, vi, pi);
                assert((qt as int * vi) % pi == ((qi * t1i) * vi) % pi);
                lemma_sub_mod_noop_right(t0i * vi, qt as int * vi, pi);
                lemma_sub_mod_noop_right(t0i * vi, (qi * t1i) * vi, pi);
                assert((t0i * vi - qt as int * vi) % pi == (t0i * vi - (qi * t1i) * vi) % pi);
                // Regroup and use the two congruence invariants.
                lemma_mul_is_associative(qi, t1i, vi);
                lemma_mul_mod_noop_right(qi, t1i * vi, pi);
                lemma_small_mod(r1 as nat, p as nat);
                lemma_mul_mod_noop_right(qi, r1i, pi);
                assert((qi * (t1i * vi)) % pi == (qi * r1i) % pi);
                lemma_sub_mod_noop_right(t0i * vi, qi * (t1i * vi), pi);
                lemma_sub_mod_noop_right(t0i * vi, qi * r1i, pi);
                assert((t0i * vi - qi * (t1i * vi)) % pi == (t0i * vi - qi * r1i) % pi);
                lemma_sub_mod_noop(t0i * vi, qi * r1i, pi);
                lemma_sub_mod_noop(r0 as int, qi * r1i, pi);
                assert((t0i * vi - qi * r1i) % pi == (r0 as int - qi * r1i) % pi);
                assert((t2 as int * vi) % pi == r2 as int % pi);
            }
            r0 = r1;
            r1 = r2;
            t0 = t1;
            t1 = t2;
        }
        proof {
            lemma_small_mod(t0 as nat, p as nat);
            lemma_small_mod(1nat, p as nat);
        }
        FieldElement { value: t0, field: *self }
    }

    /// Quotient of two elements: the left operand times the inverse of the
    /// right one. The result times the right operand gives back the left one.
    pub fn divide(&self, left: FieldElement, right: FieldElement) -> (r: FieldElement)
        requires
            left.wf(),
            right.wf(),
            left.field == *self,
            right.field == *self,
            right.value != 0,
            gcd(right.value as nat, self.modulus() as nat) == 1,
        ensures
            r.wf(),
            r.field == *self,
            fmul(r.value as int, right.value as int, self.modulus() as int) == left.value as int,
    {
        let inv = self.inverse(right);
        let r = self.mul(left, inv);
        proof {
            let pi = self.modulus() as int;
            let li = left.value as int;
            let ii = inv.value as int;
            let bi = right.value as int;
            lemma_mul_mod_noop_left(li * ii, bi, pi);
            assert((r.value as int * bi) % pi == ((li * ii) * bi) % pi);
            lemma_mul_is_associative(li, ii, bi);
            lemma_mul_mod_noop_right(li, ii * bi, pi);
            assert((li * (ii * bi)) % pi == (li * ((ii * bi) % pi)) % pi);
            assert((ii * bi) % pi == 1);
            lemma_small_mod(left.value as nat, self.modulus() as nat);
        }
        r
    }

    /// A generator of the multiplicative group, known only for the field of
    /// modulus [`STARK_MODULUS`].
    pub fn generator(&self) -> (r: FieldElement)
        requires
            self.modulus() == STARK_MODULUS,
        ensures
            r.wf(),
            r.field == *self,
            r.value == STARK_GENERATOR,
    {
        FieldElement { value: STARK_GENERATOR, field: *self }
    }

    /// A primitive `n`-th root of unity: the generator raised to the power
    /// `2^119 / n`, obtained by repeated squaring. Defined only for the field
    /// of modulus [`STARK_MODULUS`] and for `n` a power of two not exceeding
    /// `2^119`.
    pub fn primitive_nth_root(&self, n: u128) -> (r: FieldElement)
        requires
            self.modulus() == STARK_MODULUS,
            n >= 1,
            exists|k: nat| k <= 119 && n as nat == pow2(k),
        ensures
            r.wf(),
            r.field == *self,
            r.value as int == fpow(
                STARK_GENERATOR as int,
                pow2(119) / (n as nat),
                STARK_MODULUS as int,
            ),
    {
        let p = self.0;
        let mut root: u128 = STARK_GENERATOR;
        let mut order: u128 = 664613997892457936451903530140172288;
        let ghost gi = STARK_GENERATOR as int;
        let ghost pi = STARK_MODULUS as int;
        let ghost mut ge: nat = 1;
        proof {
            assert(pi > 0);
            lemma2_to64();
            lemma2_to64_rest();
            lemma_pow2_adds(64, 55);
            assert(order as nat == pow2(119));
            lemma_pow1(gi);
            lemma_small_mod(STARK_GENERATOR as nat, STARK_MODULUS as nat);
            let j = choose|j: nat| j <= 119 && n as nat == pow2(j);
            if j < 119 {
                lemma_pow2_strictly_increases(j, 119);
            }
            assert(n <= order);
        }
        while order != n
            invariant
                p == STARK_MODULUS,
                n >= 1,
                exists|k: nat| k <= 119 && order as nat == pow2(k),
                exists|k: nat| k <= 119 && n as nat == pow2(k),
                n <= order,
                ge * order as nat == pow2(119),
                root < p,
                root as int == pow(gi, ge) % pi,
                pi == STARK_MODULUS as int,
                gi == STARK_GENERATOR as int,
            decreases order,
        {
            let ghost root0 = root as int;
            let ghost order0 = order as nat;
            root = mul_mod(root, root, p);
            proof {
                let k = choose|k: nat| k <= 119 && order as nat == pow2(k);
                let j = choose|j: nat| j <= 119 && n as nat == pow2(j);
                if k <= j {
                    if k < j {
                        lemma_pow2_strictly_increases(k, j);
                    }
                    assert(order as nat <= n as nat);
                    assert(false);
                }
                // So j < k; the order is even and halving it keeps n below it.
                lemma_pow2_unfold(k);
                assert(order as nat == 2 * pow2((k - 1) as nat));
                lemma_div_multiples_vanish(pow2((k - 1) as nat) as int, 2);
                assert((order / 2) as nat == pow2((k - 1) as nat));
                if j < k - 1 {
                    lemma_pow2_strictly_increases(j, (k - 1) as nat);
                }
                assert(n as nat <= pow2((k - 1) as nat));
                // The tracked exponent doubles as the order halves.
                assert((2 * ge) * (order / 2) as nat == ge * order0) by (nonlinear_arith)
                    requires order0 == 2 * ((order / 2) as nat);
                // The root squares: it becomes the generator to the doubled power.
                lemma_mul_mod_noop(pow(gi, ge), pow(gi, ge), pi);
                lemma_pow_adds(gi, ge, ge);
                assert(root as int == pow(gi, (2 * ge) as nat) % pi);
                ge = 2 * ge;
            }
            order = order / 2;
        }
        proof {
            lemma_mul_is_commutative(ge as int, n as int);
            lemma_div_multiples_vanish(ge as int, n as int);
            assert(pow2(119) / (n as nat) == ge);
        }
        FieldElement { value: root, field: *self }
    }

    /// Interprets a byte sequence as a big-endian unsigned integer, reduced
    /// into the field. No matter how long the sequence, no bits are discarded
    /// before reduction.
    pub fn sample(&self, byte_array: Vec<u8>) -> (r: FieldElement)
        requires
            self.modulus() > 0,
        ensures
            r.wf(),
            r.field == *self,
            r.value as int == be_val(byte_array@) as int % self.modulus() as int,
    {
        let p = self.0;
        let mut acc: u128 = 0;
        let mut i: usize = 0;
        proof {
            assert(byte_array@.take(0) =~= Seq::<u8>::empty());
            lemma_small_mod(0nat, p as nat);
        }
        while i < byte_array.len()
            invariant
                p == self.modulus(),
                p > 0,
                i <= byte_array@.len(),
                acc < p,
                acc as int == be_val(byte_array@.take(i as int)) as int % p as int,
            decreases byte_array@.len() - i,
        {
            let ghost acc0 = acc as int;
            let ghost prefix = byte_array@.take(i as int);
            let b = byte_array[i];
            let acc1 = mul_mod(acc, 256 % p, p);
            acc = add_mod(acc1, (b as u128) % p, p);
            proof {
                let pi = p as int;
                let bi = b as int;
                let v0 = be_val(prefix) as int;
                assert(byte_array@.take(i as int + 1).drop_last() =~= prefix);
                assert(be_val(byte_array@.take(i as int + 1)) as int == v0 * 256 + bi);
                // acc1 is congruent to v0 * 256.
                lemma_mul_mod_noop_right(acc0, 256, pi);
                lemma_mul_mod_noop_left(v0, 256, pi);
                assert(acc1 as int == (v0 * 256) % pi);
                // Adding the reduced byte keeps the congruence.
                lemma_mod_twice(bi, pi);
                lemma_add_mod_noop(v0 * 256, bi, pi);
                assert(acc as int == ((v0 * 256) % pi + bi % pi) % pi);
                assert(acc as int == (v0 * 256 + bi) % pi);
            }
            i = i + 1;
        }
        proof {
            assert(byte_array@.take(byte_array@.len() as int) =~= byte_array@);
        }
        FieldElement { value: acc, field: *self }
    }
}

/// The big-endian unsigned integer a byte sequence denotes.
pub open spec fn be_val(s: Seq<u8>) -> nat
    decreases s.len(),
{
    if s.len() == 0 {
        0
    } else {
        be_val(s.drop_last()) * 256 + s.last() as nat
    }
}

/// Byte `i` of the 16-byte little-endian encoding of `v`.
pub open spec fn le_byte(v: u128, i: int) -> u8 {
    ((v as int / pow(256, i as nat)) % 256) as u8
}

impl FieldElement {
    /// Multiplicative inverse; see [`Field::inverse`].
    pub fn inv(&self) -> (r: FieldElement)
        requires
            self.wf(),
            self.value != 0,
            gcd(self.value as nat, self.field.modulus() as nat) == 1,
        ensures
            r.wf(),
            r.field == self.field,
            fmul(r.value as int, self.value as int, self.field.modulus() as int) == 1,
    {
        self.field.inverse(*self)
    }

    /// Modular exponentiation by squaring. An exponent of zero gives the
    /// multiplicative identity whatever the base, zero included.
    pub fn pow(&self, exponent: u128) -> (r: FieldElement)
        requires
            self.wf(),
        ensures
            r.wf(),
            r.field == self.field,
            r.value as int == fpow(
                self.value as int,
                exponent as nat,
                self.field.modulus() as int,
            ),
    {
        let p = self.field.0;
        let ghost pi = p as int;
        let ghost v = self.value as int;
        let mut acc: u128 = if p == 1 { 0 } else { 1 };
        let mut base: u128 = self.value;
        let mut e: u128 = exponent;
        proof {
            lemma_small_mod(acc as nat, p as nat);
            lemma_mul_mod_noop_left(1, pow(v, exponent as nat), pi);
            assert(1int % pi == acc as int);
            assert((acc as int * pow(base as int, e as nat)) % pi == pow(v, exponent as nat) % pi);
        }
        while e > 0
            invariant
                p == self.field.modulus(),
                p > 0,
                acc < p,
                base < p,
                (acc as int * pow(base as int, e as nat)) % pi == pow(v, exponent as nat) % pi,
                pi == p as int,
                v == self.value as int,
            decreases e,
        {
            let ghost acc0 = acc as int;
            let ghost b0 = base as int;
            let ghost e0 = e as nat;
            let ghost h = (e / 2) as nat;
            if e % 2 == 1 {
                acc = mul_mod(acc, base, p);
            }
            base = mul_mod(base, base, p);
            e = e / 2;
            proof {
                lemma_fundamental_div_mod(e0 as int, 2);
                // The new base stands for the square of the old one.
                lemma_mul_mod_noop(b0, b0, pi);
                lemma_pow_mod_noop(b0 * b0, h, pi);
                lemma_square_is_pow2(b0);
                lemma_pow_multiplies(b0, 2, h);
                assert(pow(b0 * b0, h) == pow(b0, 2 * h));
                lemma_mul_mod_noop_right(acc as int, pow(base as int, h), pi);
                lemma_mul_mod_noop_right(acc as int, pow(b0 * b0, h), pi);
                assert((acc as int * pow(base as int, h)) % pi
                    == (acc as int * pow(b0, 2 * h)) % pi);
                if e0 % 2 == 1 {
                    // acc picked up one factor of the old base.
                    lemma_mul_mod_noop_left(acc0 * b0, pow(b0, 2 * h), pi);
                    lemma_pow1(b0);
                    lemma_pow_adds(b0, 1, 2 * h);
                    assert(b0 * pow(b0, 2 * h) == pow(b0, (2 * h + 1) as nat));
                    assert((acc0 * b0) * pow(b0, 2 * h) == acc0 * pow(b0, (2 * h + 1) as nat))
                        by (nonlinear_arith)
                        requires b0 * pow(b0, 2 * h) == pow(b0, (2 * h + 1) as nat);
                    assert(e0 == 2 * h + 1);
                } else {
                    lemma_pow_adds(b0, 0, 2 * h);
                    assert(e0 == 2 * h);
                }
            }
        }
        proof {
            lemma_pow0(base as int);
            lemma_small_mod(acc as nat, p as nat);
        }
        FieldElement { value: acc, field: self.field }
    }

    /// Sum of two elements.
    pub fn add(&self, rhs: FieldElement) -> (r: FieldElement)
        requires
            self.wf(),
            rhs.wf(),
            rhs.field == self.field,
        ensures
            r.wf(),
            r.field == self.field,
            r.value as int == fadd(self.value as int, rhs.value as int, self.field.modulus() as int),
    {
        self.field.add(*self, rhs)
    }

    /// Difference of two elements.
    pub fn sub(&self, rhs: FieldElement) -> (r: FieldElement)
        requires
            self.wf(),
            rhs.wf(),
            rhs.field == self.field,
        ensures
            r.wf(),
            r.field == self.field,
            r.value as int == fsub(self.value as int, rhs.value as int, self.field.modulus() as int),
    {
        self.field.sub(*self, rhs)
    }

    /// Product of two elements.
    pub fn mul(&self, rhs: FieldElement) -> (r: FieldElement)
        requires
            self.wf(),
            rhs.wf(),
            rhs.field == self.field,
        ensures
            r.wf(),
            r.field == self.field,
            r.value as int == fmul(self.value as int, rhs.value as int, self.field.modulus() as int),
    {
        self.field.mul(*self, rhs)
    }

    /// Quotient of two elements; see [`Field::divide`].
    pub fn div(&self, rhs: FieldElement) -> (r: FieldElement)
        requires
            self.wf(),
            rhs.wf(),
            rhs.field == self.field,
            rhs.value != 0,
            gcd(rhs.value as nat, self.field.modulus() as nat) == 1,
        ensures
            r.wf(),
            r.field == self.field,
            fmul(r.value as int, rhs.value as int, self.field.modulus() as int)
                == self.value as int,
    {
        self.field.divide(*self, rhs)
    }

    /// Additive inverse.
    pub fn neg(&self) -> (r: FieldElement)
        requires
            self.wf(),
        ensures
            r.wf(),
            r.field == self.field,
            r.value as int == fneg(self.value as int, self.field.modulus() as int),
            (r.value == 0) <==> (self.value == 0),
    {
        self.field.negate(*self)
    }

    /// The 16-byte little-endian encoding of the value: the canonical
    /// hash-input form of a field element.
    pub fn bytes(&self) -> (r: Vec<u8>)
        ensures
            r@.len() == 16,
            forall|i: int| 0 <= i < 16 ==> r@[i] == le_byte(self.value, i),
    {
        let mut out: Vec<u8> = Vec::new();
        let mut x: u128 = self.value;
        let mut i: usize = 0;
        proof {
            lemma_pow0(256);
        }
        while i < 16
        invariant
            i <= 16,
            out@.len() == i,
            x as int == self.value as int / pow(256, i as nat),
            forall|j: int| 0 <= j < i ==> out@[j] == le_byte(self.value, j),
        decreases 16 - i,
        {
            let b = (x % 256) as u8;
            proof {
                assert(b == le_byte(self.value, i as int));
                lemma_pow_adds(256, i as nat, 1);
                lemma_pow1(256);
                lemma_pow_positive(256, i as nat);
                lemma_div_denominator(self.value as int, pow(256, i as nat), 256);
                assert(x as int / 256 == self.value as int / pow(256, (i + 1) as nat));
            }
            out.push(b);
            x = x / 256;
            i = i + 1;
        }
        out
    }
}

/// Addition in a field is commutative.
pub proof fn lemma_field_add_commutes(a: int, b: int, p: int)
    requires
        p > 0,
    ensures
        fadd(a, b, p) == fadd(b, a, p),
{
}

/// Addition in a field is associative.
pub proof fn lemma_field_add_associates(a: int, b: int, c: int, p: int)
    requires
        p > 0,
    ensures
        fadd(fadd(a, b, p), c, p) == fadd(a, fadd(b, c, p), p),
{
    lemma_mod_add_left(a + b, c, p);
    lemma_add_mod_noop_right(a, b + c, p);
}

/// Multiplication in a field is commutative.
pub proof fn lemma_field_mul_commutes(a: int, b: int, p: int)
    requires
        p > 0,
    ensures
        fmul(a, b, p) == fmul(b, a, p),
{
    lemma_mul_is_commutative(a, b);
}

/// Multiplication in a field is associative.
pub proof fn lemma_field_mul_associates(a: int, b: int, c: int, p: int)
    requires
        p > 0,
    ensures
        fmul(fmul(a, b, p), c, p) == fmul(a, fmul(b, c, p), p),
{
    lemma_mul_mod_noop_left(a * b, c, p);
    lemma_mul_mod_noop_right(a, b * c, p);
    lemma_mul_is_associative(a, b, c);
}

/// Every element plus its additive inverse gives the additive identity.
pub proof fn lemma_field_add_negate(a: int, p: int)
    requires
        p > 0,
        0 <= a < p,
    ensures
        fadd(a, fneg(a, p), p) == 0,
{
    if a == 0 {
        lemma_mod_self_0(p);
        lemma_small_mod(0nat, p as nat);
    } else {
        lemma_small_mod((p - a) as nat, p as nat);
        lemma_mod_self_0(p);
    }
}

/// Powers of a common base multiply by adding exponents: the power of a sum
/// of exponents is the product of the powers.
pub proof fn lemma_field_pow_adds(a: int, m: nat, n: nat, p: int)
    requires
        p > 0,
    ensures
        fpow(a, m + n, p) == fmul(fpow(a, m, p), fpow(a, n, p), p),
{
    lemma_pow_adds(a, m, n);
    lemma_mul_mod_noop(pow(a, m), pow(a, n), p);
}

} // verus!
