//! Dense univariate polynomials over a prime field.
//!
//! A polynomial is a coefficient vector, lowest degree first, kept canonical:
//! no trailing zero coefficients. The zero polynomial is the empty vector and
//! has degree `-1`.

use vstd::prelude::*;

verus! {

use vstd::arithmetic::div_mod::*;
use vstd::arithmetic::mul::*;
use vstd::arithmetic::power::*;
use crate::field::{
    Field, FieldElement, add_mod, mul_mod, neg_mod, gcd_exec, fadd, fsub, fneg, fpow, gcd,
};

/// The coefficient values of a sequence of field elements, as integers.
pub open spec fn poly_vals(s: Seq<FieldElement>) -> Seq<int> {
    s.map_values(|e: FieldElement| e.value as int)
}

/// The coefficient at index `k`, with zero outside the stored range.
pub open spec fn gets(s: Seq<int>, k: int) -> int {
    if 0 <= k < s.len() {
        s[k]
    } else {
        0
    }
}

/// The value of the polynomial with coefficients `s` at the point `x`, over
/// the unbounded integers.
pub open spec fn ev(s: Seq<int>, x: int) -> int
    decreases s.len(),
{
    if s.len() == 0 {
        0
    } else {
        s[0] + x * ev(s.drop_first(), x)
    }
}

/// Coefficient `k` of the product of the polynomials with coefficients `a`
/// and `b`: the convolution sum of all `a[i] * b[k - i]`.
pub open spec fn conv_at(a: Seq<int>, b: Seq<int>, k: int) -> int
    decreases a.len(),
{
    if a.len() == 0 {
        0
    } else {
        a[0] * gets(b, k) + conv_at(a.drop_first(), b, k - 1)
    }
}

/// All elements lie in the field `f`, whose modulus is positive.
pub open spec fn seq_in(s: Seq<FieldElement>, f: Field) -> bool {
    f.modulus() > 0 && forall|i: int|
        0 <= i < s.len() ==> (#[trigger] s[i]).field == f && s[i].value < f.modulus()
}

/// All elements are reduced and share one field.
pub open spec fn seq_uniform(s: Seq<FieldElement>) -> bool {
    forall|i: int|
        0 <= i < s.len() ==> (#[trigger] s[i]).wf() && s[i].field == s[0].field
}

/// A univariate polynomial: `coeffs[i]` is the coefficient of `x^i`.
#[derive(Clone, Debug)]
pub struct Polynomial {
    pub coeffs: Vec<FieldElement>,
}

impl Polynomial {
    /// No trailing zero coefficient is stored.
    pub open spec fn canonical(self) -> bool {
        self.coeffs@.len() == 0 || self.coeffs@.last().value != 0
    }

    /// Canonical, with reduced coefficients that share one field.
    pub open spec fn wf(self) -> bool {
        self.canonical() && seq_uniform(self.coeffs@)
    }

    /// The coefficients lie in the field `f`.
    pub open spec fn in_field(self, f: Field) -> bool {
        f.modulus() > 0 && seq_in(self.coeffs@, f)
    }

    /// The two polynomials' coefficients lie in one common field.
    pub open spec fn shares_field(self, other: Polynomial) -> bool {
        elems_share(self.coeffs@, other.coeffs@)
    }

    /// The coefficient values, as integers.
    pub open spec fn vals(self) -> Seq<int> {
        poly_vals(self.coeffs@)
    }

    /// Coefficient `k` as an integer, zero beyond the stored length.
    pub open spec fn cval(self, k: int) -> int {
        gets(self.vals(), k)
    }
}

/// Appending a coefficient adds one term of the matching power.
pub(crate) proof fn lemma_ev_push(s: Seq<int>, c: int, x: int)
    ensures
        ev(s.push(c), x) == ev(s, x) + c * pow(x, s.len()),
    decreases s.len(),
{
    if s.len() == 0 {
        assert(s.push(c).drop_first() =~= Seq::<int>::empty());
        assert(s.push(c)[0] == c);
        assert(ev(s.push(c).drop_first(), x) == 0);
        lemma_pow0(x);
    } else {
        assert(s.push(c).drop_first() =~= s.drop_first().push(c));
        lemma_ev_push(s.drop_first(), c, x);
        let n = (s.len() - 1) as nat;
        lemma_pow1(x);
        lemma_pow_adds(x, 1, n);
        assert(pow(x, s.len()) == x * pow(x, n));
        assert(x * (ev(s.drop_first(), x) + c * pow(x, n)) == x * ev(s.drop_first(), x) + c * (x
            * pow(x, n))) by (nonlinear_arith);
    }
}

/// A polynomial whose coefficients all vanish modulo `p` evaluates to zero
/// modulo `p`.
pub(crate) proof fn lemma_ev_zero_mod(s: Seq<int>, p: int, x: int)
    requires
        p > 0,
        forall|k: int| 0 <= k < s.len() ==> #[trigger] s[k] % p == 0,
    ensures
        ev(s, x) % p == 0,
    decreases s.len(),
{
    if s.len() == 0 {
        lemma_small_mod(0nat, p as nat);
    } else {
        let s2 = s.drop_first();
        assert(forall|k: int| 0 <= k < s2.len() ==> #[trigger] s2[k] % p == 0) by {
            assert(forall|k: int| 0 <= k < s2.len() ==> s2[k] == s[k + 1]);
        }
        lemma_ev_zero_mod(s2, p, x);
        lemma_mul_mod_noop_right(x, ev(s2, x), p);
        lemma_add_mod_noop(s[0], x * ev(s2, x), p);
        lemma_small_mod(0nat, p as nat);
        assert(x * 0 == 0);
        assert(ev(s, x) % p == (s[0] % p + (x * ev(s2, x)) % p) % p);
    }
}

/// Two coefficient sequences congruent position by position evaluate to
/// congruent values.
pub(crate) proof fn lemma_ev_congruent(u: Seq<int>, v: Seq<int>, p: int, x: int)
    requires
        p > 0,
        forall|k: int| #[trigger] gets(u, k) % p == gets(v, k) % p,
    ensures
        ev(u, x) % p == ev(v, x) % p,
    decreases u.len() + v.len(),
{
    lemma_small_mod(0nat, p as nat);
    if u.len() == 0 {
        assert forall|k: int| 0 <= k < v.len() implies #[trigger] v[k] % p == 0 by {
            assert(gets(u, k) % p == gets(v, k) % p);
            assert(gets(v, k) == v[k]);
            assert(gets(u, k) == 0);
        }
        lemma_ev_zero_mod(v, p, x);
    } else if v.len() == 0 {
        assert forall|k: int| 0 <= k < u.len() implies #[trigger] u[k] % p == 0 by {
            assert(gets(u, k) % p == gets(v, k) % p);
            assert(gets(u, k) == u[k]);
            assert(gets(v, k) == 0);
        }
        lemma_ev_zero_mod(u, p, x);
    } else {
        let u2 = u.drop_first();
        let v2 = v.drop_first();
        assert forall|k: int| #[trigger] gets(u2, k) % p == gets(v2, k) % p by {
            if 0 <= k {
                assert(gets(u2, k) == gets(u, k + 1));
                assert(gets(v2, k) == gets(v, k + 1));
                assert(gets(u, k + 1) % p == gets(v, k + 1) % p);
            } else {
                assert(gets(u2, k) == 0 && gets(v2, k) == 0);
            }
        }
        lemma_ev_congruent(u2, v2, p, x);
        lemma_mul_mod_noop_right(x, ev(u2, x), p);
        lemma_mul_mod_noop_right(x, ev(v2, x), p);
        lemma_add_mod_noop(u[0], x * ev(u2, x), p);
        lemma_add_mod_noop(v[0], x * ev(v2, x), p);
        assert(gets(u, 0) == u[0] && gets(v, 0) == v[0]);
        assert(ev(u, x) % p == (u[0] % p + (x * ev(u2, x)) % p) % p);
        assert(ev(v, x) % p == (v[0] % p + (x * ev(v2, x)) % p) % p);
    }
}

/// A sequence that is position by position an affine combination
/// `a0 * b + d` evaluates to the same combination of the evaluations.
pub(crate) proof fn lemma_ev_combo(cs: Seq<int>, b: Seq<int>, d: Seq<int>, a0: int, x: int)
    requires
        b.len() <= cs.len(),
        d.len() <= cs.len(),
        forall|k: int| 0 <= k < cs.len() ==> cs[k] == a0 * gets(b, k) + gets(d, k),
    ensures
        ev(cs, x) == a0 * ev(b, x) + ev(d, x),
    decreases cs.len(),
{
    if cs.len() == 0 {
        assert(a0 * 0 == 0);
    } else {
        let cs2 = cs.drop_first();
        let b2 = if b.len() > 0 {
            b.drop_first()
        } else {
            b
        };
        let d2 = if d.len() > 0 {
            d.drop_first()
        } else {
            d
        };
        assert(forall|k: int| 0 <= k ==> gets(b2, k) == gets(b, k + 1));
        assert(forall|k: int| 0 <= k ==> gets(d2, k) == gets(d, k + 1));
        assert(forall|k: int| 0 <= k < cs2.len() ==> cs2[k] == a0 * gets(b2, k) + gets(d2, k)) by {
            assert(forall|k: int| 0 <= k < cs2.len() ==> cs2[k] == cs[k + 1]);
        }
        lemma_ev_combo(cs2, b2, d2, a0, x);
        assert(ev(b, x) == gets(b, 0) + x * ev(b2, x));
        assert(ev(d, x) == gets(d, 0) + x * ev(d2, x));
        assert(cs[0] + x * (a0 * ev(b2, x) + ev(d2, x)) == a0 * (gets(b, 0) + x * ev(b2, x)) + (
        gets(d, 0) + x * ev(d2, x))) by (nonlinear_arith)
            requires
                cs[0] == a0 * gets(b, 0) + gets(d, 0),
        ;
    }
}

/// The larger of two integers.
pub open spec fn imax(a: int, b: int) -> int {
    if a > b {
        a
    } else {
        b
    }
}

/// All elements of the two sequences share one field.
pub open spec fn elems_share(a: Seq<FieldElement>, b: Seq<FieldElement>) -> bool {
    forall|i: int, j: int|
        0 <= i < a.len() && 0 <= j < b.len() ==> (#[trigger] a[i]).field == (#[trigger] b[j]).field
}

/// The convolution at a negative index is zero.
pub(crate) proof fn lemma_conv_neg(a: Seq<int>, b: Seq<int>, k: int)
    requires
        k < 0,
    ensures
        conv_at(a, b, k) == 0,
    decreases a.len(),
{
    if a.len() > 0 {
        lemma_conv_neg(a.drop_first(), b, k - 1);
        assert(a[0] * 0 == 0);
    }
}

/// Appending a coefficient to the left factor extends the convolution by one
/// term.
pub(crate) proof fn lemma_conv_push(a: Seq<int>, c: int, b: Seq<int>, k: int)
    ensures
        conv_at(a.push(c), b, k) == conv_at(a, b, k) + c * gets(b, k - a.len()),
    decreases a.len(),
{
    if a.len() == 0 {
        assert(a.push(c).drop_first() =~= Seq::<int>::empty());
        assert(a.push(c)[0] == c);
        assert(conv_at(a.push(c).drop_first(), b, k - 1) == 0);
    } else {
        assert(a.push(c).drop_first() =~= a.drop_first().push(c));
        assert(a.push(c)[0] == a[0]);
        lemma_conv_push(a.drop_first(), c, b, k - 1);
    }
}

/// Evaluation distributes over the convolution: the product polynomial
/// evaluates to the product of the evaluations.
pub(crate) proof fn lemma_ev_conv(a: Seq<int>, b: Seq<int>, cs: Seq<int>, x: int)
    requires
        a.len() >= 1,
        b.len() >= 1,
        cs.len() == a.len() + b.len() - 1,
        forall|k: int| 0 <= k < cs.len() ==> cs[k] == conv_at(a, b, k),
    ensures
        ev(cs, x) == ev(a, x) * ev(b, x),
    decreases a.len(),
{
    if a.len() == 1 {
        let empty = Seq::<int>::empty();
        assert forall|k: int| 0 <= k < cs.len() implies cs[k] == a[0] * gets(b, k) + gets(
            empty,
            k,
        ) by {
            assert(cs[k] == conv_at(a, b, k));
            assert(conv_at(a.drop_first(), b, k - 1) == 0);
            assert(gets(empty, k) == 0);
        }
        lemma_ev_combo(cs, b, empty, a[0], x);
        assert(ev(a.drop_first(), x) == 0);
        assert(ev(a, x) == a[0] + x * 0);
        assert(x * 0 == 0);
    } else {
        let a2 = a.drop_first();
        let cs2 = Seq::new((a2.len() + b.len() - 1) as nat, |k: int| conv_at(a2, b, k));
        lemma_ev_conv(a2, b, cs2, x);
        lemma_conv_neg(a2, b, -1);
        assert(cs[0] == a[0] * gets(b, 0));
        let csd = cs.drop_first();
        assert(forall|k: int| 0 <= k < csd.len() ==> csd[k] == a[0] * gets(b.drop_first(), k)
            + gets(cs2, k)) by {
            assert(forall|k: int| 0 <= k < csd.len() ==> csd[k] == cs[k + 1]);
            assert(forall|k: int| 0 <= k < csd.len() ==> gets(b.drop_first(), k) == gets(b, k + 1));
            assert(forall|k: int| 0 <= k < cs2.len() ==> gets(cs2, k) == conv_at(a2, b, k));
        }
        lemma_ev_combo(csd, b.drop_first(), cs2, a[0], x);
        assert(ev(b, x) == b[0] + x * ev(b.drop_first(), x));
        assert(ev(cs, x) == cs[0] + x * ev(csd, x));
        assert(cs[0] + x * (a[0] * ev(b.drop_first(), x) + ev(a2, x) * ev(b, x)) == (a[0] + x * ev(
            a2,
            x,
        )) * ev(b, x)) by (nonlinear_arith)
            requires
                cs[0] == a[0] * gets(b, 0),
                ev(b, x) == gets(b, 0) + x * ev(b.drop_first(), x),
        ;
        assert(ev(a, x) == a[0] + x * ev(a2, x));
    }
}

/// A convolution against an empty right factor is zero.
pub(crate) proof fn lemma_conv_empty_right(a: Seq<int>, b: Seq<int>, k: int)
    requires
        b.len() == 0,
    ensures
        conv_at(a, b, k) == 0,
    decreases a.len(),
{
    if a.len() > 0 {
        lemma_conv_empty_right(a.drop_first(), b, k - 1);
        assert(a[0] * 0 == 0);
    }
}

/// Beyond the top coefficient of the product the convolution vanishes.
pub(crate) proof fn lemma_conv_support(a: Seq<int>, b: Seq<int>, k: int)
    requires
        k + 1 >= a.len() + b.len(),
    ensures
        conv_at(a, b, k) == 0,
    decreases a.len(),
{
    if a.len() > 0 {
        assert(gets(b, k) == 0);
        assert(a[0] * 0 == 0);
        lemma_conv_support(a.drop_first(), b, k - 1);
    }
}

/// A reduced coefficient sequence whose coefficients form the reduced
/// convolution of two others evaluates to the product of their evaluations,
/// modulo `p`.
pub(crate) proof fn lemma_poly_mul_ev(rv: Seq<int>, av: Seq<int>, bv: Seq<int>, p: int, x: int)
    requires
        p > 0,
        av.len() >= 1,
        bv.len() >= 1,
        rv.len() <= av.len() + bv.len() - 1,
        forall|k: int| 0 <= k ==> #[trigger] gets(rv, k) == conv_at(av, bv, k) % p,
    ensures
        ev(rv, x) % p == (ev(av, x) * ev(bv, x)) % p,
{
    let cs = Seq::new((av.len() + bv.len() - 1) as nat, |k: int| conv_at(av, bv, k));
    lemma_ev_conv(av, bv, cs, x);
    lemma_small_mod(0nat, p as nat);
    assert forall|k: int| #[trigger] gets(rv, k) % p == gets(cs, k) % p by {
        if 0 <= k < cs.len() {
            assert(gets(cs, k) == conv_at(av, bv, k));
            assert(gets(rv, k) == conv_at(av, bv, k) % p);
            lemma_mod_twice(conv_at(av, bv, k), p);
        } else if k >= cs.len() {
            assert(gets(cs, k) == 0);
            assert(gets(rv, k) == 0);
        } else {
            assert(gets(cs, k) == 0 && gets(rv, k) == 0);
        }
    }
    lemma_ev_congruent(rv, cs, p, x);
}

/// A reduced coefficient sequence that is position by position the reduced
/// combination `a + c * b` evaluates to the matching combination of the
/// evaluations, modulo `p`.
pub(crate) proof fn lemma_poly_linear_ev(
    rv: Seq<int>,
    av: Seq<int>,
    bv: Seq<int>,
    c: int,
    p: int,
    x: int,
)
    requires
        p > 0,
        forall|k: int| 0 <= k ==> #[trigger] gets(rv, k) == (gets(av, k) + c * gets(bv, k)) % p,
    ensures
        ev(rv, x) % p == (ev(av, x) + c * ev(bv, x)) % p,
{
    let n = imax(rv.len() as int, imax(av.len() as int, bv.len() as int));
    let cs = Seq::new(n as nat, |k: int| gets(av, k) + c * gets(bv, k));
    assert forall|k: int| 0 <= k < cs.len() implies cs[k] == c * gets(bv, k) + gets(av, k) by {}
    lemma_ev_combo(cs, bv, av, c, x);
    lemma_small_mod(0nat, p as nat);
    assert forall|k: int| #[trigger] gets(rv, k) % p == gets(cs, k) % p by {
        if 0 <= k < cs.len() {
            assert(gets(cs, k) == gets(av, k) + c * gets(bv, k));
            lemma_mod_twice(gets(av, k) + c * gets(bv, k), p);
        } else if k >= cs.len() {
            assert(gets(cs, k) == 0);
            assert(gets(rv, k) == 0);
            assert(gets(av, k) == 0 && gets(bv, k) == 0);
            assert(c * 0 == 0);
        } else {
            assert(gets(cs, k) == 0 && gets(rv, k) == 0);
        }
    }
    lemma_ev_congruent(rv, cs, p, x);
}

/// The top coefficient of a product is the product of the top coefficients.
pub(crate) proof fn lemma_conv_top(a: Seq<int>, b: Seq<int>, k: int)
    requires
        a.len() >= 1,
        b.len() >= 1,
        k == a.len() + b.len() - 2,
    ensures
        conv_at(a, b, k) == a.last() * b.last(),
    decreases a.len(),
{
    if a.len() == 1 {
        assert(gets(b, k) == b.last());
        assert(conv_at(a.drop_first(), b, k - 1) == 0);
    } else {
        assert(gets(b, k) == 0);
        assert(a[0] * 0 == 0);
        lemma_conv_top(a.drop_first(), b, k - 1);
        assert(a.drop_first().last() == a.last());
    }
}

/// Raising one zero coefficient of the left factor changes the convolution by
/// the matching multiple of the right factor.
pub(crate) proof fn lemma_conv_update(a: Seq<int>, idx: int, c: int, b: Seq<int>, k: int)
    requires
        0 <= idx < a.len(),
        a[idx] == 0,
    ensures
        conv_at(a.update(idx, c), b, k) == conv_at(a, b, k) + c * gets(b, k - idx),
    decreases a.len(),
{
    let u = a.update(idx, c);
    if idx == 0 {
        assert(u.drop_first() =~= a.drop_first());
        assert(0 * gets(b, k) == 0);
    } else {
        assert(u[0] == a[0]);
        assert(u.drop_first() =~= a.drop_first().update(idx - 1, c));
        lemma_conv_update(a.drop_first(), idx - 1, c, b, k - 1);
    }
}

/// Convolution against a monomial `c * x^dd` picks one shifted, scaled
/// coefficient of the other factor.
pub(crate) proof fn lemma_conv_monomial(a: Seq<int>, m: Seq<int>, dd: int, c: int, k: int)
    requires
        m.len() == dd + 1,
        dd >= 0,
        forall|j: int| 0 <= j < dd ==> m[j] == 0,
        m[dd] == c,
    ensures
        conv_at(a, m, k) == gets(a, k - dd) * c,
    decreases a.len(),
{
    if a.len() == 0 {
        assert(0 * c == 0);
    } else {
        lemma_conv_monomial(a.drop_first(), m, dd, c, k - 1);
        if k == dd {
            assert(gets(m, k) == c);
            assert(gets(a.drop_first(), k - 1 - dd) == 0);
            assert(0 * c == 0);
        } else {
            assert(gets(m, k) == 0);
            assert(a[0] * 0 == 0);
            if k - dd == 0 {
            } else {
                assert(gets(a.drop_first(), k - 1 - dd) == gets(a, k - dd));
            }
        }
    }
}

/// Like [`lemma_poly_mul_ev`], but also covering an empty factor, for which
/// the product is the zero polynomial.
pub(crate) proof fn lemma_mul_ev_cases(rv: Seq<int>, av: Seq<int>, bv: Seq<int>, p: int, x: int)
    requires
        p > 0,
        (av.len() == 0 || bv.len() == 0) ==> rv.len() == 0,
        av.len() > 0 && bv.len() > 0 ==> rv.len() <= av.len() + bv.len() - 1 && forall|k: int|
            0 <= k ==> #[trigger] gets(rv, k) == conv_at(av, bv, k) % p,
    ensures
        ev(rv, x) % p == (ev(av, x) * ev(bv, x)) % p,
{
    if av.len() == 0 || bv.len() == 0 {
        lemma_small_mod(0nat, p as nat);
        assert(ev(av, x) * ev(bv, x) == 0) by (nonlinear_arith)
            requires
                ev(av, x) == 0 || ev(bv, x) == 0,
        ;
    } else {
        lemma_poly_mul_ev(rv, av, bv, p, x);
    }
}

/// Copies a coefficient vector.
pub(crate) fn copy_elems(v: &Vec<FieldElement>) -> (r: Vec<FieldElement>)
    ensures
        r@ == v@,
{
    let mut out: Vec<FieldElement> = Vec::new();
    let mut i: usize = 0;
    while i < v.len()
        invariant
            i <= v@.len(),
            out@ == v@.take(i as int),
        decreases v@.len() - i,
    {
        out.push(v[i]);
        proof {
            assert(out@ =~= v@.take(i as int + 1));
        }
        i = i + 1;
    }
    proof {
        assert(out@ =~= v@);
    }
    out
}

impl Polynomial {
    /// Creates a polynomial from a coefficient vector, trimming trailing zero
    /// coefficients into the canonical form.
    pub fn new(coeffs: Vec<FieldElement>) -> (r: Polynomial)
        requires
            seq_uniform(coeffs@),
        ensures
            r.wf(),
            r.coeffs@.len() <= coeffs@.len(),
            r.coeffs@ == coeffs@.take(r.coeffs@.len() as int),
            forall|k: int| #[trigger] r.cval(k) == gets(poly_vals(coeffs@), k),
            forall|f: Field| #[trigger] seq_in(coeffs@, f) ==> seq_in(r.coeffs@, f),
    {
        let ghost orig = coeffs@;
        let mut c = coeffs;
        while c.len() > 0 && c[c.len() - 1].value == 0
            invariant
                c@.len() <= orig.len(),
                c@ == orig.take(c@.len() as int),
                seq_uniform(orig),
                forall|k: int|
                    c@.len() <= k < orig.len() ==> (#[trigger] orig[k]).value == 0,
            decreases c@.len(),
        {
            c.pop();
            proof {
                assert(c@ =~= orig.take(c@.len() as int));
            }
        }
        let r = Polynomial { coeffs: c };
        proof {
            assert forall|k: int| #[trigger] r.cval(k) == gets(poly_vals(orig), k) by {
                if 0 <= k < r.coeffs@.len() {
                    assert(r.coeffs@[k] == orig[k]);
                } else if r.coeffs@.len() <= k < orig.len() {
                    assert(orig[k].value == 0);
                }
            }
        }
        r
    }

    /// The degree: one less than the coefficient count, `-1` for the zero
    /// polynomial.
    pub fn degree(&self) -> (r: i128)
        ensures
            r == self.coeffs@.len() - 1,
    {
        self.coeffs.len() as i128 - 1
    }

    /// True iff this is the zero polynomial.
    pub fn is_zero(&self) -> (r: bool)
        ensures
            r == (self.coeffs@.len() == 0),
    {
        self.coeffs.len() == 0
    }

    /// The coefficient of the highest power, or nothing for the zero
    /// polynomial.
    pub fn leading_coefficient(&self) -> (r: Option<FieldElement>)
        ensures
            self.coeffs@.len() == 0 ==> r is None,
            self.coeffs@.len() > 0 ==> r == Some(self.coeffs@.last()),
    {
        if self.coeffs.len() == 0 {
            None
        } else {
            Some(self.coeffs[self.coeffs.len() - 1])
        }
    }

    /// The first coefficient, which carries the field of the polynomial.
    pub fn field(&self) -> (r: FieldElement)
        requires
            self.coeffs@.len() > 0,
        ensures
            r == self.coeffs@[0],
    {
        self.coeffs[0]
    }

    /// The additive inverse: every coefficient negated.
    pub fn neg(&self) -> (r: Polynomial)
        requires
            self.wf(),
        ensures
            r.wf(),
            r.coeffs@.len() == self.coeffs@.len(),
            forall|f: Field|
                #[trigger] self.in_field(f) ==> r.in_field(f) && forall|k: int|
                    0 <= k ==> #[trigger] r.cval(k) == fneg(self.cval(k), f.modulus() as int),
    {
        let mut out: Vec<FieldElement> = Vec::new();
        let mut i: usize = 0;
        while i < self.coeffs.len()
            invariant
                self.wf(),
                i <= self.coeffs@.len(),
                out@.len() == i,
                forall|j: int|
                    0 <= j < i ==> (#[trigger] out@[j]).field == self.coeffs@[j].field
                        && out@[j].wf()
                        && out@[j].value as int == fneg(
                        self.coeffs@[j].value as int,
                        self.coeffs@[j].field.modulus() as int,
                    ),
                forall|j: int|
                    0 <= j < i ==> (((#[trigger] out@[j]).value == 0) <==> (self.coeffs@[j].value
                        == 0)),
            decreases self.coeffs@.len() - i,
        {
            let e = self.coeffs[i];
            let n = e.neg();
            out.push(n);
            i = i + 1;
        }
        let r = Polynomial { coeffs: out };
        proof {
            assert(seq_uniform(r.coeffs@));
            assert(r.canonical());
            assert forall|f: Field| #[trigger] self.in_field(f) implies r.in_field(f)
                && forall|k: int|
                0 <= k ==> #[trigger] r.cval(k) == fneg(self.cval(k), f.modulus() as int) by {
                let p = f.modulus() as int;
                assert forall|k: int| 0 <= k implies #[trigger] r.cval(k) == fneg(
                    self.cval(k),
                    p,
                ) by {
                    if k >= self.coeffs@.len() {
                        lemma_mod_self_0(p);
                    }
                }
            }
        }
        r
    }

    /// Sum: coefficient-wise addition in the common field.
    pub fn add(&self, rhs: &Polynomial) -> (r: Polynomial)
        requires
            self.wf(),
            rhs.wf(),
            self.shares_field(*rhs),
        ensures
            r.wf(),
            r.coeffs@.len() <= imax(self.coeffs@.len() as int, rhs.coeffs@.len() as int),
            forall|f: Field|
                (#[trigger] self.in_field(f) && #[trigger] rhs.in_field(f)) ==> r.in_field(f)
                    && forall|k: int|
                    0 <= k ==> #[trigger] r.cval(k) == fadd(
                        self.cval(k),
                        rhs.cval(k),
                        f.modulus() as int,
                    ),
    {
        if self.coeffs.len() == 0 {
            let r = Polynomial { coeffs: copy_elems(&rhs.coeffs) };
            proof {
                assert forall|f: Field|
                    #[trigger] self.in_field(f) && #[trigger] rhs.in_field(f) implies r.in_field(f)
                    && forall|k: int|
                    0 <= k ==> #[trigger] r.cval(k) == fadd(
                        self.cval(k),
                        rhs.cval(k),
                        f.modulus() as int,
                    ) by {
                    assert forall|k: int| 0 <= k implies #[trigger] r.cval(k) == fadd(
                        self.cval(k),
                        rhs.cval(k),
                        f.modulus() as int,
                    ) by {
                        if k < rhs.coeffs@.len() {
                            lemma_small_mod(rhs.coeffs@[k].value as nat, f.modulus() as nat);
                        } else {
                            lemma_small_mod(0nat, f.modulus() as nat);
                        }
                    }
                }
            }
            return r;
        }
        if rhs.coeffs.len() == 0 {
            let r = Polynomial { coeffs: copy_elems(&self.coeffs) };
            proof {
                assert forall|f: Field|
                    #[trigger] self.in_field(f) && #[trigger] rhs.in_field(f) implies r.in_field(f)
                    && forall|k: int|
                    0 <= k ==> #[trigger] r.cval(k) == fadd(
                        self.cval(k),
                        rhs.cval(k),
                        f.modulus() as int,
                    ) by {
                    assert forall|k: int| 0 <= k implies #[trigger] r.cval(k) == fadd(
                        self.cval(k),
                        rhs.cval(k),
                        f.modulus() as int,
                    ) by {
                        if k < self.coeffs@.len() {
                            lemma_small_mod(self.coeffs@[k].value as nat, f.modulus() as nat);
                        } else {
                            lemma_small_mod(0nat, f.modulus() as nat);
                        }
                    }
                }
            }
            return r;
        }
        let alen = self.coeffs.len();
        let blen = rhs.coeffs.len();
        let n = if alen > blen {
            alen
        } else {
            blen
        };
        let ghost f0 = self.coeffs@[0].field;
        let mut out: Vec<FieldElement> = Vec::new();
        let mut i: usize = 0;
        while i < n
            invariant
                self.wf(),
                rhs.wf(),
                self.shares_field(*rhs),
                alen == self.coeffs@.len(),
                blen == rhs.coeffs@.len(),
                alen > 0,
                blen > 0,
                n as int == imax(alen as int, blen as int),
                i <= n,
                out@.len() == i,
                f0 == self.coeffs@[0].field,
                forall|j: int|
                    0 <= j < i ==> (#[trigger] out@[j]).field == f0 && out@[j].wf()
                        && out@[j].value as int == fadd(
                        self.cval(j),
                        rhs.cval(j),
                        f0.modulus() as int,
                    ),
            decreases n - i,
        {
            let v: FieldElement;
            if i < alen && i < blen {
                v = self.coeffs[i].add(rhs.coeffs[i]);
            } else if i < alen {
                v = self.coeffs[i];
                proof {
                    lemma_small_mod(v.value as nat, f0.modulus() as nat);
                }
            } else {
                v = rhs.coeffs[i];
                proof {
                    lemma_small_mod(v.value as nat, f0.modulus() as nat);
                }
            }
            out.push(v);
            i = i + 1;
        }
        let r = Polynomial::new(out);
        proof {
            assert forall|f: Field|
                #[trigger] self.in_field(f) && #[trigger] rhs.in_field(f) implies r.in_field(f)
                && forall|k: int|
                0 <= k ==> #[trigger] r.cval(k) == fadd(
                    self.cval(k),
                    rhs.cval(k),
                    f.modulus() as int,
                ) by {
                assert(f == f0);
                assert(seq_in(out@, f));
                assert forall|k: int| 0 <= k implies #[trigger] r.cval(k) == fadd(
                    self.cval(k),
                    rhs.cval(k),
                    f.modulus() as int,
                ) by {
                    if k < n {
                        assert(gets(poly_vals(out@), k) == out@[k].value as int);
                    } else {
                        lemma_small_mod(0nat, f.modulus() as nat);
                    }
                }
            }
        }
        r
    }

    /// Difference: coefficient-wise subtraction in the common field.
    pub fn sub(&self, rhs: &Polynomial) -> (r: Polynomial)
        requires
            self.wf(),
            rhs.wf(),
            self.shares_field(*rhs),
        ensures
            r.wf(),
            r.coeffs@.len() <= imax(self.coeffs@.len() as int, rhs.coeffs@.len() as int),
            forall|f: Field|
                (#[trigger] self.in_field(f) && #[trigger] rhs.in_field(f)) ==> r.in_field(f)
                    && forall|k: int|
                    0 <= k ==> #[trigger] r.cval(k) == fsub(
                        self.cval(k),
                        rhs.cval(k),
                        f.modulus() as int,
                    ),
    {
        let alen = self.coeffs.len();
        let blen = rhs.coeffs.len();
        let n = if alen > blen {
            alen
        } else {
            blen
        };
        let mut out: Vec<FieldElement> = Vec::new();
        let mut i: usize = 0;
        while i < n
            invariant
                self.wf(),
                rhs.wf(),
                self.shares_field(*rhs),
                alen == self.coeffs@.len(),
                blen == rhs.coeffs@.len(),
                n as int == imax(alen as int, blen as int),
                i <= n,
                out@.len() == i,
                forall|j: int|
                    0 <= j < i ==> (#[trigger] out@[j]).field == (if j
                        < alen { self.coeffs@[j].field } else { rhs.coeffs@[j].field })
                        && out@[j].wf()
                        && out@[j].value as int == fsub(
                        self.cval(j),
                        rhs.cval(j),
                        out@[j].field.modulus() as int,
                    ),
            decreases n - i,
        {
            let v: FieldElement;
            if i < alen && i < blen {
                v = self.coeffs[i].sub(rhs.coeffs[i]);
            } else if i < alen {
                v = self.coeffs[i];
                proof {
                    lemma_small_mod(v.value as nat, v.field.modulus() as nat);
                }
            } else {
                let e = rhs.coeffs[i];
                v = e.neg();
                proof {
                    let p = e.field.modulus() as int;
                    lemma_mod_add_multiples_vanish(0 - e.value as int, p);
                    assert(fneg(e.value as int, p) == fsub(0, e.value as int, p));
                }
            }
            out.push(v);
            i = i + 1;
        }
        let r = Polynomial::new(out);
        proof {
            assert(seq_uniform(out@)) by {
                assert forall|j: int| 0 <= j < out@.len() implies (#[trigger] out@[j]).wf()
                    && out@[j].field == out@[0].field by {}
            }
            assert forall|f: Field|
                #[trigger] self.in_field(f) && #[trigger] rhs.in_field(f) implies r.in_field(f)
                && forall|k: int|
                0 <= k ==> #[trigger] r.cval(k) == fsub(
                    self.cval(k),
                    rhs.cval(k),
                    f.modulus() as int,
                ) by {
                assert(seq_in(out@, f));
                assert forall|k: int| 0 <= k implies #[trigger] r.cval(k) == fsub(
                    self.cval(k),
                    rhs.cval(k),
                    f.modulus() as int,
                ) by {
                    if 0 <= k < n {
                        assert(gets(poly_vals(out@), k) == out@[k].value as int);
                        assert(out@[k].field == f);
                    } else {
                        lemma_small_mod(0nat, f.modulus() as nat);
                    }
                }
            }
        }
        r
    }

    /// Product, by convolution of the coefficient vectors.
    pub fn mul(&self, rhs: &Polynomial) -> (r: Polynomial)
        requires
            self.wf(),
            rhs.wf(),
            self.shares_field(*rhs),
            self.coeffs@.len() + rhs.coeffs@.len() <= usize::MAX,
        ensures
            r.wf(),
            (self.coeffs@.len() == 0 || rhs.coeffs@.len() == 0) ==> r.coeffs@.len() == 0,
            self.coeffs@.len() > 0 && rhs.coeffs@.len() > 0 ==> r.coeffs@.len()
                <= self.coeffs@.len() + rhs.coeffs@.len() - 1,
            forall|f: Field|
                (#[trigger] self.in_field(f) && #[trigger] rhs.in_field(f)) ==> r.in_field(f)
                    && forall|k: int|
                    0 <= k ==> #[trigger] r.cval(k) == conv_at(self.vals(), rhs.vals(), k)
                        % f.modulus() as int,
    {
        let ghost avals = self.vals();
        let ghost bvals = rhs.vals();
        if self.coeffs.len() == 0 || rhs.coeffs.len() == 0 {
            let r = Polynomial { coeffs: Vec::new() };
            proof {
                assert forall|f: Field|
                    #[trigger] self.in_field(f) && #[trigger] rhs.in_field(f) implies r.in_field(f)
                    && forall|k: int|
                    0 <= k ==> #[trigger] r.cval(k) == conv_at(avals, bvals, k)
                        % f.modulus() as int by {
                    assert forall|k: int| 0 <= k implies #[trigger] r.cval(k) == conv_at(
                        avals,
                        bvals,
                        k,
                    ) % f.modulus() as int by {
                        if bvals.len() == 0 {
                            lemma_conv_empty_right(avals, bvals, k);
                        }
                        lemma_small_mod(0nat, f.modulus() as nat);
                    }
                }
            }
            return r;
        }
        let alen = self.coeffs.len();
        let blen = rhs.coeffs.len();
        let n = alen + blen - 1;
        let ghost f0 = self.coeffs@[0].field;
        let ghost pi = f0.modulus() as int;
        let zero = FieldElement { value: 0, field: self.coeffs[0].field };
        let mut out: Vec<FieldElement> = Vec::new();
        let mut t: usize = 0;
        while t < n
            invariant
                t <= n,
                out@.len() == t,
                forall|j: int| 0 <= j < t ==> out@[j] == zero,
                zero.value == 0,
                zero.field == f0,
            decreases n - t,
        {
            out.push(zero);
            t = t + 1;
        }
        proof {
            assert(avals.take(0) =~= Seq::<int>::empty());
            lemma_small_mod(0nat, f0.modulus() as nat);
        }
        let mut i: usize = 0;
        while i < alen
            invariant
                self.wf(),
                rhs.wf(),
                self.shares_field(*rhs),
                alen == self.coeffs@.len(),
                blen == rhs.coeffs@.len(),
                alen > 0,
                blen > 0,
                n == alen + blen - 1,
                avals == self.vals(),
                bvals == rhs.vals(),
                i <= alen,
                out@.len() == n,
                f0 == self.coeffs@[0].field,
                pi == f0.modulus() as int,
                pi > 0,
                forall|j: int|
                    0 <= j < n ==> (#[trigger] out@[j]).field == f0 && out@[j].value
                        < f0.modulus(),
                forall|k: int|
                    0 <= k < n ==> (#[trigger] out@[k]).value as int == conv_at(
                        avals.take(i as int),
                        bvals,
                        k,
                    ) % pi,
            decreases alen - i,
        {
            let ghost out_row = out@;
            let ai = self.coeffs[i];
            if ai.value != 0 {
                let mut j: usize = 0;
                while j < blen
                    invariant
                        self.wf(),
                        rhs.wf(),
                        self.shares_field(*rhs),
                        alen == self.coeffs@.len(),
                        blen == rhs.coeffs@.len(),
                        alen > 0,
                        blen > 0,
                        n == alen + blen - 1,
                        avals == self.vals(),
                        bvals == rhs.vals(),
                        i < alen,
                        j <= blen,
                        out@.len() == n,
                        f0 == self.coeffs@[0].field,
                        pi == f0.modulus() as int,
                        pi > 0,
                        ai == self.coeffs@[i as int],
                        forall|q: int|
                            0 <= q < n ==> (#[trigger] out@[q]).field == f0 && out@[q].value
                                < f0.modulus(),
                        forall|k: int|
                            0 <= k < n ==> (#[trigger] out@[k]).value as int == (conv_at(
                                avals.take(i as int),
                                bvals,
                                k,
                            ) + if i as int <= k < i as int + j as int {
                                avals[i as int] * gets(bvals, k - i as int)
                            } else {
                                0
                            }) % pi,
                    decreases blen - j,
                {
                    let prod = ai.mul(rhs.coeffs[j]);
                    let cur = out[i + j];
                    let s = cur.add(prod);
                    let ghost k0 = i as int + j as int;
                    let ghost before = out@;
                    out.set(i + j, s);
                    proof {
                        let c = conv_at(avals.take(i as int), bvals, k0);
                        assert(avals[i as int] == ai.value as int);
                        assert(gets(bvals, k0 - i as int) == rhs.coeffs@[j as int].value as int);
                        lemma_mul_mod_noop_right(
                            ai.value as int,
                            rhs.coeffs@[j as int].value as int,
                            pi,
                        );
                        lemma_add_mod_noop(c, avals[i as int] * gets(bvals, k0 - i as int), pi);
                        lemma_mod_twice(c, pi);
                        assert(s.value as int == (c + avals[i as int] * gets(bvals, k0 - i as int))
                            % pi);
                        assert forall|k: int| 0 <= k < n implies (#[trigger] out@[k]).value as int
                            == (conv_at(avals.take(i as int), bvals, k) + if i as int <= k
                            < i as int + j as int + 1 {
                            avals[i as int] * gets(bvals, k - i as int)
                        } else {
                            0
                        }) % pi by {
                            if k != k0 {
                                assert(out@[k] == before[k]);
                            }
                        }
                    }
                    j = j + 1;
                }
                proof {
                    assert(avals.take(i as int + 1) =~= avals.take(i as int).push(
                        avals[i as int],
                    ));
                    assert forall|k: int| 0 <= k < n implies (#[trigger] out@[k]).value as int
                        == conv_at(avals.take(i as int + 1), bvals, k) % pi by {
                        lemma_conv_push(avals.take(i as int), avals[i as int], bvals, k);
                        if i as int <= k < i as int + blen as int {
                        } else {
                            assert(gets(bvals, k - i as int) == 0);
                            assert(avals[i as int] * 0 == 0);
                        }
                    }
                }
            } else {
                proof {
                    assert(avals.take(i as int + 1) =~= avals.take(i as int).push(
                        avals[i as int],
                    ));
                    assert forall|k: int| 0 <= k < n implies (#[trigger] out@[k]).value as int
                        == conv_at(avals.take(i as int + 1), bvals, k) % pi by {
                        lemma_conv_push(avals.take(i as int), avals[i as int], bvals, k);
                        assert(avals[i as int] == 0);
                        assert(0 * gets(bvals, k - i as int) == 0);
                    }
                }
            }
            i = i + 1;
        }
        proof {
            assert(avals.take(alen as int) =~= avals);
        }
        let r = Polynomial::new(out);
        proof {
            assert forall|f: Field|
                #[trigger] self.in_field(f) && #[trigger] rhs.in_field(f) implies r.in_field(f)
                && forall|k: int|
                0 <= k ==> #[trigger] r.cval(k) == conv_at(avals, bvals, k)
                    % f.modulus() as int by {
                assert(f == f0);
                assert(seq_in(out@, f));
                assert forall|k: int| 0 <= k implies #[trigger] r.cval(k) == conv_at(
                    avals,
                    bvals,
                    k,
                ) % f.modulus() as int by {
                    if k < n {
                        assert(gets(poly_vals(out@), k) == out@[k].value as int);
                    } else {
                        lemma_conv_support(avals, bvals, k);
                        lemma_small_mod(0nat, f.modulus() as nat);
                    }
                }
            }
        }
        r
    }

    /// The value of the polynomial at a point, by accumulating powers of the
    /// point.
    pub fn evaluate(&self, point: FieldElement) -> (r: FieldElement)
        requires
            self.wf(),
            point.wf(),
            forall|i: int|
                0 <= i < self.coeffs@.len() ==> (#[trigger] self.coeffs@[i]).field == point.field,
        ensures
            r.wf(),
            r.field == point.field,
            r.value as int == ev(self.vals(), point.value as int)
                % point.field.modulus() as int,
    {
        let mut x_i = point.field.one();
        let mut value = point.field.zero();
        let ghost pi = point.field.modulus() as int;
        let ghost xv = point.value as int;
        let mut i: usize = 0;
        proof {
            assert(self.vals().take(0) =~= Seq::<int>::empty());
            lemma_small_mod(0nat, point.field.modulus() as nat);
            lemma_pow0(xv);
        }
        while i < self.coeffs.len()
            invariant
                self.wf(),
                point.wf(),
                forall|j: int|
                    0 <= j < self.coeffs@.len() ==> (#[trigger] self.coeffs@[j]).field
                        == point.field,
                i <= self.coeffs@.len(),
                pi == point.field.modulus() as int,
                pi > 0,
                xv == point.value as int,
                x_i.wf(),
                x_i.field == point.field,
                x_i.value as int == pow(xv, i as nat) % pi,
                value.wf(),
                value.field == point.field,
                value.value as int == ev(self.vals().take(i as int), xv) % pi,
            decreases self.coeffs@.len() - i,
        {
            let c = self.coeffs[i];
            let ghost e_old = ev(self.vals().take(i as int), xv);
            let ghost ci = c.value as int;
            value = value.add(c.mul(x_i));
            proof {
                assert(self.vals()[i as int] == ci);
                assert(self.vals().take(i as int + 1) =~= self.vals().take(i as int).push(
                    self.vals()[i as int],
                ));
                lemma_ev_push(self.vals().take(i as int), ci, xv);
                lemma_mul_mod_noop_right(ci, pow(xv, i as nat), pi);
                lemma_add_mod_noop(e_old, ci * pow(xv, i as nat), pi);
                lemma_mod_twice(e_old, pi);
                assert(value.value as int == (e_old + ci * pow(xv, i as nat)) % pi);
            }
            x_i = x_i.mul(point);
            proof {
                lemma_mul_mod_noop_left(pow(xv, i as nat), xv, pi);
                lemma_pow1(xv);
                lemma_pow_adds(xv, i as nat, 1);
            }
            i = i + 1;
        }
        proof {
            assert(self.vals().take(self.coeffs@.len() as int) =~= self.vals());
        }
        value
    }

    /// The values of the polynomial at every point of a domain, in order.
    pub fn evaluate_domain(&self, domain: Vec<FieldElement>) -> (r: Vec<FieldElement>)
        requires
            self.wf(),
            forall|j: int| 0 <= j < domain@.len() ==> (#[trigger] domain@[j]).wf(),
            elems_share(self.coeffs@, domain@),
        ensures
            r@.len() == domain@.len(),
            forall|j: int|
                0 <= j < domain@.len() ==> (#[trigger] r@[j]).wf() && r@[j].field
                    == domain@[j].field && r@[j].value as int == ev(
                    self.vals(),
                    domain@[j].value as int,
                ) % domain@[j].field.modulus() as int,
    {
        let mut out: Vec<FieldElement> = Vec::new();
        let mut j: usize = 0;
        while j < domain.len()
            invariant
                self.wf(),
                forall|q: int| 0 <= q < domain@.len() ==> (#[trigger] domain@[q]).wf(),
                elems_share(self.coeffs@, domain@),
                j <= domain@.len(),
                out@.len() == j,
                forall|q: int|
                    0 <= q < j ==> (#[trigger] out@[q]).wf() && out@[q].field == domain@[q].field
                        && out@[q].value as int == ev(self.vals(), domain@[q].value as int)
                        % domain@[q].field.modulus() as int,
            decreases domain@.len() - j,
        {
            let e = self.evaluate(domain[j]);
            out.push(e);
            j = j + 1;
        }
        out
    }

    /// Substitutes `factor * x` for `x`: multiplies coefficient `i` by the
    /// `i`-th power of the factor.
    pub fn scale(&self, factor: FieldElement) -> (r: Polynomial)
        requires
            self.wf(),
            factor.wf(),
            forall|i: int|
                0 <= i < self.coeffs@.len() ==> (#[trigger] self.coeffs@[i]).field == factor.field,
        ensures
            r.wf(),
            r.coeffs@.len() <= self.coeffs@.len(),
            forall|f: Field| #[trigger] self.in_field(f) ==> r.in_field(f),
            forall|k: int|
                0 <= k ==> #[trigger] r.cval(k) == (self.cval(k) * pow(factor.value as int, k as nat))
                    % factor.field.modulus() as int,
    {
        let ghost pi = factor.field.modulus() as int;
        let ghost fv = factor.value as int;
        let mut out: Vec<FieldElement> = Vec::new();
        let mut i: usize = 0;
        while i < self.coeffs.len()
            invariant
                self.wf(),
                factor.wf(),
                forall|j: int|
                    0 <= j < self.coeffs@.len() ==> (#[trigger] self.coeffs@[j]).field
                        == factor.field,
                i <= self.coeffs@.len(),
                out@.len() == i,
                pi == factor.field.modulus() as int,
                pi > 0,
                fv == factor.value as int,
                forall|j: int|
                    0 <= j < i ==> (#[trigger] out@[j]).wf() && out@[j].field == factor.field
                        && out@[j].value as int == (self.cval(j) * pow(fv, j as nat)) % pi,
            decreases self.coeffs@.len() - i,
        {
            let c = self.coeffs[i];
            let pw = factor.pow(i as u128);
            let e = c.mul(pw);
            proof {
                lemma_mul_mod_noop_right(c.value as int, pow(fv, i as nat), pi);
                assert((i as u128) as nat == i as nat);
            }
            out.push(e);
            i = i + 1;
        }
        let r = Polynomial::new(out);
        proof {
            assert(seq_uniform(out@));
            assert forall|k: int| 0 <= k implies #[trigger] r.cval(k) == (self.cval(k) * pow(
                fv,
                k as nat,
            )) % pi by {
                if k < self.coeffs@.len() {
                    assert(gets(poly_vals(out@), k) == out@[k].value as int);
                } else {
                    assert(self.cval(k) == 0);
                    assert(0 * pow(fv, k as nat) == 0);
                    lemma_small_mod(0nat, factor.field.modulus() as nat);
                }
            }
            assert forall|f: Field| #[trigger] self.in_field(f) implies r.in_field(f) by {
                if self.coeffs@.len() > 0 {
                    assert(f == factor.field);
                    assert(seq_in(out@, f));
                } else {
                    assert(out@.len() == 0);
                    assert(seq_in(out@, f));
                }
            }
        }
        r
    }

    /// The polynomial raised to a power, by squaring. The zero polynomial
    /// gives the zero polynomial, also for exponent zero; any other
    /// polynomial to the power zero gives the constant one.
    ///
    /// The contract pins the result by its values: at every point it equals
    /// the matching power of this polynomial's value there.
    pub fn pow(&self, exponent: u128) -> (r: Polynomial)
        requires
            self.wf(),
            self.coeffs@.len() == 0 || exponent * (self.coeffs@.len() - 1) + 2 <= usize::MAX,
        ensures
            r.wf(),
            self.coeffs@.len() == 0 ==> r.coeffs@.len() == 0,
            self.coeffs@.len() > 0 ==> r.coeffs@.len() <= 1 + exponent * (self.coeffs@.len()
                - 1),
            (self.coeffs@.len() > 0 && gcd(
                self.coeffs@.last().value as nat,
                self.coeffs@.last().field.modulus() as nat,
            ) == 1) ==> r.coeffs@.len() == 1 + exponent * (self.coeffs@.len() - 1)
                && r.coeffs@.last().value as int == fpow(
                self.coeffs@.last().value as int,
                exponent as nat,
                self.coeffs@.last().field.modulus() as int,
            ),
            forall|f: Field|
                #[trigger] self.in_field(f) ==> r.in_field(f) && (self.coeffs@.len() > 0
                    ==> forall|x: int|
                    (#[trigger] ev(r.vals(), x)) % f.modulus() as int == pow(
                        ev(self.vals(), x),
                        exponent as nat,
                    ) % f.modulus() as int),
    {
        if self.coeffs.len() == 0 {
            return Polynomial { coeffs: Vec::new() };
        }
        let one_el = self.coeffs[0].field.one();
        let mut ov: Vec<FieldElement> = Vec::new();
        ov.push(one_el);
        proof {
            assert(seq_uniform(ov@));
        }
        let mut acc = Polynomial::new(ov);
        let mut base = Polynomial { coeffs: copy_elems(&self.coeffs) };
        let mut e: u128 = exponent;
        let ghost f0 = self.coeffs@[0].field;
        let ghost pi = f0.modulus() as int;
        let ghost sv = self.vals();
        let ghost mut pe: nat = 0;
        let ghost mut be: nat = 1;
        let ghost d0 = (self.coeffs@.len() - 1) as nat;
        // Test whether the leading coefficient is a unit; if so, keep an
        // inverse of it, so the loop can show that no leading term of a
        // product ever vanishes and the degrees stay exact.
        let lc = self.coeffs[self.coeffs.len() - 1];
        let mv = lc.field.modulus_value();
        let g = gcd_exec(lc.value, mv);
        let ghost unit = (g == 1);
        let ghost lcv = lc.value as int;
        let ghost mut wa: int = 1;
        let ghost mut wb: int = 1;
        if g == 1 {
            let linv = lc.inv();
            proof {
                wb = linv.value as int;
                lemma_mul_is_commutative(linv.value as int, lcv);
                assert((lcv * wb) % pi == 1);
            }
        }
        proof {
            assert(base.vals() =~= sv);
            assert(acc.coeffs@.len() <= 1);
            assert(1 * d0 == d0);
            if unit {
                assert(pi >= 2);
                lemma_small_mod(1nat, f0.modulus() as nat);
                // The initial accumulator is exactly the constant one.
                assert(acc.cval(0) == 1);
                assert(acc.coeffs@.len() == 1) by {
                    if acc.coeffs@.len() == 0 {
                        assert(acc.cval(0) == 0);
                    }
                }
                assert(acc.coeffs@.last().value as int == 1);
                lemma_pow0(lcv);
                assert(fpow(lcv, 0, pi) == 1);
                assert(1int * 1 == 1);
                assert((fpow(lcv, 0, pi) * wa) % pi == 1);
                // The base starts as this polynomial itself.
                lemma_pow1(lcv);
                lemma_small_mod(lc.value as nat, f0.modulus() as nat);
                assert(base.coeffs@.last().value as int == lcv);
                assert(fpow(lcv, 1, pi) == lcv);
                assert((fpow(lcv, 1, pi) * wb) % pi == 1);
                assert(base.coeffs@.len() == 1 + 1 * d0);
            }
            assert forall|x: int| (#[trigger] ev(acc.vals(), x) * pow(ev(base.vals(), x), e as nat))
                % pi == pow(ev(sv, x), exponent as nat) % pi by {
                // acc is the constant one (or the zero polynomial when the
                // modulus is one, where everything is congruent).
                let av = acc.vals();
                if av.len() == 0 {
                    assert(acc.cval(0) == 0);
                    assert(gets(poly_vals(ov@), 0) == 1int % pi);
                    assert(ev(av, x) == 0);
                    assert(0 * pow(ev(base.vals(), x), e as nat) == 0) by (nonlinear_arith);
                    lemma_small_mod(0nat, f0.modulus() as nat);
                    // 1 % pi == 0 here, so pi == 1 and both sides vanish.
                    assert(pi == 1) by {
                        if pi > 1 {
                            lemma_small_mod(1nat, f0.modulus() as nat);
                        }
                    }
                    lemma_mod_self_0(1int);
                    lemma_mod_breakdown_one(pow(ev(sv, x), exponent as nat));
                } else {
                    assert(av[0] == acc.coeffs@[0].value as int);
                    assert(acc.cval(0) == gets(poly_vals(ov@), 0));
                    assert(av.len() == 1);
                    assert(ev(av.drop_first(), x) == 0);
                    assert(x * 0 == 0);
                    assert(ev(av, x) == 1int % pi);
                    lemma_mul_mod_noop_left(1int, pow(ev(base.vals(), x), e as nat), pi);
                    assert(1int * pow(ev(base.vals(), x), e as nat) == pow(
                        ev(base.vals(), x),
                        e as nat,
                    ));
                }
            }
        }
        while e > 0
            invariant
                acc.wf(),
                base.wf(),
                acc.in_field(f0),
                base.in_field(f0),
                pi == f0.modulus() as int,
                pi > 0,
                sv == self.vals(),
                self.coeffs@.len() == d0 + 1,
                exponent * d0 + 2 <= usize::MAX,
                pe + be * (e as nat) == exponent as nat,
                be >= 1,
                acc.coeffs@.len() <= 1 + pe * d0,
                base.coeffs@.len() <= 1 + be * d0,
                lcv == self.coeffs@.last().value as int,
                unit == (gcd(self.coeffs@.last().value as nat, f0.modulus() as nat) == 1),
                unit ==> acc.coeffs@.len() == 1 + pe * d0 && acc.coeffs@.last().value as int
                    == fpow(lcv, pe, pi) && (fpow(lcv, pe, pi) * wa) % pi == 1,
                unit ==> base.coeffs@.len() == 1 + be * d0 && base.coeffs@.last().value as int
                    == fpow(lcv, be, pi) && (fpow(lcv, be, pi) * wb) % pi == 1,
                forall|x: int|
                    (#[trigger] ev(acc.vals(), x) * pow(ev(base.vals(), x), e as nat)) % pi == pow(
                        ev(sv, x),
                        exponent as nat,
                    ) % pi,
            decreases e,
        {
            let ghost acc0 = acc;
            let ghost base0 = base;
            let ghost e0 = e as nat;
            let ghost h = (e / 2) as nat;
            let ghost pe0 = pe;
            let ghost be0 = be;
            proof {
                // The length bounds needed by the multiplications below: the
                // exponents accounted to the accumulator and the base stay
                // within the overall budget, so all intermediate lengths fit.
                assert(pe <= exponent as nat && be * e0 <= exponent as nat);
                assert(be <= be * e0) by (nonlinear_arith)
                    requires
                        e0 >= 1,
                        be >= 1,
                ;
                assert(pe + be <= exponent as nat) by (nonlinear_arith)
                    requires
                        pe + be * e0 == exponent as nat,
                        be >= 1,
                        e0 >= 1,
                ;
                assert((pe + be) * d0 <= exponent * d0) by (nonlinear_arith)
                    requires
                        pe + be <= exponent as nat,
                        d0 >= 0,
                ;
                assert(2 * be <= 2 * (be * e0)) by (nonlinear_arith)
                    requires
                        e0 >= 1,
                        be >= 1,
                ;
                assert(pe * d0 <= exponent * d0 && be * d0 <= exponent * d0) by (nonlinear_arith)
                    requires
                        pe <= exponent as nat,
                        be <= exponent as nat,
                        d0 >= 0,
                ;
                lemma_fundamental_div_mod(e0 as int, 2);
                // When another squaring is coming, twice the base budget
                // still fits: the remaining exponent is then at least two.
                if e0 >= 2 {
                    assert((2 * be) * d0 <= exponent * d0) by (nonlinear_arith)
                        requires
                            be * e0 <= exponent as nat,
                            e0 >= 2,
                            be >= 1,
                            d0 >= 0,
                    ;
                }
            }
            if e % 2 == 1 {
                proof {
                    assert(elems_share(acc.coeffs@, base.coeffs@));
                    assert((pe + be) * d0 == pe * d0 + be * d0) by (nonlinear_arith);
                }
                acc = acc.mul(&base);
                proof {
                    assert forall|k: int| 0 <= k implies #[trigger] gets(acc.vals(), k) == conv_at(
                        acc0.vals(),
                        base0.vals(),
                        k,
                    ) % pi by {
                        assert(acc.cval(k) == conv_at(acc0.vals(), base0.vals(), k) % pi);
                    }
                    assert forall|x: int| (#[trigger] ev(acc.vals(), x)) % pi == (ev(
                        acc0.vals(),
                        x,
                    ) * ev(base0.vals(), x)) % pi by {
                        lemma_mul_ev_cases(acc.vals(), acc0.vals(), base0.vals(), pi, x);
                    }
                    pe = pe + be;
                    assert((pe0 + be0) * d0 == pe0 * d0 + be0 * d0) by (nonlinear_arith);
                    assert(acc.coeffs@.len() <= 1 + pe * d0);
                    if unit {
                        // The top coefficient of the product is the product
                        // of the tops, a unit again, so the length is exact.
                        let alen = acc0.coeffs@.len() as int;
                        let blen = base0.coeffs@.len() as int;
                        let tt = alen + blen - 2;
                        let av2 = acc0.vals();
                        let bv2 = base0.vals();
                        assert(av2.last() == acc0.coeffs@.last().value as int);
                        assert(bv2.last() == base0.coeffs@.last().value as int);
                        lemma_conv_top(av2, bv2, tt);
                        let aa2 = fpow(lcv, pe0, pi);
                        let bb2 = fpow(lcv, be0, pi);
                        assert(gets(acc.vals(), tt) == conv_at(av2, bv2, tt) % pi);
                        lemma_pow_adds(lcv, pe0, be0);
                        lemma_mul_mod_noop(pow(lcv, pe0), pow(lcv, be0), pi);
                        assert((aa2 * bb2) % pi == fpow(lcv, (pe0 + be0) as nat, pi));
                        lemma_unit_product(aa2, wa, bb2, wb, pi);
                        assert(gets(acc.vals(), tt) != 0);
                        assert(acc.coeffs@.len() == tt + 1) by {
                            if acc.coeffs@.len() <= tt {
                                assert(gets(acc.vals(), tt) == 0);
                            }
                        }
                        assert(acc.coeffs@.last().value as int == gets(acc.vals(), tt));
                        // The inverse of the new top is the product of the
                        // inverses.
                        lemma_mul_mod_noop_left(aa2 * bb2, wa * wb, pi);
                        let ghost wa0 = wa;
                        wa = wa * wb;
                        assert((fpow(lcv, pe, pi) * wa) % pi == 1) by {
                            assert((((aa2 * bb2) % pi) * (wa0 * wb)) % pi == ((aa2 * bb2) * (wa0
                                * wb)) % pi);
                        }
                        assert(1 + pe * d0 == tt + 1) by (nonlinear_arith)
                            requires
                                alen == 1 + pe0 * d0,
                                blen == 1 + be0 * d0,
                                tt == alen + blen - 2,
                                pe == pe0 + be0,
                        ;
                    }
                }
            }
            e = e / 2;
            if e > 0 {
                proof {
                    assert(elems_share(base.coeffs@, base.coeffs@));
                    assert(e0 >= 2);
                    assert(base.coeffs@.len() + base.coeffs@.len() <= 2 + (2 * be) * d0)
                        by (nonlinear_arith)
                        requires
                            base.coeffs@.len() <= 1 + be * d0,
                    ;
                }
                base = base.mul(&base);
                proof {
                    assert forall|k: int| 0 <= k implies #[trigger] gets(base.vals(), k)
                        == conv_at(base0.vals(), base0.vals(), k) % pi by {
                        assert(base.cval(k) == conv_at(base0.vals(), base0.vals(), k) % pi);
                    }
                    assert forall|x: int| (#[trigger] ev(base.vals(), x)) % pi == (ev(
                        base0.vals(),
                        x,
                    ) * ev(base0.vals(), x)) % pi by {
                        lemma_mul_ev_cases(base.vals(), base0.vals(), base0.vals(), pi, x);
                    }
                    be = 2 * be;
                    assert(2 * (be0 * d0) == (2 * be0) * d0) by (nonlinear_arith);
                    assert(base.coeffs@.len() <= 1 + be * d0);
                    if unit {
                        let blen = base0.coeffs@.len() as int;
                        let tt = blen + blen - 2;
                        let bv2 = base0.vals();
                        assert(bv2.last() == base0.coeffs@.last().value as int);
                        lemma_conv_top(bv2, bv2, tt);
                        let bb2 = fpow(lcv, be0, pi);
                        assert(gets(base.vals(), tt) == conv_at(bv2, bv2, tt) % pi);
                        lemma_pow_adds(lcv, be0, be0);
                        lemma_mul_mod_noop(pow(lcv, be0), pow(lcv, be0), pi);
                        assert((bb2 * bb2) % pi == fpow(lcv, (be0 + be0) as nat, pi));
                        lemma_unit_product(bb2, wb, bb2, wb, pi);
                        assert(gets(base.vals(), tt) != 0);
                        assert(base.coeffs@.len() == tt + 1) by {
                            if base.coeffs@.len() <= tt {
                                assert(gets(base.vals(), tt) == 0);
                            }
                        }
                        assert(base.coeffs@.last().value as int == gets(base.vals(), tt));
                        lemma_mul_mod_noop_left(bb2 * bb2, wb * wb, pi);
                        let ghost wb0 = wb;
                        wb = wb * wb;
                        assert((fpow(lcv, be, pi) * wb) % pi == 1) by {
                            assert((((bb2 * bb2) % pi) * (wb0 * wb0)) % pi == ((bb2 * bb2) * (wb0
                                * wb0)) % pi);
                        }
                        assert(1 + be * d0 == tt + 1) by (nonlinear_arith)
                            requires
                                blen == 1 + be0 * d0,
                                tt == blen + blen - 2,
                                be == 2 * be0,
                        ;
                    }
                }
            }
            proof {
                let bit = e0 % 2;
                assert(e0 == 2 * h + bit);
                assert(pe == pe0 + (if bit == 1 {
                    be0
                } else {
                    0
                }));
                assert(be == if h > 0 {
                    2 * be0
                } else {
                    be0
                });
                assert(pe + be * (e as nat) == exponent as nat) by (nonlinear_arith)
                    requires
                        pe0 + be0 * e0 == exponent as nat,
                        e0 == 2 * h + bit,
                        bit == 0 || bit == 1,
                        e as nat == h,
                        pe == pe0 + (if bit == 1 {
                            be0
                        } else {
                            0nat
                        }),
                        be == (if h > 0 {
                            2 * be0
                        } else {
                            be0
                        }),
                ;
                assert forall|x: int|
                    (#[trigger] ev(acc.vals(), x) * pow(ev(base.vals(), x), e as nat)) % pi == pow(
                        ev(sv, x),
                        exponent as nat,
                    ) % pi by {
                    let aa = ev(acc0.vals(), x);
                    let bb = ev(base0.vals(), x);
                    let an = ev(acc.vals(), x);
                    let bn = ev(base.vals(), x);
                    assert((aa * pow(bb, e0)) % pi == pow(ev(sv, x), exponent as nat) % pi);
                    if h == 0 {
                        // The last bit: the accumulator absorbed the base.
                        lemma_pow0(bn);
                        lemma_pow1(bb);
                        assert(an % pi == (aa * bb) % pi);
                        assert(an * 1 == an);
                        lemma_mod_twice(aa * bb, pi);
                    } else {
                        // The base squared; its value stands for bb^2.
                        assert(bn % pi == (bb * bb) % pi);
                        lemma_pow_mod_noop(bn, h, pi);
                        lemma_pow_mod_noop(bb * bb, h, pi);
                        assert(pow(bn, h) % pi == pow(bb * bb, h) % pi);
                        lemma_square_is_pow2(bb);
                        lemma_pow_multiplies(bb, 2, h);
                        assert(pow(bb * bb, h) == pow(bb, 2 * h));
                        if bit == 0 {
                            assert(an == aa);
                            lemma_mul_mod_noop_right(aa, pow(bn, h), pi);
                            lemma_mul_mod_noop_right(aa, pow(bb, 2 * h), pi);
                            assert((an * pow(bn, h)) % pi == (aa * pow(bb, 2 * h)) % pi);
                            assert(e0 == 2 * h);
                        } else {
                            assert(an % pi == (aa * bb) % pi);
                            lemma_mul_mod_noop_right(an, pow(bn, h), pi);
                            lemma_mul_mod_noop_right(an, pow(bb, 2 * h), pi);
                            assert((an * pow(bn, h)) % pi == (an * pow(bb, 2 * h)) % pi);
                            lemma_mul_mod_noop_left(an, pow(bb, 2 * h), pi);
                            lemma_mul_mod_noop_left(aa * bb, pow(bb, 2 * h), pi);
                            lemma_mod_twice(aa * bb, pi);
                            assert((an * pow(bb, 2 * h)) % pi == ((aa * bb) * pow(bb, 2 * h))
                                % pi);
                            lemma_pow1(bb);
                            lemma_pow_adds(bb, 1, 2 * h);
                            assert((aa * bb) * pow(bb, 2 * h) == aa * pow(bb, (2 * h + 1) as nat))
                                by (nonlinear_arith)
                                requires
                                    bb * pow(bb, 2 * h) == pow(bb, (2 * h + 1) as nat),
                            ;
                            assert(e0 == 2 * h + 1);
                        }
                    }
                }
            }
        }
        proof {
            assert(pe == exponent as nat) by {
                assert(be * (e as nat) == 0) by (nonlinear_arith)
                    requires
                        e == 0,
                ;
            }
            assert(acc.coeffs@.len() <= 1 + exponent * d0) by {
                assert(pe * d0 == exponent * d0);
            }
            if unit {
                assert(acc.coeffs@.len() == 1 + exponent * d0) by {
                    assert(pe * d0 == exponent * d0);
                }
                assert(acc.coeffs@.last().value as int == fpow(lcv, exponent as nat, pi));
            }
            assert(self.coeffs@.last().field == f0);
            assert forall|x: int| (#[trigger] ev(acc.vals(), x)) % pi == pow(
                ev(sv, x),
                exponent as nat,
            ) % pi by {
                lemma_pow0(ev(base.vals(), x));
                assert(ev(acc.vals(), x) * 1 == ev(acc.vals(), x));
            }
        }
        acc
    }
}

impl Polynomial {
    /// The unique polynomial of least degree through the given points; see
    /// [`crate::math::interpolate_domain`].
    pub fn interpolate(domain: Vec<FieldElement>, values: Vec<FieldElement>) -> (r: Polynomial)
        requires
            domain@.len() == values@.len(),
            domain@.len() + 2 <= usize::MAX,
            forall|i: int|
                0 <= i < domain@.len() ==> (#[trigger] domain@[i]).wf() && domain@[i].field
                    == domain@[0].field,
            forall|i: int|
                0 <= i < values@.len() ==> (#[trigger] values@[i]).wf() && values@[i].field
                    == domain@[0].field,
            domain@.len() > 0 ==> domain@[0].field.modulus() > 1,
            forall|i: int, j: int|
                0 <= i < domain@.len() && 0 <= j < domain@.len() && i != j ==> crate::field::gcd(
                    crate::field::fsub(
                        (#[trigger] domain@[i]).value as int,
                        (#[trigger] domain@[j]).value as int,
                        domain@[0].field.modulus() as int,
                    ) as nat,
                    domain@[0].field.modulus() as nat,
                ) == 1,
        ensures
            r.wf(),
            r.coeffs@.len() <= domain@.len(),
            domain@.len() > 0 ==> r.in_field(domain@[0].field),
            forall|i: int|
                0 <= i < domain@.len() ==> ev(r.vals(), (#[trigger] domain@[i]).value as int)
                    % domain@[0].field.modulus() as int == values@[i].value as int,
    {
        crate::math::interpolate_domain(domain, values)
    }

    /// The monic polynomial vanishing on the whole domain; see
    /// [`crate::math::zerofier_domain`].
    pub fn zerofier(domain: Vec<FieldElement>) -> (r: Polynomial)
        requires
            1 <= domain@.len(),
            domain@.len() + 2 <= usize::MAX,
            forall|i: int|
                0 <= i < domain@.len() ==> (#[trigger] domain@[i]).wf() && domain@[i].field
                    == domain@[0].field,
            domain@[0].field.modulus() > 1,
        ensures
            r.wf(),
            r.in_field(domain@[0].field),
            r.coeffs@.len() == domain@.len() + 1,
            r.coeffs@.last().value == 1,
            forall|i: int|
                0 <= i < domain@.len() ==> ev(r.vals(), (#[trigger] domain@[i]).value as int)
                    % domain@[0].field.modulus() as int == 0,
    {
        crate::math::zerofier_domain(domain)
    }

    /// `qv` is a quotient witnessing that `den` divides `num` evenly in the
    /// field of modulus `p`: every coefficient of `num` is the reduced
    /// convolution of `qv` with `den`.
    pub open spec fn divides_evenly(qv: Seq<int>, num: Polynomial, den: Polynomial, p: int) -> bool {
        forall|k: int| 0 <= k ==> num.cval(k) == #[trigger] conv_at(qv, den.vals(), k) % p
    }

    /// `qv` and `r` witness the division equation
    /// `num == den * qv + r`, coefficient by coefficient modulo `p`.
    pub open spec fn division_equation(
        qv: Seq<int>,
        num: Polynomial,
        den: Polynomial,
        r: Polynomial,
        p: int,
    ) -> bool {
        forall|k: int|
            0 <= k ==> num.cval(k) == (#[trigger] conv_at(qv, den.vals(), k) + r.cval(k)) % p
    }

    /// Exact division: the quotient `Q` with `self == rhs * Q`, coefficient
    /// by coefficient in the field. Defined only where the divisor divides
    /// evenly, which the last clause of the `requires` states.
    pub fn div(&self, rhs: &Polynomial) -> (r: Polynomial)
        requires
            self.wf(),
            rhs.wf(),
            self.shares_field(*rhs),
            rhs.coeffs@.len() >= 1,
            self.coeffs@.len() < usize::MAX,
            crate::field::gcd(
                rhs.coeffs@.last().value as nat,
                rhs.coeffs@.last().field.modulus() as nat,
            ) == 1,
            exists|qv: Seq<int>|
                #[trigger] Polynomial::divides_evenly(
                    qv,
                    *self,
                    *rhs,
                    rhs.coeffs@.last().field.modulus() as int,
                ),
        ensures
            r.wf(),
            forall|f: Field|
                (#[trigger] self.in_field(f) && #[trigger] rhs.in_field(f)) ==> r.in_field(f)
                    && forall|k: int|
                    0 <= k ==> #[trigger] self.cval(k) == conv_at(r.vals(), rhs.vals(), k)
                        % f.modulus() as int,
    {
        let num = Polynomial { coeffs: copy_elems(&self.coeffs) };
        let den = Polynomial { coeffs: copy_elems(&rhs.coeffs) };
        let ghost numg = num;
        let ghost deng = den;
        let (q, rem) = crate::math::poly_long_division(num, den);
        let lc = rhs.coeffs[rhs.coeffs.len() - 1];
        let lc_inv = lc.inv();
        proof {
            let f0 = lc.field;
            let pi = f0.modulus() as int;
            let dv = rhs.vals();
            assert(self.in_field(f0) && rhs.in_field(f0));
            assert(numg.in_field(f0) && deng.in_field(f0));
            assert(deng.vals() == dv && numg.vals() == self.vals());
            assert(dv.last() == lc.value as int);
            lemma_mul_is_commutative(lc.value as int, lc_inv.value as int);
            assert((dv.last() * lc_inv.value as int) % pi == 1);
            let qv = choose|qv: Seq<int>| Polynomial::divides_evenly(qv, *self, *rhs, pi);
            assert(Polynomial::divides_evenly(qv, *self, *rhs, pi));
            // The two quotients differ by a left factor whose convolution
            // with the divisor is, modulo the field, the remainder.
            let ds = Seq::new(
                if qv.len() > q.vals().len() {
                    qv.len()
                } else {
                    q.vals().len()
                },
                |i: int| gets(qv, i) - gets(q.vals(), i),
            );
            assert forall|i: int| #[trigger] gets(ds, i) == gets(qv, i) - gets(
                q.vals(),
                i,
            ) by {
                if !(0 <= i < ds.len()) {
                    assert(gets(qv, i) == 0 && gets(q.vals(), i) == 0);
                }
            }
            assert forall|k: int| 0 <= k implies #[trigger] (conv_at(ds, dv, k) % pi) == gets(
                rem.vals(),
                k,
            ) by {
                crate::math::lemma_conv_sub(ds, qv, q.vals(), dv, k);
                let cq = conv_at(q.vals(), dv, k);
                let cv = conv_at(qv, dv, k);
                // self's coefficient equals both reductions; subtract them.
                assert(self.cval(k) == cv % pi);
                assert(numg.cval(k) == (cq + rem.cval(k)) % pi);
                assert(self.cval(k) == numg.cval(k));
                assert(self.cval(k) == (cq + rem.cval(k)) % pi);
                lemma_sub_mod_noop(cv, cq, pi);
                lemma_sub_mod_noop(cq + rem.cval(k), cq, pi);
                assert((cv - cq) % pi == ((cq + rem.cval(k)) - cq) % pi);
                assert((cq + rem.cval(k)) - cq == rem.cval(k));
                if 0 <= k < rem.coeffs@.len() {
                    lemma_small_mod(rem.coeffs@[k].value as nat, f0.modulus() as nat);
                } else {
                    lemma_small_mod(0nat, f0.modulus() as nat);
                }
            }
            assert forall|j: int| j > ds.len() - 1 implies #[trigger] gets(ds, j) % pi == 0 by {
                assert(gets(ds, j) == 0);
                lemma_small_mod(0nat, f0.modulus() as nat);
            }
            crate::math::lemma_left_factor_vanishes(
                ds,
                dv,
                rem.vals(),
                lc_inv.value as int,
                pi,
                ds.len() as int - 1,
            );
            // Every difference coefficient vanishes, so the remainder does.
            assert forall|k: int| 0 <= k implies #[trigger] rem.cval(k) == 0 by {
                crate::math::lemma_conv_left_zero_mod(ds, dv, k, pi);
            }
            assert(rem.coeffs@.len() == 0) by {
                if rem.coeffs@.len() > 0 {
                    assert(rem.cval(rem.coeffs@.len() - 1) == 0);
                    assert(rem.coeffs@.last().value != 0);
                }
            }
            assert forall|f: Field|
                #[trigger] self.in_field(f) && #[trigger] rhs.in_field(f) implies q.in_field(f)
                && forall|k: int|
                0 <= k ==> #[trigger] self.cval(k) == conv_at(q.vals(), rhs.vals(), k)
                    % f.modulus() as int by {
                assert forall|k: int| 0 <= k implies #[trigger] self.cval(k) == conv_at(
                    q.vals(),
                    rhs.vals(),
                    k,
                ) % f.modulus() as int by {
                    assert(numg.cval(k) == (conv_at(q.vals(), deng.vals(), k) + rem.cval(k))
                        % f.modulus() as int);
                    assert(rem.cval(k) == 0);
                }
            }
        }
        q
    }

    /// The remainder of dividing by `rhs`: of degree below the divisor's,
    /// and differing from `self` by a multiple of the divisor.
    pub fn rem(&self, rhs: &Polynomial) -> (r: Polynomial)
        requires
            self.wf(),
            rhs.wf(),
            self.shares_field(*rhs),
            rhs.coeffs@.len() >= 1,
            self.coeffs@.len() < usize::MAX,
            crate::field::gcd(
                rhs.coeffs@.last().value as nat,
                rhs.coeffs@.last().field.modulus() as nat,
            ) == 1,
        ensures
            r.wf(),
            r.coeffs@.len() < rhs.coeffs@.len(),
            forall|f: Field|
                (#[trigger] self.in_field(f) && #[trigger] rhs.in_field(f)) ==> r.in_field(f)
                    && exists|qv: Seq<int>|
                    #[trigger] Polynomial::division_equation(
                        qv,
                        *self,
                        *rhs,
                        r,
                        f.modulus() as int,
                    ),
    {
        let num = Polynomial { coeffs: copy_elems(&self.coeffs) };
        let den = Polynomial { coeffs: copy_elems(&rhs.coeffs) };
        let ghost numg = num;
        let ghost deng = den;
        let (q, rem) = crate::math::poly_long_division(num, den);
        proof {
            assert forall|f: Field|
                #[trigger] self.in_field(f) && #[trigger] rhs.in_field(f) implies rem.in_field(f)
                && exists|qv: Seq<int>|
                #[trigger] Polynomial::division_equation(
                    qv,
                    *self,
                    *rhs,
                    rem,
                    f.modulus() as int,
                ) by {
                assert(numg.in_field(f) && deng.in_field(f));
                assert(deng.vals() == rhs.vals());
                assert(Polynomial::division_equation(
                    q.vals(),
                    *self,
                    *rhs,
                    rem,
                    f.modulus() as int,
                )) by {
                    assert forall|k: int| 0 <= k implies self.cval(k) == (#[trigger] conv_at(
                        q.vals(),
                        rhs.vals(),
                        k,
                    ) + rem.cval(k)) % f.modulus() as int by {
                        assert(numg.cval(k) == (conv_at(q.vals(), deng.vals(), k) + rem.cval(k))
                            % f.modulus() as int);
                        assert(self.cval(k) == numg.cval(k));
                    }
                }
            }
        }
        rem
    }
}

/// The product of two units is a unit: with inverses for both factors, the
/// reduced product is nonzero and the product of the inverses inverts it.
pub(crate) proof fn lemma_unit_product(a: int, w1: int, b: int, w2: int, p: int)
    requires
        p > 0,
        (a * w1) % p == 1,
        (b * w2) % p == 1,
    ensures
        ((a * b) * (w1 * w2)) % p == 1,
        (a * b) % p != 0,
{
    assert(p >= 2) by {
        if p == 1 {
            lemma_mod_bound(a * w1, 1);
        }
    }
    assert((a * b) * (w1 * w2) == (a * w1) * (b * w2)) by (nonlinear_arith);
    lemma_mul_mod_noop(a * w1, b * w2, p);
    lemma_small_mod(1nat, p as nat);
    assert(((a * w1) % p) * ((b * w2) % p) == 1) by (nonlinear_arith)
        requires
            (a * w1) % p == 1,
            (b * w2) % p == 1,
    ;
    assert(((a * b) * (w1 * w2)) % p == 1);
    if (a * b) % p == 0 {
        lemma_mul_mod_noop_left(a * b, w1 * w2, p);
        assert((((a * b) % p) * (w1 * w2)) % p == ((a * b) * (w1 * w2)) % p);
        assert(0int * (w1 * w2) == 0) by (nonlinear_arith);
        lemma_small_mod(0nat, p as nat);
        assert(false);
    }
}

/// Everything is congruent to zero modulo one.
pub(crate) proof fn lemma_mod_breakdown_one(x: int)
    ensures
        x % 1 == 0,
{
    lemma_mod_bound(x, 1);
}

} // verus!
