//! Sparse multivariate polynomials over a prime field.
//!
//! A polynomial is a list of terms, each an exponent vector paired with a
//! nonzero coefficient; no two terms share an exponent vector. Exponent
//! vectors of different lengths may coexist: a shorter one stands for itself
//! right-padded with zeros, and binary operations pad before combining.

use vstd::prelude::*;

verus! {

use vstd::arithmetic::div_mod::*;
use vstd::arithmetic::mul::*;
use vstd::arithmetic::power::*;
use crate::field::{Field, FieldElement, fadd, fmul, fneg};
use crate::polynomial::{Polynomial, ev, gets, imax};

/// The value of the monomial with exponent vector `k` at the point `pt`:
/// the product of `pt[i]` to the power `k[i]` over all coordinates of `k`.
pub open spec fn mono(k: Seq<u128>, pt: Seq<int>) -> int
    decreases k.len(),
{
    if k.len() == 0 {
        1
    } else {
        pow(pt[0], k[0] as nat) * mono(k.drop_first(), pt.drop_first())
    }
}

/// The value of a term list at the point `pt`, over the unbounded integers:
/// the sum of each coefficient times its monomial.
pub open spec fn meval(ts: Seq<(Vec<u128>, FieldElement)>, pt: Seq<int>) -> int
    decreases ts.len(),
{
    if ts.len() == 0 {
        0
    } else {
        ts[0].1.value as int * mono(ts[0].0@, pt) + meval(ts.drop_first(), pt)
    }
}

/// The integer values of a point.
pub open spec fn pvals(s: Seq<FieldElement>) -> Seq<int> {
    s.map_values(|e: FieldElement| e.value as int)
}

/// No two terms share an exponent vector.
pub open spec fn keys_distinct(ts: Seq<(Vec<u128>, FieldElement)>) -> bool {
    forall|i: int, j: int|
        0 <= i < j < ts.len() ==> (#[trigger] ts[i]).0@ != (#[trigger] ts[j]).0@
}

/// Every coefficient is reduced, nonzero, and in the field `f`.
pub open spec fn terms_in(ts: Seq<(Vec<u128>, FieldElement)>, f: Field) -> bool {
    forall|i: int|
        0 <= i < ts.len() ==> (#[trigger] ts[i]).1.field == f && ts[i].1.value < f.modulus()
            && ts[i].1.value != 0
}

/// Every key length is at most `n`.
pub open spec fn key_lens_at_most(ts: Seq<(Vec<u128>, FieldElement)>, n: int) -> bool {
    forall|i: int| 0 <= i < ts.len() ==> (#[trigger] ts[i]).0@.len() <= n
}

/// Every key has length exactly `n`.
pub open spec fn key_lens_exact(ts: Seq<(Vec<u128>, FieldElement)>, n: int) -> bool {
    forall|i: int| 0 <= i < ts.len() ==> (#[trigger] ts[i]).0@.len() == n
}

/// The largest exponent-vector length: the polynomial's variable count.
pub open spec fn max_key_len(ts: Seq<(Vec<u128>, FieldElement)>) -> int
    decreases ts.len(),
{
    if ts.len() == 0 {
        0
    } else {
        crate::polynomial::imax(ts.last().0@.len() as int, max_key_len(ts.drop_last()))
    }
}

/// A nonempty list whose keys all have length `n` has `n` as its largest
/// key length.
pub(crate) proof fn lemma_max_key_len_exact(ts: Seq<(Vec<u128>, FieldElement)>, n: int)
    requires
        ts.len() > 0,
        key_lens_exact(ts, n),
    ensures
        max_key_len(ts) == n,
    decreases ts.len(),
{
    assert(ts.last().0@.len() == n) by {
        assert(ts[ts.len() - 1].0@.len() == n);
    }
    if ts.len() > 1 {
        assert(key_lens_exact(ts.drop_last(), n)) by {
            assert(forall|i: int| 0 <= i < ts.len() - 1 ==> ts.drop_last()[i] == ts[i]);
        }
        lemma_max_key_len_exact(ts.drop_last(), n);
    } else {
        assert(ts.drop_last().len() == 0);
        assert(max_key_len(ts.drop_last()) == 0);
    }
}

/// Two lists whose keys have equal lengths position by position have the
/// same largest key length.
pub(crate) proof fn lemma_max_key_len_matches(
    ts1: Seq<(Vec<u128>, FieldElement)>,
    ts2: Seq<(Vec<u128>, FieldElement)>,
)
    requires
        ts1.len() == ts2.len(),
        forall|i: int| 0 <= i < ts1.len() ==> (#[trigger] ts1[i]).0@.len() == ts2[i].0@.len(),
    ensures
        max_key_len(ts1) == max_key_len(ts2),
    decreases ts1.len(),
{
    if ts1.len() > 0 {
        assert(forall|i: int|
            0 <= i < ts1.len() - 1 ==> (#[trigger] ts1.drop_last()[i]).0@.len()
                == ts2.drop_last()[i].0@.len());
        lemma_max_key_len_matches(ts1.drop_last(), ts2.drop_last());
        assert(ts1.last().0@.len() == ts2.last().0@.len());
    }
}

/// Every exponent is at most `b`.
pub open spec fn key_bound(ts: Seq<(Vec<u128>, FieldElement)>, b: u128) -> bool {
    forall|i: int, c: int|
        0 <= i < ts.len() && 0 <= c < ts[i].0@.len() ==> (#[trigger] ts[i].0@[c]) <= b
}

/// A sparse multivariate polynomial: a list of exponent-vector/coefficient
/// terms in canonical form.
#[derive(Clone, Debug)]
pub struct MPolynomial {
    pub dictionary: Vec<(Vec<u128>, FieldElement)>,
}

impl MPolynomial {
    /// Canonical: distinct keys, and only nonzero, reduced coefficients that
    /// share one field.
    pub open spec fn wf(self) -> bool {
        keys_distinct(self.dictionary@) && forall|i: int|
            0 <= i < self.dictionary@.len() ==> (#[trigger] self.dictionary@[i]).1.wf()
                && self.dictionary@[i].1.value != 0 && self.dictionary@[i].1.field
                == self.dictionary@[0].1.field
    }

    /// The coefficients lie in the field `f`.
    pub open spec fn in_fld(self, f: Field) -> bool {
        f.modulus() > 0 && terms_in(self.dictionary@, f)
    }
}

/// Appending a term adds its value to the evaluation.
pub(crate) proof fn lemma_meval_push(
    ts: Seq<(Vec<u128>, FieldElement)>,
    t: (Vec<u128>, FieldElement),
    pt: Seq<int>,
)
    ensures
        meval(ts.push(t), pt) == meval(ts, pt) + t.1.value as int * mono(t.0@, pt),
    decreases ts.len(),
{
    if ts.len() == 0 {
        assert(ts.push(t).drop_first() =~= Seq::<(Vec<u128>, FieldElement)>::empty());
        assert(ts.push(t)[0] == t);
        assert(meval(ts.push(t).drop_first(), pt) == 0);
        assert(meval(ts.push(t), pt) == t.1.value as int * mono(t.0@, pt) + 0);
    } else {
        assert(ts.push(t).drop_first() =~= ts.drop_first().push(t));
        assert(ts.push(t)[0] == ts[0]);
        lemma_meval_push(ts.drop_first(), t, pt);
        assert(meval(ts.push(t), pt) == ts[0].1.value as int * mono(ts[0].0@, pt) + meval(
            ts.drop_first().push(t),
            pt,
        ));
    }
}

/// Replacing the coefficient of one term shifts the evaluation by the
/// difference of the contributions.
pub(crate) proof fn lemma_meval_update(
    ts: Seq<(Vec<u128>, FieldElement)>,
    j: int,
    t: (Vec<u128>, FieldElement),
    pt: Seq<int>,
)
    requires
        0 <= j < ts.len(),
        t.0@ == ts[j].0@,
    ensures
        meval(ts.update(j, t), pt) == meval(ts, pt) - ts[j].1.value as int * mono(ts[j].0@, pt)
            + t.1.value as int * mono(t.0@, pt),
    decreases ts.len(),
{
    let u = ts.update(j, t);
    if j == 0 {
        assert(u.drop_first() =~= ts.drop_first());
        assert(u[0] == t);
    } else {
        assert(u[0] == ts[0]);
        assert(u.drop_first() =~= ts.drop_first().update(j - 1, t));
        lemma_meval_update(ts.drop_first(), j - 1, t, pt);
    }
}

/// Removing one term subtracts its contribution from the evaluation.
pub(crate) proof fn lemma_meval_remove(ts: Seq<(Vec<u128>, FieldElement)>, j: int, pt: Seq<int>)
    requires
        0 <= j < ts.len(),
    ensures
        meval(ts.remove(j), pt) == meval(ts, pt) - ts[j].1.value as int * mono(ts[j].0@, pt),
    decreases ts.len(),
{
    let u = ts.remove(j);
    if j == 0 {
        assert(u =~= ts.drop_first());
    } else {
        assert(u[0] == ts[0]);
        assert(u.drop_first() =~= ts.drop_first().remove(j - 1));
        lemma_meval_remove(ts.drop_first(), j - 1, pt);
    }
}

/// Compares two exponent vectors.
fn keys_equal(a: &Vec<u128>, b: &Vec<u128>) -> (r: bool)
    ensures
        r == (a@ == b@),
{
    if a.len() != b.len() {
        proof {
            assert(a@ != b@);
        }
        return false;
    }
    let mut i: usize = 0;
    while i < a.len()
        invariant
            a@.len() == b@.len(),
            i <= a@.len(),
            forall|j: int| 0 <= j < i ==> a@[j] == b@[j],
        decreases a@.len() - i,
    {
        if a[i] != b[i] {
            proof {
                assert(a@ != b@);
            }
            return false;
        }
        i = i + 1;
    }
    proof {
        assert(a@ =~= b@);
    }
    true
}

/// Adds `c * x^key` into a canonical term list, combining with an existing
/// term of the same key, and dropping the term if the combined coefficient
/// vanishes.
fn insert_term(acc: &mut Vec<(Vec<u128>, FieldElement)>, key: Vec<u128>, c: FieldElement)
    requires
        c.wf(),
        c.value != 0,
        keys_distinct(old(acc)@),
        terms_in(old(acc)@, c.field),
    ensures
        keys_distinct(final(acc)@),
        terms_in(final(acc)@, c.field),
        forall|pt: Seq<int>|
            #[trigger] meval(final(acc)@, pt) % c.field.modulus() as int == (meval(old(acc)@, pt)
                + c.value as int * mono(key@, pt)) % c.field.modulus() as int,
        forall|n: int|
            key_lens_at_most(old(acc)@, n) && key@.len() <= n ==> key_lens_at_most(final(acc)@, n),
        forall|n: int|
            key_lens_exact(old(acc)@, n) && key@.len() == n ==> key_lens_exact(final(acc)@, n),
        forall|q: int|
            0 <= q < final(acc)@.len() ==> (#[trigger] final(acc)@[q]).0@ == key@ || exists|b: int|
                0 <= b < old(acc)@.len() && final(acc)@[q].0@ == old(acc)@[b].0@,
        forall|b: u128|
            key_bound(old(acc)@, b) && (forall|q: int| 0 <= q < key@.len() ==> key@[q] <= b)
                ==> key_bound(final(acc)@, b),
{
    let ghost pi = c.field.modulus() as int;
    let mut j: usize = 0;
    let n = acc.len();
    while j < n
        invariant
            n == acc@.len(),
            j <= n,
            acc@ == old(acc)@,
            c.wf(),
            c.value != 0,
            pi == c.field.modulus() as int,
            keys_distinct(acc@),
            terms_in(acc@, c.field),
            forall|q: int| 0 <= q < j ==> (#[trigger] acc@[q]).0@ != key@,
        decreases n - j,
    {
        let hit = keys_equal(&acc[j].0, &key);
        if hit {
            let c2 = acc[j].1.add(c);
            let ghost acc0 = acc@;
            if c2.value == 0 {
                let _ = acc.remove(j);
                proof {
                    assert forall|a: int, b2: int| 0 <= a < b2 < acc@.len() implies (
                    #[trigger] acc@[a]).0@ != (#[trigger] acc@[b2]).0@ by {
                        assert(acc@[a] == (if a < j { acc0[a] } else { acc0[a + 1] }));
                        assert(acc@[b2] == (if b2 < j { acc0[b2] } else { acc0[b2 + 1] }));
                    }
                    assert forall|a: int| 0 <= a < acc@.len() implies (#[trigger] acc@[a]).1.field
                        == c.field && acc@[a].1.value < c.field.modulus() && acc@[a].1.value
                        != 0 by {
                        assert(acc@[a] == (if a < j { acc0[a] } else { acc0[a + 1] }));
                    }
                    assert forall|pt: Seq<int>| #[trigger] meval(acc@, pt) % pi == (meval(
                        acc0,
                        pt,
                    ) + c.value as int * mono(key@, pt)) % pi by {
                        lemma_meval_remove(acc0, j as int, pt);
                        let m = mono(key@, pt);
                        let ov = acc0[j as int].1.value as int;
                        // The removed contribution is congruent to the sum of
                        // the old term and the inserted one.
                        assert(c2.value as int == fadd(ov, c.value as int, pi));
                        lemma_sub_mod_noop(meval(acc0, pt) + c.value as int * m, ov * m + c.value as int * m, pi);
                        lemma_sub_mod_noop(meval(acc0, pt) + c.value as int * m, (ov + c.value as int) * m, pi);
                        lemma_mul_mod_noop_left(ov + c.value as int, m, pi);
                        lemma_mul_mod_noop_left(0int, m, pi);
                        assert((ov + c.value as int) * m == ov * m + c.value as int * m)
                            by (nonlinear_arith);
                        assert(((ov + c.value as int) % pi) == 0);
                        assert((0int * m) == 0) by (nonlinear_arith);
                        lemma_small_mod(0nat, c.field.modulus() as nat);
                        assert(((ov + c.value as int) * m) % pi == 0int % pi);
                        assert((meval(acc@, pt)) % pi == (meval(acc0, pt) - ov * m) % pi) by {
                            lemma_small_mod(0nat, c.field.modulus() as nat);
                        }
                        lemma_sub_mod_noop_right(
                            meval(acc0, pt) + c.value as int * m,
                            (ov + c.value as int) * m,
                            pi,
                        );
                        assert((meval(acc0, pt) + c.value as int * m - (ov + c.value as int) * m)
                            == meval(acc0, pt) - ov * m) by (nonlinear_arith);
                    }
                }
            } else {
                let ks = copy_key(&acc[j].0);
                acc.set(j, (ks, c2));
                proof {
                    assert forall|pt: Seq<int>| #[trigger] meval(acc@, pt) % pi == (meval(
                        acc0,
                        pt,
                    ) + c.value as int * mono(key@, pt)) % pi by {
                        lemma_meval_update(acc0, j as int, acc@[j as int], pt);
                        let m = mono(key@, pt);
                        let ov = acc0[j as int].1.value as int;
                        assert(mono(acc0[j as int].0@, pt) == m);
                        assert(c2.value as int == (ov + c.value as int) % pi);
                        assert(meval(acc@, pt) == meval(acc0, pt) - ov * m + c2.value as int * m);
                        lemma_mod_add_left_general(
                            meval(acc0, pt) - ov * m,
                            ov + c.value as int,
                            m,
                            pi,
                        );
                        assert((meval(acc0, pt) - ov * m) + (ov + c.value as int) * m == meval(
                            acc0,
                            pt,
                        ) + c.value as int * m) by (nonlinear_arith);
                    }
                    assert(keys_distinct(acc@)) by {
                        assert(forall|q: int|
                            0 <= q < acc@.len() ==> (#[trigger] acc@[q]).0@ == acc0[q].0@);
                    }
                    assert forall|a: int| 0 <= a < acc@.len() implies (#[trigger] acc@[a]).1.field
                        == c.field && acc@[a].1.value < c.field.modulus() && acc@[a].1.value
                        != 0 by {
                        if a != j {
                            assert(acc@[a] == acc0[a]);
                        }
                    }
                }
            }
            return ;
        }
        j = j + 1;
    }
    let ghost acc0 = acc@;
    acc.push((key, c));
    proof {
        assert forall|pt: Seq<int>| #[trigger] meval(acc@, pt) % pi == (meval(acc0, pt)
            + c.value as int * mono(key@, pt)) % pi by {
            lemma_meval_push(acc0, acc@[acc@.len() - 1], pt);
        }
        assert forall|a: int, b2: int| 0 <= a < b2 < acc@.len() implies (#[trigger] acc@[a]).0@
            != (#[trigger] acc@[b2]).0@ by {
            assert(acc@[a] == acc0[a]);
            if b2 == acc@.len() - 1 {
                assert(acc@[b2].0@ == key@);
            } else {
                assert(acc@[b2] == acc0[b2]);
            }
        }
        assert forall|a: int| 0 <= a < acc@.len() implies (#[trigger] acc@[a]).1.field == c.field
            && acc@[a].1.value < c.field.modulus() && acc@[a].1.value != 0 by {
            if a < acc@.len() - 1 {
                assert(acc@[a] == acc0[a]);
            }
        }
    }
}

/// `(r + a * m) % p` may reduce `a` first.
proof fn lemma_mod_add_left_general(r: int, a: int, m: int, p: int)
    requires
        p > 0,
    ensures
        (r + (a % p) * m) % p == (r + a * m) % p,
{
    lemma_mul_mod_noop_left(a, m, p);
    lemma_add_mod_noop_right(r, (a % p) * m, p);
    lemma_add_mod_noop_right(r, a * m, p);
}

/// The exponent vector `k` padded with zeros to length `n`.
pub open spec fn pad_key(k: Seq<u128>, n: int) -> Seq<u128> {
    Seq::new(n as nat, |i: int| if i < k.len() { k[i] } else { 0 })
}

/// The coordinate-wise sum of two exponent vectors, both padded to length
/// `n`.
pub open spec fn key_sum_spec(ka: Seq<u128>, kb: Seq<u128>, n: int) -> Seq<u128> {
    Seq::new(n as nat, |c: int| (pad_key(ka, n)[c] + pad_key(kb, n)[c]) as u128)
}

/// Every key of `out` is the padded, coordinate-wise sum of one key of `av`
/// and one key of `bv`.
pub open spec fn keys_from_products(
    out: Seq<(Vec<u128>, FieldElement)>,
    av: Seq<(Vec<u128>, FieldElement)>,
    bv: Seq<(Vec<u128>, FieldElement)>,
    n: int,
) -> bool {
    forall|q: int|
        0 <= q < out.len() ==> exists|i2: int, j2: int|
            0 <= i2 < av.len() && 0 <= j2 < bv.len() && (#[trigger] out[q]).0@ == key_sum_spec(
                av[i2].0@,
                bv[j2].0@,
                n,
            )
}

/// Appending one exponent multiplies the monomial by the matching power.
pub(crate) proof fn lemma_mono_push(k: Seq<u128>, e: u128, pt: Seq<int>)
    requires
        k.len() < pt.len(),
    ensures
        mono(k.push(e), pt) == mono(k, pt) * pow(pt[k.len() as int], e as nat),
    decreases k.len(),
{
    if k.len() == 0 {
        assert(k.push(e).drop_first() =~= Seq::<u128>::empty());
        assert(k.push(e)[0] == e);
        assert(mono(k.push(e).drop_first(), pt.drop_first()) == 1);
        assert(mono(k, pt) == 1);
        assert(pow(pt[0], e as nat) * 1 == pow(pt[0], e as nat));
        assert(1int * pow(pt[0], e as nat) == pow(pt[0], e as nat));
    } else {
        assert(k.push(e).drop_first() =~= k.drop_first().push(e));
        assert(k.push(e)[0] == k[0]);
        lemma_mono_push(k.drop_first(), e, pt.drop_first());
        let h = pow(pt[0], k[0] as nat);
        let m2 = mono(k.drop_first(), pt.drop_first());
        let pe = pow(pt.drop_first()[k.len() - 1], e as nat);
        assert(pt.drop_first()[k.len() - 1] == pt[k.len() as int]);
        assert(h * (m2 * pe) == (h * m2) * pe) by (nonlinear_arith);
    }
}

/// Padding an exponent vector with zeros does not change its monomial.
pub(crate) proof fn lemma_mono_pad(k: Seq<u128>, pt: Seq<int>, n: int)
    requires
        k.len() <= n <= pt.len(),
    ensures
        mono(pad_key(k, n), pt) == mono(k, pt),
    decreases n - k.len(),
{
    if n == k.len() {
        assert(pad_key(k, n) =~= k);
    } else {
        assert(pad_key(k, n) =~= pad_key(k, n - 1).push(0));
        lemma_mono_pad(k, pt, n - 1);
        lemma_mono_push(pad_key(k, n - 1), 0, pt);
        lemma_pow0(pt[n - 1]);
        assert(mono(pad_key(k, n - 1), pt) * 1 == mono(pad_key(k, n - 1), pt));
    }
}

/// The monomial of a coordinate-wise sum of exponent vectors is the product
/// of the monomials.
pub(crate) proof fn lemma_mono_add(ka: Seq<u128>, kb: Seq<u128>, pt: Seq<int>)
    requires
        ka.len() == kb.len(),
        ka.len() <= pt.len(),
        forall|c: int| 0 <= c < ka.len() ==> #[trigger] (ka[c] + kb[c]) <= u128::MAX,
    ensures
        mono(Seq::new(ka.len(), |c: int| (ka[c] + kb[c]) as u128), pt) == mono(ka, pt) * mono(
            kb,
            pt,
        ),
    decreases ka.len(),
{
    let ks = Seq::new(ka.len(), |c: int| (ka[c] + kb[c]) as u128);
    if ka.len() == 0 {
        assert(ks =~= Seq::<u128>::empty());
    } else {
        let ka2 = ka.drop_first();
        let kb2 = kb.drop_first();
        assert(forall|c: int|
            0 <= c < ka2.len() ==> #[trigger] (ka2[c] + kb2[c]) == ka[c + 1] + kb[c + 1]);
        lemma_mono_add(ka2, kb2, pt.drop_first());
        assert(ks.drop_first() =~= Seq::new(ka2.len(), |c: int| (ka2[c] + kb2[c]) as u128));
        assert(ks[0] as nat == ka[0] as nat + kb[0] as nat);
        lemma_pow_adds(pt[0], ka[0] as nat, kb[0] as nat);
        let pa = pow(pt[0], ka[0] as nat);
        let pb = pow(pt[0], kb[0] as nat);
        let ma = mono(ka2, pt.drop_first());
        let mb = mono(kb2, pt.drop_first());
        assert((pa * pb) * (ma * mb) == (pa * ma) * (pb * mb)) by (nonlinear_arith);
    }
}

impl MPolynomial {
    /// Creates a polynomial from a term list with distinct keys, dropping any
    /// term whose coefficient is zero. The evaluation is unchanged at every
    /// point.
    #[verifier::rlimit(30)]
    pub fn new(dictionary: Vec<(Vec<u128>, FieldElement)>) -> (r: MPolynomial)
        requires
            keys_distinct(dictionary@),
            forall|i: int|
                0 <= i < dictionary@.len() ==> (#[trigger] dictionary@[i]).1.wf()
                    && dictionary@[i].1.field == dictionary@[0].1.field,
        ensures
            r.wf(),
            forall|f: Field|
                #[trigger] terms_in_weak(dictionary@, f) ==> terms_in(r.dictionary@, f),
            forall|pt: Seq<int>| #[trigger] meval(r.dictionary@, pt) == meval(dictionary@, pt),
            forall|n: int| key_lens_at_most(dictionary@, n) ==> key_lens_at_most(r.dictionary@, n),
            forall|b: u128| key_bound(dictionary@, b) ==> key_bound(r.dictionary@, b),
            dictionary@.len() == 0 ==> r.dictionary@.len() == 0,
            forall|a: int|
                0 <= a < r.dictionary@.len() ==> exists|b: int|
                    0 <= b < dictionary@.len() && term_matches(#[trigger] r.dictionary@[a], dictionary@[b]),
            forall|b: int|
                0 <= b < dictionary@.len() && (#[trigger] dictionary@[b]).1.value != 0
                    ==> exists|a: int|
                    0 <= a < r.dictionary@.len() && term_matches(r.dictionary@[a], dictionary@[b]),
    {
        let mut out: Vec<(Vec<u128>, FieldElement)> = Vec::new();
        let mut i: usize = 0;
        let mut input = dictionary;
        let ghost inp = input@;
        while i < input.len()
            invariant
                inp == input@,
                keys_distinct(inp),
                forall|q: int|
                    0 <= q < inp.len() ==> (#[trigger] inp[q]).1.wf() && inp[q].1.field
                        == inp[0].1.field,
                i <= inp.len(),
                out@.len() <= i,
                forall|a: int|
                    0 <= a < out@.len() ==> exists|b: int|
                        0 <= b < i && term_matches(#[trigger] out@[a], inp[b]),
                forall|b: int|
                    0 <= b < i && (#[trigger] inp[b]).1.value != 0 ==> exists|a: int|
                        0 <= a < out@.len() && term_matches(out@[a], inp[b]),
                keys_distinct(out@),
                forall|a: int| 0 <= a < out@.len() ==> (#[trigger] out@[a]).1.value != 0,
                forall|pt: Seq<int>| #[trigger] meval(out@, pt) == meval(inp.take(i as int), pt),
            decreases inp.len() - i,
        {
            let keep = input[i].1.value != 0;
            let ghost out0 = out@;
            if keep {
                let k = copy_key(&input[i].0);
                let c = input[i].1;
                out.push((k, c));
            }
            proof {
                assert(inp.take(i as int + 1) =~= inp.take(i as int).push(inp[i as int]));
                assert forall|pt: Seq<int>| #[trigger] meval(out@, pt) == meval(
                    inp.take(i as int + 1),
                    pt,
                ) by {
                    lemma_meval_push(inp.take(i as int), inp[i as int], pt);
                    if keep {
                        lemma_meval_push(out0, out@[out@.len() - 1], pt);
                        assert(out@[out@.len() - 1].0@ == inp[i as int].0@);
                    } else {
                        assert(inp[i as int].1.value as int * mono(inp[i as int].0@, pt) == 0) by {
                            assert(0int * mono(inp[i as int].0@, pt) == 0) by (nonlinear_arith);
                        }
                    }
                }
                if keep {
                    assert forall|a: int, b2: int| 0 <= a < b2 < out@.len() implies (
                    #[trigger] out@[a]).0@ != (#[trigger] out@[b2]).0@ by {
                        if b2 == out@.len() - 1 {
                            let b = choose|b: int|
                                0 <= b < i && term_matches(out@[a], inp[b]);
                            assert(out@[b2].0@ == inp[i as int].0@);
                            assert(inp[b].0@ != inp[i as int].0@);
                        } else {
                            assert(out@[a] == out0[a] && out@[b2] == out0[b2]);
                        }
                    }
                    assert forall|a: int| 0 <= a < out@.len() implies exists|b: int|
                        0 <= b < i + 1 && term_matches(#[trigger] out@[a], inp[b]) by {
                        if a == out@.len() - 1 {
                            assert(term_matches(out@[a], inp[i as int]));
                        } else {
                            assert(out@[a] == out0[a]);
                            let b = choose|b: int|
                                0 <= b < i && term_matches(out0[a], inp[b]);
                            assert(term_matches(out@[a], inp[b]));
                        }
                    }
                    assert forall|b: int|
                        0 <= b < i + 1 && (#[trigger] inp[b]).1.value != 0 implies exists|a: int|
                        0 <= a < out@.len() && term_matches(out@[a], inp[b]) by {
                        if b == i {
                            assert(term_matches(out@[out@.len() - 1], inp[b]));
                        } else {
                            let a0 = choose|a: int|
                                0 <= a < out0.len() && term_matches(out0[a], inp[b]);
                            assert(out@[a0] == out0[a0]);
                            assert(term_matches(out@[a0], inp[b]));
                        }
                    }
                }
            }
            i = i + 1;
        }
        proof {
            assert(inp.take(inp.len() as int) =~= inp);
        }
        let r = MPolynomial { dictionary: out };
        proof {
            assert forall|a: int| 0 <= a < r.dictionary@.len() implies exists|b: int|
                0 <= b < dictionary@.len() && term_matches(
                #[trigger] r.dictionary@[a],
                dictionary@[b],
            ) by {
                let b = choose|b: int| 0 <= b < inp.len() && term_matches(r.dictionary@[a], inp[b]);
                assert(term_matches(r.dictionary@[a], dictionary@[b]));
            }
            assert forall|a: int| 0 <= a < r.dictionary@.len() implies (
            #[trigger] r.dictionary@[a]).1.wf() && r.dictionary@[a].1.value != 0
                && r.dictionary@[a].1.field == r.dictionary@[0].1.field by {
                let b = choose|b: int|
                    0 <= b < inp.len() && term_matches(r.dictionary@[a], inp[b]);
                let b0 = choose|b: int|
                    0 <= b < inp.len() && term_matches(r.dictionary@[0], inp[b]);
            }
            assert forall|f: Field| #[trigger] terms_in_weak(inp, f) implies terms_in(
                r.dictionary@,
                f,
            ) by {
                assert forall|a: int| 0 <= a < r.dictionary@.len() implies (
                #[trigger] r.dictionary@[a]).1.field == f && r.dictionary@[a].1.value
                    < f.modulus() && r.dictionary@[a].1.value != 0 by {
                    let b = choose|b: int|
                        0 <= b < inp.len() && term_matches(r.dictionary@[a], inp[b]);
                }
            }
            assert forall|n: int| #[trigger] key_lens_at_most(inp, n) implies key_lens_at_most(
                r.dictionary@,
                n,
            ) by {
                assert forall|a: int| 0 <= a < r.dictionary@.len() implies (
                #[trigger] r.dictionary@[a]).0@.len() <= n by {
                    let b = choose|b: int|
                        0 <= b < inp.len() && term_matches(r.dictionary@[a], inp[b]);
                }
            }
            assert forall|bb: u128| #[trigger] key_bound(inp, bb) implies key_bound(
                r.dictionary@,
                bb,
            ) by {
                assert forall|a: int, cc: int|
                    0 <= a < r.dictionary@.len() && 0 <= cc
                        < r.dictionary@[a].0@.len() implies (#[trigger] r.dictionary@[a].0@[cc])
                    <= bb by {
                    let b = choose|b: int|
                        0 <= b < inp.len() && term_matches(r.dictionary@[a], inp[b]);
                    assert(inp[b].0@[cc] <= bb);
                }
            }
        }
        r
    }

    /// The zero polynomial: no terms.
    pub fn zero() -> (r: MPolynomial)
        ensures
            r.wf(),
            r.dictionary@.len() == 0,
            forall|pt: Seq<int>| #[trigger] meval(r.dictionary@, pt) == 0,
    {
        MPolynomial { dictionary: Vec::new() }
    }

    /// The constant polynomial with the given value: a single term with an
    /// empty exponent vector, or no term at all for zero.
    pub fn constant(element: FieldElement) -> (r: MPolynomial)
        requires
            element.wf(),
        ensures
            r.wf(),
            r.in_fld(element.field),
            forall|pt: Seq<int>| #[trigger] meval(r.dictionary@, pt) == element.value,
            key_lens_at_most(r.dictionary@, 0),
            element.value == 0 ==> r.dictionary@.len() == 0,
            element.value != 0 ==> r.dictionary@.len() == 1,
    {
        if element.is_zero() {
            MPolynomial { dictionary: Vec::new() }
        } else {
            let mut d: Vec<(Vec<u128>, FieldElement)> = Vec::new();
            let k: Vec<u128> = Vec::new();
            d.push((k, element));
            let r = MPolynomial { dictionary: d };
            proof {
                assert forall|pt: Seq<int>| #[trigger] meval(r.dictionary@, pt)
                    == element.value by {
                    assert(r.dictionary@[0].0@ =~= Seq::<u128>::empty());
                    assert(mono(r.dictionary@[0].0@, pt) == 1);
                    assert(meval(r.dictionary@.drop_first(), pt) == 0);
                    assert(element.value as int * 1 == element.value as int);
                }
            }
            r
        }
    }

    /// The number of variables: the largest exponent-vector length.
    pub fn num_vars(&self) -> (r: usize)
        ensures
            r as int == max_key_len(self.dictionary@),
            key_lens_at_most(self.dictionary@, r as int),
            self.dictionary@.len() == 0 ==> r == 0,
            self.dictionary@.len() > 0 ==> exists|i: int|
                0 <= i < self.dictionary@.len() && (#[trigger] self.dictionary@[i]).0@.len()
                    == r as int,
    {
        let mut m: usize = 0;
        let mut i: usize = 0;
        proof {
            assert(self.dictionary@.take(0) =~= Seq::<(Vec<u128>, FieldElement)>::empty());
        }
        while i < self.dictionary.len()
            invariant
                i <= self.dictionary@.len(),
                m as int == max_key_len(self.dictionary@.take(i as int)),
                forall|q: int|
                    0 <= q < i ==> (#[trigger] self.dictionary@[q]).0@.len() <= m as int,
                i > 0 ==> exists|q: int|
                    0 <= q < i && (#[trigger] self.dictionary@[q]).0@.len() == m as int,
                i == 0 ==> m == 0,
            decreases self.dictionary@.len() - i,
        {
            let l = self.dictionary[i].0.len();
            proof {
                let pre = self.dictionary@.take(i as int + 1);
                assert(pre.drop_last() =~= self.dictionary@.take(i as int));
                assert(pre.last() == self.dictionary@[i as int]);
            }
            if l > m || i == 0 {
                m = l;
            }
            i = i + 1;
        }
        proof {
            assert(self.dictionary@.take(self.dictionary@.len() as int) =~= self.dictionary@);
        }
        m
    }

    /// True iff this is the zero polynomial.
    pub fn is_zero(&self) -> (r: bool)
        ensures
            r == (self.dictionary@.len() == 0),
    {
        self.dictionary.len() == 0
    }

    /// The field of the coefficients.
    pub fn field(&self) -> (r: Field)
        requires
            self.dictionary@.len() > 0,
        ensures
            r == self.dictionary@[0].1.field,
    {
        self.dictionary[0].1.field
    }
}

/// The monomial of an all-zero exponent vector is one.
pub(crate) proof fn lemma_mono_zeros(k: Seq<u128>, pt: Seq<int>)
    requires
        forall|c: int| 0 <= c < k.len() ==> #[trigger] k[c] == 0,
    ensures
        mono(k, pt) == 1,
    decreases k.len(),
{
    if k.len() > 0 {
        assert(forall|c: int| 0 <= c < k.len() - 1 ==> #[trigger] k.drop_first()[c] == k[c + 1]);
        lemma_mono_zeros(k.drop_first(), pt.drop_first());
        lemma_pow0(pt[0]);
        assert(1int * 1 == 1);
    }
}

/// The monomial of an exponent vector with a single nonzero entry is the
/// matching power of that coordinate.
pub(crate) proof fn lemma_mono_single(k: Seq<u128>, idx: int, pt: Seq<int>)
    requires
        0 <= idx < k.len(),
        k.len() <= pt.len(),
        forall|c: int| 0 <= c < k.len() && c != idx ==> #[trigger] k[c] == 0,
    ensures
        mono(k, pt) == pow(pt[idx], k[idx] as nat),
    decreases k.len(),
{
    if idx == 0 {
        assert(forall|c: int|
            0 <= c < k.len() - 1 ==> #[trigger] k.drop_first()[c] == k[c + 1]);
        lemma_mono_zeros(k.drop_first(), pt.drop_first());
        assert(pow(pt[0], k[0] as nat) * 1 == pow(pt[0], k[0] as nat));
    } else {
        assert(forall|c: int|
            0 <= c < k.len() - 1 ==> #[trigger] k.drop_first()[c] == k[c + 1]);
        lemma_mono_single(k.drop_first(), idx - 1, pt.drop_first());
        lemma_pow0(pt[0]);
        assert(k[0] == 0);
        assert(pt.drop_first()[idx - 1] == pt[idx]);
        assert(1int * pow(pt[idx], k[idx] as nat) == pow(pt[idx], k[idx] as nat));
    }
}

/// A term list whose coefficients are the negations of another's evaluates
/// to the negation, modulo the modulus.
pub(crate) proof fn lemma_meval_neg(
    ns: Seq<(Vec<u128>, FieldElement)>,
    ts: Seq<(Vec<u128>, FieldElement)>,
    p: int,
    pt: Seq<int>,
)
    requires
        p > 0,
        ns.len() == ts.len(),
        forall|i: int|
            0 <= i < ts.len() ==> (#[trigger] ns[i]).0@ == ts[i].0@ && ns[i].1.value as int
                == fneg(ts[i].1.value as int, p),
    ensures
        meval(ns, pt) % p == (0 - meval(ts, pt)) % p,
    decreases ts.len(),
{
    if ts.len() == 0 {
        lemma_small_mod(0nat, p as nat);
    } else {
        assert(forall|i: int|
            0 <= i < ts.len() - 1 ==> (#[trigger] ns.drop_first()[i]).0@
                == ts.drop_first()[i].0@ && ns.drop_first()[i].1.value as int == fneg(
                ts.drop_first()[i].1.value as int,
                p,
            ));
        lemma_meval_neg(ns.drop_first(), ts.drop_first(), p, pt);
        let m = mono(ts[0].0@, pt);
        let v = ts[0].1.value as int;
        let nv = ns[0].1.value as int;
        assert(ns[0].0@ == ts[0].0@);
        assert(mono(ns[0].0@, pt) == m);
        // nv is congruent to -v.
        assert(nv == (p - v) % p);
        lemma_mod_add_multiples_vanish(0 - v, p);
        assert(nv % p == (0 - v) % p) by {
            lemma_mod_twice(p - v, p);
        }
        // Sum the congruences.
        lemma_mul_mod_noop_left(nv, m, p);
        lemma_mul_mod_noop_left(0 - v, m, p);
        lemma_add_mod_noop(nv * m, meval(ns.drop_first(), pt), p);
        lemma_add_mod_noop((0 - v) * m, 0 - meval(ts.drop_first(), pt), p);
        lemma_mod_twice(0 - meval(ts.drop_first(), pt), p);
        assert((0 - v) * m + (0 - meval(ts.drop_first(), pt)) == 0 - (v * m + meval(
            ts.drop_first(),
            pt,
        ))) by (nonlinear_arith);
        assert(meval(ns, pt) == nv * m + meval(ns.drop_first(), pt));
        assert(meval(ts, pt) == v * m + meval(ts.drop_first(), pt));
    }
}

/// Pads an exponent vector with zeros to the length `n`.
fn pad_to(key: &Vec<u128>, n: usize) -> (r: Vec<u128>)
    requires
        key@.len() <= n,
    ensures
        r@ == pad_key(key@, n as int),
{
    let mut out: Vec<u128> = Vec::new();
    let mut i: usize = 0;
    while i < n
        invariant
            key@.len() <= n,
            i <= n,
            out@.len() == i,
            forall|q: int|
                0 <= q < i ==> out@[q] == (if q < key@.len() {
                    key@[q]
                } else {
                    0u128
                }),
        decreases n - i,
    {
        if i < key.len() {
            out.push(key[i]);
        } else {
            out.push(0);
        }
        i = i + 1;
    }
    proof {
        assert(out@ =~= pad_key(key@, n as int));
    }
    out
}

impl MPolynomial {
    /// One polynomial per variable: the list `x_0, x_1, ..`, each a single
    /// term with coefficient one.
    pub fn variables(num_vars: usize, field: Field) -> (r: Vec<MPolynomial>)
        requires
            field.modulus() > 1,
        ensures
            r@.len() == num_vars,
            forall|i: int|
                0 <= i < num_vars ==> (#[trigger] r@[i]).wf() && r@[i].in_fld(field)
                    && r@[i].dictionary@.len() == 1 && r@[i].dictionary@[0].0@.len()
                    == num_vars && r@[i].dictionary@[0].0@[i] == 1
                    && r@[i].dictionary@[0].1.value == 1 && (forall|c: int|
                    0 <= c < num_vars && c != i ==> #[trigger] r@[i].dictionary@[0].0@[c] == 0),
    {
        let one = field.one();
        proof {
            lemma_small_mod(1nat, field.modulus() as nat);
        }
        let mut out: Vec<MPolynomial> = Vec::new();
        let mut i: usize = 0;
        while i < num_vars
            invariant
                field.modulus() > 1,
                one.field == field,
                one.value == 1,
                one.wf(),
                i <= num_vars,
                out@.len() == i,
                forall|q: int|
                    0 <= q < i ==> (#[trigger] out@[q]).wf() && out@[q].in_fld(field)
                        && out@[q].dictionary@.len() == 1 && out@[q].dictionary@[0].0@.len()
                        == num_vars && out@[q].dictionary@[0].0@[q] == 1
                        && out@[q].dictionary@[0].1.value == 1 && (forall|c: int|
                        0 <= c < num_vars && c != q ==> #[trigger] out@[q].dictionary@[0].0@[c]
                            == 0),
            decreases num_vars - i,
        {
            let mut key: Vec<u128> = Vec::new();
            let mut t: usize = 0;
            while t < num_vars
                invariant
                    t <= num_vars,
                    key@.len() == t,
                    forall|q: int| 0 <= q < t ==> #[trigger] key@[q] == 0,
                decreases num_vars - t,
            {
                key.push(0);
                t = t + 1;
            }
            key.set(i, 1);
            let mut d: Vec<(Vec<u128>, FieldElement)> = Vec::new();
            d.push((key, one));
            out.push(MPolynomial { dictionary: d });
            i = i + 1;
        }
        out
    }

    /// Embeds a univariate polynomial as a multivariate one in the variable
    /// with the given index: term `c * x_i^k` for each nonzero coefficient
    /// `c` of `x^k`. Its value at any long enough point is the univariate
    /// value at that coordinate.
    pub fn lift(polynomial: &Polynomial, variable_index: usize) -> (r: MPolynomial)
        requires
            polynomial.wf(),
            variable_index < usize::MAX,
            polynomial.coeffs@.len() <= u128::MAX,
        ensures
            r.wf(),
            forall|f: Field| #[trigger] polynomial.in_field(f) ==> r.in_fld(f),
            key_lens_at_most(r.dictionary@, variable_index + 1),
            key_bound_from_len(r.dictionary@, polynomial.coeffs@.len() as u128),
            forall|pt: Seq<int>|
                pt.len() > variable_index ==> #[trigger] meval(r.dictionary@, pt) == ev(
                    polynomial.vals(),
                    pt[variable_index as int],
                ),
    {
        let vi = variable_index;
        let mut out: Vec<(Vec<u128>, FieldElement)> = Vec::new();
        let mut i: usize = 0;
        let ghost pv = polynomial.vals();
        while i < polynomial.coeffs.len()
            invariant
                polynomial.wf(),
                vi < usize::MAX,
                polynomial.coeffs@.len() <= u128::MAX,
                pv == polynomial.vals(),
                i <= polynomial.coeffs@.len(),
                forall|a: int|
                    0 <= a < out@.len() ==> (#[trigger] out@[a]).0@.len() == vi + 1
                        && out@[a].0@[vi as int] < i as u128 && (forall|c: int|
                        0 <= c < vi ==> #[trigger] out@[a].0@[c] == 0) && out@[a].1.wf()
                        && out@[a].1.value != 0 && out@[a].1.field == polynomial.coeffs@[0].field,
                forall|a: int, b2: int|
                    0 <= a < b2 < out@.len() ==> (#[trigger] out@[a]).0@[vi as int] < (
                    #[trigger] out@[b2]).0@[vi as int],
                forall|pt: Seq<int>|
                    pt.len() > vi ==> #[trigger] meval(out@, pt) == ev(
                        pv.take(i as int),
                        pt[vi as int],
                    ),
            decreases polynomial.coeffs@.len() - i,
        {
            let c = polynomial.coeffs[i];
            let ghost out0 = out@;
            if c.value != 0 {
                let mut key: Vec<u128> = Vec::new();
                let mut t: usize = 0;
                while t < vi
                    invariant
                        t <= vi,
                        key@.len() == t,
                        forall|q: int| 0 <= q < t ==> #[trigger] key@[q] == 0,
                    decreases vi - t,
                {
                    key.push(0);
                    t = t + 1;
                }
                key.push(i as u128);
                out.push((key, c));
            }
            proof {
                assert(pv.take(i as int + 1) =~= pv.take(i as int).push(pv[i as int]));
                assert forall|pt: Seq<int>| pt.len() > vi implies #[trigger] meval(out@, pt) == ev(
                    pv.take(i as int + 1),
                    pt[vi as int],
                ) by {
                    crate::polynomial::lemma_ev_push(pv.take(i as int), pv[i as int], pt[vi as int]);
                    if c.value != 0 {
                        lemma_meval_push(out0, out@[out@.len() - 1], pt);
                        let k = out@[out@.len() - 1].0@;
                        assert(k.len() == vi + 1 && k[vi as int] == i as u128);
                        lemma_mono_single(k, vi as int, pt);
                        assert(mono(k, pt) == pow(pt[vi as int], i as nat));
                        assert(pv[i as int] == c.value as int);
                    } else {
                        assert(pv[i as int] == 0);
                        assert(0int * pow(pt[vi as int], i as nat) == 0) by (nonlinear_arith);
                    }
                }
            }
            i = i + 1;
        }
        proof {
            assert(pv.take(polynomial.coeffs@.len() as int) =~= pv);
        }
        let r = MPolynomial { dictionary: out };
        proof {
            assert forall|a: int, b2: int| 0 <= a < b2 < r.dictionary@.len() implies (
            #[trigger] r.dictionary@[a]).0@ != (#[trigger] r.dictionary@[b2]).0@ by {
                assert(r.dictionary@[a].0@[vi as int] != r.dictionary@[b2].0@[vi as int]);
            }
            assert forall|f: Field| #[trigger] polynomial.in_field(f) implies r.in_fld(f) by {
                if polynomial.coeffs@.len() > 0 {
                    assert(f == polynomial.coeffs@[0].field);
                }
                assert(terms_in(r.dictionary@, f));
            }
            assert forall|a: int, cc: int|
                0 <= a < r.dictionary@.len() && 0 <= cc < r.dictionary@[a].0@.len() implies (
            #[trigger] r.dictionary@[a].0@[cc]) < polynomial.coeffs@.len() as u128
                || polynomial.coeffs@.len() as u128 == 0 by {
                if cc < vi {
                    assert(r.dictionary@[a].0@[cc] == 0);
                } else {
                    assert(cc == vi);
                }
            }
        }
        r
    }

    /// The additive inverse: every coefficient negated, keys unchanged.
    pub fn neg(&self) -> (r: MPolynomial)
        requires
            self.wf(),
        ensures
            r.wf(),
            r.dictionary@.len() == self.dictionary@.len(),
            forall|i: int|
                0 <= i < self.dictionary@.len() ==> (#[trigger] r.dictionary@[i]).0@
                    == self.dictionary@[i].0@ && r.dictionary@[i].1.field
                    == self.dictionary@[i].1.field,
            forall|f: Field| #[trigger] self.in_fld(f) ==> r.in_fld(f),
            forall|f: Field, pt: Seq<int>|
                #[trigger] self.in_fld(f) ==> #[trigger] meval(r.dictionary@, pt)
                    % f.modulus() as int == (0 - meval(self.dictionary@, pt))
                    % f.modulus() as int,
            forall|n: int|
                key_lens_at_most(self.dictionary@, n) ==> key_lens_at_most(r.dictionary@, n),
            forall|b: u128| key_bound(self.dictionary@, b) ==> key_bound(r.dictionary@, b),
    {
        let mut out: Vec<(Vec<u128>, FieldElement)> = Vec::new();
        let mut i: usize = 0;
        while i < self.dictionary.len()
            invariant
                self.wf(),
                i <= self.dictionary@.len(),
                out@.len() == i,
                forall|a: int|
                    0 <= a < i ==> (#[trigger] out@[a]).0@ == self.dictionary@[a].0@
                        && out@[a].1.field == self.dictionary@[a].1.field && out@[a].1.wf()
                        && out@[a].1.value != 0 && out@[a].1.value as int == fneg(
                        self.dictionary@[a].1.value as int,
                        self.dictionary@[a].1.field.modulus() as int,
                    ),
            decreases self.dictionary@.len() - i,
        {
            let k = copy_key(&self.dictionary[i].0);
            let c = self.dictionary[i].1.neg();
            out.push((k, c));
            i = i + 1;
        }
        let r = MPolynomial { dictionary: out };
        proof {
            assert forall|f: Field, pt: Seq<int>| #[trigger] self.in_fld(f) implies
                #[trigger] meval(r.dictionary@, pt) % f.modulus() as int == (0 - meval(
                self.dictionary@,
                pt,
            )) % f.modulus() as int by {
                lemma_meval_neg(r.dictionary@, self.dictionary@, f.modulus() as int, pt);
            }
        }
        r
    }
}

/// The two polynomials' coefficients lie in one common field.
pub open spec fn mshares(a: MPolynomial, b: MPolynomial) -> bool {
    forall|i: int, j: int|
        0 <= i < a.dictionary@.len() && 0 <= j < b.dictionary@.len() ==> (
        #[trigger] a.dictionary@[i]).1.field == (#[trigger] b.dictionary@[j]).1.field
}

/// The coordinate-wise sum of two exponent vectors, both padded to length
/// `n`.
fn key_sum(a: &Vec<u128>, b: &Vec<u128>, n: usize) -> (r: Vec<u128>)
    requires
        a@.len() <= n,
        b@.len() <= n,
        forall|c: int|
            0 <= c < a@.len() && c < b@.len() ==> #[trigger] (a@[c] + b@[c]) <= u128::MAX,
    ensures
        r@.len() == n,
        forall|c: int|
            0 <= c < n ==> #[trigger] r@[c] as int == pad_key(a@, n as int)[c] + pad_key(
                b@,
                n as int,
            )[c],
{
    let mut out: Vec<u128> = Vec::new();
    let mut c: usize = 0;
    while c < n
        invariant
            a@.len() <= n,
            b@.len() <= n,
            forall|q: int|
                0 <= q < a@.len() && q < b@.len() ==> #[trigger] (a@[q] + b@[q]) <= u128::MAX,
            c <= n,
            out@.len() == c,
            forall|q: int|
                0 <= q < c ==> #[trigger] out@[q] as int == pad_key(a@, n as int)[q] + pad_key(
                    b@,
                    n as int,
                )[q],
        decreases n - c,
    {
        let va: u128 = if c < a.len() {
            a[c]
        } else {
            0
        };
        let vb: u128 = if c < b.len() {
            b[c]
        } else {
            0
        };
        out.push(va + vb);
        c = c + 1;
    }
    out
}

impl MPolynomial {
    /// Sum: terms are padded to the larger variable count and combined; a
    /// term whose coefficients cancel is absent from the result.
    pub fn add(&self, rhs: &MPolynomial) -> (r: MPolynomial)
        requires
            self.wf(),
            rhs.wf(),
            mshares(*self, *rhs),
        ensures
            r.wf(),
            forall|f: Field|
                (#[trigger] self.in_fld(f) && #[trigger] rhs.in_fld(f)) ==> r.in_fld(f),
            forall|f: Field, pt: Seq<int>|
                (#[trigger] self.in_fld(f) && #[trigger] rhs.in_fld(f) && key_lens_at_most(
                    self.dictionary@,
                    pt.len() as int,
                ) && key_lens_at_most(rhs.dictionary@, pt.len() as int)) ==> #[trigger] meval(
                    r.dictionary@,
                    pt,
                ) % f.modulus() as int == (meval(self.dictionary@, pt) + meval(
                    rhs.dictionary@,
                    pt,
                )) % f.modulus() as int,
            forall|n: int|
                key_lens_at_most(self.dictionary@, n) && key_lens_at_most(rhs.dictionary@, n)
                    ==> key_lens_at_most(r.dictionary@, n),
            forall|b: u128|
                key_bound(self.dictionary@, b) && key_bound(rhs.dictionary@, b) ==> key_bound(
                    r.dictionary@,
                    b,
                ),
            r.dictionary@.len() > 0 ==> max_key_len(r.dictionary@) == imax(
                max_key_len(self.dictionary@),
                max_key_len(rhs.dictionary@),
            ),
    {
        if self.dictionary.len() == 0 && rhs.dictionary.len() == 0 {
            let r = MPolynomial { dictionary: Vec::new() };
            proof {
                assert forall|f: Field, pt: Seq<int>|
                    (#[trigger] self.in_fld(f) && #[trigger] rhs.in_fld(f) && key_lens_at_most(
                        self.dictionary@,
                        pt.len() as int,
                    ) && key_lens_at_most(rhs.dictionary@, pt.len() as int)) implies
                    #[trigger] meval(r.dictionary@, pt) % f.modulus() as int == (meval(
                    self.dictionary@,
                    pt,
                ) + meval(rhs.dictionary@, pt)) % f.modulus() as int by {
                    lemma_small_mod(0nat, f.modulus() as nat);
                }
            }
            return r;
        }
        let nva = self.num_vars();
        let nvb = rhs.num_vars();
        let nv = if nva > nvb {
            nva
        } else {
            nvb
        };
        let ghost ff = if self.dictionary@.len() > 0 {
            self.dictionary@[0].1.field
        } else {
            rhs.dictionary@[0].1.field
        };
        let ghost pm = ff.modulus() as int;
        let mut out: Vec<(Vec<u128>, FieldElement)> = Vec::new();
        proof {
            lemma_small_mod(0nat, ff.modulus() as nat);
        }
        let mut i: usize = 0;
        while i < self.dictionary.len()
            invariant
                self.wf(),
                rhs.wf(),
                mshares(*self, *rhs),
                self.dictionary@.len() + rhs.dictionary@.len() > 0,
                ff == (if self.dictionary@.len() > 0 {
                    self.dictionary@[0].1.field
                } else {
                    rhs.dictionary@[0].1.field
                }),
                pm == ff.modulus() as int,
                pm > 0,
                key_lens_at_most(self.dictionary@, nv as int),
                key_lens_at_most(rhs.dictionary@, nv as int),
                i <= self.dictionary@.len(),
                keys_distinct(out@),
                terms_in(out@, ff),
                key_lens_at_most(out@, nv as int),
                key_lens_exact(out@, nv as int),
                nv as int == imax(max_key_len(self.dictionary@), max_key_len(rhs.dictionary@)),
                forall|b: u128|
                    key_bound(self.dictionary@, b) && key_bound(rhs.dictionary@, b)
                        ==> key_bound(out@, b),
                forall|pt: Seq<int>|
                    pt.len() >= nv ==> #[trigger] meval(out@, pt) % pm == meval(
                        self.dictionary@.take(i as int),
                        pt,
                    ) % pm,
            decreases self.dictionary@.len() - i,
        {
            let k = pad_to(&self.dictionary[i].0, nv);
            let c = self.dictionary[i].1;
            let ghost out0 = out@;
            insert_term(&mut out, k, c);
            proof {
                assert(self.dictionary@.take(i as int + 1) =~= self.dictionary@.take(
                    i as int,
                ).push(self.dictionary@[i as int]));
                assert forall|pt: Seq<int>| pt.len() >= nv implies #[trigger] meval(out@, pt) % pm
                    == meval(self.dictionary@.take(i as int + 1), pt) % pm by {
                    lemma_meval_push(
                        self.dictionary@.take(i as int),
                        self.dictionary@[i as int],
                        pt,
                    );
                    lemma_mono_pad(self.dictionary@[i as int].0@, pt, nv as int);
                    let m = mono(self.dictionary@[i as int].0@, pt);
                    let cm = c.value as int * m;
                    let before = meval(self.dictionary@.take(i as int), pt);
                    assert(meval(out@, pt) % pm == (meval(out0, pt) + cm) % pm);
                    lemma_add_mod_noop(meval(out0, pt), cm, pm);
                    lemma_add_mod_noop(before, cm, pm);
                    lemma_mod_twice(cm, pm);
                }
            }
            i = i + 1;
        }
        proof {
            assert(self.dictionary@.take(self.dictionary@.len() as int) =~= self.dictionary@);
        }
        let mut j: usize = 0;
        while j < rhs.dictionary.len()
            invariant
                self.wf(),
                rhs.wf(),
                mshares(*self, *rhs),
                self.dictionary@.len() + rhs.dictionary@.len() > 0,
                ff == (if self.dictionary@.len() > 0 {
                    self.dictionary@[0].1.field
                } else {
                    rhs.dictionary@[0].1.field
                }),
                pm == ff.modulus() as int,
                pm > 0,
                key_lens_at_most(self.dictionary@, nv as int),
                key_lens_at_most(rhs.dictionary@, nv as int),
                j <= rhs.dictionary@.len(),
                keys_distinct(out@),
                terms_in(out@, ff),
                key_lens_at_most(out@, nv as int),
                key_lens_exact(out@, nv as int),
                nv as int == imax(max_key_len(self.dictionary@), max_key_len(rhs.dictionary@)),
                forall|b: u128|
                    key_bound(self.dictionary@, b) && key_bound(rhs.dictionary@, b)
                        ==> key_bound(out@, b),
                forall|pt: Seq<int>|
                    pt.len() >= nv ==> #[trigger] meval(out@, pt) % pm == (meval(
                        self.dictionary@,
                        pt,
                    ) + meval(rhs.dictionary@.take(j as int), pt)) % pm,
            decreases rhs.dictionary@.len() - j,
        {
            let k = pad_to(&rhs.dictionary[j].0, nv);
            let c = rhs.dictionary[j].1;
            let ghost out0 = out@;
            insert_term(&mut out, k, c);
            proof {
                assert(rhs.dictionary@.take(j as int + 1) =~= rhs.dictionary@.take(j as int).push(
                    rhs.dictionary@[j as int],
                ));
                assert forall|pt: Seq<int>| pt.len() >= nv implies #[trigger] meval(out@, pt) % pm
                    == (meval(self.dictionary@, pt) + meval(
                    rhs.dictionary@.take(j as int + 1),
                    pt,
                )) % pm by {
                    lemma_meval_push(rhs.dictionary@.take(j as int), rhs.dictionary@[j as int], pt);
                    lemma_mono_pad(rhs.dictionary@[j as int].0@, pt, nv as int);
                    let m = mono(rhs.dictionary@[j as int].0@, pt);
                    let cm = c.value as int * m;
                    let before = meval(self.dictionary@, pt) + meval(
                        rhs.dictionary@.take(j as int),
                        pt,
                    );
                    assert(meval(out@, pt) % pm == (meval(out0, pt) + cm) % pm);
                    lemma_add_mod_noop(meval(out0, pt), cm, pm);
                    lemma_add_mod_noop(before, cm, pm);
                    lemma_mod_twice(cm, pm);
                }
            }
            j = j + 1;
        }
        proof {
            assert(rhs.dictionary@.take(rhs.dictionary@.len() as int) =~= rhs.dictionary@);
        }
        let r = MPolynomial { dictionary: out };
        proof {
            if r.dictionary@.len() > 0 {
                lemma_max_key_len_exact(r.dictionary@, nv as int);
            }
            assert forall|f: Field, pt: Seq<int>|
                (#[trigger] self.in_fld(f) && #[trigger] rhs.in_fld(f) && key_lens_at_most(
                    self.dictionary@,
                    pt.len() as int,
                ) && key_lens_at_most(rhs.dictionary@, pt.len() as int)) implies #[trigger] meval(
                r.dictionary@,
                pt,
            ) % f.modulus() as int == (meval(self.dictionary@, pt) + meval(rhs.dictionary@, pt))
                % f.modulus() as int by {
                assert(f == ff);
                assert(pt.len() >= nv) by {
                    if nv > 0 {
                        if nva > nvb {
                            let w = choose|w: int|
                                0 <= w < self.dictionary@.len() && (
                                #[trigger] self.dictionary@[w]).0@.len() == nva as int;
                            assert(self.dictionary@[w].0@.len() <= pt.len());
                        } else {
                            let w = choose|w: int|
                                0 <= w < rhs.dictionary@.len() && (
                                #[trigger] rhs.dictionary@[w]).0@.len() == nvb as int;
                            assert(rhs.dictionary@[w].0@.len() <= pt.len());
                        }
                    }
                }
            }
        }
        r
    }

    /// Difference: the sum with the negated right operand.
    pub fn sub(&self, rhs: &MPolynomial) -> (r: MPolynomial)
        requires
            self.wf(),
            rhs.wf(),
            mshares(*self, *rhs),
        ensures
            r.wf(),
            forall|f: Field|
                (#[trigger] self.in_fld(f) && #[trigger] rhs.in_fld(f)) ==> r.in_fld(f),
            forall|f: Field, pt: Seq<int>|
                (#[trigger] self.in_fld(f) && #[trigger] rhs.in_fld(f) && key_lens_at_most(
                    self.dictionary@,
                    pt.len() as int,
                ) && key_lens_at_most(rhs.dictionary@, pt.len() as int)) ==> #[trigger] meval(
                    r.dictionary@,
                    pt,
                ) % f.modulus() as int == (meval(self.dictionary@, pt) - meval(
                    rhs.dictionary@,
                    pt,
                )) % f.modulus() as int,
            forall|n: int|
                key_lens_at_most(self.dictionary@, n) && key_lens_at_most(rhs.dictionary@, n)
                    ==> key_lens_at_most(r.dictionary@, n),
            forall|b: u128|
                key_bound(self.dictionary@, b) && key_bound(rhs.dictionary@, b) ==> key_bound(
                    r.dictionary@,
                    b,
                ),
            r.dictionary@.len() > 0 ==> max_key_len(r.dictionary@) == imax(
                max_key_len(self.dictionary@),
                max_key_len(rhs.dictionary@),
            ),
    {
        let nb = rhs.neg();
        proof {
            assert(mshares(*self, nb)) by {
                assert(forall|j: int|
                    0 <= j < nb.dictionary@.len() ==> (#[trigger] nb.dictionary@[j]).1.field
                        == rhs.dictionary@[j].1.field);
            }
        }
        let r = self.add(&nb);
        proof {
            assert(max_key_len(nb.dictionary@) == max_key_len(rhs.dictionary@)) by {
                assert(forall|q: int|
                    0 <= q < nb.dictionary@.len() ==> (#[trigger] nb.dictionary@[q]).0@.len()
                        == rhs.dictionary@[q].0@.len());
                lemma_max_key_len_matches(nb.dictionary@, rhs.dictionary@);
            }
            assert forall|f: Field, pt: Seq<int>|
                (#[trigger] self.in_fld(f) && #[trigger] rhs.in_fld(f) && key_lens_at_most(
                    self.dictionary@,
                    pt.len() as int,
                ) && key_lens_at_most(rhs.dictionary@, pt.len() as int)) implies #[trigger] meval(
                r.dictionary@,
                pt,
            ) % f.modulus() as int == (meval(self.dictionary@, pt) - meval(rhs.dictionary@, pt))
                % f.modulus() as int by {
                let p = f.modulus() as int;
                assert(rhs.in_fld(f) ==> nb.in_fld(f));
                assert(key_lens_at_most(nb.dictionary@, pt.len() as int)) by {
                    assert(forall|q: int|
                        0 <= q < nb.dictionary@.len() ==> (#[trigger] nb.dictionary@[q]).0@
                            == rhs.dictionary@[q].0@);
                }
                assert(meval(r.dictionary@, pt) % p == (meval(self.dictionary@, pt) + meval(
                    nb.dictionary@,
                    pt,
                )) % p);
                assert(meval(nb.dictionary@, pt) % p == (0 - meval(rhs.dictionary@, pt)) % p);
                lemma_add_mod_noop_right(meval(self.dictionary@, pt), meval(nb.dictionary@, pt), p);
                lemma_add_mod_noop_right(
                    meval(self.dictionary@, pt),
                    0 - meval(rhs.dictionary@, pt),
                    p,
                );
            }
        }
        r
    }

    /// Product: every pair of terms multiplies, the exponent vectors adding
    /// coordinate by coordinate after padding to the common variable count.
    pub fn mul(&self, rhs: &MPolynomial) -> (r: MPolynomial)
        requires
            self.wf(),
            rhs.wf(),
            mshares(*self, *rhs),
            forall|i: int, j: int, c: int|
                0 <= i < self.dictionary@.len() && 0 <= j < rhs.dictionary@.len() && 0 <= c
                    < self.dictionary@[i].0@.len() && c < rhs.dictionary@[j].0@.len()
                    ==> #[trigger] (self.dictionary@[i].0@[c] + rhs.dictionary@[j].0@[c])
                    <= u128::MAX,
        ensures
            r.wf(),
            forall|f: Field|
                (#[trigger] self.in_fld(f) && #[trigger] rhs.in_fld(f)) ==> r.in_fld(f),
            forall|f: Field, pt: Seq<int>|
                (#[trigger] self.in_fld(f) && #[trigger] rhs.in_fld(f) && key_lens_at_most(
                    self.dictionary@,
                    pt.len() as int,
                ) && key_lens_at_most(rhs.dictionary@, pt.len() as int)) ==> #[trigger] meval(
                    r.dictionary@,
                    pt,
                ) % f.modulus() as int == (meval(self.dictionary@, pt) * meval(
                    rhs.dictionary@,
                    pt,
                )) % f.modulus() as int,
            forall|n: int|
                key_lens_at_most(self.dictionary@, n) && key_lens_at_most(rhs.dictionary@, n)
                    ==> key_lens_at_most(r.dictionary@, n),
            forall|b1: u128, b2: u128|
                key_bound(self.dictionary@, b1) && key_bound(rhs.dictionary@, b2) && b1 + b2
                    <= u128::MAX ==> key_bound(r.dictionary@, (b1 + b2) as u128),
            (self.dictionary@.len() == 0 || rhs.dictionary@.len() == 0)
                ==> r.dictionary@.len() == 0,
            r.dictionary@.len() > 0 ==> max_key_len(r.dictionary@) == imax(
                max_key_len(self.dictionary@),
                max_key_len(rhs.dictionary@),
            ),
            keys_from_products(
                r.dictionary@,
                self.dictionary@,
                rhs.dictionary@,
                imax(max_key_len(self.dictionary@), max_key_len(rhs.dictionary@)),
            ),
    {
        if self.dictionary.len() == 0 || rhs.dictionary.len() == 0 {
            let r = MPolynomial { dictionary: Vec::new() };
            proof {
                assert forall|f: Field, pt: Seq<int>|
                    (#[trigger] self.in_fld(f) && #[trigger] rhs.in_fld(f) && key_lens_at_most(
                        self.dictionary@,
                        pt.len() as int,
                    ) && key_lens_at_most(rhs.dictionary@, pt.len() as int)) implies
                    #[trigger] meval(r.dictionary@, pt) % f.modulus() as int == (meval(
                    self.dictionary@,
                    pt,
                ) * meval(rhs.dictionary@, pt)) % f.modulus() as int by {
                    lemma_small_mod(0nat, f.modulus() as nat);
                    assert(meval(self.dictionary@, pt) * meval(rhs.dictionary@, pt) == 0)
                        by (nonlinear_arith)
                        requires
                            meval(self.dictionary@, pt) == 0 || meval(rhs.dictionary@, pt) == 0,
                    ;
                }
            }
            return r;
        }
        let nva = self.num_vars();
        let nvb = rhs.num_vars();
        let nv = if nva > nvb {
            nva
        } else {
            nvb
        };
        let ghost ff = self.dictionary@[0].1.field;
        let ghost pm = ff.modulus() as int;
        let ghost av = self.dictionary@;
        let ghost bv = rhs.dictionary@;
        let mut out: Vec<(Vec<u128>, FieldElement)> = Vec::new();
        proof {
            lemma_small_mod(0nat, ff.modulus() as nat);
        }
        let mut i: usize = 0;
        while i < self.dictionary.len()
            invariant
                self.wf(),
                rhs.wf(),
                mshares(*self, *rhs),
                av == self.dictionary@,
                bv == rhs.dictionary@,
                av.len() > 0,
                bv.len() > 0,
                forall|i2: int, j2: int, c: int|
                    0 <= i2 < av.len() && 0 <= j2 < bv.len() && 0 <= c < av[i2].0@.len() && c
                        < bv[j2].0@.len() ==> #[trigger] (av[i2].0@[c] + bv[j2].0@[c])
                        <= u128::MAX,
                ff == av[0].1.field,
                pm == ff.modulus() as int,
                pm > 0,
                key_lens_at_most(av, nv as int),
                key_lens_at_most(bv, nv as int),
                i <= av.len(),
                keys_distinct(out@),
                terms_in(out@, ff),
                key_lens_at_most(out@, nv as int),
                key_lens_exact(out@, nv as int),
                nv as int == imax(max_key_len(av), max_key_len(bv)),
                keys_from_products(out@, av, bv, nv as int),
                forall|b1: u128, b2: u128|
                    key_bound(av, b1) && key_bound(bv, b2) && b1 + b2 <= u128::MAX
                        ==> key_bound(out@, (b1 + b2) as u128),
                forall|pt: Seq<int>|
                    pt.len() >= nv ==> #[trigger] meval(out@, pt) % pm == (meval(
                        av.take(i as int),
                        pt,
                    ) * meval(bv, pt)) % pm,
            decreases av.len() - i,
        {
            let ghost i0 = i as int;
            let mut j: usize = 0;
            while j < rhs.dictionary.len()
                invariant
                    self.wf(),
                    rhs.wf(),
                    mshares(*self, *rhs),
                    av == self.dictionary@,
                    bv == rhs.dictionary@,
                    av.len() > 0,
                    bv.len() > 0,
                    forall|i2: int, j2: int, c: int|
                        0 <= i2 < av.len() && 0 <= j2 < bv.len() && 0 <= c < av[i2].0@.len() && c
                            < bv[j2].0@.len() ==> #[trigger] (av[i2].0@[c] + bv[j2].0@[c])
                            <= u128::MAX,
                    ff == av[0].1.field,
                    pm == ff.modulus() as int,
                    pm > 0,
                    key_lens_at_most(av, nv as int),
                    key_lens_at_most(bv, nv as int),
                    i0 == i as int,
                    i < av.len(),
                    j <= bv.len(),
                    keys_distinct(out@),
                    terms_in(out@, ff),
                    key_lens_at_most(out@, nv as int),
                    key_lens_exact(out@, nv as int),
                    nv as int == imax(max_key_len(av), max_key_len(bv)),
                    keys_from_products(out@, av, bv, nv as int),
                    forall|b1: u128, b2: u128|
                        key_bound(av, b1) && key_bound(bv, b2) && b1 + b2 <= u128::MAX
                            ==> key_bound(out@, (b1 + b2) as u128),
                    forall|pt: Seq<int>|
                        pt.len() >= nv ==> #[trigger] meval(out@, pt) % pm == (meval(
                            av.take(i0),
                            pt,
                        ) * meval(bv, pt) + av[i0].1.value as int * mono(av[i0].0@, pt) * meval(
                            bv.take(j as int),
                            pt,
                        )) % pm,
                decreases bv.len() - j,
            {
                let ka = &self.dictionary[i].0;
                let kb = &rhs.dictionary[j].0;
                proof {
                    assert(forall|c: int|
                        0 <= c < ka@.len() && c < kb@.len() ==> #[trigger] (ka@[c] + kb@[c])
                            <= u128::MAX);
                }
                let ks = key_sum(ka, kb, nv);
                proof {
                    assert(ks@ =~= key_sum_spec(av[i0].0@, bv[j as int].0@, nv as int));
                }
                let cprod = self.dictionary[i].1.mul(rhs.dictionary[j].1);
                let ghost out0 = out@;
                let ghost aval = av[i0].1.value as int;
                let ghost bval = bv[j as int].1.value as int;
                if cprod.value != 0 {
                    insert_term(&mut out, ks, cprod);
                    proof {
                        assert forall|q: int| 0 <= q < out@.len() implies exists|i2: int, j2: int|
                            0 <= i2 < av.len() && 0 <= j2 < bv.len() && (#[trigger] out@[q]).0@
                                == key_sum_spec(av[i2].0@, bv[j2].0@, nv as int) by {
                            if out@[q].0@ == key_sum_spec(av[i0].0@, bv[j as int].0@, nv as int) {
                            } else {
                                let b = choose|b: int|
                                    0 <= b < out0.len() && out@[q].0@ == out0[b].0@;
                                assert(exists|i2: int, j2: int|
                                    0 <= i2 < av.len() && 0 <= j2 < bv.len() && (
                                    #[trigger] out0[b]).0@ == key_sum_spec(
                                        av[i2].0@,
                                        bv[j2].0@,
                                        nv as int,
                                    ));
                            }
                        }
                        assert(keys_from_products(out@, av, bv, nv as int));
                    }
                }
                proof {
                    assert(bv.take(j as int + 1) =~= bv.take(j as int).push(bv[j as int]));
                    assert forall|pt: Seq<int>| pt.len() >= nv implies #[trigger] meval(out@, pt)
                        % pm == (meval(av.take(i0), pt) * meval(bv, pt) + av[i0].1.value as int
                        * mono(av[i0].0@, pt) * meval(bv.take(j as int + 1), pt)) % pm by {
                        lemma_meval_push(bv.take(j as int), bv[j as int], pt);
                        let mka = mono(av[i0].0@, pt);
                        let mkb = mono(bv[j as int].0@, pt);
                        // mono of the summed, padded key is the product.
                        lemma_mono_pad(av[i0].0@, pt, nv as int);
                        lemma_mono_pad(bv[j as int].0@, pt, nv as int);
                        let pka = pad_key(av[i0].0@, nv as int);
                        let pkb = pad_key(bv[j as int].0@, nv as int);
                        assert(forall|c: int|
                            0 <= c < pka.len() ==> #[trigger] (pka[c] + pkb[c]) <= u128::MAX);
                        lemma_mono_add(pka, pkb, pt);
                        assert(ks@ =~= Seq::new(pka.len(), |c: int| (pka[c] + pkb[c]) as u128));
                        assert(mono(ks@, pt) == mka * mkb);
                        // The inserted coefficient is the reduced product of
                        // the two term coefficients.
                        let base = meval(av.take(i0), pt) * meval(bv, pt) + aval * mka * meval(
                            bv.take(j as int),
                            pt,
                        );
                        let add_term = aval * mkb * bval * mka;
                        assert(aval * mka * meval(bv.take(j as int + 1), pt) == aval * mka * meval(
                            bv.take(j as int),
                            pt,
                        ) + (aval * bval) * (mka * mkb)) by (nonlinear_arith)
                            requires
                                meval(bv.take(j as int + 1), pt) == meval(bv.take(j as int), pt)
                                    + bval * mkb,
                        ;
                        if cprod.value != 0 {
                            assert(meval(out@, pt) % pm == (meval(out0, pt) + cprod.value as int
                                * mono(ks@, pt)) % pm);
                            lemma_mod_add_left_general(
                                meval(out0, pt),
                                aval * bval,
                                mka * mkb,
                                pm,
                            );
                            assert(meval(out@, pt) % pm == (meval(out0, pt) + (aval * bval) * (mka
                                * mkb)) % pm);
                            lemma_add_mod_noop(meval(out0, pt), (aval * bval) * (mka * mkb), pm);
                            lemma_add_mod_noop(base, (aval * bval) * (mka * mkb), pm);
                            lemma_mod_twice((aval * bval) * (mka * mkb), pm);
                        } else {
                            // The reduced product vanished: the true product
                            // contributes nothing modulo pm.
                            assert((aval * bval) % pm == 0);
                            lemma_add_mod_noop(meval(out0, pt), 0, pm);
                            lemma_add_mod_noop(base, (aval * bval) * (mka * mkb), pm);
                            lemma_mul_mod_noop_left(aval * bval, mka * mkb, pm);
                            assert((0int * (mka * mkb)) == 0) by (nonlinear_arith);
                            lemma_mod_twice((aval * bval) * (mka * mkb), pm);
                            lemma_small_mod(0nat, ff.modulus() as nat);
                            assert(((aval * bval) * (mka * mkb)) % pm == 0);
                            lemma_add_mod_noop(meval(out0, pt), (aval * bval) * (mka * mkb), pm);
                        }
                    }
                }
                j = j + 1;
            }
            proof {
                assert(av.take(i0 + 1) =~= av.take(i0).push(av[i0]));
                assert(bv.take(bv.len() as int) =~= bv);
                assert forall|pt: Seq<int>| pt.len() >= nv implies #[trigger] meval(out@, pt) % pm
                    == (meval(av.take(i0 + 1), pt) * meval(bv, pt)) % pm by {
                    lemma_meval_push(av.take(i0), av[i0], pt);
                    assert(meval(av.take(i0 + 1), pt) * meval(bv, pt) == meval(av.take(i0), pt)
                        * meval(bv, pt) + av[i0].1.value as int * mono(av[i0].0@, pt) * meval(
                        bv,
                        pt,
                    )) by (nonlinear_arith)
                        requires
                            meval(av.take(i0 + 1), pt) == meval(av.take(i0), pt)
                                + av[i0].1.value as int * mono(av[i0].0@, pt),
                    ;
                }
            }
            i = i + 1;
        }
        proof {
            assert(av.take(av.len() as int) =~= av);
        }
        let r = MPolynomial { dictionary: out };
        proof {
            if r.dictionary@.len() > 0 {
                lemma_max_key_len_exact(r.dictionary@, nv as int);
            }
            assert forall|f: Field, pt: Seq<int>|
                (#[trigger] self.in_fld(f) && #[trigger] rhs.in_fld(f) && key_lens_at_most(
                    self.dictionary@,
                    pt.len() as int,
                ) && key_lens_at_most(rhs.dictionary@, pt.len() as int)) implies #[trigger] meval(
                r.dictionary@,
                pt,
            ) % f.modulus() as int == (meval(self.dictionary@, pt) * meval(rhs.dictionary@, pt))
                % f.modulus() as int by {
                assert(f == ff);
                assert(pt.len() >= nv) by {
                    if nva > nvb {
                        let w = choose|w: int|
                            0 <= w < av.len() && (#[trigger] av[w]).0@.len() == nva as int;
                        assert(av[w].0@.len() <= pt.len());
                    } else {
                        let w = choose|w: int|
                            0 <= w < bv.len() && (#[trigger] bv[w]).0@.len() == nvb as int;
                        assert(bv[w].0@.len() <= pt.len());
                    }
                }
            }
        }
        r
    }
}

/// Every polynomial of the list lies in the field `f`.
pub open spec fn polys_in(ps: Seq<Polynomial>, f: Field) -> bool {
    forall|j: int| 0 <= j < ps.len() ==> (#[trigger] ps[j]).in_field(f)
}

/// The combined length budget of the first `i` coordinates of one term
/// under a substitution: the degree its partial product can reach, each
/// coordinate contributing its exponent times the substituted polynomial's
/// degree.
pub open spec fn sym_budget(k: Seq<u128>, pts: Seq<Polynomial>, i: int) -> int
    decreases i,
{
    if i <= 0 {
        0
    } else {
        sym_budget(k, pts, i - 1) + (if pts[i - 1].coeffs@.len() == 0 {
            0
        } else {
            k[i - 1] * (pts[i - 1].coeffs@.len() - 1)
        })
    }
}

/// The budget grows with the number of coordinates counted.
pub(crate) proof fn lemma_sym_budget_mono(k: Seq<u128>, pts: Seq<Polynomial>, i: int, j: int)
    requires
        0 <= i <= j,
    ensures
        sym_budget(k, pts, i) <= sym_budget(k, pts, j),
    decreases j - i,
{
    if i < j {
        lemma_sym_budget_mono(k, pts, i, j - 1);
        if pts[j - 1].coeffs@.len() > 0 {
            lemma_mul_nonnegative(k[j - 1] as int, pts[j - 1].coeffs@.len() - 1);
        }
    }
}

/// Two term lists that match position by position evaluate alike.
pub(crate) proof fn lemma_meval_matches(
    ts1: Seq<(Vec<u128>, FieldElement)>,
    ts2: Seq<(Vec<u128>, FieldElement)>,
    pt: Seq<int>,
)
    requires
        ts1.len() == ts2.len(),
        forall|i: int| 0 <= i < ts1.len() ==> term_matches(#[trigger] ts1[i], ts2[i]),
    ensures
        meval(ts1, pt) == meval(ts2, pt),
    decreases ts1.len(),
{
    if ts1.len() > 0 {
        assert(forall|i: int|
            0 <= i < ts1.len() - 1 ==> term_matches(
                #[trigger] ts1.drop_first()[i],
                ts2.drop_first()[i],
            ));
        lemma_meval_matches(ts1.drop_first(), ts2.drop_first(), pt);
        assert(term_matches(ts1[0], ts2[0]));
    }
}

/// Copies a term list.
fn copy_terms(v: &Vec<(Vec<u128>, FieldElement)>) -> (r: Vec<(Vec<u128>, FieldElement)>)
    ensures
        r@.len() == v@.len(),
        forall|i: int| 0 <= i < v@.len() ==> term_matches(#[trigger] r@[i], v@[i]),
{
    let mut out: Vec<(Vec<u128>, FieldElement)> = Vec::new();
    let mut i: usize = 0;
    while i < v.len()
        invariant
            i <= v@.len(),
            out@.len() == i,
            forall|q: int| 0 <= q < i ==> term_matches(#[trigger] out@[q], v@[q]),
        decreases v@.len() - i,
    {
        let k = copy_key(&v[i].0);
        let c = v[i].1;
        out.push((k, c));
        i = i + 1;
    }
    out
}

impl MPolynomial {
    /// The polynomial raised to a power, by squaring. An exponent of zero
    /// gives the constant-one polynomial; the zero polynomial to a positive
    /// power gives the zero polynomial. The zero polynomial carries no field,
    /// so no unit constant exists for it: the pair of a zero base and a zero
    /// exponent is left out.
    pub fn pow(&self, exponent: u128) -> (r: MPolynomial)
        requires
            self.wf(),
            key_bound(self.dictionary@, 0xffff_ffff_ffff_ffff),
            exponent <= 0xffff_ffff_ffff_ffff,
            self.dictionary@.len() > 0 || exponent > 0,
        ensures
            r.wf(),
            self.dictionary@.len() == 0 ==> r.dictionary@.len() == 0,
            exponent == 0 ==> r.dictionary@.len() <= 1 && forall|pt: Seq<int>|
                #[trigger] meval(r.dictionary@, pt) == 1int % (
                self.dictionary@[0].1.field.modulus() as int),
            forall|f: Field| #[trigger] self.in_fld(f) ==> r.in_fld(f),
            forall|f: Field, pt: Seq<int>|
                (#[trigger] self.in_fld(f) && key_lens_at_most(self.dictionary@, pt.len() as int)
                    && self.dictionary@.len() > 0) ==> #[trigger] meval(r.dictionary@, pt)
                    % f.modulus() as int == pow(meval(self.dictionary@, pt), exponent as nat)
                    % f.modulus() as int,
    {
        if self.dictionary.len() == 0 {
            return MPolynomial { dictionary: Vec::new() };
        }
        let f0 = self.dictionary[0].1.field;
        let ghost pm = f0.modulus() as int;
        let one = f0.one();
        let mut acc = MPolynomial::constant(one);
        let mut base = MPolynomial { dictionary: copy_terms(&self.dictionary) };
        let mut e: u128 = exponent;
        let nv0 = self.num_vars();
        let ghost sv = self.dictionary@;
        let ghost mut pe: nat = 0;
        let ghost mut be: nat = 1;
        let ghost b0: nat = 0xffff_ffff_ffff_ffff;
        proof {
            assert(base.wf() && base.in_fld(f0)) by {
                assert(forall|i: int|
                    0 <= i < sv.len() ==> term_matches(#[trigger] base.dictionary@[i], sv[i]));
            }
            assert(key_lens_at_most(base.dictionary@, nv0 as int) && key_bound(
                base.dictionary@,
                0xffff_ffff_ffff_ffff,
            )) by {
                assert(forall|i: int|
                    0 <= i < sv.len() ==> term_matches(#[trigger] base.dictionary@[i], sv[i]));
            }
            assert(1 * b0 == b0);
            assert(0 * b0 == 0);
            assert forall|pt: Seq<int>| pt.len() >= nv0 implies (#[trigger] meval(
                acc.dictionary@,
                pt,
            ) * pow(meval(base.dictionary@, pt), e as nat)) % pm == pow(meval(sv, pt), exponent as nat)
                % pm by {
                lemma_meval_matches(base.dictionary@, sv, pt);
                assert(meval(acc.dictionary@, pt) == one.value);
                lemma_mul_mod_noop_left(one.value as int, pow(meval(sv, pt), e as nat), pm);
                assert(one.value as int % pm == 1int % pm) by {
                    lemma_mod_twice(1int, pm);
                }
                lemma_mul_mod_noop_left(1int, pow(meval(sv, pt), e as nat), pm);
                assert(1int * pow(meval(sv, pt), e as nat) == pow(meval(sv, pt), e as nat));
            }
        }
        while e > 0
            invariant
                acc.wf(),
                base.wf(),
                acc.in_fld(f0),
                base.in_fld(f0),
                pm == f0.modulus() as int,
                pm > 0,
                sv == self.dictionary@,
                sv.len() > 0,
                f0 == sv[0].1.field,
                exponent <= 0xffff_ffff_ffff_ffff,
                b0 == 0xffff_ffff_ffff_ffff,
                exponent == 0 ==> acc.dictionary@.len() <= 1 && forall|pt: Seq<int>|
                    #[trigger] meval(acc.dictionary@, pt) == 1int % pm,
                pe + be * (e as nat) == exponent as nat,
                be >= 1,
                key_lens_at_most(acc.dictionary@, nv0 as int),
                key_lens_at_most(base.dictionary@, nv0 as int),
                key_bound(acc.dictionary@, (b0 * pe) as u128),
                key_bound(base.dictionary@, (b0 * be) as u128),
                b0 * pe <= b0 * b0,
                b0 * be <= b0 * b0,
                forall|pt: Seq<int>|
                    pt.len() >= nv0 ==> (#[trigger] meval(acc.dictionary@, pt) * pow(
                        meval(base.dictionary@, pt),
                        e as nat,
                    )) % pm == pow(meval(sv, pt), exponent as nat) % pm,
            decreases e,
        {
            let ghost acc0 = acc;
            let ghost base0 = base;
            let ghost e0 = e as nat;
            let ghost h = (e / 2) as nat;
            let ghost pe0 = pe;
            let ghost be0 = be;
            proof {
                lemma_fundamental_div_mod(e0 as int, 2);
                assert(pe <= exponent as nat && be * e0 <= exponent as nat);
                assert(be <= be * e0) by (nonlinear_arith)
                    requires
                        e0 >= 1,
                        be >= 1,
                ;
                // A zero exponent never reaches the loop body.
                assert(exponent > 0) by {
                    if exponent == 0 {
                        assert(1 * 1 <= be * e0) by (nonlinear_arith)
                            requires
                                be >= 1,
                                e0 >= 1,
                        ;
                    }
                }
                assert(b0 * (pe + be) == b0 * pe + b0 * be) by (nonlinear_arith);
                assert(pe + be <= exponent as nat) by (nonlinear_arith)
                    requires
                        pe + be * e0 == exponent as nat,
                        be >= 1,
                        e0 >= 1,
                        be <= be * e0,
                ;
                assert(b0 * (pe + be) <= b0 * b0) by (nonlinear_arith)
                    requires
                        pe + be <= exponent as nat,
                        exponent as nat <= b0,
                        b0 >= 0,
                ;
                assert(b0 * b0 <= u128::MAX);
            }
            if e % 2 == 1 {
                proof {
                    assert(mshares(acc, base));
                    assert forall|i2: int, j2: int, c: int|
                        0 <= i2 < acc.dictionary@.len() && 0 <= j2 < base.dictionary@.len() && 0
                            <= c < acc.dictionary@[i2].0@.len() && c
                            < base.dictionary@[j2].0@.len() implies #[trigger] (
                    acc.dictionary@[i2].0@[c] + base.dictionary@[j2].0@[c]) <= u128::MAX by {
                        assert(acc.dictionary@[i2].0@[c] <= (b0 * pe) as u128);
                        assert(base.dictionary@[j2].0@[c] <= (b0 * be) as u128);
                    }
                }
                acc = acc.mul(&base);
                proof {
                    pe = pe + be;
                    assert(key_bound(acc.dictionary@, (b0 * pe) as u128)) by {
                        assert(key_bound(
                            acc.dictionary@,
                            ((b0 * pe0) as u128 + (b0 * be0) as u128) as u128,
                        ));
                    }
                }
            }
            e = e / 2;
            if e > 0 {
                proof {
                    assert(mshares(base, base));
                    // Twice the base bound still fits: the doubled exponent
                    // budget stays within the overall bound.
                    let h2 = e as nat;
                    assert(2 * be0 <= 2 * be0 * h2) by (nonlinear_arith)
                        requires
                            h2 >= 1,
                            be0 >= 1,
                    ;
                    assert(2 * be0 * h2 <= be0 * e0) by (nonlinear_arith)
                        requires
                            e0 == 2 * h2 + e0 % 2,
                            e0 % 2 >= 0,
                            be0 >= 1,
                    ;
                    assert(be0 * e0 <= exponent as nat);
                    assert(b0 * (2 * be0) <= b0 * b0) by (nonlinear_arith)
                        requires
                            2 * be0 <= b0,
                            b0 >= 0,
                    ;
                    assert(b0 * be0 + b0 * be0 == b0 * (2 * be0)) by (nonlinear_arith);
                    assert(b0 * b0 <= u128::MAX);
                    assert forall|i2: int, j2: int, c: int|
                        0 <= i2 < base.dictionary@.len() && 0 <= j2 < base.dictionary@.len() && 0
                            <= c < base.dictionary@[i2].0@.len() && c
                            < base.dictionary@[j2].0@.len() implies #[trigger] (
                    base.dictionary@[i2].0@[c] + base.dictionary@[j2].0@[c]) <= u128::MAX by {
                        assert(base.dictionary@[i2].0@[c] <= (b0 * be0) as u128);
                        assert(base.dictionary@[j2].0@[c] <= (b0 * be0) as u128);
                    }
                }
                base = base.mul(&base);
                proof {
                    be = 2 * be;
                    assert(2 * (b0 * be0) == b0 * (2 * be0)) by (nonlinear_arith);
                    assert(b0 * be0 + b0 * be0 == b0 * be) by (nonlinear_arith)
                        requires
                            be == 2 * be0,
                    ;
                    assert(key_bound(base.dictionary@, (b0 * be) as u128)) by {
                        assert(key_bound(
                            base.dictionary@,
                            ((b0 * be0) as u128 + (b0 * be0) as u128) as u128,
                        ));
                    }
                }
            }
            proof {
                let bit = e0 % 2;
                assert(e0 == 2 * h + bit);
                assert(pe + be * (e as nat) == exponent as nat) by (nonlinear_arith)
                    requires
                        pe0 + be0 * e0 == exponent as nat,
                        e0 == 2 * h + bit,
                        bit == 0 || bit == 1,
                        e as nat == h,
                        pe == pe0 + (if bit == 1 {
                            be0
                        } else {
                            0nat
                        }),
                        be == (if h > 0 {
                            2 * be0
                        } else {
                            be0
                        }),
                ;
                assert(b0 * pe <= b0 * b0) by (nonlinear_arith)
                    requires
                        pe <= exponent as nat,
                        exponent as nat <= b0,
                        b0 >= 0,
                ;
                if e > 0 {
                    assert(be <= be * (e as nat)) by (nonlinear_arith)
                        requires
                            e as nat >= 1,
                            be >= 1,
                    ;
                    assert(be <= exponent as nat);
                    assert(b0 * be <= b0 * b0) by (nonlinear_arith)
                        requires
                            be <= b0,
                            b0 >= 0,
                    ;
                } else {
                    assert(be == be0);
                }
                assert forall|pt: Seq<int>| pt.len() >= nv0 implies (#[trigger] meval(
                    acc.dictionary@,
                    pt,
                ) * pow(meval(base.dictionary@, pt), e as nat)) % pm == pow(
                    meval(sv, pt),
                    exponent as nat,
                ) % pm by {
                    let aa = meval(acc0.dictionary@, pt);
                    let bb = meval(base0.dictionary@, pt);
                    let an = meval(acc.dictionary@, pt);
                    let bn = meval(base.dictionary@, pt);
                    assert((aa * pow(bb, e0)) % pm == pow(meval(sv, pt), exponent as nat) % pm);
                    if bit == 1 {
                        assert(an % pm == (aa * bb) % pm) by {
                            assert(acc0.in_fld(f0) && base0.in_fld(f0));
                        }
                    }
                    if h == 0 {
                        lemma_pow0(bn);
                        lemma_pow1(bb);
                        assert(an * 1 == an);
                        lemma_mod_twice(aa * bb, pm);
                    } else {
                        assert(bn % pm == (bb * bb) % pm) by {
                            assert(base0.in_fld(f0));
                        }
                        lemma_pow_mod_noop(bn, h, pm);
                        lemma_pow_mod_noop(bb * bb, h, pm);
                        assert(pow(bn, h) % pm == pow(bb * bb, h) % pm);
                        lemma_square_is_pow2(bb);
                        lemma_pow_multiplies(bb, 2, h);
                        assert(pow(bb * bb, h) == pow(bb, 2 * h));
                        if bit == 0 {
                            assert(an == aa);
                            lemma_mul_mod_noop_right(aa, pow(bn, h), pm);
                            lemma_mul_mod_noop_right(aa, pow(bb, 2 * h), pm);
                            assert(e0 == 2 * h);
                        } else {
                            lemma_mul_mod_noop_right(an, pow(bn, h), pm);
                            lemma_mul_mod_noop_right(an, pow(bb, 2 * h), pm);
                            assert((an * pow(bn, h)) % pm == (an * pow(bb, 2 * h)) % pm);
                            lemma_mul_mod_noop_left(an, pow(bb, 2 * h), pm);
                            lemma_mul_mod_noop_left(aa * bb, pow(bb, 2 * h), pm);
                            lemma_mod_twice(aa * bb, pm);
                            assert((an * pow(bb, 2 * h)) % pm == ((aa * bb) * pow(bb, 2 * h))
                                % pm);
                            lemma_pow1(bb);
                            lemma_pow_adds(bb, 1, 2 * h);
                            assert((aa * bb) * pow(bb, 2 * h) == aa * pow(bb, (2 * h + 1) as nat))
                                by (nonlinear_arith)
                                requires
                                    bb * pow(bb, 2 * h) == pow(bb, (2 * h + 1) as nat),
                            ;
                            assert(e0 == 2 * h + 1);
                        }
                    }
                }
            }
        }
        proof {
            assert forall|f: Field, pt: Seq<int>|
                (#[trigger] self.in_fld(f) && key_lens_at_most(self.dictionary@, pt.len() as int)
                    && self.dictionary@.len() > 0) implies #[trigger] meval(acc.dictionary@, pt)
                % f.modulus() as int == pow(meval(self.dictionary@, pt), exponent as nat)
                % f.modulus() as int by {
                assert(f == f0);
                assert(pt.len() >= nv0) by {
                    if nv0 > 0 {
                        let w = choose|w: int|
                            0 <= w < sv.len() && (#[trigger] sv[w]).0@.len() == nv0 as int;
                        assert(sv[w].0@.len() <= pt.len());
                    }
                }
                lemma_pow0(meval(base.dictionary@, pt));
                assert(meval(acc.dictionary@, pt) * 1 == meval(acc.dictionary@, pt));
            }
        }
        acc
    }

    /// The value of the polynomial at a point: each term contributes its
    /// coefficient times the powers of the coordinates.
    pub fn evaluate(&self, point: &Vec<FieldElement>) -> (r: FieldElement)
        requires
            self.wf(),
            key_lens_at_most(self.dictionary@, point@.len() as int),
            forall|j: int|
                0 <= j < point@.len() ==> (#[trigger] point@[j]).wf() && point@[j].field
                    == point@[0].field,
            self.dictionary@.len() > 0 || point@.len() > 0,
            self.dictionary@.len() > 0 && point@.len() > 0 ==> self.dictionary@[0].1.field
                == point@[0].field,
        ensures
            r.wf(),
            r.field == (if self.dictionary@.len() > 0 {
                self.dictionary@[0].1.field
            } else {
                point@[0].field
            }),
            r.value as int == meval(self.dictionary@, pvals(point@)) % r.field.modulus() as int,
    {
        let f = if self.dictionary.len() > 0 {
            self.dictionary[0].1.field
        } else {
            point[0].field
        };
        let ghost pm = f.modulus() as int;
        let ghost pv = pvals(point@);
        let mut acc = f.zero();
        proof {
            lemma_small_mod(0nat, f.modulus() as nat);
        }
        let mut t: usize = 0;
        while t < self.dictionary.len()
            invariant
                self.wf(),
                key_lens_at_most(self.dictionary@, point@.len() as int),
                forall|j: int|
                    0 <= j < point@.len() ==> (#[trigger] point@[j]).wf() && point@[j].field
                        == point@[0].field,
                self.dictionary@.len() > 0 ==> f == self.dictionary@[0].1.field,
                self.dictionary@.len() > 0 && point@.len() > 0 ==> self.dictionary@[0].1.field
                    == point@[0].field,
                point@.len() > 0 ==> point@[0].field == f || self.dictionary@.len() > 0,
                f.modulus() > 0,
                pm == f.modulus() as int,
                pv == pvals(point@),
                t <= self.dictionary@.len(),
                acc.wf(),
                acc.field == f,
                acc.value as int == meval(self.dictionary@.take(t as int), pv) % pm,
            decreases self.dictionary@.len() - t,
        {
            let c = self.dictionary[t].1;
            let klen = self.dictionary[t].0.len();
            let ghost key = self.dictionary@[t as int].0@;
            let mut term = c;
            let mut ic: usize = 0;
            proof {
                assert(key.take(0) =~= Seq::<u128>::empty());
                lemma_small_mod(c.value as nat, f.modulus() as nat);
                assert(c.value as int * 1 == c.value as int);
            }
            while ic < klen
                invariant
                    self.wf(),
                    t < self.dictionary@.len(),
                    key == self.dictionary@[t as int].0@,
                    klen == key.len(),
                    key.len() <= point@.len(),
                    forall|j: int|
                        0 <= j < point@.len() ==> (#[trigger] point@[j]).wf() && point@[j].field
                            == f,
                    c == self.dictionary@[t as int].1,
                    c.wf(),
                    c.field == f,
                    f.modulus() > 0,
                    pm == f.modulus() as int,
                    pv == pvals(point@),
                    ic <= klen,
                    term.wf(),
                    term.field == f,
                    term.value as int == (c.value as int * mono(key.take(ic as int), pv)) % pm,
                decreases klen - ic,
            {
                let e = self.dictionary[t].0[ic];
                let pw = point[ic].pow(e);
                let ghost term0 = term.value as int;
                term = term.mul(pw);
                proof {
                    assert(key.take(ic as int + 1) =~= key.take(ic as int).push(key[ic as int]));
                    lemma_mono_push(key.take(ic as int), key[ic as int], pv);
                    let mt = mono(key.take(ic as int), pv);
                    let pe2 = pow(pv[ic as int], e as nat);
                    assert(pv[ic as int] == point@[ic as int].value as int);
                    lemma_mul_mod_noop_right(term0, pe2, pm);
                    lemma_mul_mod_noop_left(c.value as int * mt, pe2, pm);
                    lemma_mod_twice(c.value as int * mt, pm);
                    assert(term.value as int == ((c.value as int * mt) * pe2) % pm);
                    assert((c.value as int * mt) * pe2 == c.value as int * (mt * pe2))
                        by (nonlinear_arith);
                }
                ic = ic + 1;
            }
            proof {
                assert(key.take(klen as int) =~= key);
            }
            let ghost acc0 = acc.value as int;
            acc = acc.add(term);
            proof {
                assert(self.dictionary@.take(t as int + 1) =~= self.dictionary@.take(
                    t as int,
                ).push(self.dictionary@[t as int]));
                lemma_meval_push(self.dictionary@.take(t as int), self.dictionary@[t as int], pv);
                let cm = c.value as int * mono(key, pv);
                lemma_add_mod_noop(meval(self.dictionary@.take(t as int), pv), cm, pm);
                lemma_mod_twice(meval(self.dictionary@.take(t as int), pv), pm);
                lemma_mod_twice(cm, pm);
            }
            t = t + 1;
        }
        proof {
            assert(self.dictionary@.take(self.dictionary@.len() as int) =~= self.dictionary@);
        }
        acc
    }

    /// Substitutes a univariate polynomial for each variable, giving a
    /// univariate polynomial: at every point, its value is this polynomial's
    /// value at the values of the substituted polynomials there.
    pub fn evaluate_symbolic(&self, point: &Vec<Polynomial>) -> (r: Polynomial)
        requires
            self.wf(),
            key_lens_at_most(self.dictionary@, point@.len() as int),
            forall|j: int| 0 <= j < point@.len() ==> (#[trigger] point@[j]).wf(),
            forall|t: int|
                0 <= t < self.dictionary@.len() ==> sym_budget(
                    (#[trigger] self.dictionary@[t]).0@,
                    point@,
                    self.dictionary@[t].0@.len() as int,
                ) + 2 <= usize::MAX,
            self.dictionary@.len() > 0 ==> polys_in(point@, self.dictionary@[0].1.field),
        ensures
            r.wf(),
            self.dictionary@.len() == 0 ==> r.coeffs@.len() == 0,
            self.dictionary@.len() > 0 ==> r.in_field(self.dictionary@[0].1.field),
            self.dictionary@.len() > 0 ==> forall|x: int|
                (#[trigger] ev(r.vals(), x)) % self.dictionary@[0].1.field.modulus() as int
                    == meval(
                    self.dictionary@,
                    Seq::new(point@.len(), |q: int| ev(point@[q].vals(), x)),
                ) % self.dictionary@[0].1.field.modulus() as int,
    {
        if self.dictionary.len() == 0 {
            return Polynomial { coeffs: Vec::new() };
        }
        let f0 = self.dictionary[0].1.field;
        let ghost pm = f0.modulus() as int;
        let ghost sv = self.dictionary@;
        let ghost evs = |x: int| Seq::new(point@.len(), |q: int| ev(point@[q].vals(), x));
        let mut acc = Polynomial { coeffs: Vec::new() };
        let mut t: usize = 0;
        proof {
            lemma_small_mod(0nat, f0.modulus() as nat);
        }
        while t < self.dictionary.len()
            invariant
                self.wf(),
                sv == self.dictionary@,
                sv.len() > 0,
                f0 == sv[0].1.field,
                pm == f0.modulus() as int,
                pm > 0,
                key_lens_at_most(sv, point@.len() as int),
                forall|j: int| 0 <= j < point@.len() ==> (#[trigger] point@[j]).wf(),
                forall|t2: int|
                    0 <= t2 < sv.len() ==> sym_budget(
                        (#[trigger] sv[t2]).0@,
                        point@,
                        sv[t2].0@.len() as int,
                    ) + 2 <= usize::MAX,
                polys_in(point@, f0),
                evs == (|x: int| Seq::new(point@.len(), |q: int| ev(point@[q].vals(), x))),
                t <= sv.len(),
                acc.wf(),
                acc.in_field(f0),
                forall|x: int|
                    (#[trigger] ev(acc.vals(), x)) % pm == meval(sv.take(t as int), evs(x)) % pm,
            decreases sv.len() - t,
        {
            let c = self.dictionary[t].1;
            let klen = self.dictionary[t].0.len();
            let ghost key = sv[t as int].0@;
            let mut tc: Vec<FieldElement> = Vec::new();
            tc.push(c);
            let mut term = Polynomial { coeffs: tc };
            let mut ic: usize = 0;
            proof {
                assert(seq_uniform_one(term.coeffs@, f0));
                assert(key.take(0) =~= Seq::<u128>::empty());
                assert forall|x: int| (#[trigger] ev(term.vals(), x)) % pm == (c.value as int
                    * mono(key.take(0), evs(x))) % pm by {
                    assert(term.vals().len() == 1 && term.vals()[0] == c.value as int);
                    assert(ev(term.vals().drop_first(), x) == 0);
                    assert(x * 0 == 0);
                    assert(ev(term.vals(), x) == c.value as int);
                    assert(c.value as int * 1 == c.value as int);
                }
            }
            while ic < klen
                invariant
                    self.wf(),
                    sv == self.dictionary@,
                    t < sv.len(),
                    key == sv[t as int].0@,
                    klen == key.len(),
                    key.len() <= point@.len(),
                    sym_budget(key, point@, klen as int) + 2 <= usize::MAX,
                    forall|j: int| 0 <= j < point@.len() ==> (#[trigger] point@[j]).wf(),
                    polys_in(point@, f0),
                    evs == (|x: int| Seq::new(point@.len(), |q: int| ev(point@[q].vals(), x))),
                    c == sv[t as int].1,
                    c.wf(),
                    c.field == f0,
                    c.value != 0,
                    f0 == sv[0].1.field,
                    pm == f0.modulus() as int,
                    pm > 0,
                    ic <= klen,
                    term.wf(),
                    term.in_field(f0),
                    term.coeffs@.len() <= 1 + sym_budget(key, point@, ic as int),
                    forall|x: int|
                        (#[trigger] ev(term.vals(), x)) % pm == (c.value as int * mono(
                            key.take(ic as int),
                            evs(x),
                        )) % pm,
                decreases klen - ic,
            {
                let e = self.dictionary[t].0[ic];
                let ghost term0 = term;
                let ghost b_lo = sym_budget(key, point@, ic as int);
                let ghost b_hi = sym_budget(key, point@, ic as int + 1);
                let ghost plen = point@[ic as int].coeffs@.len() as int;
                proof {
                    // One more coordinate adds its exponent times the
                    // substituted polynomial's degree to the budget.
                    assert(b_hi == b_lo + (if plen == 0 {
                        0int
                    } else {
                        e * (plen - 1)
                    }));
                    lemma_sym_budget_mono(key, point@, 0, ic as int);
                    lemma_sym_budget_mono(key, point@, ic as int + 1, klen as int);
                }
                if e != 0 {
                    proof {
                        assert(plen == 0 || e * (plen - 1) + 2 <= usize::MAX);
                    }
                    let pw = point[ic].pow(e);
                    proof {
                        assert(point@[ic as int].in_field(f0));
                        assert(pw.in_field(f0));
                        assert(elems_share_p(term.coeffs@, pw.coeffs@));
                        assert(pw.coeffs@.len() <= 1 + (if plen == 0 {
                            0int
                        } else {
                            e * (plen - 1)
                        }));
                        assert(term.coeffs@.len() + pw.coeffs@.len() <= usize::MAX);
                    }
                    term = term.mul(&pw);
                    proof {
                        assert forall|x: int| (#[trigger] ev(term.vals(), x)) % pm == (
                        c.value as int * mono(key.take(ic as int + 1), evs(x))) % pm by {
                            assert forall|k: int| 0 <= k implies #[trigger] gets(term.vals(), k)
                                == crate::polynomial::conv_at(term0.vals(), pw.vals(), k)
                                % pm by {
                                assert(term.cval(k) == crate::polynomial::conv_at(
                                    term0.vals(),
                                    pw.vals(),
                                    k,
                                ) % pm);
                            }
                            crate::polynomial::lemma_mul_ev_cases(
                                term.vals(),
                                term0.vals(),
                                pw.vals(),
                                pm,
                                x,
                            );
                            let pt = evs(x);
                            assert(key.take(ic as int + 1) =~= key.take(ic as int).push(
                                key[ic as int],
                            ));
                            lemma_mono_push(key.take(ic as int), key[ic as int], pt);
                            let mt = mono(key.take(ic as int), pt);
                            let exv = ev(point@[ic as int].vals(), x);
                            assert(pt[ic as int] == exv);
                            // The power's value is congruent to the matching
                            // power of the substituted polynomial's value.
                            if point@[ic as int].coeffs@.len() > 0 {
                                assert(ev(pw.vals(), x) % pm == pow(exv, e as nat) % pm);
                            } else {
                                assert(pw.coeffs@.len() == 0);
                                assert(ev(pw.vals(), x) == 0);
                                assert(ev(point@[ic as int].vals(), x) == 0);
                                lemma0_pow(e as nat);
                                lemma_small_mod(0nat, f0.modulus() as nat);
                            }
                            // Chain the congruences.
                            let tv0 = ev(term0.vals(), x);
                            let pv0 = ev(pw.vals(), x);
                            lemma_mul_mod_noop_general(tv0, pv0, pm);
                            lemma_mul_mod_noop_general(
                                c.value as int * mt,
                                pow(exv, e as nat),
                                pm,
                            );
                            assert((tv0 % pm) * (pv0 % pm) % pm == ((c.value as int * mt) % pm) * (
                            pow(exv, e as nat) % pm) % pm);
                            assert((c.value as int * mt) * pow(exv, e as nat) == c.value as int * (
                            mt * pow(exv, e as nat))) by (nonlinear_arith);
                        }
                    }
                } else {
                    proof {
                        assert forall|x: int| (#[trigger] ev(term.vals(), x)) % pm == (
                        c.value as int * mono(key.take(ic as int + 1), evs(x))) % pm by {
                            let pt = evs(x);
                            assert(key.take(ic as int + 1) =~= key.take(ic as int).push(
                                key[ic as int],
                            ));
                            lemma_mono_push(key.take(ic as int), key[ic as int], pt);
                            lemma_pow0(pt[ic as int]);
                            assert(mono(key.take(ic as int), pt) * 1 == mono(
                                key.take(ic as int),
                                pt,
                            ));
                        }
                    }
                }
                ic = ic + 1;
            }
            proof {
                assert(key.take(klen as int) =~= key);
            }
            let ghost acc0 = acc;
            acc = acc.add(&term);
            proof {
                assert(sv.take(t as int + 1) =~= sv.take(t as int).push(sv[t as int]));
                assert forall|x: int| (#[trigger] ev(acc.vals(), x)) % pm == meval(
                    sv.take(t as int + 1),
                    evs(x),
                ) % pm by {
                    assert forall|k: int| 0 <= k implies #[trigger] gets(acc.vals(), k) == (gets(
                        acc0.vals(),
                        k,
                    ) + 1 * gets(term.vals(), k)) % pm by {
                        assert(acc.cval(k) == crate::field::fadd(acc0.cval(k), term.cval(k), pm));
                        assert(1 * gets(term.vals(), k) == gets(term.vals(), k));
                    }
                    crate::polynomial::lemma_poly_linear_ev(
                        acc.vals(),
                        acc0.vals(),
                        term.vals(),
                        1,
                        pm,
                        x,
                    );
                    lemma_meval_push(sv.take(t as int), sv[t as int], evs(x));
                    let cm = c.value as int * mono(key, evs(x));
                    assert(1 * ev(term.vals(), x) == ev(term.vals(), x));
                    lemma_add_mod_noop(ev(acc0.vals(), x), ev(term.vals(), x), pm);
                    lemma_add_mod_noop(meval(sv.take(t as int), evs(x)), cm, pm);
                    lemma_mod_twice(ev(acc0.vals(), x), pm);
                    lemma_mod_twice(ev(term.vals(), x), pm);
                    lemma_mod_twice(meval(sv.take(t as int), evs(x)), pm);
                    lemma_mod_twice(cm, pm);
                }
            }
            t = t + 1;
        }
        proof {
            assert(sv.take(sv.len() as int) =~= sv);
        }
        acc
    }
}

/// All elements of the sequence lie in the field `f`; a helper for building
/// one-term polynomials.
pub open spec fn seq_uniform_one(s: Seq<FieldElement>, f: Field) -> bool {
    forall|i: int| 0 <= i < s.len() ==> (#[trigger] s[i]).field == f
}

/// Both sequences' elements share one field.
pub open spec fn elems_share_p(a: Seq<FieldElement>, b: Seq<FieldElement>) -> bool {
    crate::polynomial::elems_share(a, b)
}

/// Every exponent is below the given value; used to bound the exponents a
/// lift can produce.
pub open spec fn key_bound_from_len(ts: Seq<(Vec<u128>, FieldElement)>, b: u128) -> bool {
    forall|i: int, c: int|
        0 <= i < ts.len() && 0 <= c < ts[i].0@.len() ==> (#[trigger] ts[i].0@[c]) < b || b == 0
}

/// The two terms have the same exponent vector and the same coefficient.
pub open spec fn term_matches(t1: (Vec<u128>, FieldElement), t2: (Vec<u128>, FieldElement)) -> bool {
    t1.0@ == t2.0@ && t1.1 == t2.1
}

/// Like [`terms_in`], but without demanding nonzero coefficients: the shape
/// of an arbitrary input term list.
pub open spec fn terms_in_weak(ts: Seq<(Vec<u128>, FieldElement)>, f: Field) -> bool {
    forall|i: int|
        0 <= i < ts.len() ==> (#[trigger] ts[i]).1.field == f && ts[i].1.value < f.modulus()
}

/// Copies an exponent vector.
fn copy_key(v: &Vec<u128>) -> (r: Vec<u128>)
    ensures
        r@ == v@,
{
    let mut out: Vec<u128> = Vec::new();
    let mut i: usize = 0;
    while i < v.len()
        invariant
            i <= v@.len(),
            out@ == v@.take(i as int),
        decreases v@.len() - i,
    {
        out.push(v[i]);
        proof {
            assert(out@ =~= v@.take(i as int + 1));
        }
        i = i + 1;
    }
    proof {
        assert(out@ =~= v@);
    }
    out
}

} // verus!
