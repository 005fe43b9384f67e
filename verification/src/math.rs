//! Algebraic helpers: the extended Euclidean algorithm, polynomial long
//! division, Lagrange interpolation, zerofiers, and the collinearity test.

use vstd::prelude::*;

verus! {

use vstd::arithmetic::div_mod::*;
use vstd::arithmetic::mul::*;
use vstd::arithmetic::power::*;
use vstd::math::abs;
use crate::field::{Field, FieldElement, fadd, fsub, fmul, fneg, gcd};
use crate::polynomial::{
    Polynomial, poly_vals, gets, ev, conv_at, seq_in, seq_uniform, elems_share, imax, copy_elems,
    lemma_conv_top, lemma_conv_update, lemma_conv_monomial, lemma_poly_mul_ev,
    lemma_mul_ev_cases, lemma_poly_linear_ev,
};

/// Computes the polynomial that is zero at every point of the domain: the
/// product of `x - d` over all `d` in the domain. It is monic and of degree
/// exactly the domain size.
pub fn zerofier_domain(domain: Vec<FieldElement>) -> (r: Polynomial)
    requires
        1 <= domain@.len(),
        domain@.len() + 2 <= usize::MAX,
        forall|i: int|
            0 <= i < domain@.len() ==> (#[trigger] domain@[i]).wf() && domain@[i].field
                == domain@[0].field,
        domain@[0].field.modulus() > 1,
    ensures
        r.wf(),
        r.in_field(domain@[0].field),
        r.coeffs@.len() == domain@.len() + 1,
        r.coeffs@.last().value == 1,
        forall|i: int|
            0 <= i < domain@.len() ==> ev(r.vals(), (#[trigger] domain@[i]).value as int)
                % domain@[0].field.modulus() as int == 0,
{
    let f = domain[0].field;
    let ghost pi = f.modulus() as int;
    let one = f.one();
    let mut av: Vec<FieldElement> = Vec::new();
    av.push(one);
    let mut acc = Polynomial { coeffs: av };
    proof {
        lemma_small_mod(1nat, f.modulus() as nat);
        assert(acc.cval(0) == 1);
        assert(seq_in(acc.coeffs@, f));
    }
    let mut i: usize = 0;
    while i < domain.len()
        invariant
            1 <= domain@.len(),
            domain@.len() + 2 <= usize::MAX,
            forall|q: int|
                0 <= q < domain@.len() ==> (#[trigger] domain@[q]).wf() && domain@[q].field
                    == domain@[0].field,
            f == domain@[0].field,
            pi == f.modulus() as int,
            pi > 1,
            one.field == f,
            one.value == 1,
            i <= domain@.len(),
            acc.wf(),
            acc.in_field(f),
            acc.coeffs@.len() == i + 1,
            acc.coeffs@.last().value == 1,
            forall|t: int|
                0 <= t < i ==> ev(acc.vals(), (#[trigger] domain@[t]).value as int) % pi == 0,
        decreases domain@.len() - i,
    {
        let ghost acc0 = acc;
        let d = domain[i];
        let nd = d.neg();
        let mut fc: Vec<FieldElement> = Vec::new();
        fc.push(nd);
        fc.push(one);
        let factor = Polynomial { coeffs: fc };
        proof {
            assert(seq_uniform(factor.coeffs@));
            assert(factor.wf());
            assert(seq_in(factor.coeffs@, f));
            assert(elems_share(acc.coeffs@, factor.coeffs@));
        }
        acc = acc.mul(&factor);
        proof {
            assert(acc0.in_field(f));
            assert(factor.in_field(f));
            let fv = factor.vals();
            assert(fv.len() == 2);
            assert(fv[0] == fneg(d.value as int, pi) && fv[1] == 1);
            // The product keeps the field, gains one coefficient, stays monic.
            assert(acc.in_field(f));
            assert forall|k: int| 0 <= k implies #[trigger] gets(acc.vals(), k) == conv_at(
                acc0.vals(),
                fv,
                k,
            ) % pi by {
                assert(acc.cval(k) == conv_at(acc0.vals(), fv, k) % pi);
            }
            lemma_conv_top(acc0.vals(), fv, i + 1);
            assert(acc0.vals().last() == 1);
            assert(1int * 1 == 1);
            lemma_small_mod(1nat, f.modulus() as nat);
            assert(gets(acc.vals(), i + 1) == 1);
            assert(acc.coeffs@.len() == i + 2) by {
                assert(acc.coeffs@.len() <= i + 2);
                if acc.coeffs@.len() < i + 2 {
                    assert(gets(acc.vals(), i + 1) == 0);
                }
            }
            assert(acc.coeffs@.last().value == 1) by {
                assert(gets(acc.vals(), i + 1) == acc.coeffs@[i + 1].value as int);
            }
            // Vanishing at every processed point, and at the new one.
            assert forall|t: int| 0 <= t < i + 1 implies ev(
                acc.vals(),
                (#[trigger] domain@[t]).value as int,
            ) % pi == 0 by {
                let xv = domain@[t].value as int;
                lemma_poly_mul_ev(acc.vals(), acc0.vals(), fv, pi, xv);
                // ev of the linear factor at xv is xv - d, modulo pi.
                let fv1 = fv.drop_first();
                assert(fv1.len() == 1 && fv1[0] == 1);
                assert(ev(fv1.drop_first(), xv) == 0);
                assert(ev(fv1, xv) == 1 + xv * 0);
                assert(ev(fv, xv) == fneg(d.value as int, pi) + xv * (1 + xv * 0));
                assert(xv * (1 + xv * 0) == xv) by (nonlinear_arith);
                if t < i {
                    lemma_mul_mod_noop_left(ev(acc0.vals(), xv), ev(fv, xv), pi);
                    assert((0int * ev(fv, xv)) % pi == 0int % pi) by {
                        assert(0int * ev(fv, xv) == 0) by (nonlinear_arith);
                    }
                    lemma_small_mod(0nat, f.modulus() as nat);
                } else {
                    // xv == d.value: the factor vanishes there.
                    lemma_add_mod_noop_right(xv, pi - xv, pi);
                    lemma_mod_self_0(pi);
                    assert(ev(fv, xv) % pi == 0) by {
                        assert((xv + fneg(xv, pi)) % pi == (xv + (pi - xv)) % pi);
                    }
                    lemma_mul_mod_noop_right(ev(acc0.vals(), xv), ev(fv, xv), pi);
                    assert((ev(acc0.vals(), xv) * 0) % pi == 0int % pi) by {
                        assert(ev(acc0.vals(), xv) * 0 == 0) by (nonlinear_arith);
                    }
                    lemma_small_mod(0nat, f.modulus() as nat);
                }
            }
        }
        i = i + 1;
    }
    acc
}

/// Schoolbook polynomial long division: returns a quotient and a remainder
/// whose degree is below the divisor's, with
/// `numerator == denominator * quotient + remainder` exactly, coefficient by
/// coefficient in the field.
pub fn poly_long_division(numerator: Polynomial, denominator: Polynomial) -> (qr: (
    Polynomial,
    Polynomial,
))
    requires
        numerator.wf(),
        denominator.wf(),
        numerator.shares_field(denominator),
        denominator.coeffs@.len() >= 1,
        numerator.coeffs@.len() < usize::MAX,
        gcd(
            denominator.coeffs@.last().value as nat,
            denominator.coeffs@.last().field.modulus() as nat,
        ) == 1,
    ensures
        qr.0.wf(),
        qr.1.wf(),
        qr.1.coeffs@.len() < denominator.coeffs@.len(),
        forall|f: Field|
            (#[trigger] numerator.in_field(f) && #[trigger] denominator.in_field(f))
                ==> qr.0.in_field(f) && qr.1.in_field(f) && forall|k: int|
                0 <= k ==> #[trigger] numerator.cval(k) == (conv_at(
                    qr.0.vals(),
                    denominator.vals(),
                    k,
                ) + qr.1.cval(k)) % f.modulus() as int,
{
    let dlen = denominator.coeffs.len();
    let nlen = numerator.coeffs.len();
    if nlen < dlen {
        let q = Polynomial { coeffs: Vec::new() };
        let rem = Polynomial { coeffs: copy_elems(&numerator.coeffs) };
        proof {
            assert forall|f: Field|
                #[trigger] numerator.in_field(f) && #[trigger] denominator.in_field(f) implies
                q.in_field(f) && rem.in_field(f) && forall|k: int|
                0 <= k ==> #[trigger] numerator.cval(k) == (conv_at(
                    q.vals(),
                    denominator.vals(),
                    k,
                ) + rem.cval(k)) % f.modulus() as int by {
                assert forall|k: int| 0 <= k implies #[trigger] numerator.cval(k) == (conv_at(
                    q.vals(),
                    denominator.vals(),
                    k,
                ) + rem.cval(k)) % f.modulus() as int by {
                    assert(conv_at(q.vals(), denominator.vals(), k) == 0);
                    if k < numerator.coeffs@.len() {
                        lemma_small_mod(
                            numerator.coeffs@[k].value as nat,
                            f.modulus() as nat,
                        );
                    } else {
                        lemma_small_mod(0nat, f.modulus() as nat);
                    }
                }
            }
        }
        return (q, rem);
    }
    let fd = denominator.coeffs[0];
    let ghost pi = fd.field.modulus() as int;
    let lc_d = denominator.coeffs[dlen - 1];
    let qlen = nlen - dlen + 1;
    let zero_el = FieldElement { value: 0, field: fd.field };
    let mut qc: Vec<FieldElement> = Vec::new();
    let mut t: usize = 0;
    while t < qlen
        invariant
            t <= qlen,
            qc@.len() == t,
            forall|j: int| 0 <= j < t ==> qc@[j] == zero_el,
            zero_el.value == 0,
            zero_el.field == fd.field,
        decreases qlen - t,
    {
        qc.push(zero_el);
        t = t + 1;
    }
    let mut rem = Polynomial { coeffs: copy_elems(&numerator.coeffs) };
    proof {
        lemma_small_mod(0nat, fd.field.modulus() as nat);
        assert forall|k: int| 0 <= k implies #[trigger] numerator.cval(k) == (conv_at(
            poly_vals(qc@),
            denominator.vals(),
            k,
        ) + rem.cval(k)) % pi by {
            assert forall|j: int| 0 <= j < qlen implies poly_vals(qc@)[j] == 0 by {}
            lemma_conv_all_zero(poly_vals(qc@), denominator.vals(), k);
            if k < numerator.coeffs@.len() {
                lemma_small_mod(numerator.coeffs@[k].value as nat, fd.field.modulus() as nat);
            }
        }
    }
    while rem.coeffs.len() >= dlen
        invariant
            numerator.wf(),
            denominator.wf(),
            denominator.coeffs@.len() == dlen,
            numerator.coeffs@.len() == nlen,
            1 <= dlen,
            nlen < usize::MAX,
            qlen == nlen - dlen + 1,
            fd == denominator.coeffs@[0],
            lc_d == denominator.coeffs@[dlen - 1],
            denominator.in_field(fd.field),
            pi == fd.field.modulus() as int,
            pi > 0,
            gcd(lc_d.value as nat, fd.field.modulus() as nat) == 1,
            rem.wf(),
            rem.in_field(fd.field),
            rem.coeffs@.len() <= nlen,
            numerator.in_field(fd.field),
            qc@.len() == qlen,
            zero_el.value == 0,
            zero_el.field == fd.field,
            forall|j: int|
                0 <= j < qlen ==> (#[trigger] qc@[j]).field == fd.field && qc@[j].value
                    < fd.field.modulus(),
            forall|j: int|
                0 <= j < qlen && j + dlen <= rem.coeffs@.len() ==> (#[trigger] qc@[j]).value == 0,
            forall|k: int|
                0 <= k ==> #[trigger] numerator.cval(k) == (conv_at(
                    poly_vals(qc@),
                    denominator.vals(),
                    k,
                ) + rem.cval(k)) % pi,
        decreases rem.coeffs@.len(),
    {
        let ghost rem0 = rem;
        let ghost qc0 = qc@;
        let rlen = rem.coeffs.len();
        let dd = rlen - dlen;
        let lc_r = rem.coeffs[rlen - 1];
        let coeff = lc_r.div(lc_d);
        proof {
            // The quotient coefficient cannot vanish: times the divisor's
            // leading coefficient it gives the remainder's, which is nonzero.
            if coeff.value == 0 {
                assert(fmul(0, lc_d.value as int, pi) == lc_r.value as int);
                assert(0int * lc_d.value as int == 0);
                lemma_small_mod(0nat, fd.field.modulus() as nat);
                assert(false);
            }
        }
        qc.set(dd, coeff);
        let mut mc: Vec<FieldElement> = Vec::new();
        let mut t2: usize = 0;
        while t2 < dd
            invariant
                t2 <= dd,
                mc@.len() == t2,
                forall|j: int| 0 <= j < t2 ==> mc@[j] == zero_el,
                zero_el.value == 0,
                zero_el.field == fd.field,
            decreases dd - t2,
        {
            mc.push(zero_el);
            t2 = t2 + 1;
        }
        mc.push(coeff);
        let monomial = Polynomial { coeffs: mc };
        proof {
            assert(monomial.coeffs@.last() == coeff);
            assert(seq_uniform(monomial.coeffs@));
            assert(elems_share(denominator.coeffs@, monomial.coeffs@));
            assert(seq_in(monomial.coeffs@, fd.field));
        }
        let subtractee = denominator.mul(&monomial);
        proof {
            assert(monomial.in_field(fd.field));
            assert(denominator.in_field(fd.field));
            assert(subtractee.in_field(fd.field));
            assert(elems_share(rem.coeffs@, subtractee.coeffs@));
        }
        let rem_new = rem.sub(&subtractee);
        proof {
            let dv = denominator.vals();
            let mv = monomial.vals();
            let cv = coeff.value as int;
            assert(mv.len() == dd + 1);
            assert(forall|j: int| 0 <= j < dd ==> mv[j] == 0);
            assert(mv[dd as int] == cv);
            // What the subtractee's coefficients are.
            assert forall|k: int| 0 <= k implies #[trigger] subtractee.cval(k) == (gets(
                dv,
                k - dd,
            ) * cv) % pi by {
                assert(subtractee.cval(k) == conv_at(dv, mv, k) % pi);
                lemma_conv_monomial(dv, mv, dd as int, cv, k);
            }
            // What the new remainder's coefficients are.
            assert forall|k: int| 0 <= k implies #[trigger] rem_new.cval(k) == (rem0.cval(k)
                - gets(dv, k - dd) * cv) % pi by {
                assert(rem_new.cval(k) == fsub(rem0.cval(k), subtractee.cval(k), pi));
                lemma_sub_mod_noop_right(rem0.cval(k), gets(dv, k - dd) * cv, pi);
            }
            // The new remainder is strictly shorter: every coefficient at or
            // above the old leading one vanishes.
            assert forall|k: int| rlen - 1 <= k implies #[trigger] rem_new.cval(k) == 0 by {
                if k == rlen - 1 {
                    assert(gets(dv, k - dd) == lc_d.value as int);
                    assert(rem0.cval(k) == lc_r.value as int);
                    assert(fmul(cv, lc_d.value as int, pi) == lc_r.value as int);
                    lemma_mul_is_commutative(lc_d.value as int, cv);
                    lemma_sub_mod_noop_right(rem0.cval(k), lc_d.value as int * cv, pi);
                    lemma_small_mod(lc_r.value as nat, fd.field.modulus() as nat);
                    assert((rem0.cval(k) - (lc_d.value as int * cv) % pi) % pi == 0int % pi);
                    lemma_small_mod(0nat, fd.field.modulus() as nat);
                } else {
                    assert(rem0.cval(k) == 0);
                    if k - dd >= dlen {
                        assert(gets(dv, k - dd) == 0);
                    } else {
                        assert(k - dd < dlen && k > rlen - 1);
                        assert(false);
                    }
                    assert(0int * cv == 0);
                    assert(gets(dv, k - dd) * cv == 0);
                    lemma_small_mod(0nat, fd.field.modulus() as nat);
                }
            }
            assert(rem_new.coeffs@.len() < rlen) by {
                if rem_new.coeffs@.len() >= rlen {
                    assert(rem_new.cval(rem_new.coeffs@.len() - 1) == 0);
                    assert(rem_new.coeffs@.last().value != 0);
                }
            }
            // The division equation is preserved.
            assert forall|k: int| 0 <= k implies #[trigger] numerator.cval(k) == (conv_at(
                poly_vals(qc@),
                dv,
                k,
            ) + rem_new.cval(k)) % pi by {
                assert(poly_vals(qc@) =~= poly_vals(qc0).update(dd as int, cv));
                assert(poly_vals(qc0)[dd as int] == 0);
                lemma_conv_update(poly_vals(qc0), dd as int, cv, dv, k);
                let c_old = conv_at(poly_vals(qc0), dv, k);
                let g = gets(dv, k - dd);
                assert(conv_at(poly_vals(qc@), dv, k) == c_old + cv * g);
                assert(numerator.cval(k) == (c_old + rem0.cval(k)) % pi);
                assert(rem_new.cval(k) == (rem0.cval(k) - g * cv) % pi);
                lemma_add_mod_noop_right(c_old + cv * g, rem0.cval(k) - g * cv, pi);
                lemma_mul_is_commutative(g, cv);
                assert((c_old + cv * g) + (rem0.cval(k) - g * cv) == c_old + rem0.cval(k));
            }
        }
        rem = rem_new;
    }
    let q = Polynomial::new(qc);
    proof {
        assert forall|f: Field|
            #[trigger] numerator.in_field(f) && #[trigger] denominator.in_field(f) implies
            q.in_field(f) && rem.in_field(f) && forall|k: int|
            0 <= k ==> #[trigger] numerator.cval(k) == (conv_at(q.vals(), denominator.vals(), k)
                + rem.cval(k)) % f.modulus() as int by {
            assert(f == fd.field);
            assert(seq_in(qc@, f));
            assert forall|k: int| 0 <= k implies #[trigger] numerator.cval(k) == (conv_at(
                q.vals(),
                denominator.vals(),
                k,
            ) + rem.cval(k)) % f.modulus() as int by {
                assert(q.vals() =~= poly_vals(qc@).take(q.coeffs@.len() as int));
                assert forall|j: int|
                    q.coeffs@.len() <= j < qc@.len() implies #[trigger] poly_vals(qc@)[j]
                    == 0 by {
                    assert(q.cval(j) == gets(poly_vals(qc@), j));
                    assert(q.cval(j) == 0);
                }
                lemma_conv_truncate(poly_vals(qc@), q.vals(), denominator.vals(), k);
            }
        }
    }
    (q, rem)
}

/// Computes the unique polynomial of least degree through the given points,
/// by Lagrange interpolation. The differences of distinct domain points must
/// be invertible, as they are in a prime field for a domain of distinct
/// points.
pub fn interpolate_domain(domain: Vec<FieldElement>, values: Vec<FieldElement>) -> (r: Polynomial)
    requires
        domain@.len() == values@.len(),
        domain@.len() + 2 <= usize::MAX,
        forall|i: int|
            0 <= i < domain@.len() ==> (#[trigger] domain@[i]).wf() && domain@[i].field
                == domain@[0].field,
        forall|i: int|
            0 <= i < values@.len() ==> (#[trigger] values@[i]).wf() && values@[i].field
                == domain@[0].field,
        domain@.len() > 0 ==> domain@[0].field.modulus() > 1,
        forall|i: int, j: int|
            0 <= i < domain@.len() && 0 <= j < domain@.len() && i != j ==> gcd(
                fsub(
                    (#[trigger] domain@[i]).value as int,
                    (#[trigger] domain@[j]).value as int,
                    domain@[0].field.modulus() as int,
                ) as nat,
                domain@[0].field.modulus() as nat,
            ) == 1,
    ensures
        r.wf(),
        r.coeffs@.len() <= domain@.len(),
        domain@.len() > 0 ==> r.in_field(domain@[0].field),
        forall|i: int|
            0 <= i < domain@.len() ==> ev(r.vals(), (#[trigger] domain@[i]).value as int)
                % domain@[0].field.modulus() as int == values@[i].value as int,
{
    if domain.len() == 0 {
        return Polynomial { coeffs: Vec::new() };
    }
    let f = domain[0].field;
    let ghost pi = f.modulus() as int;
    let ghost n = domain@.len() as int;
    let one = f.one();
    proof {
        lemma_small_mod(1nat, f.modulus() as nat);
    }
    let mut sum = Polynomial { coeffs: Vec::new() };
    proof {
        lemma_small_mod(0nat, f.modulus() as nat);
    }
    let mut i: usize = 0;
    while i < domain.len()
        invariant
            domain@.len() == values@.len(),
            1 <= domain@.len(),
            domain@.len() + 2 <= usize::MAX,
            n == domain@.len() as int,
            forall|q: int|
                0 <= q < domain@.len() ==> (#[trigger] domain@[q]).wf() && domain@[q].field
                    == domain@[0].field,
            forall|q: int|
                0 <= q < values@.len() ==> (#[trigger] values@[q]).wf() && values@[q].field
                    == domain@[0].field,
            forall|q: int, w: int|
                0 <= q < domain@.len() && 0 <= w < domain@.len() && q != w ==> gcd(
                    fsub(
                        (#[trigger] domain@[q]).value as int,
                        (#[trigger] domain@[w]).value as int,
                        domain@[0].field.modulus() as int,
                    ) as nat,
                    domain@[0].field.modulus() as nat,
                ) == 1,
            f == domain@[0].field,
            pi == f.modulus() as int,
            pi > 1,
            one.field == f,
            one.value == 1,
            i <= domain@.len(),
            sum.wf(),
            sum.in_field(f),
            sum.coeffs@.len() <= n,
            forall|u: int|
                0 <= u < n ==> ev(sum.vals(), (#[trigger] domain@[u]).value as int) % pi == (if u
                    < i {
                    values@[u].value as int
                } else {
                    0
                }),
        decreases domain@.len() - i,
    {
        let yi = values[i];
        let di = domain[i];
        if yi.value != 0 {
            let mut bv0: Vec<FieldElement> = Vec::new();
            bv0.push(yi);
            let mut basis = Polynomial { coeffs: bv0 };
            proof {
                assert(basis.vals().len() == 1 && basis.vals()[0] == yi.value as int);
                assert(ev(basis.vals().drop_first(), di.value as int) == 0);
                assert(di.value as int * 0 == 0);
                lemma_small_mod(yi.value as nat, f.modulus() as nat);
                assert(ev(basis.vals(), di.value as int) % pi == yi.value as int);
            }
            let mut j: usize = 0;
            while j < domain.len()
                invariant
                    domain@.len() == values@.len(),
                    1 <= domain@.len(),
                    domain@.len() + 2 <= usize::MAX,
                    n == domain@.len() as int,
                    forall|q: int|
                        0 <= q < domain@.len() ==> (#[trigger] domain@[q]).wf() && domain@[q].field
                            == domain@[0].field,
                    forall|q: int, w: int|
                        0 <= q < domain@.len() && 0 <= w < domain@.len() && q != w ==> gcd(
                            fsub(
                                (#[trigger] domain@[q]).value as int,
                                (#[trigger] domain@[w]).value as int,
                                domain@[0].field.modulus() as int,
                            ) as nat,
                            domain@[0].field.modulus() as nat,
                        ) == 1,
                    f == domain@[0].field,
                    pi == f.modulus() as int,
                    pi > 1,
                    one.field == f,
                    one.value == 1,
                    i < domain@.len(),
                    di == domain@[i as int],
                    yi == values@[i as int],
                    yi.wf(),
                    yi.value != 0,
                    j <= domain@.len(),
                    basis.wf(),
                    basis.in_field(f),
                    basis.coeffs@.len() <= (if j <= i { j as int + 1 } else { j as int }),
                    ev(basis.vals(), di.value as int) % pi == yi.value as int,
                    forall|t: int|
                        0 <= t < j && t != i ==> ev(
                            basis.vals(),
                            (#[trigger] domain@[t]).value as int,
                        ) % pi == 0,
                decreases domain@.len() - j,
            {
                if j != i {
                    let ghost basis0 = basis;
                    let dj = domain[j];
                    let nd = dj.neg();
                    let mut nc: Vec<FieldElement> = Vec::new();
                    nc.push(nd);
                    nc.push(one);
                    let numerator = Polynomial { coeffs: nc };
                    let diff = di.sub(dj);
                    proof {
                        assert(diff.value as int == fsub(di.value as int, dj.value as int, pi));
                        if diff.value == 0 {
                            assert(gcd(0nat, f.modulus() as nat) == gcd(
                                f.modulus() as nat,
                                0nat,
                            )) by {
                                lemma_small_mod(0nat, f.modulus() as nat);
                            }
                            assert(false);
                        }
                    }
                    let dinv = diff.inv();
                    proof {
                        if dinv.value == 0 {
                            assert(fmul(0, diff.value as int, pi) == 1);
                            assert(0int * diff.value as int == 0);
                            lemma_small_mod(0nat, f.modulus() as nat);
                            assert(false);
                        }
                        assert(numerator.wf());
                        assert(seq_in(numerator.coeffs@, f));
                        assert(elems_share(basis.coeffs@, numerator.coeffs@));
                        assert(basis.coeffs@.len() + numerator.coeffs@.len() <= usize::MAX);
                    }
                    let b1 = basis.mul(&numerator);
                    let mut cv: Vec<FieldElement> = Vec::new();
                    cv.push(dinv);
                    let cpoly = Polynomial { coeffs: cv };
                    proof {
                        assert(basis0.in_field(f) && numerator.in_field(f));
                        assert(b1.in_field(f));
                        assert(cpoly.wf() && cpoly.in_field(f));
                        assert(elems_share(b1.coeffs@, cpoly.coeffs@));
                    }
                    let b2 = b1.mul(&cpoly);
                    proof {
                        assert(b1.in_field(f) && b2.in_field(f));
                        let nv = numerator.vals();
                        let civ = dinv.value as int;
                        assert forall|k: int| 0 <= k implies #[trigger] gets(b1.vals(), k)
                            == conv_at(basis0.vals(), nv, k) % pi by {
                            assert(b1.cval(k) == conv_at(basis0.vals(), nv, k) % pi);
                        }
                        assert forall|k: int| 0 <= k implies #[trigger] gets(b2.vals(), k)
                            == conv_at(b1.vals(), cpoly.vals(), k) % pi by {
                            assert(b2.cval(k) == conv_at(b1.vals(), cpoly.vals(), k) % pi);
                        }
                        // The two new factors evaluate, at any x, to
                        // x - d_j and to the inverse of d_i - d_j.
                        assert(nv.len() == 2 && nv[0] == fneg(dj.value as int, pi) && nv[1] == 1);
                        assert(cpoly.vals().len() == 1 && cpoly.vals()[0] == civ);
                        assert forall|t: int| 0 <= t <= j && t != i implies ev(
                            b2.vals(),
                            (#[trigger] domain@[t]).value as int,
                        ) % pi == 0 by {
                            let xv = domain@[t].value as int;
                            lemma_mul_ev_cases(b1.vals(), basis0.vals(), nv, pi, xv);
                            lemma_mul_ev_cases(b2.vals(), b1.vals(), cpoly.vals(), pi, xv);
                            if t < j {
                                // The old basis already vanishes at x.
                                lemma_mul_mod_noop_left(ev(basis0.vals(), xv), ev(nv, xv), pi);
                                assert(0int * ev(nv, xv) == 0) by (nonlinear_arith);
                                lemma_small_mod(0nat, f.modulus() as nat);
                                assert(ev(b1.vals(), xv) % pi == 0);
                            } else {
                                // t == j: the new linear factor vanishes at x.
                                let nv1 = nv.drop_first();
                                assert(nv1.len() == 1 && nv1[0] == 1);
                                assert(ev(nv1.drop_first(), xv) == 0);
                                assert(ev(nv.drop_first(), xv) == 1 + xv * 0);
                                assert(xv * (1 + xv * 0) == xv) by (nonlinear_arith);
                                assert(ev(nv, xv) == fneg(dj.value as int, pi) + xv);
                                lemma_add_mod_noop_right(xv, pi - xv, pi);
                                lemma_mod_self_0(pi);
                                assert(ev(nv, xv) % pi == 0);
                                lemma_mul_mod_noop_right(ev(basis0.vals(), xv), ev(nv, xv), pi);
                                assert(ev(basis0.vals(), xv) * 0 == 0) by (nonlinear_arith);
                                lemma_small_mod(0nat, f.modulus() as nat);
                                assert(ev(b1.vals(), xv) % pi == 0);
                            }
                            lemma_mul_mod_noop_left(ev(b1.vals(), xv), ev(cpoly.vals(), xv), pi);
                            assert(0int * ev(cpoly.vals(), xv) == 0) by (nonlinear_arith);
                            lemma_small_mod(0nat, f.modulus() as nat);
                        }
                        // At d_i the basis keeps the value y_i.
                        assert(ev(b2.vals(), di.value as int) % pi == yi.value as int) by {
                            let xv = di.value as int;
                            lemma_mul_ev_cases(b1.vals(), basis0.vals(), nv, pi, xv);
                            lemma_mul_ev_cases(b2.vals(), b1.vals(), cpoly.vals(), pi, xv);
                            let nv1 = nv.drop_first();
                            assert(nv1.len() == 1 && nv1[0] == 1);
                            assert(ev(nv1.drop_first(), xv) == 0);
                            assert(ev(nv.drop_first(), xv) == 1 + xv * 0);
                            assert(xv * (1 + xv * 0) == xv) by (nonlinear_arith);
                            assert(ev(nv, xv) == fneg(dj.value as int, pi) + xv);
                            let s = diff.value as int;
                            // ev(nv, xv) is congruent to the difference s.
                            lemma_add_mod_noop_right(xv, pi - dj.value as int, pi);
                            lemma_mod_add_multiples_vanish(xv - dj.value as int, pi);
                            assert(ev(nv, xv) % pi == s) by {
                                assert((xv + (pi - dj.value as int)) % pi == (xv - dj.value as int)
                                    % pi);
                            }
                            assert(cpoly.vals().len() == 1);
                            assert(ev(cpoly.vals().drop_first(), xv) == 0);
                            assert(ev(cpoly.vals(), xv) == civ + xv * 0);
                            assert(xv * 0 == 0);
                            // Chain the congruences down to y_i.
                            lemma_mul_mod_noop_general(ev(basis0.vals(), xv), ev(nv, xv), pi);
                            assert(ev(b1.vals(), xv) % pi == (yi.value as int * s) % pi) by {
                                lemma_mod_twice(yi.value as int * s, pi);
                                lemma_mul_mod_noop_left(yi.value as int, s, pi);
                                lemma_small_mod(yi.value as nat, f.modulus() as nat);
                            }
                            lemma_mul_mod_noop_left(ev(b1.vals(), xv), civ, pi);
                            lemma_mul_mod_noop_left(yi.value as int * s, civ, pi);
                            lemma_mod_twice(yi.value as int * s, pi);
                            assert(ev(b2.vals(), xv) % pi == ((yi.value as int * s) * civ) % pi);
                            lemma_mul_is_associative(yi.value as int, s, civ);
                            lemma_mul_mod_noop_right(yi.value as int, s * civ, pi);
                            assert((s * civ) % pi == 1) by {
                                assert(fmul(civ, s, pi) == 1);
                                lemma_mul_is_commutative(civ, s);
                            }
                            assert((yi.value as int * 1) == yi.value as int);
                            lemma_small_mod(yi.value as nat, f.modulus() as nat);
                        }
                    }
                    basis = b2;
                }
                j = j + 1;
            }
            let ghost sum0 = sum;
            sum = sum.add(&basis);
            proof {
                assert(sum0.in_field(f) && basis.in_field(f));
                assert(sum.in_field(f));
                assert forall|k: int| 0 <= k implies #[trigger] gets(sum.vals(), k) == (gets(
                    sum0.vals(),
                    k,
                ) + 1 * gets(basis.vals(), k)) % pi by {
                    assert(sum.cval(k) == fadd(sum0.cval(k), basis.cval(k), pi));
                    assert(1 * gets(basis.vals(), k) == gets(basis.vals(), k));
                }
                assert forall|u: int| 0 <= u < n implies ev(
                    sum.vals(),
                    (#[trigger] domain@[u]).value as int,
                ) % pi == (if u < i + 1 {
                    values@[u].value as int
                } else {
                    0
                }) by {
                    let xv = domain@[u].value as int;
                    lemma_poly_linear_ev(sum.vals(), sum0.vals(), basis.vals(), 1, pi, xv);
                    lemma_add_mod_noop(ev(sum0.vals(), xv), ev(basis.vals(), xv), pi);
                    assert(1 * ev(basis.vals(), xv) == ev(basis.vals(), xv));
                    if u < i {
                        lemma_small_mod(values@[u].value as nat, f.modulus() as nat);
                        lemma_small_mod(
                            (values@[u].value as int + 0) as nat % f.modulus() as nat,
                            f.modulus() as nat,
                        );
                        assert((values@[u].value as int + 0) % pi == values@[u].value as int);
                    } else if u == i {
                        lemma_small_mod(yi.value as nat, f.modulus() as nat);
                        assert((0 + yi.value as int) % pi == yi.value as int);
                    } else {
                        lemma_small_mod(0nat, f.modulus() as nat);
                        assert((0int + 0) % pi == 0);
                    }
                }
            }
        } else {
            proof {
                assert forall|u: int| 0 <= u < n implies ev(
                    sum.vals(),
                    (#[trigger] domain@[u]).value as int,
                ) % pi == (if u < i + 1 {
                    values@[u].value as int
                } else {
                    0
                }) by {}
            }
        }
        i = i + 1;
    }
    sum
}

/// All points lie on one affine line with slope `a` and intercept `b`, in
/// the field of modulus `p`.
pub open spec fn on_affine_line(
    points: Seq<(FieldElement, FieldElement)>,
    a: int,
    b: int,
    p: int,
) -> bool {
    forall|i: int|
        0 <= i < points.len() ==> (b + a * (#[trigger] points[i]).0.value as int) % p
            == points[i].1.value as int
}

/// Tests whether the points are collinear in the algebraic sense: the
/// result is true exactly when one affine line over the field passes
/// through every point. With at least two points, such a line can only be
/// the one through the first two, so the test derives that line and checks
/// every point against it; with fewer, every point set is collinear.
pub fn test_colinearity(points: Vec<(FieldElement, FieldElement)>) -> (r: bool)
    requires
        forall|i: int|
            0 <= i < points@.len() ==> (#[trigger] points@[i]).0.wf() && points@[i].1.wf()
                && points@[i].0.field == points@[0].0.field && points@[i].1.field
                == points@[0].0.field,
        points@.len() > 0 ==> points@[0].0.field.modulus() > 1,
        forall|i: int, j: int|
            0 <= i < points@.len() && 0 <= j < points@.len() && i != j ==> gcd(
                fsub(
                    (#[trigger] points@[i]).0.value as int,
                    (#[trigger] points@[j]).0.value as int,
                    points@[0].0.field.modulus() as int,
                ) as nat,
                points@[0].0.field.modulus() as nat,
            ) == 1,
    ensures
        r == exists|a: int, b: int|
            on_affine_line(points@, a, b, points@[0].0.field.modulus() as int),
{
    let ghost pi = points@[0].0.field.modulus() as int;
    if points.len() <= 1 {
        proof {
            if points@.len() == 0 {
                assert(on_affine_line(points@, 0, 0, pi));
            } else {
                let y0 = points@[0].1.value as int;
                lemma_small_mod(points@[0].1.value as nat, points@[0].0.field.modulus() as nat);
                assert(0int * points@[0].0.value as int == 0) by (nonlinear_arith);
                assert((y0 + 0int * points@[0].0.value as int) % pi == y0);
                assert(on_affine_line(points@, 0, y0, pi));
            }
        }
        return true;
    }
    let f = points[0].0.field;
    let p0 = points[0];
    let p1 = points[1];
    let dx = p1.0.sub(p0.0);
    proof {
        if dx.value == 0 {
            assert(gcd(0nat, f.modulus() as nat) == gcd(f.modulus() as nat, 0nat)) by {
                lemma_small_mod(0nat, f.modulus() as nat);
            }
            assert(false);
        }
    }
    let dxinv = dx.inv();
    let dy = p1.1.sub(p0.1);
    let a = dy.mul(dxinv);
    let b = p0.1.sub(a.mul(p0.0));
    let ghost av = a.value as int;
    let ghost bv = b.value as int;
    let ghost x0 = p0.0.value as int;
    let ghost y0 = p0.1.value as int;
    let ghost x1 = p1.0.value as int;
    let ghost y1 = p1.1.value as int;
    let ghost dxv = dx.value as int;
    let ghost dyv = dy.value as int;
    let ghost ivv = dxinv.value as int;
    proof {
        // The intercept is congruent to y0 - a * x0.
        lemma_sub_mod_noop_right(y0, av * x0, pi);
        assert(bv == (y0 - av * x0) % pi);
        // The slope times the run is congruent to the rise.
        assert((ivv * dxv) % pi == 1);
    }
    let mut ok = true;
    let mut i: usize = 0;
    while i < points.len()
        invariant
            forall|q: int|
                0 <= q < points@.len() ==> (#[trigger] points@[q]).0.wf() && points@[q].1.wf()
                    && points@[q].0.field == points@[0].0.field && points@[q].1.field
                    == points@[0].0.field,
            points@.len() >= 2,
            pi == points@[0].0.field.modulus() as int,
            pi > 1,
            a.wf(),
            b.wf(),
            a.field == points@[0].0.field,
            b.field == points@[0].0.field,
            av == a.value as int,
            bv == b.value as int,
            i <= points@.len(),
            ok == (forall|t: int|
                0 <= t < i ==> (bv + av * (#[trigger] points@[t]).0.value as int) % pi
                    == points@[t].1.value as int),
        decreases points@.len() - i,
    {
        let pt = points[i];
        let expect = b.add(a.mul(pt.0));
        let ghost ok0 = ok;
        let hit = expect.eq(pt.1);
        if !hit {
            ok = false;
        }
        proof {
            let xt = pt.0.value as int;
            let yt = pt.1.value as int;
            lemma_add_mod_noop_right(bv, av * xt, pi);
            assert(expect.value as int == (bv + av * xt) % pi);
            if ok {
                assert forall|t: int|
                    0 <= t < i + 1 implies (bv + av * (#[trigger] points@[t]).0.value as int) % pi
                    == points@[t].1.value as int by {
                    if t == i {
                        assert(expect.value as int == yt);
                    }
                }
            } else {
                assert(!(forall|t: int|
                    0 <= t < i + 1 ==> (bv + av * (#[trigger] points@[t]).0.value as int) % pi
                        == points@[t].1.value as int)) by {
                    if forall|t: int|
                        0 <= t < i + 1 ==> (bv + av * (#[trigger] points@[t]).0.value as int) % pi
                            == points@[t].1.value as int {
                        assert((bv + av * points@[i as int].0.value as int) % pi
                            == points@[i as int].1.value as int);
                        if ok0 {
                        } else {
                            assert(forall|t: int|
                                0 <= t < i ==> (bv + av * (
                                #[trigger] points@[t]).0.value as int) % pi
                                    == points@[t].1.value as int);
                        }
                    }
                }
            }
        }
        i = i + 1;
    }
    proof {
        if ok {
            assert(on_affine_line(points@, av, bv, pi));
        } else {
            assert(!(exists|a2: int, b2: int| on_affine_line(points@, a2, b2, pi))) by {
                if exists|a2: int, b2: int| on_affine_line(points@, a2, b2, pi) {
                    let (a2, b2) = choose|a2: int, b2: int| on_affine_line(points@, a2, b2, pi);
                    lemma_line_is_unique(points@, a2, b2, av, bv, x0, y0, x1, y1, dxv, dyv, ivv, pi);
                    assert(ok);
                }
            }
        }
    }
    ok
}

/// Over a field, at most one affine line passes through two points with
/// distinct first coordinates: any line through all the points agrees,
/// modulo the field, with the one derived from the first two, and so matches
/// the derived line at every point.
proof fn lemma_line_is_unique(
    points: Seq<(FieldElement, FieldElement)>,
    a2: int,
    b2: int,
    av: int,
    bv: int,
    x0: int,
    y0: int,
    x1: int,
    y1: int,
    dxv: int,
    dyv: int,
    ivv: int,
    pi: int,
)
    requires
        pi > 1,
        points.len() >= 2,
        on_affine_line(points, a2, b2, pi),
        x0 == points[0].0.value,
        y0 == points[0].1.value,
        x1 == points[1].0.value,
        y1 == points[1].1.value,
        forall|t: int| 0 <= t < points.len() ==> (#[trigger] points[t]).1.value < pi,
        dxv == (x1 - x0) % pi,
        dyv == (y1 - y0) % pi,
        (ivv * dxv) % pi == 1,
        av == (dyv * ivv) % pi,
        bv == (y0 - av * x0) % pi,
    ensures
        forall|t: int|
            0 <= t < points.len() ==> (bv + av * (#[trigger] points[t]).0.value as int) % pi
                == points[t].1.value as int,
{
    // The candidate slope agrees with the derived one, modulo the field.
    let s0 = b2 + a2 * x0;
    let s1 = b2 + a2 * x1;
    assert(s0 % pi == y0 && s1 % pi == y1);
    lemma_sub_mod_noop(s1, s0, pi);
    lemma_sub_mod_noop(y1, y0, pi);
    lemma_small_mod(points[0].1.value as nat, pi as nat);
    lemma_small_mod(points[1].1.value as nat, pi as nat);
    assert((s1 - s0) % pi == (y1 - y0) % pi);
    assert(s1 - s0 == a2 * (x1 - x0)) by (nonlinear_arith)
        requires
            s0 == b2 + a2 * x0,
            s1 == b2 + a2 * x1,
    ;
    lemma_mul_mod_noop_right(a2, x1 - x0, pi);
    assert((a2 * dxv) % pi == dyv);
    // Multiply by the inverse of the run.
    lemma_mul_mod_noop_left(a2 * dxv, ivv, pi);
    lemma_mul_mod_noop_left(dyv, ivv, pi);
    assert(((a2 * dxv) * ivv) % pi == (dyv * ivv) % pi);
    lemma_mul_is_associative(a2, dxv, ivv);
    lemma_mul_mod_noop_right(a2, dxv * ivv, pi);
    assert((a2 * (dxv * ivv)) % pi == (a2 * ((dxv * ivv) % pi)) % pi);
    assert((dxv * ivv) % pi == 1) by {
        lemma_mul_is_commutative(dxv, ivv);
    }
    assert(a2 * 1 == a2);
    assert(a2 % pi == av);
    // The candidate intercept agrees too.
    lemma_sub_mod_noop(s0, a2 * x0, pi);
    lemma_sub_mod_noop(y0, a2 * x0, pi);
    assert((s0 - a2 * x0) % pi == (y0 - a2 * x0) % pi);
    assert(s0 - a2 * x0 == b2);
    lemma_mul_mod_noop_left(a2, x0, pi);
    lemma_mul_mod_noop_left(av, x0, pi);
    assert((a2 * x0) % pi == (av * x0) % pi);
    lemma_sub_mod_noop_right(y0, a2 * x0, pi);
    lemma_sub_mod_noop_right(y0, av * x0, pi);
    assert(b2 % pi == (y0 - av * x0) % pi);
    assert(b2 % pi == bv);
    // So the candidate line computes the derived line's values everywhere.
    assert forall|t: int|
        0 <= t < points.len() implies (bv + av * (#[trigger] points[t]).0.value as int) % pi
        == points[t].1.value as int by {
        let xt = points[t].0.value as int;
        lemma_add_mod_noop(b2, a2 * xt, pi);
        lemma_mul_mod_noop_left(a2, xt, pi);
        lemma_mul_mod_noop_left(av, xt, pi);
        assert((a2 * xt) % pi == (av * xt) % pi);
        lemma_add_mod_noop(bv, av * xt, pi);
        lemma_mod_bound(y0 - av * x0, pi);
        lemma_small_mod(bv as nat, pi as nat);
        assert((bv % pi + (av * xt) % pi) % pi == (b2 % pi + (a2 * xt) % pi) % pi);
        assert((b2 + a2 * xt) % pi == points[t].1.value as int);
    }
}

/// One step of the extended Euclidean algorithm keeps the Bezout coefficient
/// bounded: the coefficients alternate in sign, and their magnitudes satisfy
/// an exact identity against the remainder sequence.
proof fn lemma_egcd_step(os: int, sv: int, q: int, ri: int, ori: int, nr: int, bound: int)
    requires
        os * sv <= 0,
        q >= 0,
        ri >= 1,
        ori >= 0,
        nr == ori - q * ri,
        0 <= nr,
        ori * abs(sv) + ri * abs(os) == bound,
    ensures
        abs(q * sv) <= bound,
        abs(os - q * sv) <= bound,
        ri * abs(os - q * sv) + nr * abs(sv) == bound,
        (os - q * sv) * sv <= 0,
{
    let ns = os - q * sv;
    let a_os = abs(os);
    let a_sv = abs(sv);
    let a_ns = abs(ns);
    assert(a_ns == a_os + q * a_sv) by (nonlinear_arith)
        requires
            os * sv <= 0,
            q >= 0,
            ns == os - q * sv,
            (os >= 0 && a_os == os) || (os < 0 && a_os == -os),
            (sv >= 0 && a_sv == sv) || (sv < 0 && a_sv == -sv),
            (ns >= 0 && a_ns == ns) || (ns < 0 && a_ns == -ns),
    ;
    assert(ri * a_ns + nr * a_sv == bound) by (nonlinear_arith)
        requires
            a_ns == a_os + q * a_sv,
            nr == ori - q * ri,
            ori * a_sv + ri * a_os == bound,
    ;
    assert(a_ns <= bound) by (nonlinear_arith)
        requires
            ri * a_ns + nr * a_sv == bound,
            ri >= 1,
            a_ns >= 0,
            nr >= 0,
            a_sv >= 0,
    ;
    assert(q * a_sv <= a_ns);
    assert(abs(q * sv) == q * a_sv) by (nonlinear_arith)
        requires
            q >= 0,
            (sv >= 0 && a_sv == sv) || (sv < 0 && a_sv == -sv),
            (q * sv >= 0 && abs(q * sv) == q * sv) || (q * sv < 0 && abs(q * sv) == -(q * sv)),
    ;
    assert(ns * sv <= 0) by (nonlinear_arith)
        requires
            os * sv <= 0,
            q >= 0,
            ns == os - q * sv,
    ;
}

/// The extended Euclidean algorithm: for nonnegative `x` and `y` it returns
/// `(s, t, g)` with `g` the greatest common divisor of `x` and `y` and
/// `s * x + t * y == g`.
pub fn extended_gcd(x: i128, y: i128) -> (r: (i128, i128, i128))
    requires
        0 <= x,
        0 <= y,
    ensures
        r.2 as int == gcd(x as nat, y as nat) as int,
        r.0 as int * x as int + r.1 as int * y as int == r.2 as int,
{
    let mut old_r: i128 = x;
    let mut rr: i128 = y;
    let mut old_s: i128 = 1;
    let mut s: i128 = 0;
    let mut old_t: i128 = 0;
    let mut t: i128 = 1;
    proof {
        assert(1int * x as int + 0int * y as int == x as int) by (nonlinear_arith);
        assert(0int * x as int + 1int * y as int == y as int) by (nonlinear_arith);
        assert(x as int * abs(0int) + y as int * abs(1int) == y as int) by (nonlinear_arith);
        assert(x as int * abs(1int) + y as int * abs(0int) == x as int) by (nonlinear_arith);
        assert(1int * 0int <= 0) by (nonlinear_arith);
    }
    while rr != 0
        invariant
            0 <= x,
            0 <= y,
            0 <= old_r,
            0 <= rr,
            old_s as int * x as int + old_t as int * y as int == old_r as int,
            s as int * x as int + t as int * y as int == rr as int,
            gcd(old_r as nat, rr as nat) == gcd(x as nat, y as nat),
            old_s as int * s as int <= 0,
            old_t as int * t as int <= 0,
            old_r as int * abs(s as int) + rr as int * abs(old_s as int) == y as int,
            old_r as int * abs(t as int) + rr as int * abs(old_t as int) == x as int,
            abs(old_s as int) <= imax(1, y as int),
            abs(s as int) <= imax(1, y as int),
            abs(old_t as int) <= imax(1, x as int),
            abs(t as int) <= imax(1, x as int),
        decreases rr,
    {
        let ghost ori = old_r as int;
        let ghost ri = rr as int;
        let ghost osi = old_s as int;
        let ghost si = s as int;
        let ghost oti = old_t as int;
        let ghost ti = t as int;
        let q_u = (old_r as u128) / (rr as u128);
        let nr_u = (old_r as u128) % (rr as u128);
        proof {
            lemma_mod_bound(ori, ri);
            lemma_fundamental_div_mod(ori, ri);
            lemma_div_pos_is_pos(ori, ri);
            lemma_div_nonincreasing(ori, ri);
        }
        proof {
            assert(q_u as int == ori / ri);
            assert(nr_u as int == ori % ri);
            assert(q_u as int <= ori);
        }
        let q = q_u as i128;
        let new_r = nr_u as i128;
        proof {
            assert(q as int == ori / ri);
            assert(new_r as int == ori % ri);
            lemma_mul_is_commutative(q as int, ri);
            assert(ri * (ori / ri) == q as int * ri);
            assert(new_r as int == ori - q as int * ri);
            lemma_egcd_step(osi, si, q as int, ri, ori, new_r as int, y as int);
            lemma_egcd_step(oti, ti, q as int, ri, ori, new_r as int, x as int);
            // The intermediate products and the new coefficients stay in
            // range.
            assert(abs(q as int * si) <= y as int && abs(osi - q as int * si) <= y as int);
            assert(abs(q as int * ti) <= x as int && abs(oti - q as int * ti) <= x as int);
            lemma_mul_is_commutative(osi - q as int * si, si);
            lemma_mul_is_commutative(oti - q as int * ti, ti);
            assert(si * (osi - q as int * si) <= 0);
            assert(ti * (oti - q as int * ti) <= 0);
        }
        let new_s = old_s - q * s;
        let new_t = old_t - q * t;
        proof {
            // Bezout is preserved.
            assert((osi - q as int * si) * x as int + (oti - q as int * ti) * y as int == ori
                - q as int * ri) by (nonlinear_arith)
                requires
                    osi * x as int + oti * y as int == ori,
                    si * x as int + ti * y as int == ri,
            ;
            // The gcd chain is preserved: one unfolding of the definition.
            assert(gcd(ri as nat, new_r as nat) == gcd(ori as nat, ri as nat));
        }
        old_r = rr;
        rr = new_r;
        old_s = s;
        s = new_s;
        old_t = t;
        t = new_t;
    }
    proof {
        assert(gcd(old_r as nat, 0nat) == old_r as nat);
    }
    (old_s, old_t, old_r)
}

/// The convolution depends on the left factor only through its coefficients,
/// stored or implicit zeros alike.
pub(crate) proof fn lemma_conv_ext(a1: Seq<int>, a2: Seq<int>, b: Seq<int>, k: int)
    requires
        forall|i: int| #[trigger] gets(a1, i) == gets(a2, i),
    ensures
        conv_at(a1, b, k) == conv_at(a2, b, k),
    decreases a1.len() + a2.len(),
{
    if a1.len() == 0 && a2.len() == 0 {
    } else if a1.len() == 0 {
        assert forall|j: int| 0 <= j < a2.len() implies #[trigger] a2[j] == 0 by {
            assert(gets(a1, j) == gets(a2, j));
            assert(gets(a1, j) == 0);
            assert(gets(a2, j) == a2[j]);
        }
        lemma_conv_all_zero(a2, b, k);
    } else if a2.len() == 0 {
        assert forall|j: int| 0 <= j < a1.len() implies #[trigger] a1[j] == 0 by {
            assert(gets(a1, j) == gets(a2, j));
            assert(gets(a2, j) == 0);
            assert(gets(a1, j) == a1[j]);
        }
        lemma_conv_all_zero(a1, b, k);
    } else {
        assert forall|i: int| #[trigger] gets(a1.drop_first(), i) == gets(
            a2.drop_first(),
            i,
        ) by {
            if 0 <= i {
                assert(gets(a1.drop_first(), i) == gets(a1, i + 1));
                assert(gets(a2.drop_first(), i) == gets(a2, i + 1));
            }
        }
        lemma_conv_ext(a1.drop_first(), a2.drop_first(), b, k - 1);
        assert(gets(a1, 0) == gets(a2, 0));
    }
}

/// The convolution is linear in the left factor: convolving a pointwise
/// difference gives the difference of the convolutions.
pub(crate) proof fn lemma_conv_sub(ds: Seq<int>, a1: Seq<int>, a2: Seq<int>, b: Seq<int>, k: int)
    requires
        forall|i: int| #[trigger] gets(ds, i) == gets(a1, i) - gets(a2, i),
    ensures
        conv_at(ds, b, k) == conv_at(a1, b, k) - conv_at(a2, b, k),
    decreases ds.len() + a1.len() + a2.len(),
{
    if ds.len() == 0 && a1.len() == 0 && a2.len() == 0 {
    } else if ds.len() == 0 {
        assert forall|i: int| #[trigger] gets(a1, i) == gets(a2, i) by {
            assert(gets(ds, i) == 0);
        }
        lemma_conv_ext(a1, a2, b, k);
    } else {
        let d2 = ds.drop_first();
        let x1 = if a1.len() > 0 {
            a1.drop_first()
        } else {
            a1
        };
        let x2 = if a2.len() > 0 {
            a2.drop_first()
        } else {
            a2
        };
        assert forall|i: int| #[trigger] gets(d2, i) == gets(x1, i) - gets(x2, i) by {
            if 0 <= i {
                assert(gets(d2, i) == gets(ds, i + 1));
                assert(gets(x1, i) == gets(a1, i + 1));
                assert(gets(x2, i) == gets(a2, i + 1));
            }
        }
        lemma_conv_sub(d2, x1, x2, b, k - 1);
        // The front terms line up; an absent front coefficient stands for
        // zero.
        assert(gets(ds, 0) == gets(a1, 0) - gets(a2, 0));
        assert(conv_at(ds, b, k) == ds[0] * gets(b, k) + conv_at(d2, b, k - 1));
        assert(conv_at(a1, b, k) == gets(a1, 0) * gets(b, k) + conv_at(x1, b, k - 1)) by {
            if a1.len() == 0 {
                assert(conv_at(a1, b, k) == 0 && gets(a1, 0) == 0);
                assert(0int * gets(b, k) == 0);
                lemma_conv_neg_or_same(a1, b, k, k - 1);
            }
        }
        assert(conv_at(a2, b, k) == gets(a2, 0) * gets(b, k) + conv_at(x2, b, k - 1)) by {
            if a2.len() == 0 {
                assert(conv_at(a2, b, k) == 0 && gets(a2, 0) == 0);
                assert(0int * gets(b, k) == 0);
                lemma_conv_neg_or_same(a2, b, k, k - 1);
            }
        }
        assert((gets(a1, 0) - gets(a2, 0)) * gets(b, k) == gets(a1, 0) * gets(b, k) - gets(a2, 0)
            * gets(b, k)) by (nonlinear_arith);
    }
}

/// A convolution of an empty left factor is zero at every index.
proof fn lemma_conv_neg_or_same(a: Seq<int>, b: Seq<int>, k1: int, k2: int)
    requires
        a.len() == 0,
    ensures
        conv_at(a, b, k1) == 0,
        conv_at(a, b, k2) == 0,
{
}

/// A left factor whose coefficients all vanish modulo `p` gives a
/// convolution that vanishes modulo `p`.
pub(crate) proof fn lemma_conv_left_zero_mod(a: Seq<int>, b: Seq<int>, k: int, p: int)
    requires
        p > 0,
        forall|j: int| #[trigger] gets(a, j) % p == 0,
    ensures
        conv_at(a, b, k) % p == 0,
    decreases a.len(),
{
    lemma_small_mod(0nat, p as nat);
    if a.len() > 0 {
        assert forall|j: int| #[trigger] gets(a.drop_first(), j) % p == 0 by {
            if 0 <= j {
                assert(gets(a.drop_first(), j) == gets(a, j + 1));
            }
        }
        lemma_conv_left_zero_mod(a.drop_first(), b, k - 1, p);
        assert(a[0] % p == 0) by {
            assert(gets(a, 0) == a[0]);
        }
        lemma_mul_mod_noop_left(a[0], gets(b, k), p);
        assert((0int * gets(b, k)) == 0) by (nonlinear_arith);
        lemma_add_mod_noop(a[0] * gets(b, k), conv_at(a.drop_first(), b, k - 1), p);
        assert((a[0] * gets(b, k)) % p == 0);
    }
}

/// At the index pairing coefficient `i` with the divisor's top coefficient,
/// a convolution whose left coefficients above `i` all vanish modulo `p`
/// reduces to that single product.
pub(crate) proof fn lemma_conv_top_term(a: Seq<int>, b: Seq<int>, k: int, i: int, p: int)
    requires
        p > 0,
        b.len() >= 1,
        0 <= i,
        k == i + b.len() - 1,
        forall|j: int| j > i ==> #[trigger] gets(a, j) % p == 0,
    ensures
        conv_at(a, b, k) % p == (gets(a, i) * b.last()) % p,
    decreases a.len(),
{
    lemma_small_mod(0nat, p as nat);
    if a.len() == 0 {
        assert(gets(a, i) == 0);
        assert(0int * b.last() == 0);
    } else if i == 0 {
        assert(gets(b, k) == b.last());
        assert forall|j: int| #[trigger] gets(a.drop_first(), j) % p == 0 by {
            if 0 <= j {
                assert(gets(a.drop_first(), j) == gets(a, j + 1));
            }
        }
        lemma_conv_left_zero_mod(a.drop_first(), b, k - 1, p);
        lemma_add_mod_noop(a[0] * gets(b, k), conv_at(a.drop_first(), b, k - 1), p);
        lemma_mod_twice(a[0] * gets(b, k), p);
        assert(gets(a, 0) == a[0]);
    } else {
        assert(gets(b, k) == 0);
        assert(a[0] * 0 == 0);
        assert forall|j: int| j > i - 1 implies #[trigger] gets(a.drop_first(), j) % p == 0 by {
            if 0 <= j {
                assert(gets(a.drop_first(), j) == gets(a, j + 1));
            }
        }
        lemma_conv_top_term(a.drop_first(), b, k - 1, i - 1, p);
        assert(gets(a.drop_first(), i - 1) == gets(a, i));
    }
}

/// If a convolution against a divisor with an invertible top coefficient is,
/// modulo `p`, a polynomial of degree below the divisor's, then every left
/// coefficient vanishes modulo `p`: exact division leaves no quotient
/// freedom.
pub(crate) proof fn lemma_left_factor_vanishes(
    a: Seq<int>,
    b: Seq<int>,
    rv: Seq<int>,
    inv: int,
    p: int,
    i: int,
)
    requires
        p > 0,
        b.len() >= 1,
        rv.len() < b.len(),
        (b.last() * inv) % p == 1,
        forall|k: int| 0 <= k ==> #[trigger] (conv_at(a, b, k) % p) == gets(rv, k),
        forall|j: int| j > i ==> #[trigger] gets(a, j) % p == 0,
    ensures
        forall|j: int| #[trigger] gets(a, j) % p == 0,
    decreases i + 1,
{
    lemma_small_mod(0nat, p as nat);
    if i < 0 {
        assert forall|j: int| #[trigger] gets(a, j) % p == 0 by {
            if j <= i {
                assert(gets(a, j) == 0);
            }
        }
    } else {
        let k = i + b.len() - 1;
        lemma_conv_top_term(a, b, k, i, p);
        assert(gets(rv, k) == 0);
        let x = gets(a, i);
        assert((x * b.last()) % p == 0);
        // Multiply by the inverse of the top coefficient.
        lemma_mul_mod_noop_right(x, b.last() * inv, p);
        assert((x * ((b.last() * inv) % p)) % p == (x * (b.last() * inv)) % p);
        assert(x * 1 == x);
        lemma_mul_is_associative(x, b.last(), inv);
        lemma_mul_mod_noop_left(x * b.last(), inv, p);
        assert(((x * b.last()) * inv) % p == (0int * inv) % p) by {
            assert(((x * b.last()) % p) * inv == 0 * inv) by (nonlinear_arith)
                requires
                    (x * b.last()) % p == 0,
            ;
        }
        assert(0int * inv == 0) by (nonlinear_arith);
        assert(gets(a, i) % p == 0);
        assert forall|j: int| j > i - 1 implies #[trigger] gets(a, j) % p == 0 by {}
        lemma_left_factor_vanishes(a, b, rv, inv, p, i - 1);
    }
}

/// A convolution whose left coefficients are all zero is zero.
pub(crate) proof fn lemma_conv_all_zero(a: Seq<int>, b: Seq<int>, k: int)
    requires
        forall|j: int| 0 <= j < a.len() ==> #[trigger] a[j] == 0,
    ensures
        conv_at(a, b, k) == 0,
    decreases a.len(),
{
    if a.len() > 0 {
        assert(0 * gets(b, k) == 0);
        lemma_conv_all_zero(a.drop_first(), b, k - 1);
    }
}

/// Dropping trailing zero coefficients of the left factor does not change the
/// convolution.
pub(crate) proof fn lemma_conv_truncate(a: Seq<int>, tr: Seq<int>, b: Seq<int>, k: int)
    requires
        tr.len() <= a.len(),
        tr =~= a.take(tr.len() as int),
        forall|j: int| tr.len() <= j < a.len() ==> #[trigger] a[j] == 0,
    ensures
        conv_at(a, b, k) == conv_at(tr, b, k),
    decreases a.len(),
{
    if a.len() == 0 {
    } else if tr.len() == 0 {
        assert(forall|j: int| 0 <= j < a.len() ==> #[trigger] a[j] == 0);
        lemma_conv_all_zero(a, b, k);
    } else {
        assert(tr[0] == a[0]);
        assert(tr.drop_first() =~= a.drop_first().take(tr.len() - 1));
        assert forall|j: int| tr.len() - 1 <= j < a.len() - 1 implies #[trigger] a.drop_first()[j]
            == 0 by {
            assert(a.drop_first()[j] == a[j + 1]);
        }
        lemma_conv_truncate(a.drop_first(), tr.drop_first(), b, k - 1);
    }
}

} // verus!
