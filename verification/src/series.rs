//! Inverses of power series modulo x^deg by Newton's iteration.
//!
//! A power series g is an inverse of f modulo x^c when f g agrees with 1 on
//! the first c coefficients. If it is, then g' = 2g - g (g f) is one modulo
//! x^(2c): 1 - f g' = (1 - f g)^2, and the square of a series whose first c
//! coefficients vanish has its first 2c coefficients vanish.
use vstd::prelude::*;
use vstd::arithmetic::div_mod::lemma_mod_bound;
use crate::bit_ops::same_net;
use crate::field::{Fe, fsub, is_inverse, modulus};
use crate::mpc_field::MpcField;
use crate::net::MpcNet;
use crate::poly::{
    coef, ipow, lemma_peval_padd, lemma_peval_pmul, lemma_peval_pscale, lemma_peval_pshift,
    lemma_peval_take_step, lemma_pmul_shape, copy_poly, padd, pcong, peval, pmul, poly_mul, pscale,
    pshift,
};
use crate::sorting::{all_public, values_of};
use crate::poly_ops::{lemma_add_cong, lemma_mul_cong, lemma_sub_cong, pm, psub};

verus! {

/// The first c coefficients of a and b agree modulo the modulus.
pub open spec fn agree_below(a: Seq<int>, b: Seq<int>, c: int) -> bool {
    forall|i: int| 0 <= i < c ==> #[trigger] coef(a, i) % pm() == coef(b, i) % pm()
}

/// The series 1.
pub open spec fn series_one() -> Seq<int> {
    seq![1int]
}

/// The series without its constant coefficient.
pub open spec fn tail(a: Seq<int>) -> Seq<int> {
    if a.len() == 0 {
        a
    } else {
        a.drop_first()
    }
}

proof fn lemma_pm_positive()
    ensures
        pm() > 1,
{
}

/// Coefficient i of a product: a0 b_i plus coefficient i - 1 of the product
/// with a's tail.
pub proof fn lemma_coef_pmul(a: Seq<int>, b: Seq<int>, i: int)
    ensures
        coef(pmul(a, b), i) == coef(a, 0) * coef(b, i) + coef(pmul(tail(a), b), i - 1),
{
    if a.len() == 0 {
        assert(pmul(a, b) =~= Seq::<int>::empty());
    } else {
        let rest = pmul(a.drop_first(), b);
        assert(pmul(a, b) == padd(pscale(a[0], b), pshift(rest)));
        assert(coef(padd(pscale(a[0], b), pshift(rest)), i) == coef(pscale(a[0], b), i) + coef(
            pshift(rest),
            i,
        ));
        assert(coef(pshift(rest), i) == coef(rest, i - 1));
        assert(coef(pscale(a[0], b), i) == a[0] * coef(b, i));
    }
}

/// Coefficients of a difference.
pub proof fn lemma_coef_psub(a: Seq<int>, b: Seq<int>, i: int)
    ensures
        coef(psub(a, b), i) == coef(a, i) - coef(b, i),
{
}

/// Agreement below c is an equivalence.
proof fn lemma_agree_trans(a: Seq<int>, b: Seq<int>, d: Seq<int>, c: int)
    requires
        agree_below(a, b, c),
        agree_below(b, d, c),
    ensures
        agree_below(a, d, c),
{
    assert forall|i: int| 0 <= i < c implies #[trigger] coef(a, i) % pm() == coef(d, i) % pm() by {
        assert(coef(a, i) % pm() == coef(b, i) % pm());
        assert(coef(b, i) % pm() == coef(d, i) % pm());
    }
}

/// Agreement below c implies agreement below any smaller bound.
proof fn lemma_agree_less(a: Seq<int>, b: Seq<int>, c: int, d: int)
    requires
        agree_below(a, b, c),
        d <= c,
    ensures
        agree_below(a, b, d),
{
    assert forall|i: int| 0 <= i < d implies #[trigger] coef(a, i) % pm() == coef(b, i) % pm() by {
        assert(coef(a, i) % pm() == coef(b, i) % pm());
    }
}

/// The first c + d coefficients of a product vanish modulo the modulus when
/// the first c of one factor and the first d of the other do.
proof fn lemma_low_zero_mul(a: Seq<int>, b: Seq<int>, c: int, d: int)
    requires
        0 <= c,
        0 <= d,
        agree_below(a, Seq::empty(), c),
        agree_below(b, Seq::empty(), d),
    ensures
        agree_below(pmul(a, b), Seq::empty(), c + d),
    decreases a.len(),
{
    lemma_pm_positive();
    let z = Seq::<int>::empty();
    if a.len() == 0 {
        assert(pmul(a, b) =~= z);
    } else {
        let a1 = a.drop_first();
        let c1 = if c > 0 {
            c - 1
        } else {
            0
        };
        assert forall|i: int| 0 <= i < c1 implies #[trigger] coef(a1, i) % pm() == coef(z, i) % pm() by {
            assert(coef(a1, i) == coef(a, i + 1));
            assert(coef(a, i + 1) % pm() == coef(z, i + 1) % pm());
        }
        lemma_low_zero_mul(a1, b, c1, d);
        assert forall|i: int| 0 <= i < c + d implies #[trigger] coef(pmul(a, b), i) % pm() == coef(
            z,
            i,
        ) % pm() by {
            lemma_coef_pmul(a, b, i);
            let x = coef(a, 0) * coef(b, i);
            let y = coef(pmul(a1, b), i - 1);
            if i - 1 >= 0 {
                assert(coef(pmul(a1, b), i - 1) % pm() == coef(z, i - 1) % pm());
            }
            assert(y % pm() == 0);
            if c > 0 {
                assert(coef(a, 0) % pm() == coef(z, 0) % pm());
                lemma_mul_cong(coef(a, 0), coef(b, i), 0, coef(b, i));
            } else {
                assert(coef(b, i) % pm() == coef(z, i) % pm());
                lemma_mul_cong(coef(a, 0), coef(b, i), coef(a, 0), 0);
            }
            assert(x % pm() == 0);
            lemma_add_cong(x, y, 0, 0);
        }
    }
}

/// Products of series that agree below c agree below c.
proof fn lemma_agree_mul(a: Seq<int>, a2: Seq<int>, b: Seq<int>, b2: Seq<int>, c: int)
    requires
        0 <= c,
        agree_below(a, a2, c),
        agree_below(b, b2, c),
    ensures
        agree_below(pmul(a, b), pmul(a2, b2), c),
    decreases a.len() + a2.len(),
{
    lemma_pm_positive();
    if a.len() == 0 && a2.len() == 0 {
        assert(pmul(a, b) =~= Seq::<int>::empty());
        assert(pmul(a2, b2) =~= Seq::<int>::empty());
    } else {
        let t = tail(a);
        let t2 = tail(a2);
        let c1 = if c > 0 {
            c - 1
        } else {
            0
        };
        assert forall|i: int| 0 <= i < c1 implies #[trigger] coef(t, i) % pm() == coef(t2, i) % pm() by {
            assert(coef(t, i) == coef(a, i + 1));
            assert(coef(t2, i) == coef(a2, i + 1));
            assert(coef(a, i + 1) % pm() == coef(a2, i + 1) % pm());
        }
        lemma_agree_less(b, b2, c, c1);
        lemma_agree_mul(t, t2, b, b2, c1);
        assert forall|i: int| 0 <= i < c implies #[trigger] coef(pmul(a, b), i) % pm() == coef(
            pmul(a2, b2),
            i,
        ) % pm() by {
            lemma_coef_pmul(a, b, i);
            lemma_coef_pmul(a2, b2, i);
            assert(coef(a, 0) % pm() == coef(a2, 0) % pm());
            assert(coef(b, i) % pm() == coef(b2, i) % pm());
            lemma_mul_cong(coef(a, 0), coef(b, i), coef(a2, 0), coef(b2, i));
            if i - 1 >= 0 {
                assert(coef(pmul(t, b), i - 1) % pm() == coef(pmul(t2, b2), i - 1) % pm());
            }
            lemma_add_cong(
                coef(a, 0) * coef(b, i),
                coef(pmul(t, b), i - 1),
                coef(a2, 0) * coef(b2, i),
                coef(pmul(t2, b2), i - 1),
            );
        }
    }
}

/// A polynomial that vanishes at every nonzero integer has only zero
/// coefficients.
proof fn lemma_vanishing_is_zero(c: Seq<int>)
    requires
        forall|x: int| x != 0 ==> #[trigger] peval(c, x) == 0,
    ensures
        forall|k: int| #[trigger] coef(c, k) == 0,
    decreases c.len(),
{
    if c.len() > 0 {
        let c1 = c.drop_first();
        let c0 = c[0];
        let x0: int = if c0 >= 0 {
            c0 + 1
        } else {
            1 - c0
        };
        assert(peval(c, x0) == c0 + x0 * peval(c1, x0));
        let e = peval(c1, x0);
        assert(c0 == 0) by (nonlinear_arith)
            requires
                0 == c0 + x0 * e,
                x0 >= 1,
                c0 >= 0 ==> x0 == c0 + 1,
                c0 < 0 ==> x0 == 1 - c0,
        ;
        assert forall|x: int| x != 0 implies #[trigger] peval(c1, x) == 0 by {
            assert(peval(c, x) == c0 + x * peval(c1, x));
            let f = peval(c1, x);
            assert(f == 0) by (nonlinear_arith)
                requires
                    x * f == 0,
                    x != 0,
            ;
        }
        lemma_vanishing_is_zero(c1);
        assert forall|k: int| #[trigger] coef(c, k) == 0 by {
            if 1 <= k < c.len() {
                assert(coef(c, k) == coef(c1, k - 1));
            }
        }
    }
}

/// Polynomials with the same value everywhere have the same coefficients.
pub proof fn lemma_same_values(a: Seq<int>, b: Seq<int>)
    requires
        forall|x: int| #[trigger] peval(a, x) == peval(b, x),
    ensures
        forall|k: int| #[trigger] coef(a, k) == coef(b, k),
{
    let d = psub(a, b);
    assert forall|x: int| x != 0 implies #[trigger] peval(d, x) == 0 by {
        lemma_peval_padd(a, pscale(-1, b), x);
        lemma_peval_pscale(-1, b, x);
        assert(peval(a, x) == peval(b, x));
    }
    lemma_vanishing_is_zero(d);
    assert forall|k: int| #[trigger] coef(a, k) == coef(b, k) by {
        lemma_coef_psub(a, b, k);
        assert(coef(d, k) == 0);
    }
}

/// The Newton step as an identity of polynomials:
/// f (2g - g (g f)) = 1 - (1 - f g)^2.
proof fn lemma_newton_identity(f: Seq<int>, g: Seq<int>)
    ensures
        forall|k: int|
            #[trigger] coef(pmul(f, psub(pscale(2, g), pmul(g, pmul(g, f)))), k) == coef(
                psub(
                    series_one(),
                    pmul(psub(series_one(), pmul(f, g)), psub(series_one(), pmul(f, g))),
                ),
                k,
            ),
{
    let h = psub(pscale(2, g), pmul(g, pmul(g, f)));
    let e = psub(series_one(), pmul(f, g));
    let lhs = pmul(f, h);
    let rhs = psub(series_one(), pmul(e, e));
    assert forall|x: int| #[trigger] peval(lhs, x) == peval(rhs, x) by {
        let fx = peval(f, x);
        let gx = peval(g, x);
        lemma_peval_pmul(f, h, x);
        lemma_peval_padd(pscale(2, g), pscale(-1, pmul(g, pmul(g, f))), x);
        lemma_peval_pscale(2, g, x);
        lemma_peval_pscale(-1, pmul(g, pmul(g, f)), x);
        lemma_peval_pmul(g, pmul(g, f), x);
        lemma_peval_pmul(g, f, x);
        lemma_peval_padd(series_one(), pscale(-1, pmul(e, e)), x);
        lemma_peval_pscale(-1, pmul(e, e), x);
        lemma_peval_pmul(e, e, x);
        lemma_peval_padd(series_one(), pscale(-1, pmul(f, g)), x);
        lemma_peval_pscale(-1, pmul(f, g), x);
        lemma_peval_pmul(f, g, x);
        assert(peval(series_one(), x) == 1) by {
            assert(series_one().drop_first() =~= Seq::<int>::empty());
            assert(peval(series_one().drop_first(), x) == 0);
            assert(x * 0 == 0);
        }
        let ex = 1 + -1 * (fx * gx);
        assert(peval(e, x) == ex);
        assert(fx * (2 * gx + -1 * (gx * (gx * fx))) == 1 + -1 * (ex * ex)) by (nonlinear_arith)
            requires
                ex == 1 + -1 * (fx * gx),
        ;
    }
    lemma_same_values(lhs, rhs);
}

/// One Newton step: from an inverse modulo x^c to one modulo x^(2c).
pub proof fn lemma_newton_step(f: Seq<int>, g: Seq<int>, h: Seq<int>, c: int)
    requires
        c >= 1,
        agree_below(pmul(f, g), series_one(), c),
        agree_below(h, psub(pscale(2, g), pmul(g, pmul(g, f))), 2 * c),
    ensures
        agree_below(pmul(f, h), series_one(), 2 * c),
{
    lemma_pm_positive();
    let one = series_one();
    let z = Seq::<int>::empty();
    let e = psub(one, pmul(f, g));
    let hn = psub(pscale(2, g), pmul(g, pmul(g, f)));
    assert forall|i: int| 0 <= i < c implies #[trigger] coef(e, i) % pm() == coef(z, i) % pm() by {
        lemma_coef_psub(one, pmul(f, g), i);
        assert(coef(pmul(f, g), i) % pm() == coef(one, i) % pm());
        lemma_sub_cong(coef(one, i), coef(pmul(f, g), i), coef(one, i), coef(one, i));
    }
    lemma_low_zero_mul(e, e, c, c);
    assert forall|i: int| 0 <= i < 2 * c implies #[trigger] coef(f, i) % pm() == coef(f, i) % pm() by {
    }
    lemma_agree_mul(f, f, h, hn, 2 * c);
    lemma_newton_identity(f, g);
    assert forall|i: int| 0 <= i < 2 * c implies #[trigger] coef(pmul(f, h), i) % pm() == coef(
        one,
        i,
    ) % pm() by {
        assert(coef(pmul(f, h), i) % pm() == coef(pmul(f, hn), i) % pm());
        assert(coef(pmul(f, hn), i) == coef(psub(one, pmul(e, e)), i));
        lemma_coef_psub(one, pmul(e, e), i);
        assert(coef(pmul(e, e), i) % pm() == coef(z, i) % pm());
        lemma_sub_cong(coef(one, i), coef(pmul(e, e), i), coef(one, i), 0);
    }
}

/// f cut, or padded with public zeros, to `len` coefficients.
fn pad_to(f: &Vec<MpcField>, len: usize) -> (r: Vec<MpcField>)
    ensures
        r.len() == len,
        forall|i: int| 0 <= i < len ==> #[trigger] values_of(r@)[i] == coef(values_of(f@), i),
        all_public(f@) ==> all_public(r@),
{
    let mut r: Vec<MpcField> = Vec::new();
    let mut i: usize = 0;
    while i < len
        invariant
            i <= len,
            r.len() == i,
            forall|t: int| 0 <= t < i ==> #[trigger] values_of(r@)[t] == coef(values_of(f@), t),
            all_public(f@) ==> all_public(r@),
        decreases len - i,
    {
        let ghost r0 = r@;
        if i < f.len() {
            r.push(f[i]);
        } else {
            r.push(MpcField::Public(Fe::zero()));
        }
        proof {
            assert forall|t: int| 0 <= t < i + 1 implies #[trigger] values_of(r@)[t] == coef(
                values_of(f@),
                t,
            ) by {
                if t < i {
                    assert(r@[t] == r0[t]);
                    assert(values_of(r0)[t] == coef(values_of(f@), t));
                }
            }
        }
        i = i + 1;
    }
    r
}

/// A vector's values agree with its first `len` coefficients after a cut.
proof fn lemma_cut_agrees(full: Seq<MpcField>, cut: Seq<MpcField>, model: Seq<int>, len: int)
    requires
        0 <= len <= full.len(),
        cut == full.subrange(0, len),
        pcong(values_of(full), model),
    ensures
        agree_below(values_of(cut), model, len),
{
    assert forall|i: int| 0 <= i < len implies #[trigger] coef(values_of(cut), i) % pm() == coef(
        model,
        i,
    ) % pm() by {
        assert(values_of(cut)[i] == values_of(full)[i]);
    }
}

/// The inverse of the power series f modulo x^deg, by Newton's iteration:
/// from the inverse of f's constant coefficient, each round doubles the
/// number of correct coefficients with g ← 2g - g (g f). `None` where the
/// constant coefficient has no inverse.
pub fn poly_inv<N: MpcNet>(f: &Vec<MpcField>, deg: usize, net: &mut N) -> (r: Option<Vec<MpcField>>)
    requires
        deg >= 1 ==> f.len() >= 1,
        3 * deg <= usize::MAX,
    ensures
        same_net(*final(net), *old(net)),
        deg == 0 ==> (r matches Some(g) && g.len() == 0),
        r matches Some(g) ==> g.len() == deg,
        all_public(f@) ==> (r matches Some(g) ==> all_public(g@)),
        deg >= 1 && (f[0] is Public || old(net).single_party()) ==> (r is None <==> f[0].value()
            == 0),
        all_public(f@) || old(net).single_party() ==> (r matches Some(g) ==> agree_below(
            pmul(values_of(f@), values_of(g@)),
            series_one(),
            deg as int,
        )),
{
    if deg == 0 {
        return Some(Vec::new());
    }
    let ghost net0 = *old(net);
    let ghost exact = all_public(f@) || net0.single_party();
    let ghost vf = values_of(f@);
    let f0 = f[0];
    let w = match f0.inv(net) {
        Some(w) => w,
        None => {
            return None;
        },
    };
    let mut g: Vec<MpcField> = Vec::new();
    g.push(w);
    let mut cur: usize = 1;
    proof {
        if exact {
            let vg = values_of(g@);
            lemma_coef_pmul(vf, vg, 0);
            assert(coef(pmul(tail(vf), vg), -1) == 0);
            assert(coef(vf, 0) * coef(vg, 0) == f0.value() * w.value());
            if all_public(f@) {
                assert(f[0] is Public);
            }
            assert(is_inverse(f0.value(), w.value()));
            assert forall|i: int| 0 <= i < 1 implies #[trigger] coef(pmul(vf, vg), i) % pm() == coef(
                series_one(),
                i,
            ) % pm() by {
                assert(i == 0);
                assert(coef(series_one(), 0) == 1);
                assert(coef(pmul(vf, vg), 0) == f0.value() * w.value());
                assert((f0.value() * w.value()) % modulus() == 1);
                vstd::arithmetic::div_mod::lemma_small_mod(1, modulus());
            }
        }
    }
    while cur < deg
        invariant
            1 <= cur,
            cur < 2 * deg,
            g.len() == cur,
            deg >= 1,
            f.len() >= 1,
            3 * deg <= usize::MAX,
            vf == values_of(f@),
            net0 == *old(net),
            same_net(*net, net0),
            exact == (all_public(f@) || net0.single_party()),
            all_public(f@) ==> all_public(g@),
            exact ==> agree_below(pmul(vf, values_of(g@)), series_one(), cur as int),
        decreases 2 * deg - cur,
    {
        let next = cur * 2;
        let ghost vg = values_of(g@);
        let ff = pad_to(f, next);
        let t1_full = poly_mul(&g, &ff, net);
        let mut t1 = t1_full.clone();
        t1.truncate(next);
        let t2_full = poly_mul(&g, &t1, net);
        let mut t2 = t2_full.clone();
        t2.truncate(next);
        let mut h: Vec<MpcField> = Vec::new();
        let mut i: usize = 0;
        while i < next
            invariant
                next == 2 * cur,
                i <= next,
                h.len() == i,
                g.len() == cur,
                t2.len() == next,
                same_net(*net, net0),
                all_public(g@) && all_public(t2@) ==> all_public(h@),
                net0.single_party() || (all_public(g@) && all_public(t2@)) ==> forall|t: int|
                    0 <= t < i ==> #[trigger] values_of(h@)[t] % pm() == (2 * coef(values_of(g@), t)
                        - values_of(t2@)[t]) % pm(),
            decreases next - i,
        {
            let base = if i < cur {
                g[i].add(&g[i], net)
            } else {
                MpcField::Public(Fe::zero())
            };
            let e = base.sub(&t2[i], net);
            proof {
                if net0.single_party() || (all_public(g@) && all_public(t2@)) {
                    let gv = coef(values_of(g@), i as int);
                    let bv = base.value() as int;
                    let tv = t2[i as int].value() as int;
                    assert(bv % pm() == (2 * gv) % pm()) by {
                        if i < cur {
                            assert(gv == g[i as int].value());
                            assert(bv == (gv + gv) % pm());
                            vstd::arithmetic::div_mod::lemma_mod_twice(gv + gv, pm());
                        } else {
                            assert(gv == 0);
                        }
                    }
                    assert(e.value() as int == (bv - tv) % pm());
                    lemma_sub_cong(bv, tv, 2 * gv, tv);
                    vstd::arithmetic::div_mod::lemma_mod_twice(bv - tv, pm());
                }
            }
            let ghost h0 = h@;
            h.push(e);
            proof {
                assert forall|t: int| 0 <= t < i + 1 implies #[trigger] values_of(h@)[t] == (if t < i {
                    values_of(h0)[t]
                } else {
                    e.value() as int
                }) by {}
            }
            i = i + 1;
        }
        proof {
            if exact {
                let vff = values_of(ff@);
                let vt1 = values_of(t1@);
                let vt2 = values_of(t2@);
                let vh = values_of(h@);
                let c2 = next as int;
                assert(agree_below(vff, vf, c2));
                assert(agree_below(vg, vg, c2));
                lemma_agree_mul(vg, vg, vff, vf, c2);
                lemma_cut_agrees(t1_full@, t1@, pmul(vg, vff), c2);
                lemma_agree_trans(vt1, pmul(vg, vff), pmul(vg, vf), c2);
                lemma_agree_mul(vg, vg, vt1, pmul(vg, vf), c2);
                lemma_cut_agrees(t2_full@, t2@, pmul(vg, vt1), c2);
                lemma_agree_trans(vt2, pmul(vg, vt1), pmul(vg, pmul(vg, vf)), c2);
                let target = psub(pscale(2, vg), pmul(vg, pmul(vg, vf)));
                assert forall|t: int| 0 <= t < c2 implies #[trigger] coef(vh, t) % pm() == coef(
                    target,
                    t,
                ) % pm() by {
                    lemma_coef_psub(pscale(2, vg), pmul(vg, pmul(vg, vf)), t);
                    assert(coef(pscale(2, vg), t) == 2 * coef(vg, t));
                    assert(coef(vt2, t) % pm() == coef(pmul(vg, pmul(vg, vf)), t) % pm());
                    lemma_sub_cong(2 * coef(vg, t), coef(vt2, t), 2 * coef(vg, t), coef(
                        pmul(vg, pmul(vg, vf)),
                        t,
                    ));
                }
                lemma_newton_step(vf, vg, vh, cur as int);
            }
        }
        g = h;
        cur = next;
    }
    let ghost g_full = g@;
    g.truncate(deg);
    proof {
        if exact {
            let vgf = values_of(g_full);
            let vg = values_of(g@);
            assert(agree_below(vg, vgf, deg as int)) by {
                assert forall|t: int| 0 <= t < deg implies #[trigger] coef(vg, t) % pm() == coef(
                    vgf,
                    t,
                ) % pm() by {
                    assert(vg[t] == vgf[t]);
                }
            }
            assert(agree_below(vf, vf, deg as int));
            lemma_agree_mul(vf, vf, vg, vgf, deg as int);
            lemma_agree_less(pmul(vf, vgf), series_one(), cur as int, deg as int);
            lemma_agree_trans(pmul(vf, vg), pmul(vf, vgf), series_one(), deg as int);
        }
    }
    Some(g)
}

/// The coefficients in reverse order.
pub open spec fn rev(c: Seq<int>) -> Seq<int> {
    Seq::new(c.len(), |i: int| c[c.len() - 1 - i])
}

/// k zero coefficients, then c: x^k c.
pub open spec fn raise(c: Seq<int>, k: nat) -> Seq<int> {
    Seq::new(k, |i: int| 0int) + c
}

proof fn lemma_peval_raise(c: Seq<int>, k: nat, x: int)
    ensures
        peval(raise(c, k), x) == ipow(x, k) * peval(c, x),
    decreases k,
{
    if k > 0 {
        let k1 = (k - 1) as nat;
        assert(raise(c, k) =~= pshift(raise(c, k1)));
        lemma_peval_raise(c, k1, x);
        lemma_peval_pshift(raise(c, k1), x);
        let e = peval(c, x);
        let p1 = ipow(x, k1);
        assert(x * (p1 * e) == (x * p1) * e) by (nonlinear_arith);
    } else {
        assert(raise(c, 0) =~= c);
    }
}

proof fn lemma_peval_push(c: Seq<int>, v: int, x: int)
    ensures
        peval(c.push(v), x) == peval(c, x) + v * ipow(x, c.len()),
{
    let d = c.push(v);
    lemma_peval_take_step(d, c.len() as int, x);
    assert(d.take(c.len() as int + 1) =~= d);
    assert(d.take(c.len() as int) =~= c);
}

/// Reversal turns a product around: the reversed product of a and b is the
/// product of the reversed factors.
pub proof fn lemma_rev_pmul(a: Seq<int>, b: Seq<int>)
    requires
        a.len() >= 1,
        b.len() >= 1,
    ensures
        forall|i: int| #[trigger] coef(rev(pmul(a, b)), i) == coef(pmul(rev(a), rev(b)), i),
    decreases a.len(),
{
    crate::poly::lemma_pmul_shape(a, b);
    let la = a.len() as int;
    let lb = b.len() as int;
    let len = la + lb - 1;
    let a1 = a.drop_first();
    let rest = pmul(a1, b);
    if la == 1 {
        assert(a1 =~= Seq::<int>::empty());
        assert(rev(a) =~= a);
        assert forall|i: int| #[trigger] coef(rev(pmul(a, b)), i) == coef(pmul(rev(a), rev(b)), i) by {
            lemma_coef_pmul(a, b, lb - 1 - i);
            lemma_coef_pmul(rev(a), rev(b), i);
            assert(tail(a) =~= Seq::<int>::empty());
            assert(tail(rev(a)) =~= Seq::<int>::empty());
            assert(pmul(Seq::<int>::empty(), b) =~= Seq::<int>::empty());
            assert(pmul(Seq::<int>::empty(), rev(b)) =~= Seq::<int>::empty());
        }
    } else {
        lemma_rev_pmul(a1, b);
        crate::poly::lemma_pmul_shape(a1, b);
        let ra = rev(a);
        let ra1 = rev(a1);
        let rb = rev(b);
        assert(ra =~= ra1.push(a[0]));
        let sv = pscale(a[0], raise(rb, (la - 1) as nat));
        // As polynomials: rev(a) rev(b) = rev(a1) rev(b) + a0 x^(la-1) rev(b).
        assert forall|x: int| #[trigger] peval(pmul(ra, rb), x) == peval(padd(pmul(ra1, rb), sv), x) by {
            lemma_peval_pmul(ra, rb, x);
            lemma_peval_pmul(ra1, rb, x);
            lemma_peval_padd(pmul(ra1, rb), sv, x);
            lemma_peval_pscale(a[0], raise(rb, (la - 1) as nat), x);
            lemma_peval_raise(rb, (la - 1) as nat, x);
            lemma_peval_push(ra1, a[0], x);
            let e1 = peval(ra1, x);
            let eb = peval(rb, x);
            let p = ipow(x, (la - 1) as nat);
            assert((e1 + a[0] * p) * eb == e1 * eb + a[0] * (p * eb)) by (nonlinear_arith);
        }
        lemma_same_values(pmul(ra, rb), padd(pmul(ra1, rb), sv));
        assert forall|i: int| #[trigger] coef(rev(pmul(a, b)), i) == coef(pmul(ra, rb), i) by {
            assert(coef(pmul(ra, rb), i) == coef(padd(pmul(ra1, rb), sv), i));
            assert(coef(padd(pmul(ra1, rb), sv), i) == coef(pmul(ra1, rb), i) + coef(sv, i));
            assert(coef(rev(rest), i) == coef(pmul(ra1, rb), i));
            assert(coef(sv, i) == a[0] * coef(raise(rb, (la - 1) as nat), i));
            lemma_coef_pmul(a, b, len - 1 - i);
            assert(tail(a) == a1);
            if 0 <= i < len {
                assert(coef(rev(pmul(a, b)), i) == coef(pmul(a, b), len - 1 - i));
                if i < len - 1 {
                    assert(coef(rev(rest), i) == coef(rest, len - 2 - i));
                } else {
                    assert(coef(rev(rest), i) == 0);
                }
                if i >= la - 1 {
                    assert(coef(raise(rb, (la - 1) as nat), i) == rb[i - (la - 1)]);
                    assert(coef(b, len - 1 - i) == rb[i - (la - 1)]);
                } else {
                    assert(coef(raise(rb, (la - 1) as nat), i) == 0);
                    assert(coef(b, len - 1 - i) == 0);
                }
            } else {
                assert(coef(rev(rest), i) == 0);
                assert(coef(raise(rb, (la - 1) as nat), i) == 0);
            }
        }
    }
}

/// The coefficients of v in reverse order.
fn reversed(v: &Vec<MpcField>) -> (r: Vec<MpcField>)
    ensures
        r.len() == v.len(),
        forall|i: int| 0 <= i < v.len() ==> #[trigger] r[i] == v[v.len() - 1 - i],
        values_of(r@) == rev(values_of(v@)),
        all_public(v@) ==> all_public(r@),
{
    let n = v.len();
    let mut r: Vec<MpcField> = Vec::new();
    let mut i: usize = 0;
    while i < n
        invariant
            n == v.len(),
            i <= n,
            r.len() == i,
            forall|t: int| 0 <= t < i ==> #[trigger] r[t] == v[n - 1 - t],
        decreases n - i,
    {
        r.push(v[n - 1 - i]);
        i = i + 1;
    }
    proof {
        assert(values_of(r@) =~= rev(values_of(v@)));
        if all_public(v@) {
            assert forall|t: int| 0 <= t < r.len() implies #[trigger] r@[t] is Public by {
                assert(v@[n - 1 - t] is Public);
            }
        }
    }
    r
}

/// The first k coefficients of v.
fn prefix(v: &Vec<MpcField>, k: usize) -> (r: Vec<MpcField>)
    requires
        k <= v.len(),
    ensures
        r@ == v@.subrange(0, k as int),
{
    let mut r: Vec<MpcField> = Vec::new();
    let mut i: usize = 0;
    while i < k
        invariant
            k <= v.len(),
            i <= k,
            r@ == v@.subrange(0, i as int),
        decreases k - i,
    {
        r.push(v[i]);
        i = i + 1;
        proof {
            assert(r@ =~= v@.subrange(0, i as int));
        }
    }
    r
}

/// Products of series associate and commute, and 1 is their unit.
proof fn lemma_series_identities(l: Seq<int>, g: Seq<int>, d: Seq<int>)
    ensures
        forall|i: int| #[trigger] coef(pmul(pmul(l, g), d), i) == coef(pmul(l, pmul(d, g)), i),
        forall|i: int| #[trigger] coef(pmul(l, series_one()), i) == coef(l, i),
{
    assert forall|x: int| #[trigger] peval(pmul(pmul(l, g), d), x) == peval(pmul(l, pmul(d, g)), x) by {
        lemma_peval_pmul(pmul(l, g), d, x);
        lemma_peval_pmul(l, g, x);
        lemma_peval_pmul(l, pmul(d, g), x);
        lemma_peval_pmul(d, g, x);
        let (el, eg, ed) = (peval(l, x), peval(g, x), peval(d, x));
        assert((el * eg) * ed == el * (ed * eg)) by (nonlinear_arith);
    }
    lemma_same_values(pmul(pmul(l, g), d), pmul(l, pmul(d, g)));
    assert forall|x: int| #[trigger] peval(pmul(l, series_one()), x) == peval(l, x) by {
        lemma_peval_pmul(l, series_one(), x);
        assert(series_one().drop_first() =~= Seq::<int>::empty());
        assert(peval(series_one().drop_first(), x) == 0);
        assert(x * 0 == 0);
        assert(peval(series_one(), x) == 1);
    }
    lemma_same_values(pmul(l, series_one()), l);
}

/// Division with remainder: num = q den + r with r zero from den's degree
/// up, for a divisor whose leading coefficient is public and not zero. The
/// quotient reversed is the first coefficients of num reversed times the
/// inverse series of den reversed; the remainder is num - q den. Where num
/// has fewer coefficients than den the quotient is zero and the remainder
/// num.
pub fn poly_divmod<N: MpcNet>(num: &Vec<MpcField>, den: &Vec<MpcField>, net: &mut N) -> (r:
    (Vec<MpcField>, Vec<MpcField>))
    requires
        den.len() >= 1,
        num.len() == 0 ==> den.len() >= 2,
        num.len() >= den.len() ==> den[den.len() - 1] is Public && den[den.len() - 1].value() != 0,
        3 * num.len() <= usize::MAX,
    ensures
        same_net(*final(net), *old(net)),
        r.1.len() == num.len(),
        num.len() >= den.len() ==> r.0.len() == num.len() - den.len() + 1,
        num.len() < den.len() ==> r.0.len() == 1 && r.0[0] is Public && r.0[0].value() == 0 && r.1@
            == num@,
        all_public(num@) && all_public(den@) ==> all_public(r.0@) && all_public(r.1@),
        (all_public(num@) && all_public(den@)) || old(net).single_party() ==> {
            &&& forall|k: int| den.len() - 1 <= k < num.len() ==> (#[trigger] r.1[k]).value() == 0
            &&& forall|x: int|
                #[trigger] peval(values_of(num@), x) % (modulus() as int) == (peval(
                    values_of(r.0@),
                    x,
                ) * peval(values_of(den@), x) + peval(values_of(r.1@), x)) % (modulus() as int)
        },
{
    let ln = num.len();
    let ld = den.len();
    let zero = MpcField::Public(Fe::zero());
    if ln < ld {
        let mut q: Vec<MpcField> = Vec::new();
        q.push(zero);
        let rem = copy_poly(num);
        proof {
            let m = modulus() as int;
            if (all_public(num@) && all_public(den@)) || old(net).single_party() {
                assert forall|x: int| #[trigger] peval(values_of(num@), x) % m == (peval(
                    values_of(q@),
                    x,
                ) * peval(values_of(den@), x) + peval(values_of(rem@), x)) % m by {
                    assert(values_of(q@).drop_first() =~= Seq::<int>::empty());
                    assert(peval(values_of(q@), x) == 0 + x * peval(values_of(q@).drop_first(), x));
                    assert(x * 0 == 0);
                    assert(peval(values_of(q@), x) * peval(values_of(den@), x) == 0);
                }
            }
        }
        return (q, rem);
    }
    let ghost net0 = *old(net);
    let ghost exact = (all_public(num@) && all_public(den@)) || net0.single_party();
    let dq = ln - ld + 1;
    let rev_num = reversed(num);
    let rev_den = reversed(den);
    let inv = match poly_inv(&rev_den, dq, net) {
        Some(g) => g,
        None => {
            proof {
                assert(rev_den[0] == den[ld - 1]);
                assert(false);
            }
            return (Vec::new(), Vec::new());
        },
    };
    let low = prefix(&rev_num, dq);
    let qrev_full = poly_mul(&low, &inv, net);
    let mut qrev = qrev_full.clone();
    qrev.truncate(dq);
    let q = reversed(&qrev);
    let qden = poly_mul(&q, den, net);
    let mut rem: Vec<MpcField> = Vec::new();
    let mut i: usize = 0;
    while i < ln
        invariant
            ln == num.len(),
            ln == qden.len(),
            i <= ln,
            rem.len() == i,
            same_net(*net, net0),
            all_public(num@) && all_public(qden@) ==> all_public(rem@),
            net0.single_party() || (all_public(num@) && all_public(qden@)) ==> forall|t: int|
                0 <= t < i ==> (#[trigger] rem[t]).value() == fsub(num[t].value(), qden[t].value()),
        decreases ln - i,
    {
        let e = num[i].sub(&qden[i], net);
        rem.push(e);
        i = i + 1;
    }
    proof {
        if exact {
            let m = modulus() as int;
            let vn = values_of(num@);
            let vd = values_of(den@);
            let rn = values_of(rev_num@);
            let rd = values_of(rev_den@);
            let vi = values_of(inv@);
            let vl = values_of(low@);
            let vqr = values_of(qrev@);
            let vq = values_of(q@);
            let vqd = values_of(qden@);
            let vr = values_of(rem@);
            let di = dq as int;
            let qd = pmul(vq, vd);
            if all_public(num@) && all_public(den@) {
                assert(all_public(low@)) by {
                    assert forall|t: int| 0 <= t < low.len() implies #[trigger] low@[t] is Public by {
                        assert(low@[t] == rev_num@[t]);
                    }
                }
            }
            assert(agree_below(pmul(rd, vi), series_one(), di));
            lemma_cut_agrees(qrev_full@, qrev@, pmul(vl, vi), di);
            assert(pcong(vqd, qd));
            assert forall|t: int| 0 <= t < ln implies #[trigger] vr[t] % m == (vn[t] - coef(qd, t))
                % m by {
                assert(vr[t] == fsub(num[t].value(), qden[t].value()));
                assert(vqd[t] % m == qd[t] % m);
                lemma_sub_cong(vn[t], vqd[t], vn[t], qd[t]);
                vstd::arithmetic::div_mod::lemma_mod_twice(vn[t] - vqd[t], m);
            }
            let sum = padd(qd, vr);
            lemma_pmul_shape(vq, vd);
            assert(pcong(vn, sum)) by {
                assert forall|t: int| 0 <= t < vn.len() implies #[trigger] vn[t] % m == sum[t] % m by {
                    assert(sum[t] == coef(qd, t) + vr[t]);
                    assert(vr[t] % m == (vn[t] - coef(qd, t)) % m);
                    vstd::arithmetic::div_mod::lemma_mod_bound(vn[t] - coef(qd, t), m);
                    lemma_add_cong(coef(qd, t), vr[t], coef(qd, t), vn[t] - coef(qd, t));
                }
            }
            assert forall|x: int| #[trigger] peval(vn, x) % m == (peval(vq, x) * peval(vd, x) + peval(
                vr,
                x,
            )) % m by {
                crate::poly::lemma_peval_cong(vn, sum, x);
                lemma_peval_padd(qd, vr, x);
                lemma_peval_pmul(vq, vd, x);
            }
            lemma_rev_pmul(vq, vd);
            assert(rev(vq) =~= vqr);
            assert(agree_below(rd, rd, di));
            lemma_agree_mul(vqr, pmul(vl, vi), rd, rd, di);
            lemma_series_identities(vl, vi, rd);
            assert(agree_below(vl, vl, di));
            lemma_agree_mul(vl, vl, pmul(rd, vi), series_one(), di);
            assert forall|k: int| ld - 1 <= k < ln implies (#[trigger] rem[k]).value() == 0 by {
                let t = ln - 1 - k;
                assert(coef(rev(qd), t) == coef(qd, k));
                assert(coef(rev(qd), t) == coef(pmul(rev(vq), rev(vd)), t));
                assert(coef(pmul(vqr, rd), t) % m == coef(pmul(pmul(vl, vi), rd), t) % m);
                assert(coef(pmul(pmul(vl, vi), rd), t) == coef(pmul(vl, pmul(rd, vi)), t));
                assert(coef(pmul(vl, pmul(rd, vi)), t) % m == coef(pmul(vl, series_one()), t) % m);
                assert(coef(pmul(vl, series_one()), t) == coef(vl, t));
                assert(coef(vl, t) == rn[t]);
                assert(rn[t] == vn[k]);
                assert(vr[k] % m == (vn[k] - coef(qd, k)) % m);
                lemma_sub_cong(vn[k], coef(qd, k), vn[k], vn[k]);
                vstd::arithmetic::div_mod::lemma_small_mod(rem[k].value(), modulus());
            }
        }
    }
    (q, rem)
}

} // verus!
