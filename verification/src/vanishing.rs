//! Polynomials that vanish on many points.
//!
//! Dividing c by x - r leaves c(r): c(x) = (x - r) q(x) + c(r). Where the
//! field has no zero divisors, a polynomial with at most k coefficients that
//! vanishes at k distinct points is zero, coefficient by coefficient.
use vstd::prelude::*;
use vstd::arithmetic::div_mod::{lemma_mod_bound, lemma_small_mod};
use crate::field::{fmul, fpow, finv, is_inverse, lemma_finv_is, lemma_fmul_assoc, lemma_fpow_add, lemma_fpow_bound, modulus};
use crate::poly::{coef, ipow, lemma_peval_padd, lemma_peval_pmul, padd, peval, pmul};
use crate::poly_ops::{lemma_add_cong, lemma_mul_cong, lemma_sub_cong, pm};
use crate::routing::no_zero_divisors;
use crate::series::{lemma_coef_pmul, lemma_same_values, tail};

verus! {

/// The quotient of c by x - r: c(x) = (x - r) q(x) + c(r).
pub open spec fn synthetic_quotient(c: Seq<int>, r: int) -> Seq<int>
    decreases c.len(),
{
    if c.len() <= 1 {
        Seq::empty()
    } else {
        seq![peval(c.drop_first(), r)] + synthetic_quotient(c.drop_first(), r)
    }
}

/// x - r.
pub open spec fn linear_factor(r: int) -> Seq<int> {
    seq![-r, 1int]
}

proof fn lemma_peval_linear(r: int, x: int)
    ensures
        peval(linear_factor(r), x) == x - r,
{
    let l = linear_factor(r);
    assert(l.drop_first() =~= seq![1int]);
    assert(l.drop_first().drop_first() =~= Seq::<int>::empty());
    assert(peval(l.drop_first().drop_first(), x) == 0);
    assert(x * 0 == 0);
    assert(peval(l.drop_first(), x) == 1);
}

/// Division by x - r: c(x) = (x - r) q(x) + c(r).
proof fn lemma_synthetic_division(c: Seq<int>, r: int, x: int)
    ensures
        synthetic_quotient(c, r).len() == (if c.len() == 0 {
            0
        } else {
            c.len() - 1
        }),
        peval(c, x) == (x - r) * peval(synthetic_quotient(c, r), x) + peval(c, r),
    decreases c.len(),
{
    if c.len() == 0 {
    } else if c.len() == 1 {
        assert(c.drop_first() =~= Seq::<int>::empty());
        assert(peval(c.drop_first(), x) == 0);
        assert(peval(c.drop_first(), r) == 0);
        assert(x * 0 == 0 && r * 0 == 0);
    } else {
        let c1 = c.drop_first();
        let q1 = synthetic_quotient(c1, r);
        let q = synthetic_quotient(c, r);
        lemma_synthetic_division(c1, r, x);
        let e = peval(c1, r);
        assert(q.drop_first() =~= q1);
        assert(q[0] == e);
        let v1 = peval(q1, x);
        // c(x) = c0 + x c1(x) = c0 + x ((x - r) q1(x) + e)
        //      = (x - r)(e + x q1(x)) + c0 + r e = (x - r) q(x) + c(r).
        assert(c[0] + x * ((x - r) * v1 + e) == (x - r) * (e + x * v1) + (c[0] + r * e))
            by (nonlinear_arith);
    }
}

/// A polynomial with at most as many coefficients as it has distinct roots
/// among the residues is zero modulo the modulus, in a field without zero
/// divisors.
pub proof fn lemma_roots_force_zero(c: Seq<int>, pts: Seq<int>)
    requires
        no_zero_divisors(),
        c.len() <= pts.len(),
        forall|i: int| 0 <= i < pts.len() ==> 0 <= #[trigger] pts[i] < modulus(),
        forall|i: int, j: int| 0 <= i < j < pts.len() ==> #[trigger] pts[i] != #[trigger] pts[j],
        forall|i: int| 0 <= i < pts.len() ==> #[trigger] peval(c, pts[i]) % pm() == 0,
    ensures
        forall|k: int| #[trigger] coef(c, k) % pm() == 0,
    decreases pts.len(),
{
    if c.len() == 0 {
        assert forall|k: int| #[trigger] coef(c, k) % pm() == 0 by {}
    } else {
        let r = pts[0];
        let q = synthetic_quotient(c, r);
        let rest = pts.drop_first();
        lemma_synthetic_division(c, r, r);
        assert(peval(c, r) % pm() == 0);
        assert forall|i: int| 0 <= i < rest.len() implies #[trigger] peval(q, rest[i]) % pm() == 0 by {
            let x = rest[i];
            assert(x == pts[i + 1]);
            assert(x != r);
            lemma_synthetic_division(c, r, x);
            assert(peval(c, x) % pm() == 0);
            let d = x - r;
            let v = peval(q, x);
            // d v = c(x) - c(r) is zero modulo the modulus.
            lemma_sub_cong(peval(c, x), peval(c, r), 0, 0);
            assert((d * v) % pm() == 0);
            lemma_mod_bound(d, pm());
            lemma_mod_bound(v, pm());
            lemma_mul_cong(d, v, d % pm(), v % pm());
            assert(d % pm() != 0) by {
                if d % pm() == 0 {
                    if d > 0 {
                        lemma_small_mod(d as nat, modulus());
                    } else {
                        lemma_small_mod((-d) as nat, modulus());
                        assert((-d) % pm() == 0) by {
                            lemma_sub_cong(0, d, 0, 0);
                        }
                    }
                }
            }
            if v % pm() != 0 {
                assert(((d % pm()) * (v % pm())) % pm() != 0);
            }
        }
        lemma_roots_force_zero(q, rest);
        // c = (x - r) q + c(r) as polynomials, coefficient by coefficient.
        let lin = linear_factor(r);
        let rhs = padd(pmul(lin, q), seq![peval(c, r)]);
        assert forall|x: int| #[trigger] peval(c, x) == peval(rhs, x) by {
            lemma_synthetic_division(c, r, x);
            lemma_peval_padd(pmul(lin, q), seq![peval(c, r)], x);
            lemma_peval_pmul(lin, q, x);
            lemma_peval_linear(r, x);
            assert(seq![peval(c, r)].drop_first() =~= Seq::<int>::empty());
            assert(peval(Seq::<int>::empty(), x) == 0);
            assert(x * 0 == 0);
        }
        lemma_same_values(c, rhs);
        assert forall|k: int| #[trigger] coef(c, k) % pm() == 0 by {
            assert(coef(c, k) == coef(rhs, k));
            assert(coef(rhs, k) == coef(pmul(lin, q), k) + coef(seq![peval(c, r)], k));
            lemma_coef_pmul(lin, q, k);
            assert(tail(lin) =~= seq![1int]);
            assert(coef(lin, 0) == -r);
            let one = seq![1int];
            lemma_coef_pmul(one, q, k - 1);
            assert(tail(one) =~= Seq::<int>::empty());
            assert(pmul(tail(one), q) =~= Seq::<int>::empty());
            assert(coef(pmul(tail(one), q), k - 2) == 0);
            assert(coef(one, 0) == 1);
            assert(coef(pmul(one, q), k - 1) == coef(one, 0) * coef(q, k - 1) + coef(
                pmul(tail(one), q),
                k - 1 - 1,
            ));
            assert(coef(pmul(tail(one), q), k - 1 - 1) == 0);
            let cq = coef(q, k - 1);
            let c1 = coef(one, 0);
            assert(c1 * cq == cq) by (nonlinear_arith)
                requires
                    c1 == 1,
            ;
            assert(coef(pmul(one, q), k - 1) == coef(q, k - 1));
            assert(coef(pmul(lin, q), k) == -r * coef(q, k) + coef(q, k - 1));
            assert(coef(q, k) % pm() == 0);
            assert(coef(q, k - 1) % pm() == 0);
            lemma_mul_cong(-r, coef(q, k), -r, 0);
            lemma_add_cong(-r * coef(q, k), coef(q, k - 1), 0, 0);
            if k == 0 {
                lemma_add_cong(coef(pmul(lin, q), k), peval(c, r), 0, 0);
            } else {
                assert(coef(seq![peval(c, r)], k) == 0);
            }
        }
    }
}

proof fn lemma_fmul_comm(a: nat, b: nat)
    ensures
        fmul(a, b) == fmul(b, a),
{
    assert(a * b == b * a) by (nonlinear_arith);
}

/// One times a field element is itself.
proof fn lemma_fmul_one(a: nat)
    requires
        a < modulus(),
    ensures
        fmul(1, a) == a,
        fmul(a, 1) == a,
{
    lemma_small_mod(a, modulus());
}

/// Powers of one are one.
proof fn lemma_fpow_one(e: nat)
    ensures
        fpow(1, e) == 1,
    decreases e,
{
    if e > 0 {
        lemma_fpow_one((e - 1) as nat);
        lemma_small_mod(1, modulus());
    }
}

/// (a^i)^e = a^(i e).
proof fn lemma_fpow_mul(a: nat, i: nat, e: nat)
    requires
        a < modulus(),
    ensures
        fpow(fpow(a, i), e) == fpow(a, i * e),
    decreases e,
{
    if e == 0 {
        assert(i * 0 == 0);
    } else {
        let e1 = (e - 1) as nat;
        lemma_fpow_mul(a, i, e1);
        assert(i * e == i * e1 + i) by (nonlinear_arith)
            requires
                e1 == e - 1,
        ;
        lemma_fpow_add(a, i * e1, i);
    }
}

/// The integer power agrees with the field power modulo the modulus.
proof fn lemma_ipow_fpow(x: nat, e: nat)
    requires
        x < modulus(),
    ensures
        ipow(x as int, e) % pm() == fpow(x, e) as int,
    decreases e,
{
    if e == 0 {
        lemma_small_mod(1, modulus());
    } else {
        let e1 = (e - 1) as nat;
        lemma_ipow_fpow(x, e1);
        lemma_fpow_bound(x, e1);
        lemma_small_mod(x, modulus());
        lemma_mul_cong(ipow(x as int, e1), x as int, fpow(x, e1) as int, x as int);
        assert(ipow(x as int, e1) * x == x * ipow(x as int, e1)) by (nonlinear_arith);
    }
}

/// A polynomial's value modulo the modulus depends on x only modulo it.
pub proof fn lemma_peval_mod_point(c: Seq<int>, x: int)
    ensures
        peval(c, x) % pm() == peval(c, x % pm()) % pm(),
    decreases c.len(),
{
    if c.len() > 0 {
        let c1 = c.drop_first();
        let y = x % pm();
        lemma_peval_mod_point(c1, x);
        lemma_peval_mod_point(c1, y);
        vstd::arithmetic::div_mod::lemma_mod_twice(x, pm());
        lemma_mul_cong(x, peval(c1, x), y, peval(c1, y));
        lemma_add_cong(c[0], x * peval(c1, x), c[0], y * peval(c1, y));
    }
}

/// The points of a domain of order n: ω^0, ..., ω^(n-1) are distinct, ω and
/// ω⁻¹ move each to the next and the previous one (cyclically), and each is
/// a root of x^n - 1.
pub proof fn lemma_domain_points(w: nat, n: nat)
    requires
        w < modulus(),
        n >= 1,
        fpow(w, n) == 1,
        forall|e: nat| 0 < e < n ==> #[trigger] fpow(w, e) != 1,
    ensures
        forall|i: nat, j: nat| i < j < n ==> #[trigger] fpow(w, i) != #[trigger] fpow(w, j),
        forall|i: nat| i < n ==> #[trigger] fmul(w, fpow(w, i)) == fpow(w, (i + 1) % n),
        forall|i: nat|
            i < n ==> #[trigger] fmul(finv(w), fpow(w, i)) == fpow(w, ((i + n - 1) % (n as int)) as nat),
        forall|i: nat| i < n ==> #[trigger] ipow(fpow(w, i) as int, n) % pm() == 1,
{
    let iw = fpow(w, (n - 1) as nat);
    lemma_fpow_bound(w, (n - 1) as nat);
    lemma_fpow_add(w, (n - 1) as nat, 1);
    assert((n - 1) as nat + 1 == n);
    assert(fpow(w, 1) == w) by {
        assert(fpow(w, 0) == 1);
        assert(fpow(w, 1) == fmul(fpow(w, 0), w));
        lemma_fmul_one(w);
    }
    lemma_fmul_comm(iw, w);
    assert(is_inverse(w, iw));
    lemma_finv_is(w, iw);
    assert forall|i: nat, j: nat| i < j < n implies #[trigger] fpow(w, i) != #[trigger] fpow(w, j) by {
        if fpow(w, i) == fpow(w, j) {
            let x = fpow(w, i);
            let y = fpow(w, (j - i) as nat);
            let v = fpow(w, (n - i) as nat);
            lemma_fpow_bound(w, i);
            lemma_fpow_bound(w, (j - i) as nat);
            lemma_fpow_bound(w, (n - i) as nat);
            lemma_fpow_add(w, i, (j - i) as nat);
            assert(i + (j - i) as nat == j);
            lemma_fpow_add(w, (n - i) as nat, i);
            assert((n - i) as nat + i == n);
            assert(fmul(v, x) == 1);
            lemma_fmul_assoc(v, x, y);
            lemma_fmul_one(y);
            assert(y == 1);
        }
    }
    assert forall|i: nat| i < n implies #[trigger] fmul(w, fpow(w, i)) == fpow(w, (i + 1) % n) by {
        lemma_fmul_comm(w, fpow(w, i));
        assert(fpow(w, i + 1) == fmul(fpow(w, i), w));
        if i + 1 < n {
            vstd::arithmetic::div_mod::lemma_small_mod((i + 1) as nat, n);
        } else {
            assert(i + 1 == n);
            vstd::arithmetic::div_mod::lemma_mod_self_0(n as int);
        }
    }
    assert forall|i: nat| i < n implies #[trigger] fmul(finv(w), fpow(w, i)) == fpow(
        w,
        ((i + n - 1) % (n as int)) as nat,
    ) by {
        if i == 0 {
            lemma_fmul_one(iw);
            vstd::arithmetic::div_mod::lemma_small_mod((n - 1) as nat, n);
        } else {
            lemma_fpow_add(w, (n - 1) as nat, i);
            lemma_fpow_add(w, n, (i - 1) as nat);
            assert((n - 1) as nat + i == n + (i - 1) as nat);
            lemma_fpow_bound(w, (i - 1) as nat);
            lemma_fmul_one(fpow(w, (i - 1) as nat));
            vstd::arithmetic::div_mod::lemma_fundamental_div_mod_converse(
                (i + n - 1) as int,
                n as int,
                1,
                (i - 1) as int,
            );
        }
    }
    assert forall|i: nat| i < n implies #[trigger] ipow(fpow(w, i) as int, n) % pm() == 1 by {
        lemma_fpow_bound(w, i);
        lemma_ipow_fpow(fpow(w, i), n);
        lemma_fpow_mul(w, i, n);
        lemma_fpow_mul(w, n, i);
        assert(i * n == n * i) by (nonlinear_arith);
        lemma_fpow_one(i);
    }
}

/// A remainder that is zero from coefficient n on and vanishes at n distinct
/// residues is zero.
pub proof fn lemma_remainder_zero(vr: Seq<int>, n: nat, pts: Seq<int>)
    requires
        no_zero_divisors(),
        pts.len() == n,
        forall|k: int| 0 <= k < vr.len() ==> 0 <= #[trigger] vr[k] < modulus(),
        forall|k: int| n <= k < vr.len() ==> #[trigger] vr[k] == 0,
        forall|i: int| 0 <= i < pts.len() ==> 0 <= #[trigger] pts[i] < modulus(),
        forall|i: int, j: int| 0 <= i < j < pts.len() ==> #[trigger] pts[i] != #[trigger] pts[j],
        forall|i: int| 0 <= i < pts.len() ==> #[trigger] peval(vr, pts[i]) % pm() == 0,
    ensures
        forall|k: int| 0 <= k < vr.len() ==> #[trigger] vr[k] == 0,
{
    let keep = if vr.len() <= n {
        vr.len() as int
    } else {
        n as int
    };
    let low = vr.take(keep);
    assert forall|i: int| 0 <= i < pts.len() implies #[trigger] peval(low, pts[i]) % pm() == 0 by {
        crate::poly::lemma_peval_zero_tail(vr, keep, pts[i]);
    }
    lemma_roots_force_zero(low, pts);
    assert forall|k: int| 0 <= k < vr.len() implies #[trigger] vr[k] == 0 by {
        if k < keep {
            assert(coef(low, k) == vr[k]);
            lemma_small_mod(vr[k] as nat, modulus());
        }
    }
}

/// The remainder of a division by x^n - 1 is zero when the dividend
/// vanishes on a domain of order n.
pub proof fn lemma_remainder_vanishes(
    vc: Seq<int>,
    vq: Seq<int>,
    vzh: Seq<int>,
    vr: Seq<int>,
    w: nat,
    n: nat,
)
    requires
        no_zero_divisors(),
        w < modulus(),
        n >= 1,
        fpow(w, n) == 1,
        forall|e: nat| 0 < e < n ==> #[trigger] fpow(w, e) != 1,
        forall|x: int| #[trigger] peval(vc, x) % pm() == (peval(vq, x) * peval(vzh, x) + peval(vr, x))
            % pm(),
        forall|x: int| #[trigger] peval(vzh, x) % pm() == (ipow(x, n) - 1) % pm(),
        forall|i: nat| i < n ==> #[trigger] peval(vc, fpow(w, i) as int) % pm() == 0,
        forall|k: int| 0 <= k < vr.len() ==> 0 <= #[trigger] vr[k] < modulus(),
        forall|k: int| n <= k < vr.len() ==> #[trigger] vr[k] == 0,
    ensures
        forall|k: int| 0 <= k < vr.len() ==> #[trigger] vr[k] == 0,
{
    lemma_domain_points(w, n);
    let pts = Seq::new(n, |i: int| fpow(w, i as nat) as int);
    assert forall|i: int| 0 <= i < pts.len() implies 0 <= #[trigger] pts[i] < modulus() by {
        lemma_fpow_bound(w, i as nat);
    }
    assert forall|i: int, j: int| 0 <= i < j < pts.len() implies #[trigger] pts[i] != #[trigger] pts[j] by {
        assert(fpow(w, i as nat) != fpow(w, j as nat));
    }
    assert forall|i: int| 0 <= i < pts.len() implies #[trigger] peval(vr, pts[i]) % pm() == 0 by {
        let x = pts[i];
        assert(peval(vc, fpow(w, i as nat) as int) % pm() == 0);
        assert(ipow(x, n) % pm() == 1);
        assert(peval(vzh, x) % pm() == (ipow(x, n) - 1) % pm());
        lemma_sub_cong(ipow(x, n), 1, 1, 1);
        lemma_mul_cong(peval(vq, x), peval(vzh, x), peval(vq, x), 0);
        lemma_add_cong(peval(vq, x) * peval(vzh, x), peval(vr, x), 0, peval(vr, x));
    }
    lemma_remainder_zero(vr, n, pts);
}

} // verus!
