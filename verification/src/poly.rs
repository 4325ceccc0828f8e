//! Polynomials over shared or public field values: products, subproduct
//! trees, multipoint evaluation (by division with remainder, `series.rs`)
//! and shifts of the variable.
//!
//! A polynomial is the vector of its coefficients, lowest degree first. Its
//! meaning is stated over the integers: `peval` evaluates coefficients by
//! Horner's rule and `pmul` multiplies coefficient sequences exactly. Field
//! coefficients stand for integers up to multiples of the modulus
//! (`pcong`), which evaluation respects (`lemma_peval_cong`).
use vstd::prelude::*;
use crate::bit_ops::same_net;
use crate::field::{Fe, fadd, fmul, fsub, lemma_val_lt_modulus, modulus};
use crate::mpc_field::MpcField;
use crate::net::MpcNet;
use crate::series::poly_divmod;
use crate::sorting::{all_public, values_of};
use crate::types::two_pow;

verus! {

broadcast use lemma_val_lt_modulus;

/// p(x) over the integers, coefficients lowest degree first.
pub open spec fn peval(c: Seq<int>, x: int) -> int
    decreases c.len(),
{
    if c.len() == 0 {
        0
    } else {
        c[0] + x * peval(c.drop_first(), x)
    }
}

/// Coefficient k, zero outside the sequence.
pub open spec fn coef(c: Seq<int>, k: int) -> int {
    if 0 <= k < c.len() {
        c[k]
    } else {
        0
    }
}

/// Sum of two polynomials.
pub open spec fn padd(c: Seq<int>, d: Seq<int>) -> Seq<int> {
    Seq::new(
        if c.len() >= d.len() {
            c.len()
        } else {
            d.len()
        },
        |k: int| coef(c, k) + coef(d, k),
    )
}

/// s times a polynomial.
pub open spec fn pscale(s: int, c: Seq<int>) -> Seq<int> {
    Seq::new(c.len(), |k: int| s * c[k])
}

/// x times a polynomial.
pub open spec fn pshift(c: Seq<int>) -> Seq<int> {
    seq![0int] + c
}

/// Product of two polynomials: a[0] b + x (a[1..] b).
pub open spec fn pmul(a: Seq<int>, b: Seq<int>) -> Seq<int>
    decreases a.len(),
{
    if a.len() == 0 {
        Seq::empty()
    } else {
        padd(pscale(a[0], b), pshift(pmul(a.drop_first(), b)))
    }
}

/// The coefficients agree modulo the field's modulus.
pub open spec fn pcong(c: Seq<int>, d: Seq<int>) -> bool {
    &&& c.len() == d.len()
    &&& forall|k: int|
        0 <= k < c.len() ==> #[trigger] c[k] % (modulus() as int) == d[k] % (modulus() as int)
}

/// The product of (x - r) over the roots r.
pub open spec fn roots_prod(roots: Seq<int>, x: int) -> int
    decreases roots.len(),
{
    if roots.len() == 0 {
        1
    } else {
        (x - roots[0]) * roots_prod(roots.drop_first(), x)
    }
}

pub proof fn lemma_peval_padd(c: Seq<int>, d: Seq<int>, x: int)
    ensures
        peval(padd(c, d), x) == peval(c, x) + peval(d, x),
    decreases c.len() + d.len(),
{
    let s = padd(c, d);
    if s.len() == 0 {
    } else {
        let c1 = if c.len() == 0 {
            c
        } else {
            c.drop_first()
        };
        let d1 = if d.len() == 0 {
            d
        } else {
            d.drop_first()
        };
        assert(s.drop_first() =~= padd(c1, d1));
        lemma_peval_padd(c1, d1, x);
        assert(x * 0 == 0);
        assert(peval(c, x) == coef(c, 0) + x * peval(c1, x));
        assert(peval(d, x) == coef(d, 0) + x * peval(d1, x));
        assert(x * (peval(c1, x) + peval(d1, x)) == x * peval(c1, x) + x * peval(d1, x))
            by (nonlinear_arith);
    }
}

pub proof fn lemma_peval_pscale(s: int, c: Seq<int>, x: int)
    ensures
        peval(pscale(s, c), x) == s * peval(c, x),
    decreases c.len(),
{
    if c.len() > 0 {
        assert(pscale(s, c).drop_first() =~= pscale(s, c.drop_first()));
        lemma_peval_pscale(s, c.drop_first(), x);
        let e = peval(c.drop_first(), x);
        assert(s * c[0] + x * (s * e) == s * (c[0] + x * e)) by (nonlinear_arith);
    }
}

pub proof fn lemma_peval_pshift(c: Seq<int>, x: int)
    ensures
        peval(pshift(c), x) == x * peval(c, x),
{
    assert(pshift(c).drop_first() =~= c);
}

/// Evaluation turns the product of polynomials into the product of values.
pub proof fn lemma_peval_pmul(a: Seq<int>, b: Seq<int>, x: int)
    ensures
        peval(pmul(a, b), x) == peval(a, x) * peval(b, x),
    decreases a.len(),
{
    if a.len() > 0 {
        let rest = pmul(a.drop_first(), b);
        lemma_peval_pmul(a.drop_first(), b, x);
        lemma_peval_padd(pscale(a[0], b), pshift(rest), x);
        lemma_peval_pscale(a[0], b, x);
        lemma_peval_pshift(rest, x);
        let ea = peval(a.drop_first(), x);
        let eb = peval(b, x);
        assert(a[0] * eb + x * (ea * eb) == (a[0] + x * ea) * eb) by (nonlinear_arith);
    }
}

/// Coefficients that agree modulo the modulus give values that agree.
pub proof fn lemma_peval_cong(c: Seq<int>, d: Seq<int>, x: int)
    requires
        pcong(c, d),
    ensures
        peval(c, x) % (modulus() as int) == peval(d, x) % (modulus() as int),
    decreases c.len(),
{
    let m = modulus() as int;
    if c.len() > 0 {
        assert(pcong(c.drop_first(), d.drop_first())) by {
            assert forall|k: int| 0 <= k < c.len() - 1 implies #[trigger] c.drop_first()[k] % m
                == d.drop_first()[k] % m by {
                assert(c.drop_first()[k] == c[k + 1]);
                assert(d.drop_first()[k] == d[k + 1]);
            }
        }
        lemma_peval_cong(c.drop_first(), d.drop_first(), x);
        let ec = peval(c.drop_first(), x);
        let ed = peval(d.drop_first(), x);
        vstd::arithmetic::div_mod::lemma_mul_mod_noop_right(x, ec, m);
        vstd::arithmetic::div_mod::lemma_mul_mod_noop_right(x, ed, m);
        vstd::arithmetic::div_mod::lemma_add_mod_noop(c[0], x * ec, m);
        vstd::arithmetic::div_mod::lemma_add_mod_noop(d[0], x * ed, m);
    }
}

/// The product polynomial has the expected length and leading coefficient.
pub proof fn lemma_pmul_shape(a: Seq<int>, b: Seq<int>)
    requires
        a.len() >= 1,
        b.len() >= 1,
    ensures
        pmul(a, b).len() == a.len() + b.len() - 1,
        pmul(a, b)[a.len() + b.len() - 2] == a[a.len() - 1] * b[b.len() - 1],
    decreases a.len(),
{
    if a.len() == 1 {
        assert(pmul(a.drop_first(), b) =~= Seq::<int>::empty());
    } else {
        lemma_pmul_shape(a.drop_first(), b);
        assert(a.drop_first()[a.len() - 2] == a[a.len() - 1]);
    }
}

/// The product of the roots' factors over a concatenation.
pub proof fn lemma_roots_prod_concat(r1: Seq<int>, r2: Seq<int>, x: int)
    ensures
        roots_prod(r1 + r2, x) == roots_prod(r1, x) * roots_prod(r2, x),
    decreases r1.len(),
{
    if r1.len() == 0 {
        assert(r1 + r2 =~= r2);
    } else {
        assert((r1 + r2).drop_first() =~= r1.drop_first() + r2);
        lemma_roots_prod_concat(r1.drop_first(), r2, x);
        let p1 = roots_prod(r1.drop_first(), x);
        let p2 = roots_prod(r2, x);
        assert((x - r1[0]) * (p1 * p2) == ((x - r1[0]) * p1) * p2) by (nonlinear_arith);
    }
}

/// Each root is a zero of the product of the roots' factors.
pub proof fn lemma_roots_prod_zero(roots: Seq<int>, i: int)
    requires
        0 <= i < roots.len(),
    ensures
        roots_prod(roots, roots[i]) == 0,
    decreases roots.len(),
{
    if i > 0 {
        lemma_roots_prod_zero(roots.drop_first(), i - 1);
        assert(roots.drop_first()[i - 1] == roots[i]);
        let d = roots[i] - roots[0];
        assert(d * 0 == 0);
    }
}

/// A field value stands for every integer congruent to it.
proof fn lemma_value_cong(v: nat, e: int)
    requires
        v < modulus(),
        (v as int) % (modulus() as int) == e % (modulus() as int),
    ensures
        v as int == e % (modulus() as int),
{
    vstd::arithmetic::div_mod::lemma_small_mod(v, modulus());
}

/// fadd(fmul(a, b), c) stands for a b + e where c stands for e.
proof fn lemma_mul_add_cong(a: nat, b: nat, c: nat, e: int)
    requires
        c < modulus(),
        (c as int) % (modulus() as int) == e % (modulus() as int),
    ensures
        fadd(fmul(a, b), c) as int % (modulus() as int) == (a * b + e) % (modulus() as int),
{
    let m = modulus() as int;
    lemma_value_cong(c, e);
    crate::field::lemma_fadd_cong((a * b) as int, e, fmul(a, b), c);
    vstd::arithmetic::div_mod::lemma_small_mod(fadd(fmul(a, b), c), modulus());
}

/// The coefficient of highest degree is there and public.
pub open spec fn top_public(c: Seq<MpcField>) -> bool {
    c.len() >= 1 && c[c.len() - 1] is Public
}

/// Product of two polynomials, coefficient by coefficient as
/// a[0] b + x (a[1..] b), with the products of field values done by the
/// field's own multiplication (Beaver triples for two shared operands).
pub(crate) fn poly_mul<N: MpcNet>(p1: &Vec<MpcField>, p2: &Vec<MpcField>, net: &mut N) -> (r: Vec<
    MpcField,
>)
    requires
        p1.len() + p2.len() <= usize::MAX,
    ensures
        same_net(*final(net), *old(net)),
        p1.len() == 0 || p2.len() == 0 ==> r.len() == 0,
        p1.len() > 0 && p2.len() > 0 ==> r.len() == p1.len() + p2.len() - 1,
        all_public(p1@) && all_public(p2@) ==> all_public(r@),
        p1.len() > 0 && p2.len() > 0 && ((all_public(p1@) && all_public(p2@)) || old(net).single_party()) ==> pcong(
            values_of(r@),
            pmul(values_of(p1@), values_of(p2@)),
        ),
        top_public(p1@) && top_public(p2@) ==> top_public(r@) && r[r.len() - 1].value() == fmul(
            p1[p1.len() - 1].value(),
            p2[p2.len() - 1].value(),
        ),
{
    let la = p1.len();
    let lb = p2.len();
    if la == 0 || lb == 0 {
        return Vec::new();
    }
    let ghost net0 = *old(net);
    let ghost exact = (all_public(p1@) && all_public(p2@)) || net0.single_party();
    let ghost va = values_of(p1@);
    let ghost vb = values_of(p2@);
    let zero = MpcField::Public(Fe::zero());
    let mut acc: Vec<MpcField> = Vec::new();
    let mut i: usize = la;
    proof {
        assert(va.skip(la as int) =~= Seq::<int>::empty());
    }
    while i > 0
        invariant
            la == p1.len(),
            lb == p2.len(),
            la + lb <= usize::MAX,
            lb >= 1,
            i <= la,
            zero is Public,
            zero.value() == 0,
            same_net(*net, net0),
            exact == ((all_public(p1@) && all_public(p2@)) || net0.single_party()),
            va == values_of(p1@),
            vb == values_of(p2@),
            i == la ==> acc.len() == 0,
            i < la ==> acc.len() == la - i + lb - 1,
            all_public(p1@) && all_public(p2@) ==> all_public(acc@),
            exact ==> pcong(values_of(acc@), pmul(va.skip(i as int), vb)),
            i < la && top_public(p1@) && top_public(p2@) ==> top_public(acc@) && acc[acc.len() - 1].value()
                == fmul(p1[la - 1].value(), p2[lb - 1].value()),
        decreases i,
    {
        i = i - 1;
        let ai = p1[i];
        let len = if lb >= acc.len() + 1 {
            lb
        } else {
            acc.len() + 1
        };
        let ghost rest = pmul(va.skip(i + 1), vb);
        let ghost target = pmul(va.skip(i as int), vb);
        proof {
            assert(va.skip(i as int).drop_first() =~= va.skip(i + 1));
            assert(va.skip(i as int)[0] == va[i as int]);
            assert(target == padd(pscale(va[i as int], vb), pshift(rest)));
            if exact {
                assert(rest.len() == acc.len());
            }
        }
        let mut next: Vec<MpcField> = Vec::new();
        let mut k: usize = 0;
        while k < len
            invariant
                la == p1.len(),
                lb == p2.len(),
                i < la,
                ai == p1[i as int],
                len == (if lb >= acc.len() + 1 {
                    lb as int
                } else {
                    acc.len() + 1
                }),
                k <= len,
                next.len() == k,
                zero is Public,
                zero.value() == 0,
                same_net(*net, net0),
                exact == ((all_public(p1@) && all_public(p2@)) || net0.single_party()),
                va == values_of(p1@),
                vb == values_of(p2@),
                rest == pmul(va.skip(i + 1), vb),
                target == padd(pscale(va[i as int], vb), pshift(rest)),
                all_public(p1@) && all_public(p2@) ==> all_public(acc@),
                all_public(p1@) && all_public(p2@) ==> all_public(next@),
                exact ==> pcong(values_of(acc@), rest),
                exact ==> target.len() == len,
                exact ==> forall|q: int|
                    0 <= q < k ==> (#[trigger] next[q]).value() as int % (modulus() as int)
                        == target[q] % (modulus() as int),
                i + 1 == la ==> acc.len() == 0,
                i + 1 < la ==> acc.len() == la - (i + 1) + lb - 1,
                i + 1 < la && top_public(p1@) && top_public(p2@) ==> top_public(acc@) && acc[acc.len()
                    - 1].value() == fmul(p1[la - 1].value(), p2[lb - 1].value()),
                k == len && top_public(p1@) && top_public(p2@) ==> next[len - 1] is Public && next[len
                    - 1].value() == fmul(p1[la - 1].value(), p2[lb - 1].value()),
            decreases len - k,
        {
            proof {
                if all_public(p1@) && all_public(p2@) {
                    assert(p1[i as int] is Public);
                    if k < lb {
                        assert(p2[k as int] is Public);
                    }
                    if k >= 1 && k - 1 < acc.len() {
                        assert(acc[k - 1] is Public);
                    }
                }
            }
            let t1 = if k < lb {
                ai.mul(&p2[k], net)
            } else {
                zero
            };
            let t2 = if k >= 1 && k - 1 < acc.len() {
                acc[k - 1]
            } else {
                zero
            };
            let v = t1.add(&t2, net);
            proof {
                if k + 1 == len && top_public(p1@) && top_public(p2@) {
                    let tv = fmul(p1[la - 1].value(), p2[lb - 1].value());
                    assert(tv < modulus());
                    if i + 1 == la {
                        assert(acc.len() == 0);
                        assert(len == lb);
                        assert(ai == p1[la - 1]);
                        assert(t1.value() == tv);
                        assert(fadd(tv, 0) == tv) by {
                            vstd::arithmetic::div_mod::lemma_small_mod(tv, modulus());
                        }
                    } else {
                        assert(acc.len() >= lb);
                        assert(len == acc.len() + 1);
                        assert(t2 == acc[acc.len() - 1]);
                        assert(fadd(0, tv) == tv) by {
                            vstd::arithmetic::div_mod::lemma_small_mod(tv, modulus());
                        }
                    }
                }
                if exact {
                    let e2 = coef(pshift(rest), k as int);
                    if k >= 1 && k - 1 < acc.len() {
                        assert(e2 == rest[k - 1]);
                        assert(acc[k - 1].value() as int % (modulus() as int) == rest[k - 1] % (
                        modulus() as int)) by {
                            assert(values_of(acc@)[k - 1] == acc[k - 1].value() as int);
                        }
                    } else {
                        assert(e2 == 0);
                        vstd::arithmetic::div_mod::lemma_small_mod(0, modulus());
                    }
                    if k < lb {
                        assert(coef(pscale(va[i as int], vb), k as int) == va[i as int] * vb[k as int]);
                        lemma_mul_add_cong(ai.value(), p2[k as int].value(), t2.value(), e2);
                    } else {
                        assert(coef(pscale(va[i as int], vb), k as int) == 0);
                        assert(fmul(0, 0) == 0);
                        lemma_mul_add_cong(0, 0, t2.value(), e2);
                    }
                    assert(target[k as int] == coef(pscale(va[i as int], vb), k as int) + e2);
                }
            }
            next.push(v);
            k = k + 1;
        }
        proof {
            if exact {
                assert forall|q: int| 0 <= q < next.len() implies #[trigger] values_of(next@)[q]
                    % (modulus() as int) == target[q] % (modulus() as int) by {
                    assert(values_of(next@)[q] == next[q].value() as int);
                }
            }
        }
        acc = next;
    }
    proof {
        assert(va.skip(0) =~= va);
    }
    acc
}

/// x^e over the integers.
pub open spec fn ipow(x: int, e: nat) -> int
    decreases e,
{
    if e == 0 {
        1
    } else {
        x * ipow(x, (e - 1) as nat)
    }
}

proof fn lemma_ipow_add(x: int, a: nat, b: nat)
    ensures
        ipow(x, a + b) == ipow(x, a) * ipow(x, b),
    decreases a,
{
    if a > 0 {
        lemma_ipow_add(x, (a - 1) as nat, b);
        assert((a - 1) as nat + b == (a + b - 1) as nat);
        let p1 = ipow(x, (a - 1) as nat);
        let p2 = ipow(x, b);
        assert(x * (p1 * p2) == (x * p1) * p2) by (nonlinear_arith);
    }
}

/// Changing coefficient k changes the value by the difference times x^k.
proof fn lemma_peval_update(c: Seq<int>, k: int, v: int, x: int)
    requires
        0 <= k < c.len(),
    ensures
        peval(c.update(k, v), x) == peval(c, x) + (v - c[k]) * ipow(x, k as nat),
    decreases k,
{
    if k == 0 {
        assert(c.update(0, v).drop_first() =~= c.drop_first());
    } else {
        assert(c.update(k, v).drop_first() =~= c.drop_first().update(k - 1, v));
        lemma_peval_update(c.drop_first(), k - 1, v, x);
        let e = peval(c.drop_first(), x);
        let d = (v - c[k]) * ipow(x, (k - 1) as nat);
        assert(x * (e + d) == x * e + (v - c[k]) * (x * ipow(x, (k - 1) as nat))) by (nonlinear_arith)
            requires
                d == (v - c[k]) * ipow(x, (k - 1) as nat),
        ;
    }
}

/// The value of the first t + 1 coefficients.
pub proof fn lemma_peval_take_step(c: Seq<int>, t: int, x: int)
    requires
        0 <= t < c.len(),
    ensures
        peval(c.take(t + 1), x) == peval(c.take(t), x) + c[t] * ipow(x, t as nat),
{
    let z = c.take(t).push(0);
    assert(c.take(t + 1) =~= z.update(t, c[t]));
    lemma_peval_update(z, t, c[t], x);
    lemma_peval_push_zero(c.take(t), x);
}

/// A zero coefficient on top does not change the value.
proof fn lemma_peval_push_zero(c: Seq<int>, x: int)
    ensures
        peval(c.push(0), x) == peval(c, x),
    decreases c.len(),
{
    if c.len() == 0 {
        assert(seq![0int].drop_first() =~= Seq::<int>::empty());
        assert(c.push(0) =~= seq![0int]);
        assert(peval(Seq::<int>::empty(), x) == 0);
        assert(peval(seq![0int].drop_first(), x) == 0);
        assert(x * 0 == 0);
    } else {
        assert(c.push(0)[0] == c[0]);
        assert(c.push(0).drop_first() =~= c.drop_first().push(0));
        lemma_peval_push_zero(c.drop_first(), x);
    }
}

/// Zero coefficients at and above k do not contribute.
pub proof fn lemma_peval_zero_tail(c: Seq<int>, k: int, x: int)
    requires
        0 <= k <= c.len(),
        forall|i: int| k <= i < c.len() ==> #[trigger] c[i] == 0,
    ensures
        peval(c, x) == peval(c.take(k), x),
    decreases c.len() - k,
{
    if k < c.len() {
        lemma_peval_zero_tail(c, k + 1, x);
        lemma_peval_take_step(c, k, x);
        assert(c[k] * ipow(x, k as nat) == 0);
    } else {
        assert(c.take(k) =~= c);
    }
}

/// Congruences add.
proof fn lemma_cong_add(a: int, b: int, c: int, d: int, m: int)
    requires
        m > 0,
        a % m == b % m,
        c % m == d % m,
    ensures
        (a + c) % m == (b + d) % m,
{
    vstd::arithmetic::div_mod::lemma_add_mod_noop(a, c, m);
    vstd::arithmetic::div_mod::lemma_add_mod_noop(b, d, m);
}

/// Congruences multiply.
proof fn lemma_cong_mul(a: int, b: int, w: int, m: int)
    requires
        m > 0,
        a % m == b % m,
    ensures
        (a * w) % m == (b * w) % m,
{
    vstd::arithmetic::div_mod::lemma_mul_mod_noop_left(a, w, m);
    vstd::arithmetic::div_mod::lemma_mul_mod_noop_left(b, w, m);
}

/// A copy of a vector of field values.
pub(crate) fn copy_poly(v: &Vec<MpcField>) -> (r: Vec<MpcField>)
    ensures
        r@ == v@,
{
    let mut out: Vec<MpcField> = Vec::new();
    let mut i: usize = 0;
    while i < v.len()
        invariant
            i <= v.len(),
            out@ == v@.take(i as int),
        decreases v.len() - i,
    {
        out.push(v[i]);
        i = i + 1;
        proof {
            assert(out@ =~= v@.take(i as int));
        }
    }
    proof {
        assert(out@ =~= v@);
    }
    out
}

/// The points under node q of level l: leaves q 2^l up to (q + 1) 2^l,
/// as far as there are points.
pub open spec fn node_roots(points: Seq<int>, l: nat, q: int) -> Seq<int> {
    let lo = q * two_pow(l);
    let hi = (q + 1) * two_pow(l);
    points.subrange(
        if lo <= points.len() {
            lo
        } else {
            points.len() as int
        },
        if hi <= points.len() {
            hi
        } else {
            points.len() as int
        },
    )
}

/// The leading coefficient is a public one.
pub open spec fn monic(c: Seq<MpcField>) -> bool {
    top_public(c) && c[c.len() - 1].value() == 1
}

/// Every coefficient of every node is public.
pub open spec fn tree_public(tree: Seq<Vec<Vec<MpcField>>>) -> bool {
    forall|l: int, q: int|
        0 <= l < tree.len() && 0 <= q < tree[l].len() ==> all_public(#[trigger] tree[l][q]@)
}

/// `tree` is the subproduct tree of `points` with `levels` levels above the
/// leaves: level l has 2^(levels - l) nodes, node q of level l has one
/// coefficient more than it has points under it, a public leading
/// coefficient one and, where `exact`, the value of the product of (x - r)
/// over its points.
pub open spec fn subproduct_tree(
    tree: Seq<Vec<Vec<MpcField>>>,
    points: Seq<int>,
    levels: nat,
    exact: bool,
) -> bool {
    &&& tree.len() == levels + 1
    &&& points.len() <= two_pow(levels)
    &&& forall|l: int| 0 <= l <= levels ==> (#[trigger] tree[l]).len() == two_pow((levels - l) as nat)
    &&& forall|l: int, q: int|
        0 <= l <= levels && 0 <= q < tree[l].len() ==> (#[trigger] tree[l][q]).len() == node_roots(
            points,
            l as nat,
            q,
        ).len() + 1
    &&& forall|l: int, q: int|
        0 <= l <= levels && 0 <= q < tree[l].len() ==> monic((#[trigger] tree[l][q])@)
    &&& exact ==> forall|l: int, q: int|
        0 <= l <= levels && 0 <= q < tree[l].len() ==> {
            let node = #[trigger] tree[l][q];
            &&& forall|x: int|
                #[trigger] peval(values_of(node@), x) % (modulus() as int) == roots_prod(
                    node_roots(points, l as nat, q),
                    x,
                ) % (modulus() as int)
        }
}

/// The points under the two children of a node make up its own.
proof fn lemma_node_roots_split(points: Seq<int>, l: nat, q: int)
    requires
        q >= 0,
    ensures
        node_roots(points, l, 2 * q) + node_roots(points, l, 2 * q + 1) =~= node_roots(
            points,
            l + 1,
            q,
        ),
{
    let t = two_pow(l);
    let n = points.len() as int;
    assert(two_pow(l + 1) == 2 * t);
    crate::bits::lemma_two_pow_positive(l);
    let lo = (2 * q) * t;
    let mid = (2 * q + 1) * t;
    let hi = (2 * q + 1 + 1) * t;
    assert(lo == q * (2 * t)) by (nonlinear_arith)
        requires
            lo == (2 * q) * t,
    ;
    assert(mid == lo + t) by (nonlinear_arith)
        requires
            lo == (2 * q) * t,
            mid == (2 * q + 1) * t,
    ;
    assert(hi == (q + 1) * (2 * t)) by (nonlinear_arith)
        requires
            hi == (2 * q + 1 + 1) * t,
    ;
    assert(hi == mid + t) by (nonlinear_arith)
        requires
            hi == (2 * q + 1 + 1) * t,
            mid == (2 * q + 1) * t,
    ;
    assert(lo >= 0) by (nonlinear_arith)
        requires
            q >= 0,
            t >= 1,
            lo == (2 * q) * t,
    ;
    let a = if lo <= n {
        lo
    } else {
        n
    };
    let b = if mid <= n {
        mid
    } else {
        n
    };
    let c = if hi <= n {
        hi
    } else {
        n
    };
    assert(0 <= a <= b <= c <= n);
    assert(node_roots(points, l, 2 * q) == points.subrange(a, b));
    assert(node_roots(points, l, 2 * q + 1) == points.subrange(b, c));
    assert(node_roots(points, l + 1, q) == points.subrange(a, c));
    assert(points.subrange(a, b) + points.subrange(b, c) =~= points.subrange(a, c));
}

/// The value of a leaf x - p.
proof fn lemma_leaf_value(c0: nat, pt: nat, x: int)
    requires
        pt < modulus(),
        c0 == fsub(0, pt),
    ensures
        peval(seq![c0 as int, 1int], x) % (modulus() as int) == roots_prod(seq![pt as int], x) % (
        modulus() as int),
{
    let m = modulus() as int;
    let c = seq![c0 as int, 1int];
    assert(c.drop_first() =~= seq![1int]);
    assert(seq![1int].drop_first() =~= Seq::<int>::empty());
    assert(peval(Seq::<int>::empty(), x) == 0);
    assert(peval(seq![1int], x) == 1 + x * 0);
    assert(x * 0 == 0);
    assert(peval(c, x) == c0 + x * 1);
    let r = seq![pt as int];
    assert(r.drop_first() =~= Seq::<int>::empty());
    assert(roots_prod(Seq::<int>::empty(), x) == 1);
    assert(roots_prod(r, x) == (x - pt) * roots_prod(r.drop_first(), x));
    assert(roots_prod(r, x) == (x - pt) * 1);
    crate::field::lemma_fsub_cong(0, pt as int, 0, pt);
    vstd::arithmetic::div_mod::lemma_small_mod(pt, modulus());
    lemma_cong_add(c0 as int, 0 - pt, x, x, m);
}

/// The value of a node that is the product of its two children.
proof fn lemma_parent_value(
    left: Seq<int>,
    right: Seq<int>,
    node: Seq<int>,
    rl: Seq<int>,
    rr: Seq<int>,
    x: int,
)
    requires
        pcong(node, pmul(left, right)),
        peval(left, x) % (modulus() as int) == roots_prod(rl, x) % (modulus() as int),
        peval(right, x) % (modulus() as int) == roots_prod(rr, x) % (modulus() as int),
    ensures
        peval(node, x) % (modulus() as int) == roots_prod(rl + rr, x) % (modulus() as int),
{
    let m = modulus() as int;
    lemma_peval_cong(node, pmul(left, right), x);
    lemma_peval_pmul(left, right, x);
    lemma_roots_prod_concat(rl, rr, x);
    let a = peval(left, x);
    let b = peval(right, x);
    let ra = roots_prod(rl, x);
    let rb = roots_prod(rr, x);
    lemma_cong_mul(a, ra, b, m);
    lemma_cong_mul(b, rb, ra, m);
    assert(b * ra == ra * b) by (nonlinear_arith);
    assert(rb * ra == ra * rb) by (nonlinear_arith);
}

/// The subproduct tree of the points: leaves x - p (and 1 where the points
/// run out before a power of two), each level the products of pairs of the
/// level below, up to a single root.
pub(crate) fn build_subproduct_tree<N: MpcNet>(points: &Vec<MpcField>, net: &mut N) -> (r: Vec<
    Vec<Vec<MpcField>>,
>)
    requires
        2 * points.len() + 4 <= usize::MAX,
    ensures
        same_net(*final(net), *old(net)),
        r.len() >= 1,
        subproduct_tree(
            r@,
            values_of(points@),
            (r.len() - 1) as nat,
            all_public(points@) || old(net).single_party(),
        ),
        all_public(points@) ==> tree_public(r@),
{
    let k = points.len();
    let ghost net0 = *old(net);
    let ghost pubs = all_public(points@);
    let ghost exact = pubs || net0.single_party();
    let ghost pts = values_of(points@);
    let ghost m = modulus() as int;
    let one = MpcField::Public(Fe::one());
    let zero = MpcField::Public(Fe::zero());
    let size = crate::types::next_power_of_two(k);
    let mut leaves: Vec<Vec<MpcField>> = Vec::new();
    let mut i: usize = 0;
    while i < size
        invariant
            k == points.len(),
            i <= size,
            k <= size,
            leaves.len() == i,
            one is Public,
            one.value() == 1,
            zero is Public,
            zero.value() == 0,
            same_net(*net, net0),
            pubs == all_public(points@),
            exact == (pubs || net0.single_party()),
            pts == values_of(points@),
            m == modulus() as int,
            forall|q: int|
                0 <= q < i ==> (#[trigger] leaves[q]).len() == node_roots(pts, 0, q).len() + 1,
            pubs ==> forall|q: int| 0 <= q < i ==> all_public((#[trigger] leaves[q])@),
            forall|q: int| 0 <= q < i ==> monic((#[trigger] leaves[q])@),
            exact ==> forall|q: int|
                0 <= q < i ==> {
                    let node = #[trigger] leaves[q];
                    &&& forall|x: int|
                        #[trigger] peval(values_of(node@), x) % m == roots_prod(
                            node_roots(pts, 0, q),
                            x,
                        ) % m
                },
        decreases size - i,
    {
        proof {
            assert(two_pow(0) == 1);
        }
        if i < k {
            proof {
                if pubs {
                    assert(points[i as int] is Public);
                }
            }
            let neg = zero.sub(&points[i], net);
            let leaf = vec![neg, one];
            proof {
                assert(node_roots(pts, 0, i as int) =~= seq![pts[i as int]]);
                if exact {
                    assert forall|x: int| #[trigger] peval(values_of(leaf@), x) % m == roots_prod(
                        node_roots(pts, 0, i as int),
                        x,
                    ) % m by {
                        assert(values_of(leaf@) =~= seq![neg.value() as int, 1int]);
                        lemma_leaf_value(neg.value(), points[i as int].value(), x);
                    }
                }
            }
            leaves.push(leaf);
        } else {
            let leaf = vec![one];
            proof {
                assert(node_roots(pts, 0, i as int) =~= Seq::<int>::empty());
                if exact {
                    assert forall|x: int| #[trigger] peval(values_of(leaf@), x) % m == roots_prod(
                        node_roots(pts, 0, i as int),
                        x,
                    ) % m by {
                        assert(values_of(leaf@) =~= seq![1int]);
                        assert(seq![1int].drop_first() =~= Seq::<int>::empty());
                        assert(peval(Seq::<int>::empty(), x) == 0);
                        assert(x * 0 == 0);
                    }
                }
            }
            leaves.push(leaf);
        }
        i = i + 1;
    }
    let mut tree: Vec<Vec<Vec<MpcField>>> = Vec::new();
    tree.push(leaves);
    let ghost e: nat = choose|e: nat| two_pow(e) == size;
    let ghost mut lev: nat = 0;
    let mut width = size;
    proof {
        assert(two_pow(0) == 1);
        assert(e - 0 == e);
        assert forall|l: int, q: int| 0 <= l <= lev && 0 <= q < tree[l].len() implies (
        #[trigger] tree[l][q]).len() == node_roots(pts, l as nat, q).len() + 1 by {
            assert(tree[0] == leaves);
        }
    }
    while width > 1
        invariant
            k == points.len(),
            2 * k + 4 <= usize::MAX,
            k <= size,
            two_pow(e) == size,
            lev <= e,
            tree.len() == lev + 1,
            width == two_pow((e - lev) as nat),
            width == tree[lev as int].len(),
            same_net(*net, net0),
            pubs == all_public(points@),
            exact == (pubs || net0.single_party()),
            pts == values_of(points@),
            m == modulus() as int,
            forall|l: int| 0 <= l <= lev ==> (#[trigger] tree[l]).len() == two_pow((e - l) as nat),
            forall|l: int, q: int|
                0 <= l <= lev && 0 <= q < tree[l].len() ==> (#[trigger] tree[l][q]).len()
                    == node_roots(pts, l as nat, q).len() + 1,
            pubs ==> forall|l: int, q: int|
                0 <= l <= lev && 0 <= q < tree[l].len() ==> all_public((#[trigger] tree[l][q])@),
            forall|l: int, q: int|
                0 <= l <= lev && 0 <= q < tree[l].len() ==> monic((#[trigger] tree[l][q])@),
            exact ==> forall|l: int, q: int|
                0 <= l <= lev && 0 <= q < tree[l].len() ==> {
                    let node = #[trigger] tree[l][q];
                    &&& forall|x: int|
                        #[trigger] peval(values_of(node@), x) % m == roots_prod(
                            node_roots(pts, l as nat, q),
                            x,
                        ) % m
                },
        decreases width,
    {
        let top = tree.len() - 1;
        let half = width / 2;
        proof {
            assert(e - lev >= 1) by {
                if e - lev == 0 {
                    assert(two_pow(0) == 1);
                }
            }
            assert(two_pow((e - lev) as nat) == 2 * two_pow((e - lev - 1) as nat));
            assert(half == two_pow((e - lev - 1) as nat));
        }
        let mut next: Vec<Vec<MpcField>> = Vec::new();
        let mut p: usize = 0;
        while p < half
            invariant
                k == points.len(),
                2 * k + 4 <= usize::MAX,
                top == lev,
                tree.len() == lev + 1,
                width == tree[lev as int].len(),
                half * 2 == width,
                p <= half,
                next.len() == p,
                same_net(*net, net0),
                pubs == all_public(points@),
                exact == (pubs || net0.single_party()),
                pts == values_of(points@),
                m == modulus() as int,
                forall|q: int|
                    0 <= q < width ==> (#[trigger] tree[lev as int][q]).len() == node_roots(
                        pts,
                        lev,
                        q,
                    ).len() + 1,
                pubs ==> forall|q: int|
                    0 <= q < width ==> all_public((#[trigger] tree[lev as int][q])@),
                forall|q: int| 0 <= q < width ==> monic((#[trigger] tree[lev as int][q])@),
                exact ==> forall|q: int|
                    0 <= q < width ==> {
                        let node = #[trigger] tree[lev as int][q];
                        &&& forall|x: int|
                            #[trigger] peval(values_of(node@), x) % m == roots_prod(
                                node_roots(pts, lev, q),
                                x,
                            ) % m
                    },
                forall|q: int|
                    0 <= q < p ==> (#[trigger] next[q]).len() == node_roots(pts, lev + 1, q).len()
                        + 1,
                pubs ==> forall|q: int| 0 <= q < p ==> all_public((#[trigger] next[q])@),
                forall|q: int| 0 <= q < p ==> monic((#[trigger] next[q])@),
                exact ==> forall|q: int|
                    0 <= q < p ==> {
                        let node = #[trigger] next[q];
                        &&& forall|x: int|
                            #[trigger] peval(values_of(node@), x) % m == roots_prod(
                                node_roots(pts, lev + 1, q),
                                x,
                            ) % m
                    },
            decreases half - p,
        {
            let ghost lq = 2 * p as int;
            let ghost rq = 2 * p as int + 1;
            proof {
                lemma_node_roots_split(pts, lev, p as int);
                lemma_node_roots_len(pts, lev + 1, p as int);
                assert(tree[lev as int][lq].len() == node_roots(pts, lev, lq).len() + 1);
                assert(tree[lev as int][rq].len() == node_roots(pts, lev, rq).len() + 1);
            }
            let prod = poly_mul(&tree[top][2 * p], &tree[top][2 * p + 1], net);
            proof {
                let left = tree[lev as int][lq];
                let right = tree[lev as int][rq];
                assert(monic(left@) && monic(right@));
                assert(fmul(1, 1) == 1) by {
                    vstd::arithmetic::div_mod::lemma_small_mod(1, modulus());
                }
                if exact {
                    let vl = values_of(left@);
                    let vr = values_of(right@);
                    lemma_pmul_shape(vl, vr);
                    let last = (left.len() + right.len() - 2) as int;
                    assert(vl[vl.len() - 1] == 1);
                    assert(vr[vr.len() - 1] == 1);
                    assert(values_of(prod@)[last] % m == 1int % m);
                    vstd::arithmetic::div_mod::lemma_small_mod(prod[last].value(), modulus());
                    vstd::arithmetic::div_mod::lemma_small_mod(1, modulus());
                    assert forall|x: int| #[trigger] peval(values_of(prod@), x) % m == roots_prod(
                        node_roots(pts, lev + 1, p as int),
                        x,
                    ) % m by {
                        lemma_parent_value(
                            vl,
                            vr,
                            values_of(prod@),
                            node_roots(pts, lev, lq),
                            node_roots(pts, lev, rq),
                            x,
                        );
                    }
                }
            }
            next.push(prod);
            p = p + 1;
        }
        let ghost old_tree = tree@;
        tree.push(next);
        proof {
            lev = lev + 1;
            assert forall|l: int| 0 <= l < lev implies #[trigger] tree[l] == old_tree[l] by {}
            assert(tree[lev as int] == next);
        }
        width = half;
    }
    proof {
        assert(e - lev == 0) by {
            if e - lev > 0 {
                assert(two_pow((e - lev) as nat) == 2 * two_pow((e - lev - 1) as nat));
                crate::bits::lemma_two_pow_positive((e - lev - 1) as nat);
            }
        }
        assert(tree.len() - 1 == lev);
    }
    tree
}

/// The points under a node form a run of at most all the points.
proof fn lemma_node_roots_len(points: Seq<int>, l: nat, q: int)
    requires
        q >= 0,
    ensures
        node_roots(points, l, q).len() <= points.len(),
{
    let t = two_pow(l);
    crate::bits::lemma_two_pow_positive(l);
    assert(q * t <= (q + 1) * t) by (nonlinear_arith)
        requires
            t >= 1,
    ;
    assert(q * t >= 0) by (nonlinear_arith)
        requires
            q >= 0,
            t >= 1,
    ;
}

/// `c` takes the values of `p` at all the roots.
pub open spec fn agrees_on(c: Seq<int>, p: Seq<int>, roots: Seq<int>) -> bool {
    forall|i: int|
        0 <= i < roots.len() ==> peval(c, #[trigger] roots[i]) % (modulus() as int) == peval(
            p,
            roots[i],
        ) % (modulus() as int)
}

/// The values of `p` at the points of a subproduct tree, from the root down:
/// each node's share of the work is the previous remainder reduced modulo
/// the node (a node without points passes it on), and a point's value is
/// what is left at its leaf.
pub(crate) fn multipoint_eval<N: MpcNet>(
    p: &Vec<MpcField>,
    tree: &Vec<Vec<Vec<MpcField>>>,
    Ghost(points): Ghost<Seq<int>>,
    Ghost(tree_exact): Ghost<bool>,
    net: &mut N,
) -> (r: Vec<MpcField>)
    requires
        tree.len() >= 1,
        subproduct_tree(tree@, points, (tree.len() - 1) as nat, tree_exact),
        3 * p.len() <= usize::MAX,
    ensures
        same_net(*final(net), *old(net)),
        r.len() == points.len(),
        all_public(p@) && tree_public(tree@) ==> all_public(r@),
        tree_exact && ((all_public(p@) && tree_public(tree@)) || old(net).single_party()) && (
        tree.len() > 1 || p.len() <= 1) ==> forall|j: int|
            0 <= j < r.len() ==> (#[trigger] r[j]).value() as int == peval(values_of(p@), points[j])
                % (modulus() as int),
        tree.len() == 1 ==> forall|j: int|
            0 <= j < r.len() ==> (if p.len() == 0 {
                (#[trigger] r[j]) is Public && r[j].value() == 0
            } else {
                r[j] == p[0]
            }),
{
    let ghost net0 = *old(net);
    let ghost pubs = all_public(p@) && tree_public(tree@);
    let ghost exact = tree_exact && (pubs || net0.single_party());
    let ghost vp = values_of(p@);
    let ghost top: nat = (tree.len() - 1) as nat;
    let ghost m = modulus() as int;
    let zero = MpcField::Public(Fe::zero());
    let mut cur: Vec<Vec<MpcField>> = Vec::new();
    cur.push(copy_poly(p));
    let mut lvl: usize = tree.len() - 1;
    proof {
        assert(two_pow((top - top) as nat) == 1) by {
            assert((top - top) as nat == 0);
        }
        lemma_node_roots_len(points, top, 0);
        crate::bits::lemma_two_pow_positive(top);
        assert(node_roots(points, top, 0) =~= points);
        assert(values_of(cur[0]@) =~= vp);
    }
    while lvl > 0
        invariant
            tree.len() >= 1,
            subproduct_tree(tree@, points, top, tree_exact),
            top == tree.len() - 1,
            lvl <= top,
            cur.len() == tree[lvl as int].len(),
            zero is Public,
            zero.value() == 0,
            same_net(*net, net0),
            pubs == (all_public(p@) && tree_public(tree@)),
            exact == (tree_exact && (pubs || net0.single_party())),
            vp == values_of(p@),
            m == modulus() as int,
            pubs ==> forall|q: int| 0 <= q < cur.len() ==> all_public((#[trigger] cur[q])@),
            exact ==> forall|q: int|
                0 <= q < cur.len() ==> agrees_on(
                    values_of((#[trigger] cur[q])@),
                    vp,
                    node_roots(points, lvl as nat, q),
                ),
            lvl == top ==> cur.len() == 1 && cur[0]@ == p@,
            3 * p.len() <= usize::MAX,
            forall|q: int| 0 <= q < cur.len() ==> (#[trigger] cur[q]).len() <= p.len(),
            lvl < top ==> forall|q: int|
                0 <= q < cur.len() && tree[lvl as int][q].len() > 1 ==> (#[trigger] cur[q]).len()
                    <= tree[lvl as int][q].len() - 1,
        decreases lvl,
    {
        lvl = lvl - 1;
        let parents = cur.len();
        let ghost child_lvl = lvl as nat;
        proof {
            assert(tree[lvl as int].len() == two_pow((top - lvl) as nat));
            assert(tree[lvl + 1].len() == two_pow((top - lvl - 1) as nat));
            assert(two_pow((top - lvl) as nat) == 2 * two_pow((top - lvl - 1) as nat));
        }
        let mut next: Vec<Vec<MpcField>> = Vec::new();
        let mut pi: usize = 0;
        while pi < parents
            invariant
                tree.len() >= 1,
                subproduct_tree(tree@, points, top, tree_exact),
                top == tree.len() - 1,
                lvl < top,
                child_lvl == lvl,
                parents == cur.len(),
                parents == tree[lvl + 1].len(),
                tree[lvl as int].len() == 2 * parents,
                pi <= parents,
                next.len() == 2 * pi,
                zero is Public,
                zero.value() == 0,
                same_net(*net, net0),
                pubs == (all_public(p@) && tree_public(tree@)),
                exact == (tree_exact && (pubs || net0.single_party())),
                vp == values_of(p@),
                m == modulus() as int,
                pubs ==> forall|q: int| 0 <= q < cur.len() ==> all_public((#[trigger] cur[q])@),
                exact ==> forall|q: int|
                    0 <= q < cur.len() ==> agrees_on(
                        values_of((#[trigger] cur[q])@),
                        vp,
                        node_roots(points, (lvl + 1) as nat, q),
                    ),
                pubs ==> forall|q: int| 0 <= q < next.len() ==> all_public((#[trigger] next[q])@),
                exact ==> forall|q: int|
                    0 <= q < next.len() ==> agrees_on(
                        values_of((#[trigger] next[q])@),
                        vp,
                        node_roots(points, lvl as nat, q),
                    ),
                forall|q: int|
                    0 <= q < next.len() && tree[lvl as int][q].len() > 1 ==> (#[trigger] next[q]).len()
                        <= tree[lvl as int][q].len() - 1,
                3 * p.len() <= usize::MAX,
                forall|q: int| 0 <= q < cur.len() ==> (#[trigger] cur[q]).len() <= p.len(),
                forall|q: int| 0 <= q < next.len() ==> (#[trigger] next[q]).len() <= p.len(),
            decreases parents - pi,
        {
            proof {
                lemma_node_roots_split(points, lvl as nat, pi as int);
                assert((lvl + 1) as nat == lvl as nat + 1);
            }
            let mut c: usize = 0;
            while c < 2
                invariant
                    tree.len() >= 1,
                    subproduct_tree(tree@, points, top, tree_exact),
                    top == tree.len() - 1,
                    lvl < top,
                    parents == cur.len(),
                    parents == tree[lvl + 1].len(),
                    tree[lvl as int].len() == 2 * parents,
                    pi < parents,
                    c <= 2,
                    next.len() == 2 * pi + c,
                    zero is Public,
                    zero.value() == 0,
                    same_net(*net, net0),
                    pubs == (all_public(p@) && tree_public(tree@)),
                    exact == (tree_exact && (pubs || net0.single_party())),
                    vp == values_of(p@),
                    m == modulus() as int,
                    node_roots(points, lvl as nat, 2 * pi as int) + node_roots(
                        points,
                        lvl as nat,
                        2 * pi + 1,
                    ) =~= node_roots(points, (lvl + 1) as nat, pi as int),
                    pubs ==> all_public(cur[pi as int]@),
                    exact ==> agrees_on(
                        values_of(cur[pi as int]@),
                        vp,
                        node_roots(points, (lvl + 1) as nat, pi as int),
                    ),
                    pubs ==> forall|q: int| 0 <= q < next.len() ==> all_public((#[trigger] next[q])@),
                    exact ==> forall|q: int|
                        0 <= q < next.len() ==> agrees_on(
                            values_of((#[trigger] next[q])@),
                            vp,
                            node_roots(points, lvl as nat, q),
                        ),
                    forall|q: int|
                        0 <= q < next.len() && tree[lvl as int][q].len() > 1 ==> (
                        #[trigger] next[q]).len() <= tree[lvl as int][q].len() - 1,
                    3 * p.len() <= usize::MAX,
                    forall|q: int| 0 <= q < cur.len() ==> (#[trigger] cur[q]).len() <= p.len(),
                    forall|q: int| 0 <= q < next.len() ==> (#[trigger] next[q]).len() <= p.len(),
                decreases 2 - c,
            {
                let child = 2 * pi + c;
                let sub = &tree[lvl][child];
                let ghost roots = node_roots(points, lvl as nat, child as int);
                let ghost parent_roots = node_roots(points, (lvl + 1) as nat, pi as int);
                proof {
                    assert(sub.len() == roots.len() + 1);
                    if pubs {
                        assert(all_public(tree[lvl as int][child as int]@));
                    }
                    assert forall|i: int| 0 <= i < roots.len() implies #[trigger] roots[i]
                        == parent_roots[if c == 0 {
                        i
                    } else {
                        node_roots(points, lvl as nat, 2 * pi as int).len() + i
                    }] by {}
                }
                if sub.len() > 1 {
                    proof {
                        assert(monic(tree[lvl as int][child as int]@));
                        assert(cur[pi as int].len() <= p.len());
                    }
                    let (quot, mut rem) = poly_divmod(&cur[pi], sub, net);
                    let keep = sub.len() - 1;
                    let ghost full = rem@;
                    rem.truncate(keep);
                    proof {
                        if exact {
                            assert(sub[sub.len() - 1].value() == 1);
                            let vfull = values_of(full);
                            assert forall|k: int| keep <= k < vfull.len() implies #[trigger] vfull[k]
                                == 0 by {
                                assert(full[k].value() == 0);
                            }
                            if keep <= full.len() {
                                assert(values_of(rem@) =~= vfull.take(keep as int));
                            } else {
                                assert(values_of(rem@) =~= vfull);
                            }
                            assert forall|i: int| 0 <= i < roots.len() implies peval(
                                values_of(rem@),
                                #[trigger] roots[i],
                            ) % m == peval(vp, roots[i]) % m by {
                                let a = roots[i];
                                let j = if c == 0 {
                                    i
                                } else {
                                    node_roots(points, lvl as nat, 2 * pi as int).len() + i
                                };
                                assert(parent_roots[j] == a);
                                assert(peval(values_of(cur[pi as int]@), a) % m == peval(vp, a) % m);
                                assert(peval(values_of(sub@), a) % m == roots_prod(roots, a) % m);
                                lemma_roots_prod_zero(roots, i);
                                let qv = peval(values_of(quot@), a);
                                let sv = peval(values_of(sub@), a);
                                let rv = peval(vfull, a);
                                assert(peval(values_of(cur[pi as int]@), a) % m == (qv * sv + rv) % m);
                                assert(sv % m == 0int % m);
                                lemma_cong_mul(sv, 0, qv, m);
                                assert(sv * qv == qv * sv) by (nonlinear_arith);
                                assert(0 * qv == 0);
                                lemma_cong_add(qv * sv, 0, rv, rv, m);
                                if keep <= full.len() {
                                    lemma_peval_zero_tail(vfull, keep as int, a);
                                } else {
                                    lemma_peval_zero_tail(vfull, vfull.len() as int, a);
                                    assert(vfull.take(vfull.len() as int) =~= vfull);
                                }
                            }
                        }
                    }
                    next.push(rem);
                } else {
                    let copied = copy_poly(&cur[pi]);
                    proof {
                        assert(roots.len() == 0);
                    }
                    next.push(copied);
                }
                c = c + 1;
            }
            pi = pi + 1;
        }
        cur = next;
    }
    proof {
        assert(two_pow((top - 0) as nat) == tree[0].len());
    }
    let leaves = cur.len();
    let mut evals: Vec<MpcField> = Vec::new();
    let mut nd: usize = 0;
    while nd < leaves
        invariant
            tree.len() >= 1,
            subproduct_tree(tree@, points, top, tree_exact),
            top == tree.len() - 1,
            leaves == cur.len(),
            leaves == tree[0].len(),
            nd <= leaves,
            points.len() <= leaves,
            evals.len() == (if nd <= points.len() {
                nd as int
            } else {
                points.len() as int
            }),
            zero is Public,
            zero.value() == 0,
            pubs == (all_public(p@) && tree_public(tree@)),
            exact == (tree_exact && (pubs || net0.single_party())),
            vp == values_of(p@),
            m == modulus() as int,
            pubs ==> forall|q: int| 0 <= q < cur.len() ==> all_public((#[trigger] cur[q])@),
            exact ==> forall|q: int|
                0 <= q < cur.len() ==> agrees_on(
                    values_of((#[trigger] cur[q])@),
                    vp,
                    node_roots(points, 0, q),
                ),
            top == 0 ==> cur.len() == 1 && cur[0]@ == p@,
            top > 0 ==> forall|q: int|
                0 <= q < cur.len() && tree[0][q].len() > 1 ==> (#[trigger] cur[q]).len()
                    <= tree[0][q].len() - 1,
            pubs ==> all_public(evals@),
            exact && (top > 0 || p.len() <= 1) ==> forall|j: int|
                0 <= j < evals.len() ==> (#[trigger] evals[j]).value() as int == peval(vp, points[j])
                    % m,
            top == 0 ==> forall|j: int|
                0 <= j < evals.len() ==> (if p.len() == 0 {
                    (#[trigger] evals[j]) is Public && evals[j].value() == 0
                } else {
                    evals[j] == p[0]
                }),
        decreases leaves - nd,
    {
        proof {
            assert(two_pow(0) == 1);
            assert(tree[0][nd as int].len() == node_roots(points, 0, nd as int).len() + 1);
            if nd < points.len() {
                assert(node_roots(points, 0, nd as int) =~= seq![points[nd as int]]);
            } else {
                assert(node_roots(points, 0, nd as int) =~= Seq::<int>::empty());
            }
        }
        if tree[0][nd].len() > 1 {
            let v = if cur[nd].len() == 0 {
                zero
            } else {
                cur[nd][0]
            };
            proof {
                let a = points[nd as int];
                if pubs {
                    assert(all_public(cur[nd as int]@));
                    if cur[nd as int].len() > 0 {
                        assert(cur[nd as int]@[0] is Public);
                    }
                }
                if top == 0 {
                    assert(cur[0]@ == p@);
                }
                if exact && (top > 0 || p.len() <= 1) {
                    let roots = node_roots(points, 0, nd as int);
                    assert(roots[0] == a);
                    assert(agrees_on(values_of(cur[nd as int]@), vp, roots));
                    assert(peval(values_of(cur[nd as int]@), roots[0]) % m == peval(vp, roots[0]) % m);
                    let cv = values_of(cur[nd as int]@);
                    if cur[nd as int].len() == 0 {
                        assert(peval(cv, a) == 0);
                        vstd::arithmetic::div_mod::lemma_small_mod(0, modulus());
                    } else {
                        assert(cv.drop_first() =~= Seq::<int>::empty());
                        assert(peval(cv.drop_first(), a) == 0);
                        assert(a * 0 == 0);
                        assert(peval(cv, a) == cv[0]);
                        vstd::arithmetic::div_mod::lemma_small_mod(v.value(), modulus());
                    }
                }
            }
            evals.push(v);
        }
        nd = nd + 1;
    }
    evals
}

/// Coefficient i times a^i: the polynomial x -> p(a x).
pub open spec fn pshift_scale(c: Seq<int>, a: int) -> Seq<int> {
    Seq::new(c.len(), |i: int| c[i] * ipow(a, i as nat))
}

/// Scaling coefficient i by a^i evaluates the polynomial at a x: the
/// coefficients of f(aX) are those of f scaled by powers of a.
pub proof fn lemma_shift_scale_evaluates(c: Seq<int>, a: int, x: int)
    ensures
        peval(pshift_scale(c, a), x) == peval(c, a * x),
    decreases c.len(),
{
    if c.len() > 0 {
        let rest = c.drop_first();
        lemma_shift_scale_evaluates(rest, a, x);
        let sr = pshift_scale(rest, a);
        let s = pshift_scale(c, a);
        assert(s[0] == c[0] * ipow(a, 0));
        assert(ipow(a, 0) == 1);
        assert(s.drop_first() =~= pscale(a, sr)) by {
            assert forall|i: int| 0 <= i < sr.len() implies #[trigger] s.drop_first()[i] == pscale(
                a,
                sr,
            )[i] by {
                assert(s.drop_first()[i] == c[i + 1] * ipow(a, (i + 1) as nat));
                assert(ipow(a, (i + 1) as nat) == a * ipow(a, i as nat));
                assert(c[i + 1] * (a * ipow(a, i as nat)) == a * (rest[i] * ipow(a, i as nat)))
                    by (nonlinear_arith)
                    requires
                        rest[i] == c[i + 1],
                ;
            }
        }
        lemma_peval_pscale(a, sr, x);
        let e = peval(rest, a * x);
        assert(x * (a * e) == (a * x) * e) by (nonlinear_arith);
    }
}

/// f(aX): coefficient i multiplied by a^i.
pub fn shift_polynomial<N: MpcNet>(f: Vec<MpcField>, a: MpcField, net: &mut N) -> (r: Vec<
    MpcField,
>)
    ensures
        same_net(*final(net), *old(net)),
        r.len() == f.len(),
        all_public(f@) && a is Public ==> all_public(r@),
        (all_public(f@) && a is Public) || old(net).single_party() ==> pcong(
            values_of(r@),
            pshift_scale(values_of(f@), a.value() as int),
        ),
{
    let ghost net0 = *old(net);
    let ghost exact = (all_public(f@) && a is Public) || net0.single_party();
    let ghost m = modulus() as int;
    let ghost av = a.value() as int;
    let mut out: Vec<MpcField> = Vec::new();
    let mut power = MpcField::Public(Fe::one());
    let mut i: usize = 0;
    proof {
        vstd::arithmetic::div_mod::lemma_small_mod(1, modulus());
    }
    while i < f.len()
        invariant
            i <= f.len(),
            out.len() == i,
            same_net(*net, net0),
            exact == ((all_public(f@) && a is Public) || net0.single_party()),
            av == a.value() as int,
            m == modulus() as int,
            all_public(f@) && a is Public ==> all_public(out@) && power is Public,
            exact ==> power.value() as int % m == ipow(av, i as nat) % m,
            exact ==> forall|k: int|
                0 <= k < i ==> (#[trigger] out[k]).value() as int % m == pshift_scale(
                    values_of(f@),
                    av,
                )[k] % m,
        decreases f.len() - i,
    {
        proof {
            if all_public(f@) && a is Public {
                assert(f[i as int] is Public);
            }
        }
        let c = f[i].mul(&power, net);
        let next_power = power.mul(&a, net);
        proof {
            if exact {
                let fv = f[i as int].value() as int;
                let pv = power.value() as int;
                let ip = ipow(av, i as nat);
                vstd::arithmetic::div_mod::lemma_small_mod(c.value(), modulus());
                vstd::arithmetic::div_mod::lemma_small_mod(next_power.value(), modulus());
                vstd::arithmetic::div_mod::lemma_mul_mod_noop_right(fv, pv, m);
                vstd::arithmetic::div_mod::lemma_mul_mod_noop_right(fv, ip, m);
                vstd::arithmetic::div_mod::lemma_mul_mod_noop_left(pv, av, m);
                vstd::arithmetic::div_mod::lemma_mul_mod_noop_left(ip, av, m);
                assert(ipow(av, (i + 1) as nat) == av * ip);
                assert(ip * av == av * ip) by (nonlinear_arith);
                assert(pshift_scale(values_of(f@), av)[i as int] == fv * ip);
            }
        }
        out.push(c);
        power = next_power;
        i = i + 1;
    }
    proof {
        if exact {
            assert forall|k: int| 0 <= k < out.len() implies #[trigger] values_of(out@)[k] % m
                == pshift_scale(values_of(f@), av)[k] % m by {
                assert(values_of(out@)[k] == out[k].value() as int);
            }
        }
    }
    out
}

} // verus!
