//! The grand product returns to one.
//!
//! On the usable rows the grand product multiplies the ratios
//! (a + β)(s + γ) / (a' + β)(s' + γ). Where the permuted columns only
//! rearrange the columns, the products of the numerators and of the
//! denominators agree, so the ratios cancel and the product is one again
//! after the last usable row.
use vstd::prelude::*;
use vstd::arithmetic::div_mod::{lemma_mul_mod_noop_general, lemma_small_mod};
use crate::field::{fadd, finv, fmul, is_inverse, modulus};
use crate::prover::{grand_product, row_factor, step_denominator};

verus! {

/// The field product f(0) f(1) ... f(t - 1).
pub open spec fn fprod(f: spec_fn(int) -> nat, t: nat) -> nat
    decreases t,
{
    if t == 0 {
        1
    } else {
        fmul(fprod(f, (t - 1) as nat), f(t - 1))
    }
}

/// The field product of (x + c) over the entries x of a column.
pub open spec fn column_product(x: Seq<int>, c: int) -> nat
    decreases x.len(),
{
    if x.len() == 0 {
        1
    } else {
        fmul(column_product(x.drop_last(), c), fadd(x.last() as nat, c as nat))
    }
}

proof fn lemma_fmul_comm(a: nat, b: nat)
    ensures
        fmul(a, b) == fmul(b, a),
{
    assert(a * b == b * a) by (nonlinear_arith);
}

/// (a b)(c d) = (a c)(b d) in the field.
proof fn lemma_fmul_swap(a: nat, b: nat, c: nat, d: nat)
    ensures
        fmul(fmul(a, b), fmul(c, d)) == fmul(fmul(a, c), fmul(b, d)),
{
    let m = modulus() as int;
    lemma_mul_mod_noop_general((a * b) as int, (c * d) as int, m);
    lemma_mul_mod_noop_general((a * c) as int, (b * d) as int, m);
    assert((a * b) * (c * d) == (a * c) * (b * d)) by (nonlinear_arith);
}

/// (x y) z = (x z) y in the field.
proof fn lemma_fmul_rotate(x: nat, y: nat, z: nat)
    ensures
        fmul(fmul(x, y), z) == fmul(fmul(x, z), y),
{
    let m = modulus() as int;
    lemma_mul_mod_noop_general((x * y) as int, z as int, m);
    lemma_mul_mod_noop_general((x * z) as int, y as int, m);
    assert((x * y) * z == (x * z) * y) by (nonlinear_arith);
}

/// Products of termwise products split.
proof fn lemma_fprod_mul(f: spec_fn(int) -> nat, g: spec_fn(int) -> nat, h: spec_fn(int) -> nat, t: nat)
    requires
        forall|k: int| 0 <= k < t ==> #[trigger] h(k) == fmul(f(k), g(k)),
    ensures
        fprod(h, t) == fmul(fprod(f, t), fprod(g, t)),
    decreases t,
{
    if t == 0 {
        assert(fmul(1, 1) == 1) by {
            lemma_small_mod(1, modulus());
        }
    } else {
        let t1 = (t - 1) as nat;
        lemma_fprod_mul(f, g, h, t1);
        assert(h(t - 1) == fmul(f(t - 1), g(t - 1)));
        lemma_fmul_swap(fprod(f, t1), fprod(g, t1), f(t - 1), g(t - 1));
    }
}

/// A product of ones is one.
proof fn lemma_fprod_ones(f: spec_fn(int) -> nat, t: nat)
    requires
        forall|k: int| 0 <= k < t ==> #[trigger] f(k) == 1,
    ensures
        fprod(f, t) == 1,
    decreases t,
{
    if t > 0 {
        lemma_fprod_ones(f, (t - 1) as nat);
        assert(f(t - 1) == 1);
        lemma_small_mod(1, modulus());
    }
}

/// Products over factors that agree are equal.
proof fn lemma_fprod_ext(f: spec_fn(int) -> nat, g: spec_fn(int) -> nat, t: nat)
    requires
        forall|k: int| 0 <= k < t ==> #[trigger] f(k) == g(k),
    ensures
        fprod(f, t) == fprod(g, t),
    decreases t,
{
    if t > 0 {
        lemma_fprod_ext(f, g, (t - 1) as nat);
        assert(f(t - 1) == g(t - 1));
    }
}

/// The column product of the first t entries as a product of factors.
proof fn lemma_column_product_prefix(x: Seq<int>, c: int, f: spec_fn(int) -> nat, t: nat)
    requires
        t <= x.len(),
        forall|k: int| 0 <= k < t ==> #[trigger] f(k) == fadd(x[k] as nat, c as nat),
    ensures
        fprod(f, t) == column_product(x.subrange(0, t as int), c),
    decreases t,
{
    if t > 0 {
        lemma_column_product_prefix(x, c, f, (t - 1) as nat);
        assert(f(t - 1) == fadd(x[t - 1] as nat, c as nat));
        assert(x.subrange(0, t as int).drop_last() =~= x.subrange(0, t - 1));
    } else {
        assert(x.subrange(0, 0) =~= Seq::<int>::empty());
    }
}

/// Taking one entry out of a column divides its product by that entry's
/// factor.
proof fn lemma_column_product_remove(y: Seq<int>, c: int, j: int)
    requires
        0 <= j < y.len(),
    ensures
        column_product(y, c) == fmul(column_product(y.remove(j), c), fadd(y[j] as nat, c as nat)),
    decreases y.len(),
{
    if j == y.len() - 1 {
        assert(y.remove(j) =~= y.drop_last());
    } else {
        let y1 = y.drop_last();
        lemma_column_product_remove(y1, c, j);
        assert(y.remove(j).drop_last() =~= y1.remove(j));
        assert(y.remove(j).last() == y.last());
        assert(y1[j] == y[j]);
        lemma_fmul_rotate(
            column_product(y1.remove(j), c),
            fadd(y[j] as nat, c as nat),
            fadd(y.last() as nat, c as nat),
        );
    }
}

/// Column products do not depend on the order of the entries.
pub proof fn lemma_column_product_rearranged(x: Seq<int>, y: Seq<int>, c: int)
    requires
        x.to_multiset() == y.to_multiset(),
    ensures
        column_product(x, c) == column_product(y, c),
    decreases x.len(),
{
    broadcast use vstd::seq_lib::group_to_multiset_ensures;
    broadcast use vstd::multiset::group_multiset_axioms;

    if x.len() == 0 {
        assert(y.to_multiset().len() == 0);
        assert(y.len() == 0);
        assert(y =~= Seq::<int>::empty());
    } else {
        let v = x.last();
        let x1 = x.drop_last();
        assert(x1.push(v) =~= x);
        assert(x.to_multiset() =~= x1.to_multiset().insert(v));
        assert(y.to_multiset().count(v) > 0);
        assert(y.contains(v));
        let j = choose|j: int| 0 <= j < y.len() && y[j] == v;
        assert(y.remove(j).to_multiset() =~= y.to_multiset().remove(v));
        assert(x1.to_multiset() =~= x1.to_multiset().insert(v).remove(v));
        lemma_column_product_rearranged(x1, y.remove(j), c);
        lemma_column_product_remove(y, c, j);
    }
}

/// The ratio of row k of the grand product on a usable row.
pub open spec fn usable_ratio(
    a: Seq<int>,
    s: Seq<int>,
    ap: Seq<int>,
    sp: Seq<int>,
    beta: int,
    gamma: int,
    usable: nat,
) -> spec_fn(int) -> nat {
    |k: int|
        fmul(
            row_factor(a[k], s[k], beta, gamma),
            finv(step_denominator(a, s, ap, sp, beta, gamma, usable, k)),
        )
}

/// Up to the last usable row the grand product is the product of the ratios.
proof fn lemma_grand_product_ratios(
    a: Seq<int>,
    s: Seq<int>,
    ap: Seq<int>,
    sp: Seq<int>,
    beta: int,
    gamma: int,
    usable: nat,
    t: nat,
)
    requires
        t <= usable,
    ensures
        grand_product(a, s, ap, sp, beta, gamma, usable, t) == fprod(
            usable_ratio(a, s, ap, sp, beta, gamma, usable),
            t,
        ),
    decreases t,
{
    if t > 0 {
        lemma_grand_product_ratios(a, s, ap, sp, beta, gamma, usable, (t - 1) as nat);
    }
}

/// The grand product returns to one: where, on the usable rows, the permuted
/// query column rearranges the query column, the permuted table column
/// rearranges the table column, and every denominator has its inverse, the
/// grand product is one again at the row after them.
pub proof fn lemma_grand_product_returns_to_one(
    a: Seq<int>,
    s: Seq<int>,
    ap: Seq<int>,
    sp: Seq<int>,
    beta: int,
    gamma: int,
    usable: nat,
)
    requires
        usable <= a.len(),
        usable <= s.len(),
        usable <= ap.len(),
        usable <= sp.len(),
        a.subrange(0, usable as int).to_multiset() == ap.subrange(0, usable as int).to_multiset(),
        s.subrange(0, usable as int).to_multiset() == sp.subrange(0, usable as int).to_multiset(),
        forall|k: int|
            0 <= k < usable ==> #[trigger] is_inverse(
                step_denominator(a, s, ap, sp, beta, gamma, usable, k),
                finv(step_denominator(a, s, ap, sp, beta, gamma, usable, k)),
            ),
    ensures
        grand_product(a, s, ap, sp, beta, gamma, usable, usable) == 1,
{
    let u = usable;
    let fa = |k: int| fadd(a[k] as nat, beta as nat);
    let fs = |k: int| fadd(s[k] as nat, gamma as nat);
    let fap = |k: int| fadd(ap[k] as nat, beta as nat);
    let fsp = |k: int| fadd(sp[k] as nat, gamma as nat);
    let plain = |k: int| row_factor(a[k], s[k], beta, gamma);
    let den = |k: int| step_denominator(a, s, ap, sp, beta, gamma, usable, k);
    let inv = |k: int| finv(step_denominator(a, s, ap, sp, beta, gamma, usable, k));
    let ratio = usable_ratio(a, s, ap, sp, beta, gamma, usable);
    let unit = |k: int| fmul(den(k), inv(k));
    lemma_grand_product_ratios(a, s, ap, sp, beta, gamma, usable, u);
    lemma_fprod_mul(plain, inv, ratio, u);
    lemma_fprod_mul(fa, fs, plain, u);
    assert forall|k: int| 0 <= k < u implies #[trigger] den(k) == fmul(fap(k), fsp(k)) by {}
    lemma_fprod_mul(fap, fsp, den, u);
    lemma_column_product_prefix(a, beta, fa, u);
    lemma_column_product_prefix(ap, beta, fap, u);
    lemma_column_product_prefix(s, gamma, fs, u);
    lemma_column_product_prefix(sp, gamma, fsp, u);
    lemma_column_product_rearranged(a.subrange(0, u as int), ap.subrange(0, u as int), beta);
    lemma_column_product_rearranged(s.subrange(0, u as int), sp.subrange(0, u as int), gamma);
    assert forall|k: int| 0 <= k < u implies #[trigger] unit(k) == 1 by {
        assert(is_inverse(den(k), inv(k)));
    }
    lemma_fprod_ones(unit, u);
    lemma_fprod_mul(den, inv, unit, u);
}

/// After the usable rows the grand product stays where it was: on rows
/// where the permuted columns repeat the columns (as the zero padding does)
/// and the denominators have their inverses, each ratio is one.
pub proof fn lemma_grand_product_stays(
    a: Seq<int>,
    s: Seq<int>,
    ap: Seq<int>,
    sp: Seq<int>,
    beta: int,
    gamma: int,
    usable: nat,
    i: nat,
)
    requires
        usable <= i,
        forall|k: int| usable <= k < i ==> #[trigger] ap[k] == a[k] && sp[k] == s[k],
        forall|k: int|
            usable <= k < i ==> #[trigger] is_inverse(
                step_denominator(a, s, ap, sp, beta, gamma, usable, k),
                finv(step_denominator(a, s, ap, sp, beta, gamma, usable, k)),
            ),
    ensures
        grand_product(a, s, ap, sp, beta, gamma, usable, i) == grand_product(
            a,
            s,
            ap,
            sp,
            beta,
            gamma,
            usable,
            usable,
        ),
    decreases i - usable,
{
    if i > usable {
        let k = (i - 1) as nat;
        lemma_grand_product_stays(a, s, ap, sp, beta, gamma, usable, k);
        let g = grand_product(a, s, ap, sp, beta, gamma, usable, k);
        let d = step_denominator(a, s, ap, sp, beta, gamma, usable, k as int);
        assert(is_inverse(d, finv(d)));
        assert(row_factor(ap[k as int], sp[k as int], beta, gamma) == d);
        assert(fmul(d, finv(d)) == 1);
        assert(g < modulus()) by {
            if k > 0 {
                assert(g == fmul(
                    grand_product(a, s, ap, sp, beta, gamma, usable, (k - 1) as nat),
                    fmul(
                        if ((k - 1) as nat) < usable {
                            row_factor(a[k - 1], s[k - 1], beta, gamma)
                        } else {
                            row_factor(ap[k - 1], sp[k - 1], beta, gamma)
                        },
                        finv(
                            if ((k - 1) as nat) < usable {
                                row_factor(ap[k - 1], sp[k - 1], beta, gamma)
                            } else {
                                row_factor(a[k - 1], s[k - 1], beta, gamma)
                            },
                        ),
                    ),
                ));
            } else {
                crate::field::lemma_modulus_bound();
                assert(modulus() > 1);
            }
        }
        assert(grand_product(a, s, ap, sp, beta, gamma, usable, i) == fmul(g, 1));
        lemma_small_mod(g, modulus());
    }
}

} // verus!
