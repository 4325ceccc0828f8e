//! Fermat's little theorem in a field without zero divisors.
//!
//! Multiplying 1, 2, ..., p - 1 by a nonzero a permutes them (a x = a y
//! forces x = y, and a x is never zero), so the two products agree:
//! a^(p-1) (p-1)! = (p-1)!, and (p-1)! is not zero, so a^(p-1) = 1.
use vstd::prelude::*;
use vstd::arithmetic::div_mod::{lemma_mul_mod_noop_general, lemma_small_mod, lemma_sub_mod_noop};
use crate::field::{fadd, fmul, fpow, fsub, modulus};
use crate::routing::no_zero_divisors;
use crate::telescope::{column_product, lemma_column_product_rearranged};

verus! {

/// 1, 2, ..., k.
spec fn units(k: nat) -> Seq<int> {
    Seq::new(k, |i: int| i + 1)
}

/// a 1, a 2, ..., a k in the field.
spec fn scaled_units(a: nat, k: nat) -> Seq<int> {
    Seq::new(k, |i: int| (a * (i + 1)) % (modulus() as int))
}

/// (x y)(z w) and (x z)(y w) agree in the field.
proof fn lemma_fmul_regroup(x: nat, y: nat, z: nat, w: nat)
    ensures
        fmul(fmul(x, y), fmul(z, w)) == fmul(fmul(x, z), fmul(y, w)),
{
    let p = modulus() as int;
    lemma_mul_mod_noop_general((x * y) as int, (z * w) as int, p);
    lemma_mul_mod_noop_general((x * z) as int, (y * w) as int, p);
    assert((x * y) * (z * w) == (x * z) * (y * w)) by (nonlinear_arith);
}

/// Scaling 1..k by a multiplies their product by a^k.
proof fn lemma_scaled_product(a: nat, k: nat)
    ensures
        column_product(scaled_units(a, k), 0) == fmul(fpow(a, k), column_product(units(k), 0)),
    decreases k,
{
    let p = modulus();
    if k == 0 {
        lemma_small_mod(1, p);
        assert(column_product(scaled_units(a, 0), 0) == 1);
        assert(column_product(units(0), 0) == 1);
        assert(fmul(1, 1) == 1);
    } else {
        let j = (k - 1) as nat;
        lemma_scaled_product(a, j);
        assert(scaled_units(a, k).drop_last() =~= scaled_units(a, j));
        assert(units(k).drop_last() =~= units(j));
        let s = column_product(scaled_units(a, j), 0);
        let u = column_product(units(j), 0);
        let f = fpow(a, j);
        let last_s = ((a * k) % p) as nat;
        assert(scaled_units(a, k).last() == last_s);
        assert(units(k).last() == k);
        lemma_small_mod(last_s, p);
        assert(fadd(last_s, 0) == last_s);
        assert(column_product(scaled_units(a, k), 0) == fmul(s, last_s));
        assert(column_product(units(k), 0) == fmul(u, fadd(k, 0)));
        assert(fpow(a, k) == fmul(f, a));
        // s (a k) = (f u)(a k) = (f a)(u k)
        assert(fmul(s, last_s) == fmul(fmul(f, u), fmul(a, k)));
        lemma_fmul_regroup(f, u, a, k);
        assert(fmul(u, fadd(k, 0)) == fmul(u, k)) by {
            lemma_mul_mod_noop_general(u as int, k as int, p as int);
        }
    }
}

/// The product of 1..k (k below the modulus) is not zero.
proof fn lemma_units_product_nonzero(k: nat)
    requires
        no_zero_divisors(),
        k < modulus(),
    ensures
        0 < column_product(units(k), 0) < modulus(),
    decreases k,
{
    let p = modulus();
    if k == 0 {
        assert(column_product(units(0), 0) == 1);
    } else {
        let j = (k - 1) as nat;
        lemma_units_product_nonzero(j);
        assert(units(k).drop_last() =~= units(j));
        assert(units(k).last() == k);
        lemma_small_mod(k, p);
        let u = column_product(units(j), 0);
        assert(column_product(units(k), 0) == fmul(u, k));
        assert(((u * k) as int % (p as int)) != 0);
    }
}

/// For nonzero a, the field values a 1, ..., a (p - 1) are 1, ..., p - 1
/// in some order.
proof fn lemma_scaling_permutes(a: nat)
    requires
        no_zero_divisors(),
        0 < a < modulus(),
    ensures
        scaled_units(a, (modulus() - 1) as nat).to_multiset() == units(
            (modulus() - 1) as nat,
        ).to_multiset(),
{
    broadcast use vstd::seq_lib::group_to_multiset_ensures;

    let p = modulus() as int;
    let n = (modulus() - 1) as nat;
    let xs = units(n);
    let ys = scaled_units(a, n);
    assert forall|i: int| 0 <= i < n implies 0 < #[trigger] ys[i] < p by {
        assert(0 < i + 1 < p);
        assert(((a * (i + 1)) % p) != 0);
    }
    assert(xs.no_duplicates());
    assert(ys.no_duplicates()) by {
        assert forall|i: int, j: int| 0 <= i < n && 0 <= j < n && i != j implies ys[i] != ys[j] by {
            if ys[i] == ys[j] {
                let (lo, hi) = if i < j {
                    (i, j)
                } else {
                    (j, i)
                };
                assert(ys[lo] == ys[hi]);
                lemma_sub_mod_noop(a * (hi + 1), a * (lo + 1), p);
                assert((a * (hi + 1) - a * (lo + 1)) % p == 0) by {
                    assert(((a * (hi + 1)) % p - (a * (lo + 1)) % p) == 0);
                    lemma_small_mod(0, p as nat);
                }
                assert(a * (hi + 1) - a * (lo + 1) == a * (hi - lo)) by (nonlinear_arith);
                assert(0 < hi - lo < p);
                assert((a * (hi - lo)) % p != 0);
            }
        }
    }
    assert(ys.to_set().subset_of(xs.to_set())) by {
        assert forall|v: int| ys.to_set().contains(v) implies xs.to_set().contains(v) by {
            let i = choose|i: int| 0 <= i < ys.len() && ys[i] == v;
            assert(0 < v < p);
            assert(xs[v - 1] == v);
        }
    }
    xs.unique_seq_to_set();
    ys.unique_seq_to_set();
    vstd::set_lib::lemma_subset_equality(ys.to_set(), xs.to_set());
    xs.lemma_multiset_has_no_duplicates();
    ys.lemma_multiset_has_no_duplicates();
    assert forall|v: int| #[trigger] ys.to_multiset().count(v) == xs.to_multiset().count(v) by {
        if ys.to_multiset().contains(v) {
            assert(ys.to_set().contains(v));
            assert(xs.to_set().contains(v));
            assert(xs.to_multiset().contains(v));
        } else if xs.to_multiset().contains(v) {
            assert(xs.to_set().contains(v));
            assert(ys.to_set().contains(v));
            assert(ys.to_multiset().contains(v));
        }
    }
    assert(ys.to_multiset() =~= xs.to_multiset());
}

/// Fermat's little theorem: in a field without zero divisors,
/// a^(p-1) = 1 for every nonzero a.
pub proof fn lemma_fermat(a: nat)
    requires
        no_zero_divisors(),
        0 < a < modulus(),
    ensures
        fpow(a, (modulus() - 1) as nat) == 1,
{
    let p = modulus() as int;
    let n = (modulus() - 1) as nat;
    lemma_scaling_permutes(a);
    lemma_column_product_rearranged(scaled_units(a, n), units(n), 0);
    lemma_scaled_product(a, n);
    lemma_units_product_nonzero(n);
    let u = column_product(units(n), 0);
    let f = fpow(a, n);
    assert(fmul(f, u) == u);
    assert(f < p) by {
        assert(f == fmul(fpow(a, (n - 1) as nat), a));
    }
    if f != 1 {
        if f == 0 {
            assert(fmul(0, u) == 0);
        } else {
            assert(0 < f - 1 < p);
            lemma_small_mod(u, modulus());
            lemma_sub_mod_noop((f * u) as int, u as int, p);
            assert((f * u - u) % p == 0) by {
                lemma_small_mod(0, modulus());
            }
            assert(f * u - u == (f - 1) * u) by (nonlinear_arith);
            assert((((f - 1) as int) * u) % p != 0);
        }
    }
}

/// The inequality indicator by Fermat: (x - y) (x - y)^(p-2) is zero where
/// x = y and one elsewhere.
pub proof fn lemma_fermat_indicator(x: nat, y: nat)
    requires
        no_zero_divisors(),
        x < modulus(),
        y < modulus(),
    ensures
        fmul(fsub(x, y), fpow(fsub(x, y), (modulus() - 2) as nat)) == (if x == y {
            0nat
        } else {
            1nat
        }),
{
    let p = modulus() as int;
    let d = fsub(x, y);
    let e = (modulus() - 2) as nat;
    if x == y {
        lemma_small_mod(0, modulus());
        assert(d == 0);
        assert(fmul(0, fpow(0, e)) == 0);
    } else {
        assert(0 < d < p) by {
            if x > y {
                lemma_small_mod((x - y) as nat, modulus());
            } else {
                vstd::arithmetic::div_mod::lemma_fundamental_div_mod_converse(x - y, p, -1, x - y + p);
            }
        }
        lemma_fermat(d);
        assert(fpow(d, (e + 1) as nat) == fmul(fpow(d, e), d));
        assert(fpow(d, e) * d == d * fpow(d, e)) by (nonlinear_arith);
        assert((e + 1) as nat == (modulus() - 1) as nat);
    }
}

} // verus!
