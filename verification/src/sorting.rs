//! Oblivious sorting of field values by a bitonic network.
//!
//! The network for `n` (a power of two) runs stages k = 2, 4, ..., n and in
//! stage k the levels j = k/2, ..., 1. At level (k, j) position x meets
//! position x ^ j; the lower of the two, `lo`, orders the pair ascending when
//! `lo & k == 0` and descending otherwise. All pairs of a level are compared
//! on the values that the level starts from.
//!
//! The result of each sort is stated as the network applied to the values
//! (`network_from`), for public inputs and for a party that runs alone; the
//! network only ever swaps, so the result is an arrangement of the input
//! (`lemma_network_arranges`), and it leaves the keys in ascending order
//! (`network_order::lemma_network_sorts`).
use vstd::prelude::*;
use crate::bit_ops::{BooleanOps, DummyBooleanBeaverSource, bits_val, lemma_xor_new_xor, same_net, xor_all};
use crate::compare_run::{
    column_secrets, dummy_sources, less_run_opens, less_share, lemma_dummy_triples_valid,
    lemma_less_shares, lemma_xor_first_only, lemma_xor_none, run_parties,
};
use crate::adder::triples_valid;
use crate::mpc_field::{bit_views, less_runs};
use crate::edabits::bit_value;
use crate::field::{Fe, fadd, fmul, fsub, lemma_val_lt_modulus, modulus};
use crate::mpc_field::MpcField;
use crate::net::MpcNet;
use crate::network_order::lemma_network_sorts;
use crate::types::two_pow;

verus! {

broadcast use lemma_val_lt_modulus;

/// Whether a compare-exchange swaps the key `a` at the lower position with
/// the key `b` at the upper one: an ascending pair swaps unless a < b, a
/// descending pair swaps exactly when a < b.
pub open spec fn exchange_swaps(a: int, b: int, ascending: bool) -> bool {
    if ascending {
        !(a < b)
    } else {
        a < b
    }
}

/// The position that meets `x` at distance `j`: x XOR j.
pub open spec fn partner(x: int, j: nat) -> int {
    ((x as usize) ^ (j as usize)) as int
}

/// One level (k, j) of the network on `s`, ordering by `key`.
pub open spec fn network_level<A>(s: Seq<A>, key: spec_fn(A) -> int, k: nat, j: nat) -> Seq<A> {
    Seq::new(
        s.len(),
        |x: int|
            {
                let y = partner(x, j);
                let lo = if x < y {
                    x
                } else {
                    y
                };
                let hi = if x < y {
                    y
                } else {
                    x
                };
                if exchange_swaps(key(s[lo]), key(s[hi]), ((lo as usize) & (k as usize)) == 0) {
                    if x == lo {
                        s[hi]
                    } else {
                        s[lo]
                    }
                } else {
                    s[x]
                }
            },
    )
}

/// The levels j, j/2, ..., 1 of stage k.
pub open spec fn network_stage<A>(s: Seq<A>, key: spec_fn(A) -> int, k: nat, j: nat) -> Seq<A>
    decreases j,
{
    if j == 0 {
        s
    } else {
        network_stage(network_level(s, key, k, j), key, k, j / 2)
    }
}

/// The stages k, 2k, ... up to n of the network on `s`.
pub open spec fn network_from<A>(s: Seq<A>, key: spec_fn(A) -> int, k: nat, n: nat) -> Seq<A>
    decreases (if 1 <= k <= n {
        n - k + 1
    } else {
        0
    }),
{
    if k == 0 || k > n {
        s
    } else {
        network_from(network_stage(s, key, k, k / 2), key, 2 * k, n)
    }
}

/// The bitonic network on `s`: its sort of `s` by `key`.
pub open spec fn bitonic_network<A>(s: Seq<A>, key: spec_fn(A) -> int) -> Seq<A> {
    network_from(s, key, 2, s.len())
}

/// Ordering by the value itself.
pub open spec fn by_value() -> spec_fn(int) -> int {
    |v: int| v
}

/// Ordering rows by their first entry.
pub open spec fn by_first() -> spec_fn((int, int, int)) -> int {
    |t: (int, int, int)| t.0
}

/// The values of a vector of field elements.
pub open spec fn values_of(s: Seq<MpcField>) -> Seq<int> {
    Seq::new(s.len(), |i: int| s[i].value() as int)
}

/// The values of a vector of rows of field elements.
pub open spec fn rows_of(s: Seq<(MpcField, MpcField, MpcField)>) -> Seq<(int, int, int)> {
    Seq::new(
        s.len(),
        |i: int| (s[i].0.value() as int, s[i].1.value() as int, s[i].2.value() as int),
    )
}

/// Every element is public.
pub open spec fn all_public(s: Seq<MpcField>) -> bool {
    forall|i: int| 0 <= i < s.len() ==> #[trigger] s[i] is Public
}

/// Every entry of every row is public.
pub open spec fn rows_public(s: Seq<(MpcField, MpcField, MpcField)>) -> bool {
    forall|i: int|
        0 <= i < s.len() ==> (#[trigger] s[i]).0 is Public && s[i].1 is Public && s[i].2 is Public
}

/// `n` is a power of two and at least 2: what the network needs.
pub open spec fn valid_network_size(n: usize) -> bool {
    n >= 2 && n & ((n - 1) as usize) == 0
}

proof fn lemma_xor_involution(a: usize, j: usize)
    ensures
        (a ^ j) ^ j == a,
{
    assert((a ^ j) ^ j == a) by (bit_vector);
}

proof fn lemma_xor_moves(a: usize, j: usize)
    requires
        j != 0,
    ensures
        a ^ j != a,
{
    assert(j != 0 ==> a ^ j != a) by (bit_vector);
}

proof fn lemma_xor_below_pow2(a: usize, j: usize, n: usize)
    requires
        n >= 1,
        n & ((n - 1) as usize) == 0,
        a < n,
        j < n,
    ensures
        a ^ j < n,
{
    assert(n >= 1 && n & ((n - 1) as usize) == 0 && a < n && j < n ==> a ^ j < n) by (bit_vector);
}

/// The pairs of level (k, j): for each lower position i (i < i ^ j), the
/// triple (i, i ^ j, ascending), in increasing i; and for every position the
/// index of its pair.
fn level_pairs(n: usize, k: usize, j: usize) -> (r: (Vec<(usize, usize, bool)>, Vec<usize>))
    requires
        valid_network_size(n),
        1 <= j < n,
    ensures
        forall|p: int|
            0 <= p < r.0.len() ==> {
                let t = #[trigger] r.0[p];
                &&& t.0 < t.1 < n
                &&& t.1 == t.0 ^ j
                &&& t.2 == ((t.0 & k) == 0)
            },
        r.1.len() == n,
        forall|x: int|
            0 <= x < n ==> (#[trigger] r.1[x]) < r.0.len() && (r.0[r.1[x] as int].0 == x
                || r.0[r.1[x] as int].1 == x),
{
    let mut pairs: Vec<(usize, usize, bool)> = Vec::new();
    let mut slot: Vec<usize> = Vec::new();
    let mut i: usize = 0;
    while i < n
        invariant
            i <= n,
            slot.len() == i,
            forall|x: int| 0 <= x < i ==> #[trigger] slot[x] == 0,
        decreases n - i,
    {
        slot.push(0);
        i = i + 1;
    }
    i = 0;
    while i < n
        invariant
            valid_network_size(n),
            1 <= j < n,
            i <= n,
            slot.len() == n,
            forall|p: int|
                0 <= p < pairs.len() ==> {
                    let t = #[trigger] pairs[p];
                    &&& t.0 < i
                    &&& t.0 < t.1 < n
                    &&& t.1 == t.0 ^ j
                    &&& t.2 == ((t.0 & k) == 0)
                },
            forall|x: usize|
                x < n && x < i && x < (x ^ j) ==> (#[trigger] slot[x as int]) < pairs.len()
                    && pairs[slot[x as int] as int].0 == x,
            forall|x: usize|
                x < n && (x ^ j) < i && (x ^ j) < x ==> (#[trigger] slot[x as int]) < pairs.len()
                    && pairs[slot[x as int] as int].1 == x,
        decreases n - i,
    {
        let ij = i ^ j;
        proof {
            lemma_xor_below_pow2(i, j, n);
            lemma_xor_involution(i, j);
        }
        if ij > i {
            let p = pairs.len();
            pairs.push((i, ij, (i & k) == 0));
            slot.set(i, p);
            slot.set(ij, p);
            proof {
                assert forall|x: usize|
                    x < n && x < i + 1 && x < (x ^ j) implies (#[trigger] slot[x as int])
                    < pairs.len() && pairs[slot[x as int] as int].0 == x by {
                    if x != i {
                        lemma_xor_involution(x, j);
                        assert(x != ij);
                    }
                }
                assert forall|x: usize|
                    x < n && (x ^ j) < i + 1 && (x ^ j) < x implies (#[trigger] slot[x as int])
                    < pairs.len() && pairs[slot[x as int] as int].1 == x by {
                    lemma_xor_involution(x, j);
                    if x != ij {
                        assert(x != i);
                        assert((x ^ j) != i);
                    }
                }
            }
        } else {
            proof {
                assert forall|x: usize|
                    x < n && x < i + 1 && x < (x ^ j) implies (#[trigger] slot[x as int])
                    < pairs.len() && pairs[slot[x as int] as int].0 == x by {
                    if x == i {
                        lemma_xor_moves(i, j);
                    }
                }
                assert forall|x: usize|
                    x < n && (x ^ j) < i + 1 && (x ^ j) < x implies (#[trigger] slot[x as int])
                    < pairs.len() && pairs[slot[x as int] as int].1 == x by {
                    lemma_xor_involution(x, j);
                    if (x ^ j) == i {
                        lemma_xor_moves(i, j);
                        assert(x == ij);
                    }
                }
            }
        }
        i = i + 1;
    }
    proof {
        assert forall|x: int| 0 <= x < n implies (#[trigger] slot[x]) < pairs.len() && (
        pairs[slot[x] as int].0 == x || pairs[slot[x] as int].1 == x) by {
            let xu = x as usize;
            lemma_xor_moves(xu, j);
            lemma_xor_below_pow2(xu, j, n);
            assert(slot[xu as int] == slot[x]);
        }
    }
    (pairs, slot)
}

/// 1 - b for a bit b.
proof fn lemma_flip_bit(b: bool)
    ensures
        fsub(1, bit_value(b)) == bit_value(!b),
{
    vstd::arithmetic::div_mod::lemma_small_mod(1, modulus());
}

/// s * b + (1 - s) * a selects b where s is one and a where it is zero.
proof fn lemma_select(s: bool, a: nat, b: nat)
    requires
        a < modulus(),
        b < modulus(),
    ensures
        fadd(fmul(bit_value(s), b), fmul(bit_value(!s), a)) == (if s {
            b
        } else {
            a
        }),
{
    vstd::arithmetic::div_mod::lemma_small_mod(a, modulus());
    vstd::arithmetic::div_mod::lemma_small_mod(b, modulus());
    if s {
        assert(fmul(1, b) == b);
        assert(fmul(0, a) == 0);
        assert(fadd(b, 0) == b);
    } else {
        assert(fmul(0, b) == 0);
        assert(fmul(1, a) == a);
        assert(fadd(0, a) == a);
    }
}

/// a + s * (b - a) and b - s * (b - a) exchange a and b where s is one.
proof fn lemma_delta_exchange(s: bool, a: nat, b: nat)
    requires
        a < modulus(),
        b < modulus(),
    ensures
        fadd(a, fmul(bit_value(s), fsub(b, a))) == (if s {
            b
        } else {
            a
        }),
        fsub(b, fmul(bit_value(s), fsub(b, a))) == (if s {
            a
        } else {
            b
        }),
{
    let m = modulus() as int;
    vstd::arithmetic::div_mod::lemma_small_mod(a, modulus());
    vstd::arithmetic::div_mod::lemma_small_mod(b, modulus());
    let d = fsub(b, a);
    assert(d < modulus());
    vstd::arithmetic::div_mod::lemma_small_mod(d, modulus());
    crate::field::lemma_fsub_cong(b as int, a as int, b, a);
    if s {
        assert(fmul(1, d) == d);
        crate::field::lemma_fadd_cong(a as int, b - a, a, d);
        assert(a + (b - a) == b);
        crate::field::lemma_fsub_cong(b as int, b - a, b, d);
        assert(b - (b - a) == a);
    } else {
        assert(fmul(0, d) == 0);
    }
}

/// The less-than bits of many pairs, compared in one batch.
fn less_than_bits<N: MpcNet>(pairs: &[(MpcField, MpcField)], net: &mut N) -> (r: Vec<MpcField>)
    ensures
        same_net(*final(net), *old(net)),
        r.len() == pairs.len(),
        (forall|i: int| 0 <= i < pairs.len() ==> #[trigger] pairs[i].0 is Public && pairs[i].1 is Public)
            ==> forall|i: int| 0 <= i < r.len() ==> #[trigger] r[i] is Public,
        (forall|i: int| 0 <= i < pairs.len() ==> #[trigger] pairs[i].0 is Public && pairs[i].1 is Public)
            || old(net).single_party() ==> forall|i: int|
            0 <= i < r.len() ==> #[trigger] r[i].value() == bit_value(
                pairs[i].0.value() < pairs[i].1.value(),
            ),
{
    MpcField::batch_secure_cmp(pairs, net)
}

/// One level of the network on shared or public values, with the pairs of
/// the level compared in one batch.
#[verifier::spinoff_prover]
fn bitonic_level<N: MpcNet>(cur: &Vec<MpcField>, k: usize, j: usize, net: &mut N) -> (r: Vec<
    MpcField,
>)
    requires
        valid_network_size(cur.len()),
        1 <= j < cur.len(),
    ensures
        same_net(*final(net), *old(net)),
        r.len() == cur.len(),
        all_public(cur@) ==> all_public(r@),
        all_public(cur@) || old(net).single_party() ==> values_of(r@) == network_level(
            values_of(cur@),
            by_value(),
            k as nat,
            j as nat,
        ),
{
    let n = cur.len();
    let ghost net0 = *old(net);
    let ghost exact = all_public(cur@) || net0.single_party();
    let (pairs, slot) = level_pairs(n, k, j);
    let np = pairs.len();
    let mut compared: Vec<(MpcField, MpcField)> = Vec::new();
    let mut p: usize = 0;
    while p < np
        invariant
            np == pairs.len(),
            n == cur.len(),
            p <= np,
            compared.len() == p,
            forall|q: int|
                0 <= q < np ==> {
                    let t = #[trigger] pairs[q];
                    &&& t.0 < t.1 < n
                },
            forall|q: int|
                0 <= q < p ==> #[trigger] compared[q] == (
                    cur[pairs[q].0 as int],
                    cur[pairs[q].1 as int],
                ),
        decreases np - p,
    {
        let (lo, hi, _) = pairs[p];
        compared.push((cur[lo], cur[hi]));
        p = p + 1;
    }
    let is_less = less_than_bits(compared.as_slice(), net);
    let one = MpcField::Public(Fe::one());
    let mut swap: Vec<MpcField> = Vec::new();
    let mut keep: Vec<MpcField> = Vec::new();
    p = 0;
    while p < np
        invariant
            np == pairs.len(),
            n == cur.len(),
            is_less.len() == np,
            compared.len() == np,
            p <= np,
            swap.len() == p,
            keep.len() == p,
            one is Public,
            one.value() == 1,
            same_net(*net, net0),
            exact == (all_public(cur@) || net0.single_party()),
            forall|q: int|
                0 <= q < np ==> {
                    let t = #[trigger] pairs[q];
                    &&& t.0 < t.1 < n
                },
            forall|q: int|
                0 <= q < np ==> #[trigger] compared[q] == (
                    cur[pairs[q].0 as int],
                    cur[pairs[q].1 as int],
                ),
            all_public(cur@) ==> forall|q: int| 0 <= q < np ==> #[trigger] is_less[q] is Public,
            exact ==> forall|q: int|
                0 <= q < np ==> #[trigger] is_less[q].value() == bit_value(
                    compared[q].0.value() < compared[q].1.value(),
                ),
            all_public(cur@) ==> forall|q: int|
                0 <= q < p ==> #[trigger] swap[q] is Public && keep[q] is Public,
            exact ==> forall|q: int|
                0 <= q < p ==> {
                    let sw = exchange_swaps(
                        cur[pairs[q].0 as int].value() as int,
                        cur[pairs[q].1 as int].value() as int,
                        pairs[q].2,
                    );
                    &&& (#[trigger] swap[q]).value() == bit_value(sw)
                    &&& keep[q].value() == bit_value(!sw)
                },
        decreases np - p,
    {
        proof {
            if all_public(cur@) {
                assert(cur[pairs[p as int].0 as int] is Public);
                assert(cur[pairs[p as int].1 as int] is Public);
                assert(compared[p as int].0 is Public && compared[p as int].1 is Public);
            }
            lemma_flip_bit(compared[p as int].0.value() < compared[p as int].1.value());
        }
        let sw = if pairs[p].2 {
            one.sub(&is_less[p], net)
        } else {
            is_less[p]
        };
        let kp = one.sub(&sw, net);
        proof {
            if exact {
                let lt = compared[p as int].0.value() < compared[p as int].1.value();
                lemma_flip_bit(!lt);
                lemma_flip_bit(exchange_swaps(
                    cur[pairs[p as int].0 as int].value() as int,
                    cur[pairs[p as int].1 as int].value() as int,
                    pairs[p as int].2,
                ));
            }
        }
        swap.push(sw);
        keep.push(kp);
        p = p + 1;
    }
    let mut out: Vec<MpcField> = Vec::new();
    let mut x: usize = 0;
    while x < n
        invariant
            np == pairs.len(),
            n == cur.len(),
            valid_network_size(n),
            1 <= j < n,
            swap.len() == np,
            keep.len() == np,
            slot.len() == n,
            x <= n,
            out.len() == x,
            same_net(*net, net0),
            exact == (all_public(cur@) || net0.single_party()),
            forall|q: int|
                0 <= q < np ==> {
                    let t = #[trigger] pairs[q];
                    &&& t.0 < t.1 < n
                    &&& t.1 == t.0 ^ j
                    &&& t.2 == ((t.0 & k) == 0)
                },
            forall|y: int|
                0 <= y < n ==> (#[trigger] slot[y]) < np && (pairs[slot[y] as int].0 == y
                    || pairs[slot[y] as int].1 == y),
            all_public(cur@) ==> forall|q: int|
                0 <= q < np ==> #[trigger] swap[q] is Public && keep[q] is Public,
            exact ==> forall|q: int|
                0 <= q < np ==> {
                    let sw = exchange_swaps(
                        cur[pairs[q].0 as int].value() as int,
                        cur[pairs[q].1 as int].value() as int,
                        pairs[q].2,
                    );
                    &&& (#[trigger] swap[q]).value() == bit_value(sw)
                    &&& keep[q].value() == bit_value(!sw)
                },
            all_public(cur@) ==> forall|y: int| 0 <= y < x ==> #[trigger] out[y] is Public,
            exact ==> forall|y: int|
                0 <= y < x ==> #[trigger] out[y].value() as int == network_level(
                    values_of(cur@),
                    by_value(),
                    k as nat,
                    j as nat,
                )[y],
        decreases n - x,
    {
        let q = slot[x];
        let (lo, hi, asc) = pairs[q];
        let a = cur[lo];
        let b = cur[hi];
        proof {
            if all_public(cur@) {
                assert(cur[lo as int] is Public);
                assert(cur[hi as int] is Public);
                assert(swap[q as int] is Public && keep[q as int] is Public);
            }
        }
        let v = if x == lo {
            let t1 = swap[q].mul(&b, net);
            let t2 = keep[q].mul(&a, net);
            t1.add(&t2, net)
        } else {
            let t1 = swap[q].mul(&a, net);
            let t2 = keep[q].mul(&b, net);
            t1.add(&t2, net)
        };
        proof {
            if exact {
                let sw = exchange_swaps(a.value() as int, b.value() as int, asc);
                lemma_select(sw, a.value(), b.value());
                lemma_select(sw, b.value(), a.value());
                lemma_xor_involution(lo, j);
                let vs = values_of(cur@);
                let lvl = network_level(vs, by_value(), k as nat, j as nat);
                assert(vs[lo as int] == a.value() as int);
                assert(vs[hi as int] == b.value() as int);
                assert(((j as nat) as usize) == j);
                assert(((k as nat) as usize) == k);
                if x == lo {
                    assert(partner(x as int, j as nat) == hi as int);
                } else {
                    assert(x == hi);
                    assert(partner(x as int, j as nat) == lo as int);
                }
                assert(out@.push(v)[x as int].value() as int == lvl[x as int]);
            }
        }
        out.push(v);
        x = x + 1;
    }
    proof {
        if exact {
            assert(values_of(out@) =~= network_level(values_of(cur@), by_value(), k as nat, j as nat));
        }
    }
    out
}

/// Ascending oblivious sort of `vec` (whose length is a power of two and at
/// least 2) by the bitonic network, comparing values with `batch_secure_cmp`.
pub fn bitonic_sort<N: MpcNet>(vec: Vec<MpcField>, net: &mut N) -> (r: Vec<MpcField>)
    requires
        valid_network_size(vec.len()),
    ensures
        same_net(*final(net), *old(net)),
        r.len() == vec.len(),
        all_public(vec@) ==> all_public(r@),
        all_public(vec@) || old(net).single_party() ==> values_of(r@) == bitonic_network(
            values_of(vec@),
            by_value(),
        ),
        all_public(vec@) || old(net).single_party() ==> sorted_by(values_of(r@), by_value()),
{
    let n = vec.len();
    let ghost net0 = *old(net);
    let ghost exact = all_public(vec@) || net0.single_party();
    let ghost target = bitonic_network(values_of(vec@), by_value());
    let mut cur = vec;
    let mut k: usize = 2;
    assert(2usize & 1usize == 0) by (bit_vector);
    loop
        invariant
            n == cur.len(),
            n == vec.len(),
            net0 == *old(net),
            target == bitonic_network(values_of(vec@), by_value()),
            valid_network_size(n),
            2 <= k <= n,
            k & ((k - 1) as usize) == 0,
            same_net(*net, net0),
            exact == (all_public(vec@) || net0.single_party()),
            all_public(vec@) ==> all_public(cur@),
            exact ==> network_from(values_of(cur@), by_value(), k as nat, n as nat) == target,
        decreases n - k,
    {
        let mut j: usize = k / 2;
        proof {
            if exact {
                assert(values_of(cur@).len() == n);
            }
        }
        while j > 0
            invariant
                n == cur.len(),
                n == vec.len(),
                net0 == *old(net),
                target == bitonic_network(values_of(vec@), by_value()),
                valid_network_size(n),
                2 <= k <= n,
                k & ((k - 1) as usize) == 0,
                j < k,
                same_net(*net, net0),
                exact == (all_public(vec@) || net0.single_party()),
                all_public(vec@) ==> all_public(cur@),
                exact ==> network_from(
                    network_stage(values_of(cur@), by_value(), k as nat, j as nat),
                    by_value(),
                    2 * k as nat,
                    n as nat,
                ) == target,
            decreases j,
        {
            let next = bitonic_level(&cur, k, j, net);
            proof {
                if exact {
                    assert(network_stage(values_of(cur@), by_value(), k as nat, j as nat)
                        == network_stage(values_of(next@), by_value(), k as nat, (j / 2) as nat));
                }
            }
            cur = next;
            j = j / 2;
        }
        if k >= n {
            proof {
                if exact {
                    assert(network_from(values_of(cur@), by_value(), 2 * k as nat, n as nat)
                        == values_of(cur@));
                    lemma_network_sorts(values_of(vec@), by_value());
                }
            }
            return cur;
        }
        proof {
            assert(k < n && n & ((n - 1) as usize) == 0 && k & ((k - 1) as usize) == 0
                ==> 2 * k <= n) by (bit_vector);
            assert(k & ((k - 1) as usize) == 0 && k >= 2 ==> (2 * k) as usize & (((2 * k) as usize
                - 1) as usize) == 0) by (bit_vector);
        }
        k = k * 2;
    }
}

/// sw * take + keep * stay: with sw one and keep zero it is `take`, with sw
/// zero and keep one it is `stay`.
fn select_value<N: MpcNet>(
    sw: &MpcField,
    keep: &MpcField,
    take: &MpcField,
    stay: &MpcField,
    net: &mut N,
) -> (r: MpcField)
    ensures
        same_net(*final(net), *old(net)),
        *sw is Public && *keep is Public && *take is Public && *stay is Public ==> r is Public,
        (*sw is Public && *keep is Public && *take is Public && *stay is Public)
            || old(net).single_party() ==> r.value() == fadd(
            fmul(sw.value(), take.value()),
            fmul(keep.value(), stay.value()),
        ),
{
    let t1 = sw.mul(take, net);
    let t2 = keep.mul(stay, net);
    t1.add(&t2, net)
}

/// Each pair's swap and keep indicators are one and zero, or zero and one,
/// as the pair's keys call for.
spec fn row_swaps_hold(
    cur: Seq<(MpcField, MpcField, MpcField)>,
    pairs: Seq<(usize, usize, bool)>,
    swap: Seq<MpcField>,
    keep: Seq<MpcField>,
) -> bool {
    forall|q: int|
        0 <= q < pairs.len() ==> {
            let sw = exchange_swaps(
                cur[pairs[q].0 as int].0.value() as int,
                cur[pairs[q].1 as int].0.value() as int,
                pairs[q].2,
            );
            &&& (#[trigger] swap[q]).value() == bit_value(sw)
            &&& keep[q].value() == bit_value(!sw)
        }
}

/// One level of the network on rows, ordered by their first entries.
#[verifier::spinoff_prover]
#[verifier::rlimit(40)]
fn bitonic_level_by_key<N: MpcNet>(
    cur: &Vec<(MpcField, MpcField, MpcField)>,
    k: usize,
    j: usize,
    net: &mut N,
) -> (r: Vec<(MpcField, MpcField, MpcField)>)
    requires
        valid_network_size(cur.len()),
        1 <= j < cur.len(),
    ensures
        same_net(*final(net), *old(net)),
        r.len() == cur.len(),
        rows_public(cur@) ==> rows_public(r@),
        rows_public(cur@) || old(net).single_party() ==> rows_of(r@) == network_level(
            rows_of(cur@),
            by_first(),
            k as nat,
            j as nat,
        ),
{
    let n = cur.len();
    let ghost net0 = *old(net);
    let ghost exact = rows_public(cur@) || net0.single_party();
    let (pairs, slot) = level_pairs(n, k, j);
    let np = pairs.len();
    let mut compared: Vec<(MpcField, MpcField)> = Vec::new();
    let mut p: usize = 0;
    while p < np
        invariant
            np == pairs.len(),
            n == cur.len(),
            p <= np,
            compared.len() == p,
            forall|q: int|
                0 <= q < np ==> {
                    let t = #[trigger] pairs[q];
                    &&& t.0 < t.1 < n
                },
            forall|q: int|
                0 <= q < p ==> #[trigger] compared[q] == (
                    cur[pairs[q].0 as int].0,
                    cur[pairs[q].1 as int].0,
                ),
        decreases np - p,
    {
        let (lo, hi, _) = pairs[p];
        compared.push((cur[lo].0, cur[hi].0));
        p = p + 1;
    }
    let is_less = less_than_bits(compared.as_slice(), net);
    let one = MpcField::Public(Fe::one());
    let mut swap: Vec<MpcField> = Vec::new();
    let mut keep: Vec<MpcField> = Vec::new();
    p = 0;
    while p < np
        invariant
            np == pairs.len(),
            n == cur.len(),
            is_less.len() == np,
            compared.len() == np,
            p <= np,
            swap.len() == p,
            keep.len() == p,
            one is Public,
            one.value() == 1,
            same_net(*net, net0),
            exact == (rows_public(cur@) || net0.single_party()),
            forall|q: int|
                0 <= q < np ==> {
                    let t = #[trigger] pairs[q];
                    &&& t.0 < t.1 < n
                },
            forall|q: int|
                0 <= q < np ==> #[trigger] compared[q] == (
                    cur[pairs[q].0 as int].0,
                    cur[pairs[q].1 as int].0,
                ),
            rows_public(cur@) ==> forall|q: int| 0 <= q < np ==> #[trigger] is_less[q] is Public,
            exact ==> forall|q: int|
                0 <= q < np ==> #[trigger] is_less[q].value() == bit_value(
                    compared[q].0.value() < compared[q].1.value(),
                ),
            rows_public(cur@) ==> forall|q: int|
                0 <= q < p ==> #[trigger] swap[q] is Public && keep[q] is Public,
            exact ==> forall|q: int|
                0 <= q < p ==> {
                    let sw = exchange_swaps(
                        cur[pairs[q].0 as int].0.value() as int,
                        cur[pairs[q].1 as int].0.value() as int,
                        pairs[q].2,
                    );
                    &&& (#[trigger] swap[q]).value() == bit_value(sw)
                    &&& keep[q].value() == bit_value(!sw)
                },
        decreases np - p,
    {
        proof {
            if rows_public(cur@) {
                assert(cur[pairs[p as int].0 as int].0 is Public);
                assert(cur[pairs[p as int].1 as int].0 is Public);
                assert(compared[p as int].0 is Public && compared[p as int].1 is Public);
            }
            lemma_flip_bit(compared[p as int].0.value() < compared[p as int].1.value());
        }
        let sw = if pairs[p].2 {
            one.sub(&is_less[p], net)
        } else {
            is_less[p]
        };
        let kp = one.sub(&sw, net);
        proof {
            if exact {
                let lt = compared[p as int].0.value() < compared[p as int].1.value();
                lemma_flip_bit(!lt);
                lemma_flip_bit(exchange_swaps(
                    cur[pairs[p as int].0 as int].0.value() as int,
                    cur[pairs[p as int].1 as int].0.value() as int,
                    pairs[p as int].2,
                ));
            }
        }
        swap.push(sw);
        keep.push(kp);
        p = p + 1;
    }
    let mut out: Vec<(MpcField, MpcField, MpcField)> = Vec::new();
    let mut x: usize = 0;
    assert(exact ==> row_swaps_hold(cur@, pairs@, swap@, keep@));
    while x < n
        invariant
            np == pairs.len(),
            n == cur.len(),
            valid_network_size(n),
            1 <= j < n,
            swap.len() == np,
            keep.len() == np,
            slot.len() == n,
            x <= n,
            out.len() == x,
            same_net(*net, net0),
            exact == (rows_public(cur@) || net0.single_party()),
            forall|q: int|
                0 <= q < np ==> {
                    let t = #[trigger] pairs[q];
                    &&& t.0 < t.1 < n
                    &&& t.1 == t.0 ^ j
                    &&& t.2 == ((t.0 & k) == 0)
                },
            forall|y: int|
                0 <= y < n ==> (#[trigger] slot[y]) < np && (pairs[slot[y] as int].0 == y
                    || pairs[slot[y] as int].1 == y),
            rows_public(cur@) ==> forall|q: int|
                0 <= q < np ==> #[trigger] swap[q] is Public && keep[q] is Public,
            exact ==> row_swaps_hold(cur@, pairs@, swap@, keep@),
            rows_public(cur@) ==> rows_public(out@),
            exact ==> forall|y: int|
                0 <= y < x ==> #[trigger] rows_of(out@)[y] == network_level(
                    rows_of(cur@),
                    by_first(),
                    k as nat,
                    j as nat,
                )[y],
        decreases n - x,
    {
        let q = slot[x];
        let (lo, hi, asc) = pairs[q];
        let a = cur[lo];
        let b = cur[hi];
        proof {
            if rows_public(cur@) {
                assert(cur[lo as int].0 is Public && cur[lo as int].1 is Public && cur[lo as int].2 is Public);
                assert(cur[hi as int].0 is Public && cur[hi as int].1 is Public && cur[hi as int].2 is Public);
                assert(swap[q as int] is Public && keep[q as int] is Public);
            }
        }
        let row = if x == lo {
            (
                select_value(&swap[q], &keep[q], &b.0, &a.0, net),
                select_value(&swap[q], &keep[q], &b.1, &a.1, net),
                select_value(&swap[q], &keep[q], &b.2, &a.2, net),
            )
        } else {
            (
                select_value(&swap[q], &keep[q], &a.0, &b.0, net),
                select_value(&swap[q], &keep[q], &a.1, &b.1, net),
                select_value(&swap[q], &keep[q], &a.2, &b.2, net),
            )
        };
        proof {
            if exact {
                let sw = exchange_swaps(a.0.value() as int, b.0.value() as int, asc);
                assert(swap[q as int].value() == bit_value(sw) && keep[q as int].value() == bit_value(!sw));
                lemma_select(sw, a.0.value(), b.0.value());
                lemma_select(sw, b.0.value(), a.0.value());
                lemma_select(sw, a.1.value(), b.1.value());
                lemma_select(sw, b.1.value(), a.1.value());
                lemma_select(sw, a.2.value(), b.2.value());
                lemma_select(sw, b.2.value(), a.2.value());
                lemma_xor_involution(lo, j);
                let vs = rows_of(cur@);
                let lvl = network_level(vs, by_first(), k as nat, j as nat);
                assert(vs[lo as int] == (a.0.value() as int, a.1.value() as int, a.2.value() as int));
                assert(vs[hi as int] == (b.0.value() as int, b.1.value() as int, b.2.value() as int));
                assert(((j as nat) as usize) == j);
                assert(((k as nat) as usize) == k);
                if x == lo {
                    assert(partner(x as int, j as nat) == hi as int);
                } else {
                    assert(x == hi);
                    assert(partner(x as int, j as nat) == lo as int);
                }
                assert(rows_of(out@.push(row))[x as int] == lvl[x as int]);
            }
        }
        proof {
            let o2 = out@.push(row);
            assert forall|y: int| 0 <= y < x ==> #[trigger] rows_of(o2)[y] == rows_of(out@)[y] by {}
            if rows_public(cur@) {
                assert forall|y: int| 0 <= y < o2.len() implies (#[trigger] o2[y]).0 is Public && o2[y].1 is Public && o2[y].2 is Public by {
                    if y < x {
                        assert(out@[y] == o2[y]);
                    }
                }
            }
        }
        out.push(row);
        x = x + 1;
    }
    proof {
        if exact {
            assert(rows_of(out@) =~= network_level(rows_of(cur@), by_first(), k as nat, j as nat));
        }
    }
    out
}

/// Ascending oblivious sort of rows (key, value, value) by key with the
/// bitonic network; the values move with their key. The length is a power
/// of two and at least 2.
pub fn bitonic_sort_by_key<N: MpcNet>(vec: Vec<(MpcField, MpcField, MpcField)>, net: &mut N) -> (r:
    Vec<(MpcField, MpcField, MpcField)>)
    requires
        valid_network_size(vec.len()),
    ensures
        same_net(*final(net), *old(net)),
        r.len() == vec.len(),
        rows_public(vec@) ==> rows_public(r@),
        rows_public(vec@) || old(net).single_party() ==> rows_of(r@) == bitonic_network(
            rows_of(vec@),
            by_first(),
        ),
        rows_public(vec@) || old(net).single_party() ==> sorted_by(rows_of(r@), by_first()),
{
    let n = vec.len();
    let ghost net0 = *old(net);
    let ghost exact = rows_public(vec@) || net0.single_party();
    let ghost target = bitonic_network(rows_of(vec@), by_first());
    let mut cur = vec;
    let mut k: usize = 2;
    assert(2usize & 1usize == 0) by (bit_vector);
    loop
        invariant
            n == cur.len(),
            n == vec.len(),
            net0 == *old(net),
            target == bitonic_network(rows_of(vec@), by_first()),
            valid_network_size(n),
            2 <= k <= n,
            k & ((k - 1) as usize) == 0,
            same_net(*net, net0),
            exact == (rows_public(vec@) || net0.single_party()),
            rows_public(vec@) ==> rows_public(cur@),
            exact ==> network_from(rows_of(cur@), by_first(), k as nat, n as nat) == target,
        decreases n - k,
    {
        let mut j: usize = k / 2;
        proof {
            if exact {
                assert(rows_of(cur@).len() == n);
            }
        }
        while j > 0
            invariant
                n == cur.len(),
                n == vec.len(),
                net0 == *old(net),
                target == bitonic_network(rows_of(vec@), by_first()),
                valid_network_size(n),
                2 <= k <= n,
                k & ((k - 1) as usize) == 0,
                j < k,
                same_net(*net, net0),
                exact == (rows_public(vec@) || net0.single_party()),
                rows_public(vec@) ==> rows_public(cur@),
                exact ==> network_from(
                    network_stage(rows_of(cur@), by_first(), k as nat, j as nat),
                    by_first(),
                    2 * k as nat,
                    n as nat,
                ) == target,
            decreases j,
        {
            let next = bitonic_level_by_key(&cur, k, j, net);
            proof {
                if exact {
                    assert(network_stage(rows_of(cur@), by_first(), k as nat, j as nat)
                        == network_stage(rows_of(next@), by_first(), k as nat, (j / 2) as nat));
                }
            }
            cur = next;
            j = j / 2;
        }
        if k >= n {
            proof {
                if exact {
                    assert(network_from(rows_of(cur@), by_first(), 2 * k as nat, n as nat)
                        == rows_of(cur@));
                    lemma_network_sorts(rows_of(vec@), by_first());
                }
            }
            return cur;
        }
        proof {
            assert(k < n && n & ((n - 1) as usize) == 0 && k & ((k - 1) as usize) == 0
                ==> 2 * k <= n) by (bit_vector);
            assert(k & ((k - 1) as usize) == 0 && k >= 2 ==> (2 * k) as usize & (((2 * k) as usize
                - 1) as usize) == 0) by (bit_vector);
        }
        k = k * 2;
    }
}

/// The keys of `s` never decrease.
pub open spec fn sorted_by<A>(s: Seq<A>, key: spec_fn(A) -> int) -> bool {
    forall|i: int, j: int| 0 <= i <= j < s.len() ==> key(#[trigger] s[i]) <= key(#[trigger] s[j])
}

/// `r` is `s` rearranged by the injective index map `perm` (r[i] = s[perm[i]]),
/// in order of `key`, with equal keys kept in their order in `s`.
pub open spec fn stable_arrangement<A>(
    s: Seq<A>,
    r: Seq<A>,
    key: spec_fn(A) -> int,
    perm: Seq<int>,
) -> bool {
    &&& r.len() == s.len()
    &&& perm.len() == s.len()
    &&& forall|i: int| 0 <= i < r.len() ==> 0 <= #[trigger] perm[i] < s.len() && r[i] == s[perm[i]]
    &&& forall|i: int, j: int| 0 <= i < j < r.len() ==> #[trigger] perm[i] != #[trigger] perm[j]
    &&& sorted_by(r, key)
    &&& forall|i: int, j: int|
        0 <= i < j < r.len() && key(#[trigger] r[i]) == key(#[trigger] r[j]) ==> perm[i] < perm[j]
}

/// `r` is the stable sort of `s` by `key`.
pub open spec fn is_stable_sort<A>(s: Seq<A>, r: Seq<A>, key: spec_fn(A) -> int) -> bool {
    exists|perm: Seq<int>| stable_arrangement(s, r, key, perm)
}

/// Ordering pairs by the value of their field element.
pub open spec fn by_fe<A>() -> spec_fn((Fe, A)) -> int {
    |t: (Fe, A)| t.0.val() as int
}

/// Inserting item m of `items` into a stable arrangement of the first m
/// items, after every key that is not larger and before every larger one,
/// gives a stable arrangement of the first m + 1.
proof fn lemma_stable_insert<A>(
    items: Seq<A>,
    out: Seq<A>,
    perm: Seq<int>,
    key: spec_fn(A) -> int,
    m: int,
    pos: int,
)
    requires
        0 <= m < items.len(),
        out.len() == m,
        perm.len() == m,
        0 <= pos <= m,
        forall|i: int| 0 <= i < m ==> 0 <= #[trigger] perm[i] < m && out[i] == items[perm[i]],
        forall|i: int, j: int| 0 <= i < j < m ==> #[trigger] perm[i] != #[trigger] perm[j],
        sorted_by(out, key),
        forall|i: int, j: int|
            0 <= i < j < m && key(#[trigger] out[i]) == key(#[trigger] out[j]) ==> perm[i] < perm[j],
        forall|i: int| 0 <= i < pos ==> key(#[trigger] out[i]) <= key(items[m]),
        forall|i: int| pos <= i < m ==> key(items[m]) < key(#[trigger] out[i]),
    ensures
        ({
            let out2 = out.insert(pos, items[m]);
            let perm2 = perm.insert(pos, m);
            &&& out2.len() == m + 1
            &&& perm2.len() == m + 1
            &&& forall|i: int|
                0 <= i < m + 1 ==> 0 <= #[trigger] perm2[i] < m + 1 && out2[i] == items[perm2[i]]
            &&& forall|i: int, j: int| 0 <= i < j < m + 1 ==> #[trigger] perm2[i] != #[trigger] perm2[j]
            &&& sorted_by(out2, key)
            &&& forall|i: int, j: int|
                0 <= i < j < m + 1 && key(#[trigger] out2[i]) == key(#[trigger] out2[j]) ==> perm2[i]
                    < perm2[j]
        }),
{
    let x = items[m];
    let out2 = out.insert(pos, x);
    let perm2 = perm.insert(pos, m);
    out.insert_ensures(pos, x);
    perm.insert_ensures(pos, m);
    assert forall|i: int| 0 <= i < m + 1 implies 0 <= #[trigger] perm2[i] < m + 1 && out2[i]
        == items[perm2[i]] by {
        if i > pos {
            assert(perm2[i] == perm[i - 1]);
            assert(out2[i] == out[i - 1]);
        }
    }
    assert forall|i: int, j: int| 0 <= i < j < m + 1 implies #[trigger] perm2[i]
        != #[trigger] perm2[j] by {
        if j < pos {
            assert(perm2[i] == perm[i] && perm2[j] == perm[j]);
        } else if j == pos {
            assert(perm2[i] == perm[i]);
        } else if i < pos {
            assert(perm2[i] == perm[i] && perm2[j] == perm[j - 1]);
        } else if i == pos {
            assert(perm2[j] == perm[j - 1]);
        } else {
            assert(perm2[i] == perm[i - 1] && perm2[j] == perm[j - 1]);
        }
    }
    assert forall|i: int, j: int| 0 <= i <= j < out2.len() implies key(#[trigger] out2[i])
        <= key(#[trigger] out2[j]) by {
        if j < pos {
            assert(out2[i] == out[i] && out2[j] == out[j]);
        } else if j == pos {
            if i < pos {
                assert(out2[i] == out[i]);
            }
        } else if i < pos {
            assert(out2[i] == out[i] && out2[j] == out[j - 1]);
        } else if i == pos {
            assert(out2[j] == out[j - 1]);
        } else {
            assert(out2[i] == out[i - 1] && out2[j] == out[j - 1]);
        }
    }
    assert forall|i: int, j: int|
        0 <= i < j < m + 1 && key(#[trigger] out2[i]) == key(#[trigger] out2[j]) implies perm2[i]
        < perm2[j] by {
        if j < pos {
            assert(out2[i] == out[i] && out2[j] == out[j]);
            assert(perm2[i] == perm[i] && perm2[j] == perm[j]);
        } else if j == pos {
            assert(perm2[i] == perm[i]);
        } else if i < pos {
            assert(out2[i] == out[i] && out2[j] == out[j - 1]);
        } else if i == pos {
            assert(out2[j] == out[j - 1]);
        } else {
            assert(out2[i] == out[i - 1] && out2[j] == out[j - 1]);
            assert(perm2[i] == perm[i - 1] && perm2[j] == perm[j - 1]);
        }
    }
}

/// Stable insertion sort of pairs by their field element's value.
fn stable_sort_by_fe<A: Copy>(items: Vec<(Fe, A)>) -> (r: Vec<(Fe, A)>)
    ensures
        is_stable_sort(items@, r@, by_fe::<A>()),
{
    let n = items.len();
    let ghost key = by_fe::<A>();
    let mut out: Vec<(Fe, A)> = Vec::new();
    let ghost mut perm: Seq<int> = Seq::empty();
    let mut m: usize = 0;
    while m < n
        invariant
            n == items.len(),
            key == by_fe::<A>(),
            m <= n,
            out.len() == m,
            perm.len() == m,
            forall|i: int| 0 <= i < m ==> 0 <= #[trigger] perm[i] < m && out[i] == items[perm[i]],
            forall|i: int, j: int| 0 <= i < j < m ==> #[trigger] perm[i] != #[trigger] perm[j],
            sorted_by(out@, key),
            forall|i: int, j: int|
                0 <= i < j < m && key(#[trigger] out@[i]) == key(#[trigger] out@[j]) ==> perm[i]
                    < perm[j],
        decreases n - m,
    {
        let x = items[m];
        let mut pos: usize = 0;
        while pos < out.len() && !x.0.lt(&out[pos].0)
            invariant
                out.len() == m,
                pos <= m,
                forall|i: int| 0 <= i < pos ==> key(#[trigger] out@[i]) <= key(x),
                key == by_fe::<A>(),
            decreases m - pos,
        {
            pos = pos + 1;
        }
        proof {
            assert forall|i: int| pos <= i < m implies key(x) < key(#[trigger] out@[i]) by {
                assert(key(out@[pos as int]) <= key(out@[i]));
            }
        }
        let ghost old_out = out@;
        let ghost old_perm = perm;
        out.insert(pos, x);
        proof {
            lemma_stable_insert(items@, old_out, old_perm, key, m as int, pos as int);
            perm = old_perm.insert(pos as int, m as int);
        }
        m = m + 1;
    }
    proof {
        assert(stable_arrangement(items@, out@, key, perm));
    }
    out
}

/// The pairs of a level: lower and upper positions below `n`.
spec fn pairs_in_range(pairs: Seq<(usize, usize, bool)>, n: nat) -> bool {
    forall|q: int|
        0 <= q < pairs.len() ==> {
            let t = #[trigger] pairs[q];
            t.0 < t.1 < n
        }
}

/// Every position below `n` has the index of the pair it belongs to.
spec fn slots_cover(pairs: Seq<(usize, usize, bool)>, slot: Seq<usize>, n: nat) -> bool {
    &&& slot.len() == n
    &&& forall|x: int|
        0 <= x < n ==> (#[trigger] slot[x]) < pairs.len() && (pairs[slot[x] as int].0 == x
            || pairs[slot[x] as int].1 == x)
}

/// The other position of the pair that `x` belongs to.
spec fn other_of(pairs: Seq<(usize, usize, bool)>, slot: Seq<usize>, x: int) -> int {
    let t = pairs[slot[x] as int];
    if t.0 == x {
        t.1 as int
    } else {
        t.0 as int
    }
}

/// A copy of a bit vector.
fn copy_bits(v: &Vec<bool>) -> (r: Vec<bool>)
    ensures
        r@ == v@,
{
    let mut out: Vec<bool> = Vec::new();
    let mut i: usize = 0;
    while i < v.len()
        invariant
            i <= v.len(),
            out@ == v@.take(i as int),
        decreases v.len() - i,
    {
        out.push(v[i]);
        i = i + 1;
        proof {
            assert(out@ =~= v@.take(i as int));
        }
    }
    proof {
        assert(out@ =~= v@);
    }
    out
}

/// Every bit vector cut to its first `width` bits.
fn truncate_all(full: Vec<Vec<bool>>, width: usize) -> (r: Vec<Vec<bool>>)
    ensures
        r.len() == full.len(),
        forall|x: int|
            0 <= x < r.len() ==> (#[trigger] r[x])@ == (if width <= full[x].len() {
                full[x]@.take(width as int)
            } else {
                full[x]@
            }),
{
    let mut out: Vec<Vec<bool>> = Vec::new();
    let mut x: usize = 0;
    while x < full.len()
        invariant
            x <= full.len(),
            out.len() == x,
            forall|y: int|
                0 <= y < x ==> (#[trigger] out[y])@ == (if width <= full[y].len() {
                    full[y]@.take(width as int)
                } else {
                    full[y]@
                }),
        decreases full.len() - x,
    {
        let mut b = copy_bits(&full[x]);
        b.truncate(width);
        proof {
            if width <= full[x as int].len() {
                assert(b@ =~= full[x as int]@.take(width as int));
            }
        }
        out.push(b);
        x = x + 1;
    }
    out
}

/// Less-than bits, as XOR-shares, of the bit vectors at the two positions
/// of every pair, compared in one batch.
fn compare_pair_bits<N: MpcNet>(
    bits: &Vec<Vec<bool>>,
    pairs: &Vec<(usize, usize, bool)>,
    width: usize,
    net: &mut N,
) -> (r: Vec<bool>)
    requires
        width >= 1,
        pairs_in_range(pairs@, bits.len() as nat),
        forall|x: int| 0 <= x < bits.len() ==> (#[trigger] bits[x]).len() == width,
    ensures
        same_net(*final(net), *old(net)),
        r.len() == pairs.len(),
        old(net).single_party() ==> forall|q: int|
            0 <= q < r.len() ==> #[trigger] r[q] == (bits_val(bits[pairs[q].0 as int]@) < bits_val(
                bits[pairs[q].1 as int]@,
            )),
        !old(net).single_party() ==> exists|nets: Seq<N>|
            #[trigger] less_runs(
                pair_views(bits@, pairs@, false),
                pair_views(bits@, pairs@, true),
                *old(net),
                nets,
                r@,
            ),
{
    let np = pairs.len();
    let mut left: Vec<Vec<bool>> = Vec::new();
    let mut right: Vec<Vec<bool>> = Vec::new();
    let mut q: usize = 0;
    while q < np
        invariant
            np == pairs.len(),
            q <= np,
            left.len() == q,
            right.len() == q,
            pairs_in_range(pairs@, bits.len() as nat),
            forall|x: int| 0 <= x < bits.len() ==> (#[trigger] bits[x]).len() == width,
            forall|p: int| 0 <= p < q ==> (#[trigger] left[p])@ == bits[pairs[p].0 as int]@,
            forall|p: int| 0 <= p < q ==> (#[trigger] right[p])@ == bits[pairs[p].1 as int]@,
        decreases np - q,
    {
        let (lo, hi, _) = pairs[q];
        proof {
            assert(pairs@[q as int].0 < pairs@[q as int].1 < bits.len());
        }
        left.push(copy_bits(&bits[lo]));
        right.push(copy_bits(&bits[hi]));
        q = q + 1;
    }
    proof {
        assert forall|p: int| 0 <= p < left.len() implies (#[trigger] left[p]).len()
            == right[p].len() && left[p].len() >= 1 by {
            assert(pairs@[p].0 < pairs@[p].1 < bits.len());
            assert(bits[pairs[p].0 as int].len() == width);
            assert(bits[pairs[p].1 as int].len() == width);
        }
    }
    proof {
        assert(bit_views(left@) =~= pair_views(bits@, pairs@, false));
        assert(bit_views(right@) =~= pair_views(bits@, pairs@, true));
    }
    MpcField::batch_compare_bits(left.as_slice(), right.as_slice(), net)
}

/// A party's share of the swap bit of a pair, from its share of the
/// less-than bit of the pair: for an ascending pair the king flips its share
/// (a public NOT touches one share only), for a descending pair the share
/// stays.
pub open spec fn swap_share(ascending: bool, less: bool, king: bool) -> bool {
    if ascending {
        less != king
    } else {
        less
    }
}

/// A party's record of one level of the network on n positions: the pairs
/// (lower position, upper position, ascending) that the level compares, and
/// pair by pair its share of the less-than bit and of the swap bit, which
/// is the swap share of the less-than share.
pub open spec fn level_swaps(
    rec: (Seq<(usize, usize, bool)>, Seq<bool>, Seq<bool>),
    n: nat,
    k: usize,
    j: usize,
    king: bool,
) -> bool {
    &&& rec.1.len() == rec.0.len()
    &&& rec.2.len() == rec.0.len()
    &&& forall|p: int|
        0 <= p < rec.0.len() ==> {
            let t = #[trigger] rec.0[p];
            &&& t.0 < t.1 < n
            &&& t.1 == t.0 ^ j
            &&& t.2 == ((t.0 & k) == 0)
        }
    &&& forall|p: int| 0 <= p < rec.0.len() ==> #[trigger] rec.2[p] == swap_share(rec.0[p].2, rec.1[p], king)
}

/// Among any number of parties, party 0 the king: where the parties' shares
/// of a pair's less-than bit XOR to `less`, their swap shares XOR to the
/// exchange condition of the pair, NOT `less` for an ascending pair and
/// `less` for a descending one.
pub proof fn lemma_swap_shares(ascending: bool, less: Seq<bool>)
    requires
        less.len() >= 1,
    ensures
        xor_all(Seq::new(less.len(), |i: int| swap_share(ascending, less[i], i == 0))) == (if ascending {
            !xor_all(less)
        } else {
            xor_all(less)
        }),
{
    let n = less.len();
    let f = |i: int| less[i];
    let g = |i: int| ascending && i == 0;
    assert(Seq::new(n, |i: int| swap_share(ascending, less[i], i == 0)) =~= Seq::new(
        n,
        |i: int| f(i) != g(i),
    ));
    lemma_xor_new_xor(f, g, n);
    assert(Seq::new(n, f) =~= less);
    if ascending {
        lemma_xor_first_only(n);
        assert(Seq::new(n, g) =~= Seq::new(n, |q: int| q == 0));
    } else {
        lemma_xor_none(n);
        assert(Seq::new(n, g) =~= Seq::new(n, |q: int| false));
    }
}

/// The bit vectors at the lower (or upper) positions of the pairs.
pub open spec fn pair_views(
    bits: Seq<Vec<bool>>,
    pairs: Seq<(usize, usize, bool)>,
    upper: bool,
) -> Seq<Seq<bool>> {
    Seq::new(
        pairs.len(),
        |p: int|
            if upper {
                bits[pairs[p].1 as int]@
            } else {
                bits[pairs[p].0 as int]@
            },
    )
}

/// The swap decision of a pair among any number of parties, party 0 the
/// king: party q compares its shares ls[q] and rs[q] of the n-bit vectors
/// at the pair's lower and upper positions (`less_share`, with its dummy
/// dealer, over nets[q]) and turns its share of the less-than bit into its
/// swap share. Where in every round the network opens the XOR of what all
/// parties send, the swap shares XOR to the exchange condition of the
/// pair: NOT (lower < upper) for an ascending pair, lower < upper for a
/// descending one, of the values that the parties' shares denote.
pub proof fn lemma_level_swap_shares<N: MpcNet>(
    ls: Seq<Seq<bool>>,
    rs: Seq<Seq<bool>>,
    nets: Seq<N>,
    n: nat,
    ascending: bool,
)
    requires
        run_parties(ls, dummy_sources(ls.len()), nets, n),
        n >= 1,
        rs.len() == ls.len(),
        forall|q: int| 0 <= q < rs.len() ==> (#[trigger] rs[q]).len() == n,
        less_run_opens(ls, rs, dummy_sources(ls.len()), nets, n),
    ensures
        ({
            let lower = bits_val(column_secrets(ls, n));
            let upper = bits_val(column_secrets(rs, n));
            let swaps = Seq::new(
                ls.len(),
                |q: int|
                    swap_share(
                        ascending,
                        less_share(ls[q], rs[q], dummy_sources(ls.len())[q], nets[q]),
                        q == 0,
                    ),
            );
            xor_all(swaps) == if ascending {
                !(lower < upper)
            } else {
                lower < upper
            }
        }),
{
    let np = ls.len();
    let srcs = dummy_sources(np);
    assert forall|k: nat| #[trigger] triples_valid(srcs, k) by {
        lemma_dummy_triples_valid(np, k);
    }
    lemma_less_shares(ls, rs, srcs, nets, n);
    let less = Seq::new(np, |q: int| less_share(ls[q], rs[q], srcs[q], nets[q]));
    lemma_swap_shares(ascending, less);
    assert(Seq::new(np, |i: int| swap_share(ascending, less[i], i == 0)) =~= Seq::new(
        np,
        |q: int| swap_share(ascending, less_share(ls[q], rs[q], srcs[q], nets[q]), q == 0),
    ));
}

/// The swap condition of every pair: the less-than bit, flipped by the king
/// for an ascending pair (flipping a public constant into a shared bit is
/// done on one share only).
fn swap_bits(pairs: &Vec<(usize, usize, bool)>, is_less: &Vec<bool>, king: bool) -> (r: Vec<bool>)
    requires
        is_less.len() == pairs.len(),
    ensures
        r.len() == pairs.len(),
        forall|q: int|
            0 <= q < r.len() ==> #[trigger] r[q] == (if pairs[q].2 {
                is_less[q] != king
            } else {
                is_less[q]
            }),
{
    let mut out: Vec<bool> = Vec::new();
    let mut q: usize = 0;
    while q < pairs.len()
        invariant
            is_less.len() == pairs.len(),
            q <= pairs.len(),
            out.len() == q,
            forall|p: int|
                0 <= p < q ==> #[trigger] out[p] == (if pairs[p].2 {
                    is_less[p] != king
                } else {
                    is_less[p]
                }),
        decreases pairs.len() - q,
    {
        let b = if pairs[q].2 {
            is_less[q] ^ king
        } else {
            is_less[q]
        };
        out.push(b);
        q = q + 1;
    }
    out
}

/// The bit vectors after the level: where a pair's shared swap bit is set,
/// its two vectors trade places (by XOR with swap AND (left XOR right), one
/// batch of ANDs for all pairs and bits).
fn exchange_bits<N: MpcNet>(
    bits: &Vec<Vec<bool>>,
    pairs: &Vec<(usize, usize, bool)>,
    slot: &Vec<usize>,
    swap: &Vec<bool>,
    width: usize,
    net: &mut N,
) -> (r: Vec<Vec<bool>>)
    requires
        swap.len() == pairs.len(),
        pairs_in_range(pairs@, bits.len() as nat),
        slots_cover(pairs@, slot@, bits.len() as nat),
        forall|x: int| 0 <= x < bits.len() ==> (#[trigger] bits[x]).len() == width,
    ensures
        same_net(*final(net), *old(net)),
        r.len() == bits.len(),
        forall|x: int| 0 <= x < r.len() ==> (#[trigger] r[x]).len() == width,
        old(net).single_party() ==> forall|x: int|
            0 <= x < r.len() ==> (#[trigger] r[x])@ == (if swap[slot[x] as int] {
                bits[other_of(pairs@, slot@, x)]@
            } else {
                bits[x]@
            }),
{
    let n = bits.len();
    let np = pairs.len();
    let ghost net0 = *old(net);
    let mut and_lefts: Vec<bool> = Vec::new();
    let mut and_rights: Vec<bool> = Vec::new();
    let mut q: usize = 0;
    while q < np
        invariant
            np == pairs.len(),
            n == bits.len(),
            swap.len() == np,
            q <= np,
            and_lefts.len() == q * width,
            and_rights.len() == q * width,
            width >= 1 ==> q * width >= q,
            pairs_in_range(pairs@, n as nat),
            forall|x: int| 0 <= x < n ==> (#[trigger] bits[x]).len() == width,
            forall|t: int|
                0 <= t < and_lefts.len() ==> #[trigger] and_lefts[t] == swap[t / width as int]
                    && and_rights[t] == (bits[pairs[t / width as int].0 as int][t % width as int]
                    != bits[pairs[t / width as int].1 as int][t % width as int]),
        decreases np - q,
    {
        let (lo, hi, _) = pairs[q];
        proof {
            assert(pairs@[q as int].0 < pairs@[q as int].1 < n);
        }
        let mut b: usize = 0;
        while b < width
            invariant
                np == pairs.len(),
                n == bits.len(),
                swap.len() == np,
                q < np,
                lo == pairs[q as int].0,
                hi == pairs[q as int].1,
                lo < n,
                hi < n,
                b <= width,
                and_lefts.len() == q * width + b,
                and_rights.len() == q * width + b,
                forall|x: int| 0 <= x < n ==> (#[trigger] bits[x]).len() == width,
                forall|t: int|
                    0 <= t < and_lefts.len() ==> #[trigger] and_lefts[t] == swap[t / width as int]
                        && and_rights[t] == (bits[pairs[t / width as int].0 as int][t % width as int]
                        != bits[pairs[t / width as int].1 as int][t % width as int]),
            decreases width - b,
        {
            proof {
                vstd::arithmetic::div_mod::lemma_fundamental_div_mod_converse(
                    (q * width + b) as int,
                    width as int,
                    q as int,
                    b as int,
                );
            }
            let ghost t0 = (q * width + b) as int;
            let ghost old_l = and_lefts@;
            let ghost old_r = and_rights@;
            and_lefts.push(swap[q]);
            and_rights.push(bits[lo][b] ^ bits[hi][b]);
            proof {
                assert forall|t: int| 0 <= t < old_l.len() implies #[trigger] and_lefts[t] == swap[t / width as int]
                    && and_rights[t] == (bits[pairs[t / width as int].0 as int][t % width as int]
                    != bits[pairs[t / width as int].1 as int][t % width as int]) by {
                    assert(and_lefts[t] == old_l[t]);
                    assert(and_rights[t] == old_r[t]);
                }
                assert(t0 / (width as int) == q);
                assert(t0 % (width as int) == b);
                assert(and_lefts[t0] == swap[t0 / width as int]);
                assert(and_rights[t0] == (bits[lo as int][b as int] != bits[hi as int][b as int]));
                assert(and_rights[t0] == (bits[pairs[t0 / width as int].0 as int][t0 % width as int]
                    != bits[pairs[t0 / width as int].1 as int][t0 % width as int]));
                assert(and_lefts.len() == old_l.len() + 1);
                assert(t0 == old_l.len());
                assert forall|t: int| 0 <= t < and_lefts.len() implies #[trigger] and_lefts[t] == swap[t / width as int]
                    && and_rights[t] == (bits[pairs[t / width as int].0 as int][t % width as int]
                    != bits[pairs[t / width as int].1 as int][t % width as int]) by {
                    if t < old_l.len() {
                        assert(and_lefts[t] == old_l[t]);
                    } else {
                        assert(t == t0);
                    }
                }
            }
            b = b + 1;
        }
        proof {
            assert((q + 1) * width == q * width + width) by (nonlinear_arith);
            if width >= 1 {
                assert((q + 1) * width >= q + 1) by (nonlinear_arith)
                    requires
                        width >= 1,
                ;
            }
        }
        q = q + 1;
    }
    let mut source = DummyBooleanBeaverSource::new(net.am_king());
    let corrections = BooleanOps::batch_beaver_bitwise_and(
        and_lefts.as_slice(),
        and_rights.as_slice(),
        &mut source,
        net,
    );
    let total = corrections.len();
    assert(total == np * width);
    let mut out: Vec<Vec<bool>> = Vec::new();
    let mut x: usize = 0;
    while x < n
        invariant
            np == pairs.len(),
            n == bits.len(),
            swap.len() == np,
            x <= n,
            out.len() == x,
            total == corrections.len(),
            total == np * width,
            and_lefts.len() == total,
            and_rights.len() == total,
            same_net(*net, net0),
            pairs_in_range(pairs@, n as nat),
            slots_cover(pairs@, slot@, n as nat),
            forall|y: int| 0 <= y < n ==> (#[trigger] bits[y]).len() == width,
            forall|t: int|
                0 <= t < and_lefts.len() ==> #[trigger] and_lefts[t] == swap[t / width as int]
                    && and_rights[t] == (bits[pairs[t / width as int].0 as int][t % width as int]
                    != bits[pairs[t / width as int].1 as int][t % width as int]),
            net0.single_party() ==> forall|t: int|
                0 <= t < corrections.len() ==> #[trigger] corrections[t] == (and_lefts[t]
                    && and_rights[t]),
            forall|y: int| 0 <= y < x ==> (#[trigger] out[y]).len() == width,
            net0.single_party() ==> forall|y: int|
                0 <= y < x ==> (#[trigger] out[y])@ == (if swap[slot[y] as int] {
                    bits[other_of(pairs@, slot@, y)]@
                } else {
                    bits[y]@
                }),
        decreases n - x,
    {
        let q = slot[x];
        proof {
            assert(slot@[x as int] < np);
            assert(pairs@[q as int].0 < pairs@[q as int].1 < n);
        }
        let mut nb: Vec<bool> = Vec::new();
        let mut b: usize = 0;
        while b < width
            invariant
                np == pairs.len(),
                n == bits.len(),
                swap.len() == np,
                x < n,
                q == slot[x as int],
                q < np,
                pairs[q as int].0 < pairs[q as int].1 < n,
                pairs[q as int].0 == x || pairs[q as int].1 == x,
                total == corrections.len(),
                total == np * width,
                and_lefts.len() == total,
                and_rights.len() == total,
                b <= width,
                nb.len() == b,
                forall|y: int| 0 <= y < n ==> (#[trigger] bits[y]).len() == width,
                forall|t: int|
                    0 <= t < and_lefts.len() ==> #[trigger] and_lefts[t] == swap[t / width as int]
                        && and_rights[t] == (bits[pairs[t / width as int].0 as int][t % width as int]
                        != bits[pairs[t / width as int].1 as int][t % width as int]),
                net0.single_party() ==> forall|t: int|
                    0 <= t < corrections.len() ==> #[trigger] corrections[t] == (and_lefts[t]
                        && and_rights[t]),
                net0.single_party() ==> forall|c: int|
                    0 <= c < b ==> #[trigger] nb[c] == (if swap[q as int] {
                        bits[other_of(pairs@, slot@, x as int)][c]
                    } else {
                        bits[x as int][c]
                    }),
            decreases width - b,
        {
            proof {
                assert(q * width + b < np * width) by (nonlinear_arith)
                    requires
                        q < np,
                        b < width,
                ;
                vstd::arithmetic::div_mod::lemma_fundamental_div_mod_converse(
                    (q * width + b) as int,
                    width as int,
                    q as int,
                    b as int,
                );
            }
            let t = q * width + b;
            let bit = bits[x][b] ^ corrections[t];
            let ghost old_nb = nb@;
            nb.push(bit);
            proof {
                if net0.single_party() {
                    assert(corrections[t as int] == (and_lefts[t as int] && and_rights[t as int]));
                    assert(and_lefts[t as int] == swap[q as int]);
                    let lo = pairs[q as int].0 as int;
                    let hi = pairs[q as int].1 as int;
                    assert(and_rights[t as int] == (bits[lo][b as int] != bits[hi][b as int]));
                    assert(nb[b as int] == (if swap[q as int] {
                        bits[other_of(pairs@, slot@, x as int)][b as int]
                    } else {
                        bits[x as int][b as int]
                    }));
                    assert forall|c: int| 0 <= c < b + 1 implies #[trigger] nb[c] == (if swap[q as int] {
                        bits[other_of(pairs@, slot@, x as int)][c]
                    } else {
                        bits[x as int][c]
                    }) by {
                        if c < b {
                            assert(nb[c] == old_nb[c]);
                        }
                    }
                }
            }
            b = b + 1;
        }
        proof {
            if net0.single_party() {
                let other = other_of(pairs@, slot@, x as int);
                assert(bits[other].len() == width);
                if swap[q as int] {
                    assert(nb@ =~= bits[other]@);
                } else {
                    assert(nb@ =~= bits[x as int]@);
                }
            }
        }
        out.push(nb);
        x = x + 1;
    }
    out
}

/// Ordering by the low `bit_length` bits of the value.
pub open spec fn by_low_bits(bit_length: nat) -> spec_fn(int) -> int {
    |v: int| v % (two_pow(bit_length) as int)
}

/// Ordering rows by the low `bit_length` bits of their first entry.
pub open spec fn by_low_bits_first(bit_length: nat) -> spec_fn((int, int, int)) -> int {
    |t: (int, int, int)| t.0 % (two_pow(bit_length) as int)
}

/// Every element is shared.
pub open spec fn all_shared(s: Seq<MpcField>) -> bool {
    forall|i: int| 0 <= i < s.len() ==> #[trigger] s[i] is Shared
}

/// Every entry of every row is shared.
pub open spec fn rows_shared(s: Seq<(MpcField, MpcField, MpcField)>) -> bool {
    forall|i: int|
        0 <= i < s.len() ==> (#[trigger] s[i]).0 is Shared && s[i].1 is Shared && s[i].2 is Shared
}

/// The bit vectors hold the low `bit_length` bits of the values.
spec fn bits_track(bits: Seq<Vec<bool>>, vals: Seq<int>, bit_length: nat) -> bool {
    &&& bits.len() == vals.len()
    &&& forall|x: int|
        0 <= x < bits.len() ==> bits_val((#[trigger] bits[x])@) == vals[x] % (two_pow(
            bit_length,
        ) as int)
}

/// One level of the network with precomputed bits: the pairs compare their
/// bit vectors in one batch, their shared swap bits become arithmetic shares,
/// the values move by swap * (upper - lower) in one batch of products, and
/// the bit vectors follow by a Boolean exchange.
#[verifier::spinoff_prover]
fn radix_level<N: MpcNet>(
    cur: &Vec<MpcField>,
    bits: &Vec<Vec<bool>>,
    k: usize,
    j: usize,
    width: usize,
    bit_length: usize,
    net: &mut N,
) -> (r: (Vec<MpcField>, Vec<Vec<bool>>, Ghost<(Seq<(usize, usize, bool)>, Seq<bool>, Seq<bool>)>))
    requires
        valid_network_size(cur.len()),
        1 <= j < cur.len(),
        width >= 1,
        bits.len() == cur.len(),
        forall|x: int| 0 <= x < bits.len() ==> (#[trigger] bits[x]).len() == width,
    ensures
        same_net(*final(net), *old(net)),
        level_swaps(r.2@, cur.len() as nat, k, j, old(net).king()),
        !old(net).single_party() ==> exists|nets: Seq<N>|
            #[trigger] less_runs(
                pair_views(bits@, r.2@.0, false),
                pair_views(bits@, r.2@.0, true),
                *old(net),
                nets,
                r.2@.1,
            ),
        old(net).single_party() ==> forall|p: int|
            0 <= p < r.2@.0.len() ==> #[trigger] r.2@.1[p] == (bits_val(bits[r.2@.0[p].0 as int]@)
                < bits_val(bits[r.2@.0[p].1 as int]@)),
        r.0.len() == cur.len(),
        r.1.len() == cur.len(),
        forall|x: int| 0 <= x < r.1.len() ==> (#[trigger] r.1[x]).len() == width,
        all_shared(r.0@),
        old(net).single_party() && bits_track(bits@, values_of(cur@), bit_length as nat) ==> {
            &&& values_of(r.0@) == network_level(
                values_of(cur@),
                by_low_bits(bit_length as nat),
                k as nat,
                j as nat,
            )
            &&& bits_track(r.1@, values_of(r.0@), bit_length as nat)
        },
{
    let n = cur.len();
    let ghost net0 = *old(net);
    let ghost sp = net0.single_party();
    let ghost tracked_bits = bits_track(bits@, values_of(cur@), bit_length as nat);
    let ghost key = by_low_bits(bit_length as nat);
    let (pairs, slot) = level_pairs(n, k, j);
    let np = pairs.len();
    proof {
        assert(slot@[0] < np);
    }
    let is_less = compare_pair_bits(bits, &pairs, width, net);
    let king = net.am_king();
    proof {
        if sp {
            net.lemma_single_party_is_king();
        }
    }
    let swap = swap_bits(&pairs, &is_less, king);
    let swap_arith = MpcField::batch_b2a_bool(swap.as_slice(), net);
    let mut deltas: Vec<MpcField> = Vec::new();
    let mut q: usize = 0;
    while q < np
        invariant
            np == pairs.len(),
            n == cur.len(),
            q <= np,
            deltas.len() == q,
            same_net(*net, net0),
            sp == net0.single_party(),
            pairs_in_range(pairs@, n as nat),
            sp ==> forall|p: int|
                0 <= p < q ==> #[trigger] deltas[p].value() == fsub(
                    cur[pairs[p].1 as int].value(),
                    cur[pairs[p].0 as int].value(),
                ),
        decreases np - q,
    {
        let (lo, hi, _) = pairs[q];
        proof {
            assert(pairs@[q as int].0 < pairs@[q as int].1 < n);
        }
        deltas.push(cur[hi].sub(&cur[lo], net));
        q = q + 1;
    }
    let products = MpcField::batch_mul_vec(swap_arith, deltas, net);
    let mut out: Vec<MpcField> = Vec::new();
    let mut x: usize = 0;
    while x < n
        invariant
            np == pairs.len(),
            n == cur.len(),
            valid_network_size(n),
            1 <= j < n,
            bits.len() == n,
            x <= n,
            out.len() == x,
            products.len() == np,
            swap.len() == np,
            is_less.len() == np,
            same_net(*net, net0),
            sp == net0.single_party(),
            tracked_bits == bits_track(bits@, values_of(cur@), bit_length as nat),
            key == by_low_bits(bit_length as nat),
            sp ==> king,
            forall|p: int|
                0 <= p < np ==> {
                    let t = #[trigger] pairs[p];
                    &&& t.0 < t.1 < n
                    &&& t.1 == t.0 ^ j
                    &&& t.2 == ((t.0 & k) == 0)
                },
            slots_cover(pairs@, slot@, n as nat),
            forall|p: int| 0 <= p < np ==> #[trigger] products[p] is Shared,
            sp ==> forall|p: int|
                0 <= p < np ==> #[trigger] is_less[p] == (bits_val(bits[pairs[p].0 as int]@)
                    < bits_val(bits[pairs[p].1 as int]@)),
            forall|p: int|
                0 <= p < np ==> #[trigger] swap[p] == (if pairs[p].2 {
                    is_less[p] != king
                } else {
                    is_less[p]
                }),
            sp ==> forall|p: int|
                0 <= p < np ==> #[trigger] products[p].value() == fmul(
                    bit_value(swap[p]),
                    fsub(cur[pairs[p].1 as int].value(), cur[pairs[p].0 as int].value()),
                ),
            forall|y: int| 0 <= y < x ==> #[trigger] out[y] is Shared,
            sp && tracked_bits ==> forall|y: int|
                0 <= y < x ==> #[trigger] out[y].value() as int == network_level(
                    values_of(cur@),
                    key,
                    k as nat,
                    j as nat,
                )[y],
            sp && tracked_bits ==> forall|y: int|
                0 <= y < x ==> #[trigger] out[y].value() == (if swap[slot[y] as int] {
                    cur[other_of(pairs@, slot@, y)].value()
                } else {
                    cur[y].value()
                }),
        decreases n - x,
    {
        let q = slot[x];
        let (lo, hi, asc) = pairs[q];
        proof {
            assert(slot@[x as int] < np);
        }
        let v = if x == lo {
            cur[lo].add(&products[q], net)
        } else {
            cur[hi].sub(&products[q], net)
        };
        proof {
            if sp && tracked_bits {
                let a = cur[lo as int].value();
                let b = cur[hi as int].value();
                let vs = values_of(cur@);
                assert(bits_val(bits[lo as int]@) == vs[lo as int] % (two_pow(bit_length as nat) as int));
                assert(bits_val(bits[hi as int]@) == vs[hi as int] % (two_pow(bit_length as nat) as int));
                let sw = exchange_swaps(key(vs[lo as int]), key(vs[hi as int]), asc);
                assert(swap[q as int] == sw);
                lemma_delta_exchange(sw, a, b);
                lemma_xor_involution(lo, j);
                let lvl = network_level(vs, key, k as nat, j as nat);
                assert(((j as nat) as usize) == j);
                assert(((k as nat) as usize) == k);
                if x == lo {
                    assert(partner(x as int, j as nat) == hi as int);
                } else {
                    assert(x == hi);
                    assert(partner(x as int, j as nat) == lo as int);
                }
                assert(v.value() as int == lvl[x as int]);
            }
        }
        out.push(v);
        x = x + 1;
    }
    let new_bits = exchange_bits(bits, &pairs, &slot, &swap, width, net);
    proof {
        if sp && tracked_bits {
            assert(values_of(out@) =~= network_level(values_of(cur@), key, k as nat, j as nat));
            assert forall|y: int| 0 <= y < n implies bits_val((#[trigger] new_bits@[y])@)
                == values_of(out@)[y] % (two_pow(bit_length as nat) as int) by {
                let o = other_of(pairs@, slot@, y);
                assert(0 <= o < n);
                assert(bits_val(bits[o]@) == values_of(cur@)[o] % (two_pow(bit_length as nat) as int));
                assert(bits_val(bits[y]@) == values_of(cur@)[y] % (two_pow(bit_length as nat) as int));
            }
        }
    }
    let ghost rec = (pairs@, is_less@, swap@);
    proof {
        assert(king == net0.king());
        assert forall|p: int| 0 <= p < rec.0.len() implies #[trigger] rec.2[p] == swap_share(
            rec.0[p].2,
            rec.1[p],
            net0.king(),
        ) by {
            assert(swap[p] == (if pairs[p].2 {
                is_less[p] != king
            } else {
                is_less[p]
            }));
        }
        assert(level_swaps(rec, n as nat, k, j, net0.king()));
    }
    (out, new_bits, Ghost(rec))
}

/// Public values in ascending order.
fn sort_public_values(vec: &Vec<MpcField>) -> (r: Vec<MpcField>)
    requires
        all_public(vec@),
    ensures
        r.len() == vec.len(),
        all_public(r@),
        is_stable_sort(values_of(vec@), values_of(r@), by_value()),
{
    let n = vec.len();
    let mut items: Vec<(Fe, ())> = Vec::new();
    let mut i: usize = 0;
    while i < n
        invariant
            n == vec.len(),
            i <= n,
            items.len() == i,
            forall|y: int| 0 <= y < i ==> (#[trigger] items[y]).0.val() == vec[y].value(),
        decreases n - i,
    {
        items.push((vec[i].unwrap_as_public(), ()));
        i = i + 1;
    }
    let sorted = stable_sort_by_fe(items);
    let mut out: Vec<MpcField> = Vec::new();
    i = 0;
    while i < n
        invariant
            n == vec.len(),
            sorted.len() == n,
            i <= n,
            out.len() == i,
            forall|y: int| 0 <= y < i ==> #[trigger] out[y] == MpcField::Public(sorted[y].0),
        decreases n - i,
    {
        out.push(MpcField::Public(sorted[i].0));
        i = i + 1;
    }
    proof {
        let perm = choose|perm: Seq<int>| stable_arrangement(items@, sorted@, by_fe::<()>(), perm);
        let vs = values_of(vec@);
        let rs = values_of(out@);
        assert forall|y: int| 0 <= y < n implies #[trigger] rs[y] == sorted@[y].0.val() as int by {
            assert(out[y] == MpcField::Public(sorted[y].0));
        }
        assert forall|y: int| 0 <= y < n implies 0 <= #[trigger] perm[y] < n && rs[y] == vs[perm[y]] by {
            assert(sorted@[y] == items@[perm[y]]);
        }
        assert forall|a: int, b: int| 0 <= a <= b < n implies by_value()(#[trigger] rs[a]) <= by_value()(
            #[trigger] rs[b],
        ) by {
            assert(by_fe::<()>()(sorted@[a]) <= by_fe::<()>()(sorted@[b]));
        }
        assert forall|a: int, b: int|
            0 <= a < b < n && by_value()(#[trigger] rs[a]) == by_value()(#[trigger] rs[b]) implies perm[a]
            < perm[b] by {
            assert(by_fe::<()>()(sorted@[a]) == by_fe::<()>()(sorted@[b]));
        }
        assert(stable_arrangement(vs, rs, by_value(), perm));
    }
    out
}

/// The low bits of a value below the modulus, for any number of bits from
/// one up.
proof fn lemma_low_bits_of_decomposition(bits: Seq<bool>, v: nat, bit_length: nat)
    requires
        bits.len() == 253,
        bits_val(bits) == v,
        v < modulus(),
    ensures
        bits_val(if bit_length <= 253 {
            bits.take(bit_length as int)
        } else {
            bits
        }) == v % two_pow(bit_length),
{
    if bit_length <= 253 {
        crate::bits::lemma_bits_val_take(bits, bit_length as int);
    } else {
        crate::compare::lemma_two_pow_253();
        crate::bits::lemma_two_pow_add(253, (bit_length - 253) as nat);
        crate::bits::lemma_two_pow_positive((bit_length - 253) as nat);
        assert(two_pow(253) <= two_pow(253) * two_pow((bit_length - 253) as nat)) by (nonlinear_arith)
            requires
                two_pow((bit_length - 253) as nat) >= 1,
        ;
        assert(253 + (bit_length - 253) == bit_length);
        vstd::arithmetic::div_mod::lemma_small_mod(v, two_pow(bit_length));
    }
}

/// Ascending oblivious sort of `vec` (whose length is a power of two and at
/// least 2) by the bitonic network on bits computed once: all values are
/// bit-decomposed in one batch and cut to their `bit_length` low bits, and
/// every level compares, swaps and exchanges bits in a constant number of
/// batches. Public input is sorted locally and stays public.
pub fn radix_sort<N: MpcNet>(vec: Vec<MpcField>, bit_length: usize, net: &mut N) -> (r: Vec<
    MpcField,
>)
    requires
        valid_network_size(vec.len()),
        bit_length >= 1 || all_public(vec@),
    ensures
        same_net(*final(net), *old(net)),
        r.len() == vec.len(),
        all_public(vec@) ==> all_public(r@) && is_stable_sort(
            values_of(vec@),
            values_of(r@),
            by_value(),
        ),
        !all_public(vec@) ==> all_shared(r@),
        !all_public(vec@) && old(net).single_party() ==> values_of(r@) == bitonic_network(
            values_of(vec@),
            by_low_bits(bit_length as nat),
        ),
{
    let n = vec.len();
    let mut public = true;
    let mut i: usize = 0;
    while i < n
        invariant
            n == vec.len(),
            i <= n,
            public == forall|y: int| 0 <= y < i ==> #[trigger] vec[y] is Public,
        decreases n - i,
    {
        public = public && !vec[i].is_shared();
        i = i + 1;
    }
    if public {
        return sort_public_values(&vec);
    }
    let ghost net0 = *old(net);
    let ghost sp = net0.single_party();
    let ghost key = by_low_bits(bit_length as nat);
    let ghost target = bitonic_network(values_of(vec@), key);
    let full = MpcField::batch_bit_decompose_bool(vec.as_slice(), net);
    let mut bits = truncate_all(full, bit_length);
    let width = bits[0].len();
    proof {
        assert forall|x: int| 0 <= x < n implies (#[trigger] bits[x]).len() == width by {
            assert(full[x].len() == 253);
            assert(full[0].len() == 253);
        }
        if sp {
            assert forall|x: int| 0 <= x < n implies bits_val((#[trigger] bits@[x])@)
                == values_of(vec@)[x] % (two_pow(bit_length as nat) as int) by {
                lemma_low_bits_of_decomposition(full[x]@, vec[x].value(), bit_length as nat);
            }
        }
    }
    let mut cur = vec;
    let mut k: usize = 2;
    assert(2usize & 1usize == 0) by (bit_vector);
    loop
        invariant
            n == cur.len(),
            n == vec.len(),
            net0 == *old(net),
            sp == net0.single_party(),
            key == by_low_bits(bit_length as nat),
            target == bitonic_network(values_of(vec@), key),
            !all_public(vec@),
            valid_network_size(n),
            2 <= k <= n,
            k & ((k - 1) as usize) == 0,
            width >= 1,
            bits.len() == n,
            forall|x: int| 0 <= x < n ==> (#[trigger] bits[x]).len() == width,
            same_net(*net, net0),
            k > 2 ==> all_shared(cur@),
            sp ==> bits_track(bits@, values_of(cur@), bit_length as nat),
            sp ==> network_from(values_of(cur@), key, k as nat, n as nat) == target,
        decreases n - k,
    {
        let mut j: usize = k / 2;
        proof {
            if sp {
                assert(values_of(cur@).len() == n);
            }
        }
        while j > 0
            invariant
                n == cur.len(),
                n == vec.len(),
                net0 == *old(net),
                sp == net0.single_party(),
                key == by_low_bits(bit_length as nat),
                target == bitonic_network(values_of(vec@), key),
                !all_public(vec@),
                valid_network_size(n),
                2 <= k <= n,
                k & ((k - 1) as usize) == 0,
                j < k,
                width >= 1,
                bits.len() == n,
                forall|x: int| 0 <= x < n ==> (#[trigger] bits[x]).len() == width,
                same_net(*net, net0),
                k > 2 || j < k / 2 ==> all_shared(cur@),
                sp ==> bits_track(bits@, values_of(cur@), bit_length as nat),
                sp ==> network_from(
                    network_stage(values_of(cur@), key, k as nat, j as nat),
                    key,
                    2 * k as nat,
                    n as nat,
                ) == target,
            decreases j,
        {
            let (next, next_bits, _) = radix_level(&cur, &bits, k, j, width, bit_length, net);
            proof {
                if sp {
                    assert(network_stage(values_of(cur@), key, k as nat, j as nat)
                        == network_stage(values_of(next@), key, k as nat, (j / 2) as nat));
                }
            }
            cur = next;
            bits = next_bits;
            j = j / 2;
        }
        if k >= n {
            proof {
                if sp {
                    assert(network_from(values_of(cur@), key, 2 * k as nat, n as nat)
                        == values_of(cur@));
                }
            }
            return cur;
        }
        proof {
            assert(k < n && n & ((n - 1) as usize) == 0 && k & ((k - 1) as usize) == 0
                ==> 2 * k <= n) by (bit_vector);
            assert(k & ((k - 1) as usize) == 0 && k >= 2 ==> (2 * k) as usize & (((2 * k) as usize
                - 1) as usize) == 0) by (bit_vector);
        }
        k = k * 2;
    }
}

/// The bit vectors hold the low `bit_length` bits of the rows' keys.
spec fn key_bits_track(bits: Seq<Vec<bool>>, rows: Seq<(int, int, int)>, bit_length: nat) -> bool {
    &&& bits.len() == rows.len()
    &&& forall|x: int|
        0 <= x < bits.len() ==> bits_val((#[trigger] bits[x])@) == rows[x].0 % (two_pow(
            bit_length,
        ) as int)
}

/// Entry `c` (0, 1 or 2) of a row.
spec fn row_entry(r: (MpcField, MpcField, MpcField), c: int) -> MpcField {
    if c == 0 {
        r.0
    } else if c == 1 {
        r.1
    } else {
        r.2
    }
}

/// One level of the network with precomputed key bits on rows: as
/// `radix_level`, with the three entries of every pair moved in one batch of
/// products.
#[verifier::spinoff_prover]
#[verifier::rlimit(40)]
fn radix_level_by_key<N: MpcNet>(
    cur: &Vec<(MpcField, MpcField, MpcField)>,
    bits: &Vec<Vec<bool>>,
    k: usize,
    j: usize,
    width: usize,
    bit_length: usize,
    net: &mut N,
) -> (r: (
        Vec<(MpcField, MpcField, MpcField)>,
        Vec<Vec<bool>>,
        Ghost<(Seq<(usize, usize, bool)>, Seq<bool>, Seq<bool>)>,
    ))
    requires
        valid_network_size(cur.len()),
        1 <= j < cur.len(),
        width >= 1,
        bits.len() == cur.len(),
        forall|x: int| 0 <= x < bits.len() ==> (#[trigger] bits[x]).len() == width,
    ensures
        same_net(*final(net), *old(net)),
        level_swaps(r.2@, cur.len() as nat, k, j, old(net).king()),
        !old(net).single_party() ==> exists|nets: Seq<N>|
            #[trigger] less_runs(
                pair_views(bits@, r.2@.0, false),
                pair_views(bits@, r.2@.0, true),
                *old(net),
                nets,
                r.2@.1,
            ),
        old(net).single_party() ==> forall|p: int|
            0 <= p < r.2@.0.len() ==> #[trigger] r.2@.1[p] == (bits_val(bits[r.2@.0[p].0 as int]@)
                < bits_val(bits[r.2@.0[p].1 as int]@)),
        r.0.len() == cur.len(),
        r.1.len() == cur.len(),
        forall|x: int| 0 <= x < r.1.len() ==> (#[trigger] r.1[x]).len() == width,
        rows_shared(r.0@),
        old(net).single_party() && key_bits_track(bits@, rows_of(cur@), bit_length as nat) ==> {
            &&& rows_of(r.0@) == network_level(
                rows_of(cur@),
                by_low_bits_first(bit_length as nat),
                k as nat,
                j as nat,
            )
            &&& key_bits_track(r.1@, rows_of(r.0@), bit_length as nat)
        },
{
    let n = cur.len();
    let ghost net0 = *old(net);
    let ghost sp = net0.single_party();
    let ghost tracked_bits = key_bits_track(bits@, rows_of(cur@), bit_length as nat);
    let ghost key = by_low_bits_first(bit_length as nat);
    let (pairs, slot) = level_pairs(n, k, j);
    let np = pairs.len();
    proof {
        assert(slot@[0] < np);
    }
    let is_less = compare_pair_bits(bits, &pairs, width, net);
    let king = net.am_king();
    proof {
        if sp {
            net.lemma_single_party_is_king();
        }
    }
    let swap = swap_bits(&pairs, &is_less, king);
    let swap_arith = MpcField::batch_b2a_bool(swap.as_slice(), net);
    let mut conds: Vec<MpcField> = Vec::new();
    let mut deltas: Vec<MpcField> = Vec::new();
    let mut q: usize = 0;
    while q < np
        invariant
            np == pairs.len(),
            n == cur.len(),
            swap_arith.len() == np,
            q <= np,
            conds.len() == 3 * q,
            deltas.len() == 3 * q,
            same_net(*net, net0),
            sp == net0.single_party(),
            pairs_in_range(pairs@, n as nat),
            forall|p: int| 0 <= p < np ==> #[trigger] swap_arith[p] is Shared,
            forall|t: int| 0 <= t < 3 * q ==> #[trigger] conds[t] == swap_arith[t / 3],
            sp ==> forall|t: int|
                0 <= t < 3 * q ==> #[trigger] deltas[t].value() == fsub(
                    row_entry(cur[pairs[t / 3].1 as int], t % 3).value(),
                    row_entry(cur[pairs[t / 3].0 as int], t % 3).value(),
                ),
        decreases np - q,
    {
        let (lo, hi, _) = pairs[q];
        proof {
            assert(pairs@[q as int].0 < pairs@[q as int].1 < n);
        }
        let (ki, v1i, v2i) = cur[lo];
        let (kj, v1j, v2j) = cur[hi];
        let ghost old_c = conds@;
        let ghost old_d = deltas@;
        conds.push(swap_arith[q]);
        conds.push(swap_arith[q]);
        conds.push(swap_arith[q]);
        deltas.push(kj.sub(&ki, net));
        deltas.push(v1j.sub(&v1i, net));
        deltas.push(v2j.sub(&v2i, net));
        proof {
            assert forall|t: int| 0 <= t < 3 * q + 3 implies #[trigger] conds[t] == swap_arith[t / 3] by {
                if t < 3 * q {
                    assert(conds[t] == old_c[t]);
                }
            }
            if sp {
                assert forall|t: int| 0 <= t < 3 * q + 3 implies #[trigger] deltas[t].value() == fsub(
                    row_entry(cur[pairs[t / 3].1 as int], t % 3).value(),
                    row_entry(cur[pairs[t / 3].0 as int], t % 3).value(),
                ) by {
                    if t < 3 * q {
                        assert(deltas[t] == old_d[t]);
                    }
                }
            }
        }
        q = q + 1;
    }
    let products = MpcField::batch_mul_vec(conds, deltas, net);
    let total = products.len();
    assert(total == 3 * np);
    let mut out: Vec<(MpcField, MpcField, MpcField)> = Vec::new();
    let mut x: usize = 0;
    while x < n
        invariant
            np == pairs.len(),
            n == cur.len(),
            valid_network_size(n),
            1 <= j < n,
            bits.len() == n,
            x <= n,
            out.len() == x,
            total == products.len(),
            total == 3 * np,
            swap.len() == np,
            swap_arith.len() == np,
            is_less.len() == np,
            same_net(*net, net0),
            sp == net0.single_party(),
            tracked_bits == key_bits_track(bits@, rows_of(cur@), bit_length as nat),
            key == by_low_bits_first(bit_length as nat),
            sp ==> king,
            forall|p: int|
                0 <= p < np ==> {
                    let t = #[trigger] pairs[p];
                    &&& t.0 < t.1 < n
                    &&& t.1 == t.0 ^ j
                    &&& t.2 == ((t.0 & k) == 0)
                },
            slots_cover(pairs@, slot@, n as nat),
            forall|t: int| 0 <= t < total ==> #[trigger] products[t] is Shared,
            sp ==> forall|p: int|
                0 <= p < np ==> #[trigger] is_less[p] == (bits_val(bits[pairs[p].0 as int]@)
                    < bits_val(bits[pairs[p].1 as int]@)),
            forall|p: int|
                0 <= p < np ==> #[trigger] swap[p] == (if pairs[p].2 {
                    is_less[p] != king
                } else {
                    is_less[p]
                }),
            sp ==> forall|p: int|
                0 <= p < np ==> #[trigger] swap_arith[p].value() == bit_value(swap[p]),
            sp ==> forall|t: int|
                0 <= t < total ==> #[trigger] products[t].value() == fmul(
                    bit_value(swap[t / 3]),
                    fsub(
                        row_entry(cur[pairs[t / 3].1 as int], t % 3).value(),
                        row_entry(cur[pairs[t / 3].0 as int], t % 3).value(),
                    ),
                ),
            rows_shared(out@),
            sp && tracked_bits ==> forall|y: int|
                0 <= y < x ==> #[trigger] rows_of(out@)[y] == network_level(
                    rows_of(cur@),
                    key,
                    k as nat,
                    j as nat,
                )[y],
            sp && tracked_bits ==> forall|y: int|
                0 <= y < x ==> #[trigger] rows_of(out@)[y] == (if swap[slot[y] as int] {
                    rows_of(cur@)[other_of(pairs@, slot@, y)]
                } else {
                    rows_of(cur@)[y]
                }),
        decreases n - x,
    {
        let q = slot[x];
        let (lo, hi, asc) = pairs[q];
        proof {
            assert(slot@[x as int] < np);
            assert(3 * q + 2 < 3 * np);
        }
        let dk = products[3 * q];
        let dv1 = products[3 * q + 1];
        let dv2 = products[3 * q + 2];
        let row = if x == lo {
            (cur[lo].0.add(&dk, net), cur[lo].1.add(&dv1, net), cur[lo].2.add(&dv2, net))
        } else {
            (cur[hi].0.sub(&dk, net), cur[hi].1.sub(&dv1, net), cur[hi].2.sub(&dv2, net))
        };
        proof {
            assert(products[3 * q as int] is Shared);
            assert(products[3 * q + 1] is Shared);
            assert(products[3 * q + 2] is Shared);
            if sp && tracked_bits {
                let a = cur[lo as int];
                let b = cur[hi as int];
                let vs = rows_of(cur@);
                assert(bits_val(bits[lo as int]@) == vs[lo as int].0 % (two_pow(bit_length as nat) as int));
                assert(bits_val(bits[hi as int]@) == vs[hi as int].0 % (two_pow(bit_length as nat) as int));
                let sw = exchange_swaps(key(vs[lo as int]), key(vs[hi as int]), asc);
                assert(swap[q as int] == sw);
                assert((3 * q) / 3 == q && (3 * q) % 3 == 0);
                assert((3 * q + 1) / 3 == q && (3 * q + 1) % 3 == 1);
                assert((3 * q + 2) / 3 == q && (3 * q + 2) % 3 == 2);
                lemma_delta_exchange(sw, a.0.value(), b.0.value());
                lemma_delta_exchange(sw, a.1.value(), b.1.value());
                lemma_delta_exchange(sw, a.2.value(), b.2.value());
                lemma_xor_involution(lo, j);
                let lvl = network_level(vs, key, k as nat, j as nat);
                assert(((j as nat) as usize) == j);
                assert(((k as nat) as usize) == k);
                if x == lo {
                    assert(partner(x as int, j as nat) == hi as int);
                } else {
                    assert(x == hi);
                    assert(partner(x as int, j as nat) == lo as int);
                }
                assert(rows_of(out@.push(row))[x as int] == lvl[x as int]);
            }
        }
        let ghost old_out = out@;
        out.push(row);
        proof {
            assert forall|y: int| 0 <= y < x implies #[trigger] rows_of(out@)[y] == rows_of(old_out)[y] by {
                assert(out@[y] == old_out[y]);
            }
            assert forall|y: int| 0 <= y < out@.len() implies (#[trigger] out@[y]).0 is Shared && out@[y].1 is Shared && out@[y].2 is Shared by {
                if y < x {
                    assert(out@[y] == old_out[y]);
                }
            }
        }
        x = x + 1;
    }
    let new_bits = exchange_bits(bits, &pairs, &slot, &swap, width, net);
    proof {
        if sp && tracked_bits {
            assert(rows_of(out@) =~= network_level(rows_of(cur@), key, k as nat, j as nat));
            assert forall|y: int| 0 <= y < n implies bits_val((#[trigger] new_bits@[y])@)
                == rows_of(out@)[y].0 % (two_pow(bit_length as nat) as int) by {
                let o = other_of(pairs@, slot@, y);
                assert(0 <= o < n);
                assert(bits_val(bits[o]@) == rows_of(cur@)[o].0 % (two_pow(bit_length as nat) as int));
                assert(bits_val(bits[y]@) == rows_of(cur@)[y].0 % (two_pow(bit_length as nat) as int));
            }
        }
    }
    let ghost rec = (pairs@, is_less@, swap@);
    proof {
        assert(king == net0.king());
        assert forall|p: int| 0 <= p < rec.0.len() implies #[trigger] rec.2[p] == swap_share(
            rec.0[p].2,
            rec.1[p],
            net0.king(),
        ) by {
            assert(swap[p] == (if pairs[p].2 {
                is_less[p] != king
            } else {
                is_less[p]
            }));
        }
        assert(level_swaps(rec, n as nat, k, j, net0.king()));
    }
    (out, new_bits, Ghost(rec))
}

/// Public rows in ascending order of key, rows with equal keys in their
/// original order.
fn sort_public_rows(vec: &Vec<(MpcField, MpcField, MpcField)>) -> (r: Vec<
    (MpcField, MpcField, MpcField),
>)
    requires
        rows_public(vec@),
    ensures
        r.len() == vec.len(),
        rows_public(r@),
        is_stable_sort(rows_of(vec@), rows_of(r@), by_first()),
{
    let n = vec.len();
    let mut items: Vec<(Fe, (MpcField, MpcField, MpcField))> = Vec::new();
    let mut i: usize = 0;
    while i < n
        invariant
            n == vec.len(),
            i <= n,
            items.len() == i,
            forall|y: int|
                0 <= y < i ==> (#[trigger] items[y]).0.val() == vec[y].0.value() && items[y].1
                    == vec[y],
        decreases n - i,
    {
        items.push((vec[i].0.unwrap_as_public(), vec[i]));
        i = i + 1;
    }
    let sorted = stable_sort_by_fe(items);
    let ghost perm = choose|perm: Seq<int>|
        stable_arrangement(items@, sorted@, by_fe::<(MpcField, MpcField, MpcField)>(), perm);
    let mut out: Vec<(MpcField, MpcField, MpcField)> = Vec::new();
    i = 0;
    while i < n
        invariant
            n == vec.len(),
            sorted.len() == n,
            i <= n,
            out.len() == i,
            forall|y: int| 0 <= y < i ==> #[trigger] out[y] == sorted[y].1,
        decreases n - i,
    {
        out.push(sorted[i].1);
        i = i + 1;
    }
    proof {
        let vs = rows_of(vec@);
        let rs = rows_of(out@);
        let kf = by_fe::<(MpcField, MpcField, MpcField)>();
        assert forall|y: int| 0 <= y < n implies 0 <= #[trigger] perm[y] < n && rs[y] == vs[perm[y]]
            && out[y] == vec[perm[y]] && kf(sorted@[y]) == rs[y].0 by {
            assert(sorted@[y] == items@[perm[y]]);
        }
        assert forall|a: int, b: int| 0 <= a <= b < n implies by_first()(#[trigger] rs[a])
            <= by_first()(#[trigger] rs[b]) by {
            assert(0 <= perm[a] < n && 0 <= perm[b] < n);
            assert(kf(sorted@[a]) <= kf(sorted@[b]));
        }
        assert forall|a: int, b: int|
            0 <= a < b < n && by_first()(#[trigger] rs[a]) == by_first()(#[trigger] rs[b]) implies perm[a]
            < perm[b] by {
            assert(0 <= perm[a] < n && 0 <= perm[b] < n);
            assert(kf(sorted@[a]) == kf(sorted@[b]));
        }
        assert(stable_arrangement(vs, rs, by_first(), perm));
        assert forall|y: int| 0 <= y < n implies (#[trigger] out@[y]).0 is Public && out@[y].1 is Public
            && out@[y].2 is Public by {
            assert(out[y] == vec[perm[y]]);
        }
    }
    out
}

/// Ascending oblivious sort of rows (key, value, value) by key with the
/// bitonic network on key bits computed once (as `radix_sort`); the values
/// move with their key. Public rows are sorted locally by key, stably, and
/// stay public.
pub fn radix_sort_by_key<N: MpcNet>(
    vec: Vec<(MpcField, MpcField, MpcField)>,
    bit_length: usize,
    net: &mut N,
) -> (r: Vec<(MpcField, MpcField, MpcField)>)
    requires
        valid_network_size(vec.len()),
        bit_length >= 1 || rows_public(vec@),
    ensures
        same_net(*final(net), *old(net)),
        r.len() == vec.len(),
        rows_public(vec@) ==> rows_public(r@) && is_stable_sort(
            rows_of(vec@),
            rows_of(r@),
            by_first(),
        ),
        !rows_public(vec@) ==> rows_shared(r@),
        !rows_public(vec@) && old(net).single_party() ==> rows_of(r@) == bitonic_network(
            rows_of(vec@),
            by_low_bits_first(bit_length as nat),
        ),
{
    let n = vec.len();
    let mut public = true;
    let mut i: usize = 0;
    while i < n
        invariant
            n == vec.len(),
            i <= n,
            public == forall|y: int|
                0 <= y < i ==> (#[trigger] vec[y]).0 is Public && vec[y].1 is Public && vec[y].2 is Public,
        decreases n - i,
    {
        public = public && !vec[i].0.is_shared() && !vec[i].1.is_shared() && !vec[i].2.is_shared();
        i = i + 1;
    }
    if public {
        return sort_public_rows(&vec);
    }
    let ghost net0 = *old(net);
    let ghost sp = net0.single_party();
    let ghost key = by_low_bits_first(bit_length as nat);
    let ghost target = bitonic_network(rows_of(vec@), key);
    let mut keys: Vec<MpcField> = Vec::new();
    i = 0;
    while i < n
        invariant
            n == vec.len(),
            i <= n,
            keys.len() == i,
            forall|y: int| 0 <= y < i ==> #[trigger] keys[y] == vec[y].0,
        decreases n - i,
    {
        keys.push(vec[i].0);
        i = i + 1;
    }
    let full = MpcField::batch_bit_decompose_bool(keys.as_slice(), net);
    let mut bits = truncate_all(full, bit_length);
    let width = bits[0].len();
    proof {
        assert forall|x: int| 0 <= x < n implies (#[trigger] bits[x]).len() == width by {
            assert(full[x].len() == 253);
            assert(full[0].len() == 253);
        }
        if sp {
            assert forall|x: int| 0 <= x < n implies bits_val((#[trigger] bits@[x])@)
                == rows_of(vec@)[x].0 % (two_pow(bit_length as nat) as int) by {
                lemma_low_bits_of_decomposition(full[x]@, keys[x].value(), bit_length as nat);
            }
        }
    }
    let mut cur = vec;
    let mut k: usize = 2;
    assert(2usize & 1usize == 0) by (bit_vector);
    loop
        invariant
            n == cur.len(),
            n == vec.len(),
            net0 == *old(net),
            sp == net0.single_party(),
            key == by_low_bits_first(bit_length as nat),
            target == bitonic_network(rows_of(vec@), key),
            !rows_public(vec@),
            valid_network_size(n),
            2 <= k <= n,
            k & ((k - 1) as usize) == 0,
            width >= 1,
            bits.len() == n,
            forall|x: int| 0 <= x < n ==> (#[trigger] bits[x]).len() == width,
            same_net(*net, net0),
            k > 2 ==> rows_shared(cur@),
            sp ==> key_bits_track(bits@, rows_of(cur@), bit_length as nat),
            sp ==> network_from(rows_of(cur@), key, k as nat, n as nat) == target,
        decreases n - k,
    {
        let mut j: usize = k / 2;
        proof {
            if sp {
                assert(rows_of(cur@).len() == n);
            }
        }
        while j > 0
            invariant
                n == cur.len(),
                n == vec.len(),
                net0 == *old(net),
                sp == net0.single_party(),
                key == by_low_bits_first(bit_length as nat),
                target == bitonic_network(rows_of(vec@), key),
                !rows_public(vec@),
                valid_network_size(n),
                2 <= k <= n,
                k & ((k - 1) as usize) == 0,
                j < k,
                width >= 1,
                bits.len() == n,
                forall|x: int| 0 <= x < n ==> (#[trigger] bits[x]).len() == width,
                same_net(*net, net0),
                k > 2 || j < k / 2 ==> rows_shared(cur@),
                sp ==> key_bits_track(bits@, rows_of(cur@), bit_length as nat),
                sp ==> network_from(
                    network_stage(rows_of(cur@), key, k as nat, j as nat),
                    key,
                    2 * k as nat,
                    n as nat,
                ) == target,
            decreases j,
        {
            let (next, next_bits, _) = radix_level_by_key(
                &cur,
                &bits,
                k,
                j,
                width,
                bit_length,
                net,
            );
            proof {
                if sp {
                    assert(network_stage(rows_of(cur@), key, k as nat, j as nat)
                        == network_stage(rows_of(next@), key, k as nat, (j / 2) as nat));
                }
            }
            cur = next;
            bits = next_bits;
            j = j / 2;
        }
        if k >= n {
            proof {
                if sp {
                    assert(network_from(rows_of(cur@), key, 2 * k as nat, n as nat)
                        == rows_of(cur@));
                }
            }
            return cur;
        }
        proof {
            assert(k < n && n & ((n - 1) as usize) == 0 && k & ((k - 1) as usize) == 0
                ==> 2 * k <= n) by (bit_vector);
            assert(k & ((k - 1) as usize) == 0 && k >= 2 ==> (2 * k) as usize & (((2 * k) as usize
                - 1) as usize) == 0) by (bit_vector);
        }
        k = k * 2;
    }
}

/// `r` is `s` rearranged by the injective index map `perm`: r[i] = s[perm[i]].
pub open spec fn arranges<A>(s: Seq<A>, r: Seq<A>, perm: Seq<int>) -> bool {
    &&& r.len() == s.len()
    &&& perm.len() == s.len()
    &&& forall|i: int| 0 <= i < r.len() ==> 0 <= #[trigger] perm[i] < s.len() && r[i] == s[perm[i]]
    &&& forall|i: int, j: int| 0 <= i < j < r.len() ==> #[trigger] perm[i] != #[trigger] perm[j]
}

/// `r` holds the elements of `s`, each as often, in some order.
pub open spec fn is_arrangement<A>(s: Seq<A>, r: Seq<A>) -> bool {
    exists|perm: Seq<int>| arranges(s, r, perm)
}

proof fn lemma_arranges_refl<A>(s: Seq<A>)
    ensures
        arranges(s, s, Seq::new(s.len(), |i: int| i)),
{
}

proof fn lemma_arranges_trans<A>(s: Seq<A>, r1: Seq<A>, r2: Seq<A>, p1: Seq<int>, p2: Seq<int>)
    requires
        arranges(s, r1, p1),
        arranges(r1, r2, p2),
    ensures
        arranges(s, r2, Seq::new(s.len(), |i: int| p1[p2[i]])),
{
    let p = Seq::new(s.len(), |i: int| p1[p2[i]]);
    assert forall|i: int| 0 <= i < r2.len() implies 0 <= #[trigger] p[i] < s.len() && r2[i] == s[p[i]] by {
        assert(0 <= p2[i] < r1.len());
    }
    assert forall|i: int, j: int| 0 <= i < j < r2.len() implies #[trigger] p[i] != #[trigger] p[j] by {
        assert(p2[i] != p2[j]);
        if p2[i] < p2[j] {
            assert(p1[p2[i]] != p1[p2[j]]);
        } else {
            assert(p1[p2[j]] != p1[p2[i]]);
        }
    }
}

/// Positions x and partner(x, j) of a network of size n are distinct, in
/// range, and each other's partner.
proof fn lemma_partner(x: int, j: nat, n: nat)
    requires
        0 <= x < n,
        1 <= j < n,
        n <= usize::MAX,
        valid_network_size(n as usize),
    ensures
        0 <= partner(x, j) < n,
        partner(x, j) != x,
        partner(partner(x, j), j) == x,
{
    let xu = x as usize;
    let ju = j as usize;
    let nu = n as usize;
    lemma_xor_below_pow2(xu, ju, nu);
    lemma_xor_moves(xu, ju);
    lemma_xor_involution(xu, ju);
    assert(((xu ^ ju) as int) as usize == xu ^ ju);
}

/// A level only rearranges: each position takes its own element or its
/// partner's.
proof fn lemma_level_arranges<A>(s: Seq<A>, key: spec_fn(A) -> int, k: nat, j: nat)
    requires
        s.len() <= usize::MAX,
        valid_network_size(s.len() as usize),
        1 <= j < s.len(),
    ensures
        is_arrangement(s, network_level(s, key, k, j)),
{
    let n = s.len();
    let r = network_level(s, key, k, j);
    let swapped = |x: int|
        {
            let y = partner(x, j);
            let lo = if x < y {
                x
            } else {
                y
            };
            let hi = if x < y {
                y
            } else {
                x
            };
            exchange_swaps(key(s[lo]), key(s[hi]), ((lo as usize) & (k as usize)) == 0)
        };
    let perm = Seq::new(n, |x: int| if swapped(x) { partner(x, j) } else { x });
    assert forall|i: int| 0 <= i < r.len() implies 0 <= #[trigger] perm[i] < n && r[i] == s[perm[i]] by {
        lemma_partner(i, j, n);
    }
    assert forall|a: int, b: int| 0 <= a < b < r.len() implies #[trigger] perm[a] != #[trigger] perm[b] by {
        lemma_partner(a, j, n);
        lemma_partner(b, j, n);
        if swapped(a) && !swapped(b) {
            if partner(a, j) == b {
                assert(partner(b, j) == a);
            }
        } else if !swapped(a) && swapped(b) {
            if partner(b, j) == a {
                assert(partner(a, j) == b);
            }
        } else if swapped(a) && swapped(b) {
            if partner(a, j) == partner(b, j) {
                assert(partner(partner(a, j), j) == partner(partner(b, j), j));
            }
        }
    }
    assert(arranges(s, r, perm));
}

proof fn lemma_stage_arranges<A>(s: Seq<A>, key: spec_fn(A) -> int, k: nat, j: nat)
    requires
        s.len() <= usize::MAX,
        valid_network_size(s.len() as usize),
        j < s.len(),
    ensures
        is_arrangement(s, network_stage(s, key, k, j)),
    decreases j,
{
    if j == 0 {
        lemma_arranges_refl(s);
    } else {
        let s1 = network_level(s, key, k, j);
        lemma_level_arranges(s, key, k, j);
        let p1 = choose|p: Seq<int>| arranges(s, s1, p);
        lemma_stage_arranges(s1, key, k, j / 2);
        let r = network_stage(s1, key, k, j / 2);
        let p2 = choose|p: Seq<int>| arranges(s1, r, p);
        lemma_arranges_trans(s, s1, r, p1, p2);
    }
}

proof fn lemma_from_arranges<A>(s: Seq<A>, key: spec_fn(A) -> int, k: nat, n: nat)
    requires
        s.len() == n,
        n <= usize::MAX,
        valid_network_size(n as usize),
    ensures
        is_arrangement(s, network_from(s, key, k, n)),
    decreases (if 1 <= k <= n {
        n - k + 1
    } else {
        0
    }),
{
    if k == 0 || k > n {
        lemma_arranges_refl(s);
    } else {
        let s1 = network_stage(s, key, k, k / 2);
        lemma_stage_arranges(s, key, k, k / 2);
        let p1 = choose|p: Seq<int>| arranges(s, s1, p);
        lemma_from_arranges(s1, key, 2 * k, n);
        let r = network_from(s1, key, 2 * k, n);
        let p2 = choose|p: Seq<int>| arranges(s1, r, p);
        lemma_arranges_trans(s, s1, r, p1, p2);
    }
}

/// The network only rearranges its input: every sort in this module returns,
/// as far as its contract states the network, the input's elements (whole
/// rows for the sorts by key), each exactly as often as it came.
pub proof fn lemma_network_arranges<A>(s: Seq<A>, key: spec_fn(A) -> int)
    requires
        s.len() <= usize::MAX,
        valid_network_size(s.len() as usize),
    ensures
        is_arrangement(s, bitonic_network(s, key)),
{
    lemma_from_arranges(s, key, 2, s.len());
}

} // verus!
