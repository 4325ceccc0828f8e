//! Where a stable sort by key puts the records of the lookup permutation.
//!
//! Records are keyed (1 - flag) 2^32 + index, so that flagged records come
//! first, each group in index order; the write records are keyed so that
//! position i of the result holds the one valid write to position i.
use vstd::prelude::*;
use crate::routing::{
    flag_value, holes_before, is_run_start, lemma_arranges_multiset, lemma_select_at,
    lemma_select_distinct, lemma_select_members, lemma_select_prefix, lemma_select_splits, negated,
    select,
};
use crate::sorting::{
    arranges, bitonic_network, by_first, by_low_bits_first, is_stable_sort, lemma_network_arranges,
    sorted_by, stable_arrangement, valid_network_size,
};
use crate::network_order::lemma_network_sorts;
use crate::types::two_pow;

verus! {

/// The key of a record: its index if flagged, else 2^32 past it.
pub open spec fn flag_key(flag: bool, index: int) -> int {
    if flag {
        index
    } else {
        0x1_0000_0000 + index
    }
}

/// The positions 0 .. n - 1.
pub open spec fn positions(n: nat) -> Seq<int> {
    Seq::new(n, |i: int| i)
}

/// Records (key, value, flag) that put the entries flagged by `lead` first.
pub open spec fn grouped_rows(vals: Seq<int>, lead: Seq<bool>) -> Seq<(int, int, int)> {
    Seq::new(vals.len(), |j: int| (flag_key(lead[j], j), vals[j], flag_value(lead[j]) as int))
}

/// The values flagged by `lead`, then the others, each in order.
pub open spec fn grouped(vals: Seq<int>, lead: Seq<bool>) -> Seq<int> {
    select(vals, lead, vals.len() as int) + select(vals, negated(lead), vals.len() as int)
}

proof fn lemma_at_least(g: spec_fn(int) -> int, n: int, i: int)
    requires
        0 <= i < n,
        forall|k: int| 0 <= k < n ==> 0 <= #[trigger] g(k) < n,
        forall|a: int, b: int| 0 <= a < b < n ==> #[trigger] g(a) < #[trigger] g(b),
    ensures
        g(i) >= i,
    decreases i,
{
    if i > 0 {
        lemma_at_least(g, n, i - 1);
        assert(g(i - 1) < g(i));
    }
}

proof fn lemma_at_most(g: spec_fn(int) -> int, n: int, i: int)
    requires
        0 <= i < n,
        forall|k: int| 0 <= k < n ==> 0 <= #[trigger] g(k) < n,
        forall|a: int, b: int| 0 <= a < b < n ==> #[trigger] g(a) < #[trigger] g(b),
    ensures
        g(i) <= i,
    decreases n - i,
{
    if i < n - 1 {
        lemma_at_most(g, n, i + 1);
        assert(g(i) < g(i + 1));
    }
}

/// A stable sort by distinct keys puts each row at `pos` of it, when `pos`
/// maps rows into range in the order of their keys.
pub proof fn lemma_sorted_places<A>(
    s: Seq<A>,
    r: Seq<A>,
    key: spec_fn(A) -> int,
    pos: spec_fn(int) -> int,
)
    requires
        is_stable_sort(s, r, key),
        forall|p: int, q: int|
            0 <= p < s.len() && 0 <= q < s.len() && p != q ==> key(#[trigger] s[p]) != key(
                #[trigger] s[q],
            ),
        forall|p: int| 0 <= p < s.len() ==> 0 <= #[trigger] pos(p) < s.len(),
        forall|p: int, q: int|
            0 <= p < s.len() && 0 <= q < s.len() && key(#[trigger] s[p]) < key(#[trigger] s[q])
                ==> pos(p) < pos(q),
    ensures
        r.len() == s.len(),
        forall|q: int| 0 <= q < s.len() ==> r[#[trigger] pos(q)] == s[q],
{
    let perm = choose|perm: Seq<int>| stable_arrangement(s, r, key, perm);
    let n = s.len() as int;
    let g = |i: int| pos(perm[i]);
    assert forall|k: int| 0 <= k < n implies 0 <= #[trigger] g(k) < n by {
        assert(0 <= perm[k] < n);
    }
    assert forall|a: int, b: int| 0 <= a < b < n implies #[trigger] g(a) < #[trigger] g(b) by {
        assert(key(r[a]) <= key(r[b]));
        assert(perm[a] != perm[b]);
        assert(key(s[perm[a]]) != key(s[perm[b]]));
    }
    assert forall|q: int| 0 <= q < n implies r[#[trigger] pos(q)] == s[q] by {
        let i = pos(q);
        lemma_at_least(g, n, i);
        lemma_at_most(g, n, i);
        if perm[i] != q {
            assert(key(s[perm[i]]) != key(s[q]));
            assert(0 <= perm[i] < n);
        }
    }
}

/// A selection index below the selection's length is the count before some
/// kept entry.
pub proof fn lemma_select_index(vals: Seq<int>, keep: Seq<bool>, n: int, k: int)
    requires
        0 <= n <= vals.len(),
        keep.len() == vals.len(),
        0 <= k < select(vals, keep, n).len(),
    ensures
        exists|j: int| 0 <= j < n && keep[j] && #[trigger] select(vals, keep, j).len() == k,
    decreases n,
{
    if k < select(vals, keep, n - 1).len() {
        lemma_select_index(vals, keep, n - 1, k);
        let j = choose|j: int| 0 <= j < n - 1 && keep[j] && #[trigger] select(vals, keep, j).len() == k;
        assert(0 <= j < n && keep[j] && select(vals, keep, j).len() == k);
    } else {
        assert(keep[n - 1]);
        assert(select(vals, keep, n - 1).len() == k);
    }
}

/// Sorting the grouped records yields the flagged values, then the others,
/// with the flags in front.
#[verifier::spinoff_prover]
pub proof fn lemma_grouped_sort(vals: Seq<int>, lead: Seq<bool>, r: Seq<(int, int, int)>)
    requires
        lead.len() == vals.len(),
        vals.len() <= 0x1_0000_0000,
        is_stable_sort(grouped_rows(vals, lead), r, by_first()),
    ensures
        r.len() == vals.len(),
        forall|k: int|
            0 <= k < vals.len() ==> #[trigger] r[k].1 == grouped(vals, lead)[k] && r[k].2
                == flag_value(k < select(vals, lead, vals.len() as int).len()) as int,
{
    let n = vals.len() as int;
    let s = grouped_rows(vals, lead);
    let nl = negated(lead);
    let c = select(vals, lead, n).len() as int;
    lemma_select_splits(vals, lead, n);
    let pos = |j: int|
        if lead[j] {
            select(vals, lead, j).len() as int
        } else {
            c + select(vals, nl, j).len()
        };
    assert forall|p: int| 0 <= p < n implies 0 <= #[trigger] pos(p) < n by {
        if lead[p] {
            lemma_select_at(vals, lead, p, n);
        } else {
            assert(nl[p]);
            lemma_select_at(vals, nl, p, n);
        }
    }
    assert forall|p: int, q: int| 0 <= p < n && 0 <= q < n && p != q implies by_first()(
        #[trigger] s[p],
    ) != by_first()(#[trigger] s[q]) by {}
    assert forall|p: int, q: int|
        0 <= p < n && 0 <= q < n && by_first()(#[trigger] s[p]) < by_first()(
            #[trigger] s[q],
        ) implies pos(p) < pos(q) by {
        if lead[p] && lead[q] {
            lemma_select_prefix(vals, lead, p + 1, q);
            assert(select(vals, lead, p + 1) == select(vals, lead, p).push(vals[p]));
        } else if !lead[p] && !lead[q] {
            assert(nl[p]);
            lemma_select_prefix(vals, nl, p + 1, q);
            assert(select(vals, nl, p + 1) == select(vals, nl, p).push(vals[p]));
        } else if lead[p] {
            lemma_select_at(vals, lead, p, n);
        }
    }
    lemma_sorted_places(s, r, by_first(), pos);
    assert forall|k: int| 0 <= k < n implies #[trigger] r[k].1 == grouped(vals, lead)[k] && r[k].2
        == flag_value(k < c) as int by {
        if k < c {
            lemma_select_index(vals, lead, n, k);
            let j = choose|j: int| 0 <= j < n && lead[j] && #[trigger] select(vals, lead, j).len() == k;
            assert(pos(j) == k);
            assert(r[pos(j)] == s[j]);
            lemma_select_at(vals, lead, j, n);
        } else {
            lemma_select_index(vals, nl, n, k - c);
            let j = choose|j: int| 0 <= j < n && nl[j] && #[trigger] select(vals, nl, j).len() == k - c;
            assert(!lead[j]);
            assert(pos(j) == k);
            assert(r[pos(j)] == s[j]);
            lemma_select_at(vals, nl, j, n);
        }
    }
}

proof fn lemma_low_keys_in_place(
    s: Seq<(int, int, int)>,
    r: Seq<(int, int, int)>,
    perm: Seq<int>,
    n: int,
    idx: spec_fn(int) -> int,
    i: int,
)
    requires
        stable_arrangement(s, r, by_first(), perm),
        s.to_multiset() == r.to_multiset(),
        0 <= i < n <= s.len(),
        forall|k: int| 0 <= k < n ==> 0 <= #[trigger] idx(k) < s.len() && s[idx(k)].0 == k,
        forall|q: int|
            0 <= q < s.len() ==> (#[trigger] s[q]).0 >= 0 && (s[q].0 < n ==> q == idx(s[q].0)),
    ensures
        forall|k: int| 0 <= k <= i ==> (#[trigger] r[k]).0 == k,
    decreases i,
{
    broadcast use vstd::seq_lib::group_to_multiset_ensures;

    if i > 0 {
        lemma_low_keys_in_place(s, r, perm, n, idx, i - 1);
    }
    let row = s[idx(i)];
    assert(s.contains(row));
    assert(s.to_multiset().count(row) > 0);
    assert(r.contains(row));
    let q = choose|q: int| 0 <= q < r.len() && r[q] == row;
    if q < i {
        assert(r[q].0 == q);
    }
    assert(by_first()(r[i]) <= by_first()(r[q]));
    assert(r[i] == s[perm[i]]);
    assert(r[i].0 >= 0);
    if i > 0 {
        assert(by_first()(r[i - 1]) <= by_first()(r[i]));
        assert(r[i - 1].0 == i - 1);
        if r[i].0 == i - 1 {
            assert(perm[i] == idx(i - 1));
            assert(r[i - 1] == s[perm[i - 1]]);
            assert(perm[i - 1] == idx(i - 1));
        }
    }
}

/// A stable sort puts at position i < n the one record keyed i, when every
/// key is at least zero and the records keyed below n are exactly one per
/// key.
pub proof fn lemma_sorted_low_keys(
    s: Seq<(int, int, int)>,
    r: Seq<(int, int, int)>,
    n: int,
    idx: spec_fn(int) -> int,
)
    requires
        is_stable_sort(s, r, by_first()),
        0 <= n <= s.len(),
        forall|k: int| 0 <= k < n ==> 0 <= #[trigger] idx(k) < s.len() && s[idx(k)].0 == k,
        forall|q: int|
            0 <= q < s.len() ==> (#[trigger] s[q]).0 >= 0 && (s[q].0 < n ==> q == idx(s[q].0)),
    ensures
        forall|i: int| 0 <= i < n ==> #[trigger] r[i] == s[idx(i)],
{
    let perm = choose|perm: Seq<int>| stable_arrangement(s, r, by_first(), perm);
    lemma_arranges_multiset(s, r, perm);
    assert forall|i: int| 0 <= i < n implies #[trigger] r[i] == s[idx(i)] by {
        lemma_low_keys_in_place(s, r, perm, n, idx, i);
        assert(r[i] == s[perm[i]]);
    }
}

/// Whether each of the first n positions starts a run of the sorted queries.
pub open spec fn run_start_flags(fv: Seq<int>, n: nat) -> Seq<bool> {
    Seq::new(n, |i: int| is_run_start(fv, i))
}

/// The write records: the first n send the grouped values `gv` to the holes
/// (valid) and otherwise to the run starts (not valid); the last n send
/// each position's padded query `ffull` to it (valid at run starts).
pub open spec fn write_rows(fv: Seq<int>, gv: Seq<int>, ffull: Seq<int>, n: nat) -> Seq<
    (int, int, int),
> {
    let rs = run_start_flags(fv, n);
    let hr = grouped(positions(n), negated(rs));
    let h = select(positions(n), negated(rs), n as int).len();
    Seq::new(
        2 * n,
        |q: int|
            if q < n {
                (flag_key(q < h, hr[q]), gv[q], flag_value(q < h) as int)
            } else {
                (flag_key(rs[q - n], q - n), ffull[q - n], flag_value(rs[q - n]) as int)
            },
    )
}

/// The holes among the first k positions, counted by selection.
proof fn lemma_hole_count(fv: Seq<int>, n: nat, k: int)
    requires
        0 <= k <= n,
    ensures
        select(positions(n), negated(run_start_flags(fv, n)), k).len() == holes_before(fv, k),
    decreases k,
{
    if k > 0 {
        lemma_hole_count(fv, n, k - 1);
        assert(negated(run_start_flags(fv, n))[k - 1] == !is_run_start(fv, k - 1));
    }
}

/// Selected positions lie below the count of positions looked at.
pub proof fn lemma_select_positions(keep: Seq<bool>, n: nat, k: int)
    requires
        keep.len() == n,
        0 <= k <= n,
    ensures
        forall|i: int|
            0 <= i < select(positions(n), keep, k).len() ==> 0 <= #[trigger] select(
                positions(n),
                keep,
                k,
            )[i] < k,
    decreases k,
{
    if k > 0 {
        lemma_select_positions(keep, n, k - 1);
        let a = select(positions(n), keep, k - 1);
        if keep[k - 1] {
            assert(select(positions(n), keep, k) == a.push(positions(n)[k - 1]));
            assert(positions(n)[k - 1] == k - 1);
        } else {
            assert(select(positions(n), keep, k) == a);
        }
    }
}

/// Sorting the write records puts at every position its query where a run
/// starts, and at a hole the grouped value for that hole.
pub proof fn lemma_write_sort(
    fv: Seq<int>,
    gv: Seq<int>,
    ffull: Seq<int>,
    n: nat,
    r: Seq<(int, int, int)>,
)
    requires
        gv.len() == n,
        ffull.len() == n,
        n <= 0x1_0000_0000,
        is_stable_sort(write_rows(fv, gv, ffull, n), r, by_first()),
    ensures
        forall|i: int|
            0 <= i < n ==> (#[trigger] r[i]).1 == if is_run_start(fv, i) {
                ffull[i]
            } else {
                gv[holes_before(fv, i)]
            },
{
    let s = write_rows(fv, gv, ffull, n);
    let rs = run_start_flags(fv, n);
    let holes = negated(rs);
    let pv = positions(n);
    let hp = select(pv, holes, n as int);
    let h = hp.len() as int;
    let hr = grouped(pv, holes);
    lemma_select_splits(pv, holes, n as int);
    lemma_select_positions(holes, n, n as int);
    lemma_select_positions(negated(holes), n, n as int);
    let idx = |i: int|
        if rs[i] {
            n + i
        } else {
            holes_before(fv, i)
        };
    assert forall|k: int| 0 <= k < n implies 0 <= #[trigger] idx(k) < s.len() && s[idx(k)].0
        == k by {
        if !rs[k] {
            lemma_hole_count(fv, n, k);
            assert(holes[k]);
            lemma_select_at(pv, holes, k, n as int);
            assert(hr[holes_before(fv, k)] == hp[holes_before(fv, k)]);
        }
    }
    assert forall|q: int| 0 <= q < s.len() implies (#[trigger] s[q]).0 >= 0 && (s[q].0 < n ==> q
        == idx(s[q].0)) by {
        if q < n {
            if q < h {
                assert(hr[q] == hp[q]);
                lemma_select_index(pv, holes, n as int, q);
                let j = choose|j: int| 0 <= j < n && holes[j] && #[trigger] select(pv, holes, j).len() == q;
                lemma_select_at(pv, holes, j, n as int);
                lemma_hole_count(fv, n, j);
                assert(s[q].0 == j);
                assert(!rs[j]);
            } else {
                assert(hr[q] == select(pv, negated(holes), n as int)[q - h]);
            }
        }
    }
    lemma_sorted_low_keys(s, r, n as int, idx);
    assert forall|i: int| 0 <= i < n implies (#[trigger] r[i]).1 == if is_run_start(fv, i) {
        ffull[i]
    } else {
        gv[holes_before(fv, i)]
    } by {
        assert(r[i] == s[idx(i)]);
        if !rs[i] {
            lemma_hole_count(fv, n, i);
            assert(holes[i]);
            lemma_select_at(pv, holes, i, n as int);
        }
    }
}

/// Where no two items share a key, any arrangement in order of the key is
/// the stable sort: no two equal keys are left to keep in order.
pub proof fn lemma_distinct_keys_stable<A>(
    s: Seq<A>,
    r: Seq<A>,
    key: spec_fn(A) -> int,
    perm: Seq<int>,
)
    requires
        arranges(s, r, perm),
        sorted_by(r, key),
        forall|i: int, j: int| 0 <= i < j < s.len() ==> key(#[trigger] s[i]) != key(#[trigger] s[j]),
    ensures
        is_stable_sort(s, r, key),
{
    assert forall|i: int, j: int|
        0 <= i < j < r.len() && key(#[trigger] r[i]) == key(#[trigger] r[j]) implies perm[i]
        < perm[j] by {
        assert(r[i] == s[perm[i]]);
        assert(r[j] == s[perm[j]]);
        assert(perm[i] != perm[j]);
        if perm[i] < perm[j] {
        } else {
            assert(key(s[perm[j]]) != key(s[perm[i]]));
        }
    }
    assert(stable_arrangement(s, r, key, perm));
}

/// The bitonic network on the low bits of distinct keys that fit in them is
/// the stable sort by key.
pub proof fn lemma_network_stable_on_distinct_keys(rows: Seq<(int, int, int)>, bits: nat)
    requires
        rows.len() <= usize::MAX,
        valid_network_size(rows.len() as usize),
        forall|i: int| 0 <= i < rows.len() ==> 0 <= (#[trigger] rows[i]).0 < two_pow(bits),
        forall|i: int, j: int| 0 <= i < j < rows.len() ==> (#[trigger] rows[i]).0 != (
        #[trigger] rows[j]).0,
    ensures
        is_stable_sort(rows, bitonic_network(rows, by_low_bits_first(bits)), by_first()),
{
    let low = by_low_bits_first(bits);
    let r = bitonic_network(rows, low);
    lemma_network_sorts(rows, low);
    lemma_network_arranges(rows, low);
    let perm = choose|perm: Seq<int>| arranges(rows, r, perm);
    assert forall|i: int| 0 <= i < r.len() implies #[trigger] low(r[i]) == by_first()(r[i]) by {
        assert(r[i] == rows[perm[i]]);
        vstd::arithmetic::div_mod::lemma_small_mod(rows[perm[i]].0 as nat, two_pow(bits));
    }
    assert forall|i: int, j: int| 0 <= i <= j < r.len() implies by_first()(#[trigger] r[i])
        <= by_first()(#[trigger] r[j]) by {
        assert(low(r[i]) <= low(r[j]));
    }
    lemma_distinct_keys_stable(rows, r, by_first(), perm);
}

/// The keys of grouped records are distinct and below 2^33.
pub proof fn lemma_grouped_keys(vals: Seq<int>, lead: Seq<bool>)
    requires
        lead.len() == vals.len(),
        vals.len() <= 0x1_0000_0000,
    ensures
        forall|i: int|
            0 <= i < vals.len() ==> 0 <= (#[trigger] grouped_rows(vals, lead)[i]).0
                < 0x2_0000_0000,
        forall|i: int, j: int|
            0 <= i < j < vals.len() ==> (#[trigger] grouped_rows(vals, lead)[i]).0 != (
            #[trigger] grouped_rows(vals, lead)[j]).0,
{
}

/// The keys of the write records are distinct and below 2^33: the valid
/// writes go to the holes (first half) and to the run starts (second half),
/// the others are keyed past 2^32 by the run starts (first half) and the
/// holes (second half).
pub proof fn lemma_write_keys(fv: Seq<int>, gv: Seq<int>, ffull: Seq<int>, n: nat)
    requires
        n <= 0x1_0000_0000,
    ensures
        forall|i: int|
            0 <= i < 2 * n ==> 0 <= (#[trigger] write_rows(fv, gv, ffull, n)[i]).0
                < 0x2_0000_0000,
        forall|i: int, j: int|
            0 <= i < j < 2 * n ==> (#[trigger] write_rows(fv, gv, ffull, n)[i]).0 != (
            #[trigger] write_rows(fv, gv, ffull, n)[j]).0,
{
    let w = write_rows(fv, gv, ffull, n);
    let rs = run_start_flags(fv, n);
    let holes = negated(rs);
    let pv = positions(n);
    let a = select(pv, holes, n as int);
    let b = select(pv, negated(holes), n as int);
    let h = a.len() as int;
    let hr = grouped(pv, holes);
    lemma_select_splits(pv, holes, n as int);
    lemma_select_distinct(pv, holes, n as int);
    lemma_select_distinct(pv, negated(holes), n as int);
    assert(hr =~= a + b);
    // Where the first half's entries lie, and which flag they carry.
    assert forall|q: int| 0 <= q < n implies 0 <= #[trigger] hr[q] < n && (q < h ==> !rs[hr[q]])
        && (q >= h ==> rs[hr[q]]) by {
        if q < h {
            assert(a.contains(a[q]));
            lemma_select_members(pv, holes, n as int, a[q]);
            let j = choose|j: int| 0 <= j < n && holes[j] && #[trigger] pv[j] == a[q];
            assert(hr[q] == a[q]);
        } else {
            assert(b.contains(b[q - h]));
            lemma_select_members(pv, negated(holes), n as int, b[q - h]);
            let j = choose|j: int| 0 <= j < n && negated(holes)[j] && #[trigger] pv[j] == b[q - h];
            assert(hr[q] == b[q - h]);
        }
    }
    assert forall|i: int| 0 <= i < 2 * n implies 0 <= (#[trigger] w[i]).0 < 0x2_0000_0000 by {
        if i < n {
            assert(0 <= hr[i] < n);
        }
    }
    assert forall|i: int, j: int| 0 <= i < j < 2 * n implies (#[trigger] w[i]).0 != (
    #[trigger] w[j]).0 by {
        if j < n {
            assert(0 <= hr[i] < n && 0 <= hr[j] < n);
            if i < h && j < h {
                assert(a[i] != a[j]);
                assert(hr[i] == a[i] && hr[j] == a[j]);
            } else if i >= h && j >= h {
                assert(b[i - h] != b[j - h]);
                assert(hr[i] == b[i - h] && hr[j] == b[j - h]);
            } else {
                assert(i < h && j >= h);
            }
        } else if i < n {
            assert(0 <= hr[i] < n);
            let x = j - n;
            if i < h {
                if rs[x] {
                    assert(!rs[hr[i]]);
                    assert(hr[i] != x);
                }
            } else {
                if !rs[x] {
                    assert(rs[hr[i]]);
                    assert(hr[i] != x);
                }
            }
        }
    }
}

} // verus!
