//! How a lookup permutation places values, stated over integers.
//!
//! With f' the sorted queries and t the table, the permuted table t' holds at
//! every position where f' starts a run its value, and at the other positions
//! ("holes", in order) the table entries that no run start claims, in table
//! order. The lemmas here show that such a t' holds exactly the table's
//! values, each as often.
use vstd::prelude::*;
use crate::permutation::{lookup_outputs_ok, starts_run};
use crate::sorting::{arranges, by_value, is_stable_sort};
use crate::field::modulus;
use crate::poly::roots_prod;

verus! {

/// The values never decrease.
pub open spec fn ascending(s: Seq<int>) -> bool {
    forall|i: int, j: int| 0 <= i <= j < s.len() ==> s[i] <= s[j]
}

/// Position `i` of `fv` exists and starts a run of equal values.
pub open spec fn is_run_start(fv: Seq<int>, i: int) -> bool {
    0 <= i < fv.len() && starts_run(fv, i)
}

/// The values at the run starts among the first `k` positions, in order.
pub open spec fn run_values(fv: Seq<int>, k: int) -> Seq<int>
    decreases k,
{
    if k <= 0 {
        Seq::empty()
    } else if is_run_start(fv, k - 1) {
        run_values(fv, k - 1).push(fv[k - 1])
    } else {
        run_values(fv, k - 1)
    }
}

/// How many of the first `k` positions are not run starts.
pub open spec fn holes_before(fv: Seq<int>, k: int) -> int
    decreases k,
{
    if k <= 0 {
        0
    } else if is_run_start(fv, k - 1) {
        holes_before(fv, k - 1)
    } else {
        holes_before(fv, k - 1) + 1
    }
}

/// The entries among the first `k` of `tv` whose flag in `keep` is set, in
/// order.
pub open spec fn select(tv: Seq<int>, keep: Seq<bool>, k: int) -> Seq<int>
    decreases k,
{
    if k <= 0 {
        Seq::empty()
    } else if keep[k - 1] {
        select(tv, keep, k - 1).push(tv[k - 1])
    } else {
        select(tv, keep, k - 1)
    }
}

/// Every flag flipped.
pub open spec fn negated(keep: Seq<bool>) -> Seq<bool> {
    Seq::new(keep.len(), |i: int| !keep[i])
}

/// The value placed at position `i`: the query where a run starts, else the
/// next of `rest` (zero once `rest` is used up).
pub open spec fn routed(fv: Seq<int>, rest: Seq<int>, i: int) -> int {
    if is_run_start(fv, i) {
        fv[i]
    } else if holes_before(fv, i) < rest.len() {
        rest[holes_before(fv, i)]
    } else {
        0
    }
}

/// The first `n` placed values.
pub open spec fn routed_table(fv: Seq<int>, rest: Seq<int>, n: nat) -> Seq<int> {
    Seq::new(n, |i: int| routed(fv, rest, i))
}

pub proof fn lemma_holes_and_runs(fv: Seq<int>, k: int)
    requires
        k >= 0,
    ensures
        holes_before(fv, k) + run_values(fv, k).len() == k,
        holes_before(fv, k) >= 0,
    decreases k,
{
    if k > 0 {
        lemma_holes_and_runs(fv, k - 1);
    }
}

proof fn lemma_no_runs_past_end(fv: Seq<int>, k: int)
    requires
        k >= fv.len(),
    ensures
        run_values(fv, k) == run_values(fv, fv.len() as int),
    decreases k,
{
    if k > fv.len() {
        lemma_no_runs_past_end(fv, k - 1);
    }
}

pub proof fn lemma_select_splits(tv: Seq<int>, keep: Seq<bool>, k: int)
    requires
        0 <= k <= tv.len(),
        keep.len() == tv.len(),
    ensures
        select(tv, keep, k).len() + select(tv, negated(keep), k).len() == k,
        select(tv, keep, k).to_multiset().add(select(tv, negated(keep), k).to_multiset())
            == tv.take(k).to_multiset(),
    decreases k,
{
    broadcast use vstd::multiset::group_multiset_axioms;
    broadcast use vstd::seq_lib::group_to_multiset_ensures;

    if k == 0 {
        assert(tv.take(0) =~= Seq::<int>::empty());
        assert(select(tv, keep, 0).to_multiset().add(select(tv, negated(keep), 0).to_multiset())
            =~= tv.take(0).to_multiset());
    } else {
        lemma_select_splits(tv, keep, k - 1);
        assert(tv.take(k) =~= tv.take(k - 1).push(tv[k - 1]));
        let a = select(tv, keep, k - 1);
        let b = select(tv, negated(keep), k - 1);
        if keep[k - 1] {
            assert(select(tv, keep, k) == a.push(tv[k - 1]));
            assert(select(tv, negated(keep), k) == b);
            assert(a.push(tv[k - 1]).to_multiset().add(b.to_multiset()) =~= a.to_multiset().add(
                b.to_multiset(),
            ).insert(tv[k - 1]));
        } else {
            assert(select(tv, keep, k) == a);
            assert(select(tv, negated(keep), k) == b.push(tv[k - 1]));
            assert(a.to_multiset().add(b.push(tv[k - 1]).to_multiset()) =~= a.to_multiset().add(
                b.to_multiset(),
            ).insert(tv[k - 1]));
        }
    }
}

/// Entries of `select` are entries of `tv` with their flag set.
pub proof fn lemma_select_members(tv: Seq<int>, keep: Seq<bool>, k: int, x: int)
    requires
        0 <= k <= tv.len(),
        keep.len() == tv.len(),
    ensures
        select(tv, keep, k).contains(x) <==> exists|j: int|
            0 <= j < k && keep[j] && #[trigger] tv[j] == x,
    decreases k,
{
    if k > 0 {
        lemma_select_members(tv, keep, k - 1, x);
        let a = select(tv, keep, k - 1);
        if keep[k - 1] {
            let s2 = a.push(tv[k - 1]);
            assert(select(tv, keep, k) == s2);
            if s2.contains(x) {
                if x != tv[k - 1] {
                    let q = choose|q: int| 0 <= q < s2.len() && s2[q] == x;
                    assert(a[q] == x);
                    assert(a.contains(x));
                }
            }
            if exists|j: int| 0 <= j < k && keep[j] && #[trigger] tv[j] == x {
                if x != tv[k - 1] {
                    let j = choose|j: int| 0 <= j < k && keep[j] && #[trigger] tv[j] == x;
                    assert(j < k - 1);
                    let q = choose|q: int| 0 <= q < a.len() && a[q] == x;
                    assert(s2[q] == x);
                } else {
                    assert(s2[a.len() as int] == x);
                }
            }
        } else {
            if exists|j: int| 0 <= j < k && keep[j] && #[trigger] tv[j] == x {
                let j = choose|j: int| 0 <= j < k && keep[j] && #[trigger] tv[j] == x;
                assert(j < k - 1);
            }
        }
    }
}

/// The run values are strictly ascending and are the values among the first
/// `k` queries.
proof fn lemma_run_values(fv: Seq<int>, k: int)
    requires
        ascending(fv),
        0 <= k <= fv.len(),
    ensures
        forall|i: int, j: int|
            0 <= i < j < run_values(fv, k).len() ==> run_values(fv, k)[i] < run_values(fv, k)[j],
        forall|x: int| run_values(fv, k).contains(x) <==> fv.take(k).contains(x),
    decreases k,
{
    if k > 0 {
        lemma_run_values(fv, k - 1);
        let r = run_values(fv, k - 1);
        let v = fv[k - 1];
        let tk = fv.take(k);
        let tk1 = fv.take(k - 1);
        assert forall|x: int| tk.contains(x) <==> (tk1.contains(x) || x == v) by {
            if tk.contains(x) {
                let q = choose|q: int| 0 <= q < tk.len() && tk[q] == x;
                if q < k - 1 {
                    assert(tk1[q] == x);
                }
            }
            if tk1.contains(x) {
                let q = choose|q: int| 0 <= q < tk1.len() && tk1[q] == x;
                assert(tk[q] == x);
            }
            if x == v {
                assert(tk[k - 1] == x);
            }
        }
        if is_run_start(fv, k - 1) {
            assert(run_values(fv, k) == r.push(v));
            assert forall|i: int| 0 <= i < r.len() implies r[i] < v by {
                assert(r.contains(r[i]));
                let q = choose|q: int| 0 <= q < tk1.len() && tk1[q] == r[i];
                assert(fv[q] <= fv[k - 2]);
                assert(fv[k - 2] <= v);
            }
            let rp = r.push(v);
            assert forall|x: int| rp.contains(x) <==> (r.contains(x) || x == v) by {
                if rp.contains(x) && x != v {
                    let q = choose|q: int| 0 <= q < rp.len() && rp[q] == x;
                    assert(r[q] == x);
                }
                if r.contains(x) {
                    let q = choose|q: int| 0 <= q < r.len() && r[q] == x;
                    assert(rp[q] == x);
                }
                if x == v {
                    assert(rp[r.len() as int] == x);
                }
            }
        } else {
            assert(k >= 2 && fv[k - 1] == fv[k - 2]);
            assert(tk1[k - 2] == v);
        }
    }
}

/// Two duplicate-free sequences with the same members hold the same values,
/// each once.
proof fn lemma_same_members_same_multiset(a: Seq<int>, b: Seq<int>)
    requires
        a.no_duplicates(),
        b.no_duplicates(),
        forall|x: int| a.contains(x) <==> b.contains(x),
    ensures
        a.to_multiset() == b.to_multiset(),
{
    broadcast use vstd::seq_lib::group_to_multiset_ensures;

    a.lemma_multiset_has_no_duplicates();
    b.lemma_multiset_has_no_duplicates();
    assert forall|x: int| a.to_multiset().count(x) == b.to_multiset().count(x) by {
        if a.contains(x) {
            assert(a.to_multiset().contains(x));
            assert(b.to_multiset().contains(x));
        }
    }
    assert(a.to_multiset() =~= b.to_multiset());
}

proof fn lemma_routed_prefix(fv: Seq<int>, rest: Seq<int>, k: int)
    requires
        0 <= k,
        holes_before(fv, k) <= rest.len(),
    ensures
        routed_table(fv, rest, k as nat).to_multiset() == run_values(fv, k).to_multiset().add(
            rest.take(holes_before(fv, k)).to_multiset(),
        ),
    decreases k,
{
    broadcast use vstd::multiset::group_multiset_axioms;
    broadcast use vstd::seq_lib::group_to_multiset_ensures;

    if k == 0 {
        assert(routed_table(fv, rest, 0) =~= Seq::<int>::empty());
        assert(rest.take(0) =~= Seq::<int>::empty());
        assert(routed_table(fv, rest, 0).to_multiset() =~= run_values(fv, 0).to_multiset().add(
            rest.take(0).to_multiset(),
        ));
    } else {
        lemma_holes_and_runs(fv, k - 1);
        let h = holes_before(fv, k - 1);
        assert(holes_before(fv, k - 1) <= holes_before(fv, k));
        lemma_routed_prefix(fv, rest, k - 1);
        let prev = routed_table(fv, rest, (k - 1) as nat);
        assert(routed_table(fv, rest, k as nat) =~= prev.push(routed(fv, rest, k - 1)));
        let r = run_values(fv, k - 1);
        if is_run_start(fv, k - 1) {
            assert(run_values(fv, k) == r.push(fv[k - 1]));
            assert(r.push(fv[k - 1]).to_multiset().add(rest.take(h).to_multiset()) =~= r.to_multiset().add(
                rest.take(h).to_multiset(),
            ).insert(fv[k - 1]));
        } else {
            assert(rest.take(h + 1) =~= rest.take(h).push(rest[h]));
            assert(r.to_multiset().add(rest.take(h).push(rest[h]).to_multiset()) =~= r.to_multiset().add(
                rest.take(h).to_multiset(),
            ).insert(rest[h]));
        }
    }
}

/// The routing lemma. Let `keep` flag the table entries that the run starts
/// of the sorted queries claim, such that the claimed entries are distinct
/// and are exactly the query values. Then the table routed from the queries
/// and the unclaimed entries holds the table's values, each as often, and
/// the unclaimed entries exactly fill the holes.
pub proof fn lemma_routed_table_permutes(tv: Seq<int>, fv: Seq<int>, keep: Seq<bool>)
    requires
        fv.len() <= tv.len(),
        keep.len() == tv.len(),
        ascending(fv),
        select(tv, keep, tv.len() as int).no_duplicates(),
        forall|x: int| select(tv, keep, tv.len() as int).contains(x) <==> fv.contains(x),
    ensures
        routed_table(fv, select(tv, negated(keep), tv.len() as int), tv.len()).to_multiset()
            == tv.to_multiset(),
        holes_before(fv, tv.len() as int) == select(tv, negated(keep), tv.len() as int).len(),
{
    broadcast use vstd::multiset::group_multiset_axioms;
    broadcast use vstd::seq_lib::group_to_multiset_ensures;

    let n = tv.len() as int;
    let m = fv.len() as int;
    let cl = select(tv, keep, n);
    let ul = select(tv, negated(keep), n);
    lemma_run_values(fv, m);
    let rv = run_values(fv, m);
    assert(fv.take(m) =~= fv);
    assert(rv.no_duplicates()) by {
        assert forall|i: int, j: int| 0 <= i < rv.len() && 0 <= j < rv.len() && i != j implies rv[i]
            != rv[j] by {
            if i < j {
                assert(rv[i] < rv[j]);
            } else {
                assert(rv[j] < rv[i]);
            }
        }
    }
    lemma_same_members_same_multiset(cl, rv);
    assert(cl.len() == rv.len()) by {
        vstd::seq_lib::to_multiset_len(cl);
        vstd::seq_lib::to_multiset_len(rv);
    }
    lemma_no_runs_past_end(fv, n);
    lemma_holes_and_runs(fv, n);
    lemma_select_splits(tv, keep, n);
    assert(tv.take(n) =~= tv);
    lemma_routed_prefix(fv, ul, n);
    assert(ul.take(ul.len() as int) =~= ul);
}

/// No earlier entry of `tv` equals entry `j`.
pub open spec fn first_index(tv: Seq<int>, j: int) -> bool {
    forall|k: int| 0 <= k < j ==> tv[k] != tv[j]
}

/// The table entries that the run starts of `fv` claim when each claims the
/// first entry equal to it: first occurrences of query values.
pub open spec fn claims_first(tv: Seq<int>, fv: Seq<int>) -> Seq<bool> {
    Seq::new(tv.len(), |j: int| first_index(tv, j) && fv.contains(tv[j]))
}

/// The table entries equal to some query.
pub open spec fn claims_all(tv: Seq<int>, fv: Seq<int>) -> Seq<bool> {
    Seq::new(tv.len(), |j: int| fv.contains(tv[j]))
}

/// One for true, zero for false.
pub open spec fn flag_value(b: bool) -> nat {
    if b {
        1
    } else {
        0
    }
}

/// A shorter selection is a prefix of a longer one.
pub proof fn lemma_select_prefix(tv: Seq<int>, keep: Seq<bool>, k: int, n: int)
    requires
        0 <= k <= n <= tv.len(),
        keep.len() == tv.len(),
    ensures
        select(tv, keep, k).len() <= select(tv, keep, n).len(),
        forall|i: int|
            0 <= i < select(tv, keep, k).len() ==> select(tv, keep, n)[i] == select(tv, keep, k)[i],
    decreases n - k,
{
    if k < n {
        lemma_select_prefix(tv, keep, k, n - 1);
    }
}

/// A kept entry sits in the selection at the number of kept entries before
/// it.
pub proof fn lemma_select_at(tv: Seq<int>, keep: Seq<bool>, j: int, n: int)
    requires
        0 <= j < n <= tv.len(),
        keep.len() == tv.len(),
        keep[j],
    ensures
        select(tv, keep, j).len() < select(tv, keep, n).len(),
        select(tv, keep, n)[select(tv, keep, j).len() as int] == tv[j],
{
    lemma_select_prefix(tv, keep, j + 1, n);
    assert(select(tv, keep, j + 1) == select(tv, keep, j).push(tv[j]));
}

/// Kept entries that are pairwise different give a selection without
/// duplicates.
pub proof fn lemma_select_distinct(tv: Seq<int>, keep: Seq<bool>, k: int)
    requires
        0 <= k <= tv.len(),
        keep.len() == tv.len(),
        forall|i: int, j: int| 0 <= i < j < k && keep[i] && keep[j] ==> tv[i] != tv[j],
    ensures
        select(tv, keep, k).no_duplicates(),
    decreases k,
{
    if k > 0 {
        lemma_select_distinct(tv, keep, k - 1);
        let a = select(tv, keep, k - 1);
        if keep[k - 1] {
            let x = tv[k - 1];
            if a.contains(x) {
                lemma_select_members(tv, keep, k - 1, x);
                let j = choose|j: int| 0 <= j < k - 1 && keep[j] && #[trigger] tv[j] == x;
                assert(false);
            }
            let s2 = a.push(x);
            assert forall|i: int, j: int| 0 <= i < s2.len() && 0 <= j < s2.len() && i != j implies s2[i]
                != s2[j] by {
                if i == a.len() {
                    assert(a.contains(s2[j]));
                } else if j == a.len() {
                    assert(a.contains(s2[i]));
                }
            }
        }
    }
}

proof fn lemma_first_index_exists(tv: Seq<int>, x: int, k: int)
    requires
        0 <= k <= tv.len(),
        exists|j: int| 0 <= j < k && tv[j] == x,
    ensures
        exists|j: int| 0 <= j < k && tv[j] == x && #[trigger] first_index(tv, j),
    decreases k,
{
    if exists|j: int| 0 <= j < k - 1 && tv[j] == x {
        lemma_first_index_exists(tv, x, k - 1);
        let j = choose|j: int| 0 <= j < k - 1 && tv[j] == x && #[trigger] first_index(tv, j);
        assert(0 <= j < k && tv[j] == x && first_index(tv, j));
    } else {
        assert(tv[k - 1] == x);
        assert(first_index(tv, k - 1));
    }
}

/// Claiming first occurrences meets the routing lemma's conditions when
/// every query is a table entry.
pub proof fn lemma_claims_first_select(tv: Seq<int>, fv: Seq<int>)
    requires
        forall|x: int| fv.contains(x) ==> tv.contains(x),
    ensures
        select(tv, claims_first(tv, fv), tv.len() as int).no_duplicates(),
        forall|x: int| select(tv, claims_first(tv, fv), tv.len() as int).contains(x) <==> fv.contains(x),
{
    let keep = claims_first(tv, fv);
    let n = tv.len() as int;
    assert forall|i: int, j: int| 0 <= i < j < n && keep[i] && keep[j] implies tv[i] != tv[j] by {
        assert(first_index(tv, j));
    }
    lemma_select_distinct(tv, keep, n);
    assert forall|x: int| select(tv, keep, n).contains(x) <==> fv.contains(x) by {
        lemma_select_members(tv, keep, n, x);
        if fv.contains(x) {
            assert(tv.contains(x));
            let q = choose|q: int| 0 <= q < tv.len() && tv[q] == x;
            assert(tv[q] == x);
            lemma_first_index_exists(tv, x, n);
            let j = choose|j: int| 0 <= j < n && tv[j] == x && #[trigger] first_index(tv, j);
            assert(keep[j]);
        }
        if select(tv, keep, n).contains(x) {
            let j = choose|j: int| 0 <= j < n && keep[j] && #[trigger] tv[j] == x;
            assert(fv.contains(tv[j]));
        }
    }
}

/// Claiming every entry equal to a query meets the routing lemma's
/// conditions when the table entries are distinct and every query is one.
pub proof fn lemma_claims_all_select(tv: Seq<int>, fv: Seq<int>)
    requires
        tv.no_duplicates(),
        forall|x: int| fv.contains(x) ==> tv.contains(x),
    ensures
        select(tv, claims_all(tv, fv), tv.len() as int).no_duplicates(),
        forall|x: int| select(tv, claims_all(tv, fv), tv.len() as int).contains(x) <==> fv.contains(x),
{
    let keep = claims_all(tv, fv);
    let n = tv.len() as int;
    lemma_select_distinct(tv, keep, n);
    assert forall|x: int| select(tv, keep, n).contains(x) <==> fv.contains(x) by {
        lemma_select_members(tv, keep, n, x);
        if fv.contains(x) {
            assert(tv.contains(x));
            let q = choose|q: int| 0 <= q < tv.len() && tv[q] == x;
            assert(keep[q] && tv[q] == x);
        }
        if select(tv, keep, n).contains(x) {
            let j = choose|j: int| 0 <= j < n && keep[j] && #[trigger] tv[j] == x;
            assert(fv.contains(tv[j]));
        }
    }
}

/// An arrangement holds the same values, each as often.
pub proof fn lemma_arranges_multiset<A>(s: Seq<A>, r: Seq<A>, perm: Seq<int>)
    requires
        arranges(s, r, perm),
    ensures
        s.to_multiset() == r.to_multiset(),
    decreases r.len(),
{
    broadcast use vstd::multiset::group_multiset_axioms;
    broadcast use vstd::seq_lib::group_to_multiset_ensures;

    if r.len() == 0 {
        assert(s.len() == 0);
        assert(s =~= r);
    } else {
        let n = r.len() - 1;
        let k = perm[n];
        let s2 = s.remove(k);
        let r2 = r.drop_last();
        let p2 = Seq::new(n as nat, |i: int| if perm[i] < k { perm[i] } else { perm[i] - 1 });
        assert forall|i: int| 0 <= i < r2.len() implies 0 <= #[trigger] p2[i] < s2.len() && r2[i]
            == s2[p2[i]] by {
            assert(perm[i] != perm[n]);
        }
        assert forall|i: int, j: int| 0 <= i < j < r2.len() implies #[trigger] p2[i] != #[trigger] p2[j] by {
            assert(perm[i] != perm[j]);
            assert(perm[i] != k && perm[j] != k);
        }
        assert(arranges(s2, r2, p2));
        lemma_arranges_multiset(s2, r2, p2);
        assert(r =~= r2.push(r[n]));
        assert(s.to_multiset() =~= s2.to_multiset().insert(s[k]));
    }
}

/// A stable sort by value holds the same values, each as often, ascending.
pub proof fn lemma_stable_sort_by_value(s: Seq<int>, r: Seq<int>)
    requires
        is_stable_sort(s, r, by_value()),
    ensures
        s.to_multiset() == r.to_multiset(),
        ascending(r),
        r.len() == s.len(),
{
    let perm = choose|perm: Seq<int>| crate::sorting::stable_arrangement(s, r, by_value(), perm);
    assert(arranges(s, r, perm));
    lemma_arranges_multiset(s, r, perm);
    assert forall|i: int, j: int| 0 <= i <= j < r.len() implies r[i] <= r[j] by {
        assert(by_value()(r[i]) <= by_value()(r[j]));
    }
}

/// The lookup relation for a routed table: if the queries `fv` are the
/// values of `f` in ascending order, the claimed table entries are distinct
/// and are exactly the query values, and `tp` is routed from the queries and
/// the unclaimed entries, then (tp, fv) are valid outputs for table `tv` and
/// queries `f`.
pub proof fn lemma_routed_outputs_ok(
    tv: Seq<int>,
    f: Seq<int>,
    fv: Seq<int>,
    keep: Seq<bool>,
    tp: Seq<int>,
)
    requires
        f.len() <= tv.len(),
        keep.len() == tv.len(),
        f.to_multiset() == fv.to_multiset(),
        ascending(fv),
        fv.len() == f.len(),
        select(tv, keep, tv.len() as int).no_duplicates(),
        forall|x: int| select(tv, keep, tv.len() as int).contains(x) <==> fv.contains(x),
        tp == routed_table(fv, select(tv, negated(keep), tv.len() as int), tv.len()),
    ensures
        lookup_outputs_ok(tv.len(), f.len(), tv, f, tp, fv),
{
    lemma_routed_table_permutes(tv, fv, keep);
    assert forall|i: int| 0 <= i < f.len() && #[trigger] starts_run(fv, i) implies i < tp.len()
        && fv[i] == tp[i] by {
        assert(is_run_start(fv, i));
    }
}

/// A product of two nonzero residues is nonzero: true of the field, whose
/// order is prime, and assumed where the polynomial method's outcome rests
/// on it.
pub open spec fn no_zero_divisors() -> bool {
    forall|a: int, b: int|
        0 < a < modulus() && 0 < b < modulus() ==> #[trigger] ((a * b) % (modulus() as int)) != 0
}

/// The product of (x - q) over the queries q is zero in the field.
pub open spec fn vanishes_at(fv: Seq<int>, x: int) -> bool {
    roots_prod(fv, x) % (modulus() as int) == 0
}

/// The table entries at which the queries' product does not vanish: those
/// the polynomial method takes as unused.
pub open spec fn nonroot_flags(tv: Seq<int>, fv: Seq<int>) -> Seq<bool> {
    Seq::new(tv.len(), |j: int| !vanishes_at(fv, tv[j]))
}

/// In a field without zero divisors the product vanishes exactly at the
/// queries.
pub proof fn lemma_vanishes_iff_query(fv: Seq<int>, x: int)
    requires
        no_zero_divisors(),
        0 <= x < modulus(),
        forall|i: int| 0 <= i < fv.len() ==> 0 <= #[trigger] fv[i] < modulus(),
    ensures
        vanishes_at(fv, x) <==> fv.contains(x),
    decreases fv.len(),
{
    let p = modulus() as int;
    if fv.len() == 0 {
        vstd::arithmetic::div_mod::lemma_small_mod(1, modulus());
    } else {
        let rest = fv.drop_first();
        lemma_vanishes_iff_query(rest, x);
        let a = x - fv[0];
        let b = roots_prod(rest, x);
        assert(roots_prod(fv, x) == a * b);
        vstd::arithmetic::div_mod::lemma_mul_mod_noop_general(a, b, p);
        assert(fv.contains(x) <==> (x == fv[0] || rest.contains(x))) by {
            if fv.contains(x) && x != fv[0] {
                let q = choose|q: int| 0 <= q < fv.len() && fv[q] == x;
                assert(rest[q - 1] == x);
            }
            if rest.contains(x) {
                let q = choose|q: int| 0 <= q < rest.len() && rest[q] == x;
                assert(fv[q + 1] == x);
            }
            if x == fv[0] {
                assert(fv[0] == x);
            }
        }
        if x == fv[0] {
            assert(a * b == 0);
        } else {
            let ar = a % p;
            assert(0 < ar < p) by {
                if a > 0 {
                    vstd::arithmetic::div_mod::lemma_small_mod(a as nat, modulus());
                } else {
                    vstd::arithmetic::div_mod::lemma_fundamental_div_mod_converse(a, p, -1, a + p);
                }
            }
            let br = b % p;
            if br == 0 {
                assert(ar * br == 0);
                assert((ar * br) % p == 0);
            } else {
                assert(0 < br < p);
                assert((ar * br) % p != 0);
            }
        }
    }
}

/// Holes never decrease in number.
pub proof fn lemma_holes_monotone(fv: Seq<int>, i: int, j: int)
    requires
        0 <= i <= j,
    ensures
        holes_before(fv, i) <= holes_before(fv, j),
    decreases j - i,
{
    if i < j {
        lemma_holes_monotone(fv, i, j - 1);
    }
}

/// When the holes are exactly as many as the unclaimed entries, routing
/// the unclaimed entries followed by the claimed ones is routing the
/// unclaimed ones.
pub proof fn lemma_routing_ignores_tail(fv: Seq<int>, ul: Seq<int>, cl: Seq<int>, n: nat)
    requires
        holes_before(fv, n as int) == ul.len(),
    ensures
        routed_table(fv, ul + cl, n) == routed_table(fv, ul, n),
{
    assert forall|i: int| 0 <= i < n implies routed(fv, ul + cl, i) == routed(fv, ul, i) by {
        if !is_run_start(fv, i) {
            lemma_holes_monotone(fv, i + 1, n as int);
            assert(holes_before(fv, i + 1) == holes_before(fv, i) + 1);
            lemma_holes_and_runs(fv, i);
            assert((ul + cl)[holes_before(fv, i)] == ul[holes_before(fv, i)]);
        }
    }
    assert(routed_table(fv, ul + cl, n) =~= routed_table(fv, ul, n));
}

} // verus!
