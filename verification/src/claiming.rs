//! The claiming and filling steps of the pairwise lookup permutation.
//!
//! Flags are field elements zero or one, combined by multiplication (and)
//! and by subtraction from one (not), so that every step is oblivious.
//! For public inputs the steps compute the routing of `routing.rs`.
use vstd::prelude::*;
use vstd::arithmetic::div_mod::lemma_small_mod;
use crate::bit_ops::same_net;
use crate::field::{fadd, fmul, fsub, lemma_val_lt_modulus, modulus, Fe};
use crate::mpc_field::MpcField;
use crate::net::MpcNet;
use crate::routing::{
    ascending, claims_first, first_index, flag_value, holes_before, is_run_start, lemma_holes_and_runs,
    lemma_select_at,
    negated, routed, routed_table, select,
};
use crate::sorting::{all_public, values_of};
use crate::routing::no_zero_divisors;

verus! {

broadcast use lemma_val_lt_modulus;

/// The product of a flag and a value is the value or zero.
pub(crate) proof fn lemma_flag_mul(a: nat, b: nat)
    requires
        a <= 1,
        b < modulus(),
    ensures
        fmul(a, b) == if a == 1 {
            b
        } else {
            0
        },
{
    if a == 0 {
        assert(a * b == 0);
        lemma_small_mod(0, modulus());
    } else {
        assert(a * b == b);
        lemma_small_mod(b, modulus());
    }
}

/// One minus a flag is the other flag.
pub(crate) proof fn lemma_flag_not(a: nat)
    requires
        a <= 1,
    ensures
        fsub(1, a) == 1 - a,
{
    lemma_small_mod((1 - a) as nat, modulus());
}

/// A sum below the modulus does not wrap.
pub(crate) proof fn lemma_small_add(a: nat, b: nat)
    requires
        a + b < modulus(),
    ensures
        fadd(a, b) == a + b,
{
    lemma_small_mod(a + b, modulus());
}

/// The flags say where the sorted queries `fv` start runs.
pub open spec fn run_flags(v: Seq<MpcField>, fv: Seq<int>) -> bool {
    forall|i: int| 0 <= i < v.len() ==> #[trigger] v[i].value() == flag_value(is_run_start(fv, i))
}

/// Table entry `j` is the first equal to a query among the first `i`.
pub open spec fn claimed_upto(tv: Seq<int>, fv: Seq<int>, i: int, j: int) -> bool {
    first_index(tv, j) && fv.take(i).contains(tv[j])
}

/// A run start of ascending values is larger than every value before it.
proof fn lemma_run_start_fresh(fv: Seq<int>, i: int)
    requires
        ascending(fv),
        is_run_start(fv, i),
    ensures
        !fv.take(i).contains(fv[i]),
{
    if fv.take(i).contains(fv[i]) {
        let q = choose|q: int| 0 <= q < fv.take(i).len() && fv.take(i)[q] == fv[i];
        assert(fv[q] <= fv[i - 1]);
        assert(fv[i - 1] <= fv[i]);
    }
}

/// Claims up to query `i + 1` from those up to `i`.
proof fn lemma_claimed_step(tv: Seq<int>, fv: Seq<int>, i: int, j: int)
    requires
        0 <= i < fv.len(),
        0 <= j < tv.len(),
    ensures
        claimed_upto(tv, fv, i + 1, j) == (claimed_upto(tv, fv, i, j) || (is_run_start(fv, i)
            && first_index(tv, j) && tv[j] == fv[i])),
{
    let a = fv.take(i);
    let b = fv.take(i + 1);
    assert(b =~= a.push(fv[i]));
    let x = tv[j];
    assert(b.contains(x) == (a.contains(x) || x == fv[i])) by {
        if b.contains(x) && x != fv[i] {
            let q = choose|q: int| 0 <= q < b.len() && b[q] == x;
            assert(a[q] == x);
        }
        if a.contains(x) {
            let q = choose|q: int| 0 <= q < a.len() && a[q] == x;
            assert(b[q] == x);
        }
        if x == fv[i] {
            assert(b[i] == x);
        }
    }
    if !is_run_start(fv, i) && x == fv[i] {
        assert(a[i - 1] == x);
    }
}

/// Every run start among the sorted queries claims the first table entry
/// equal to it that is still unused. The result flags (one) the entries no
/// run start claimed.
pub(crate) fn claim_first_occurrences<N: MpcNet>(
    n: usize,
    t: &[MpcField],
    f_prime: &Vec<MpcField>,
    f_double: &Vec<MpcField>,
    net: &mut N,
) -> (unused: Vec<MpcField>)
    requires
        f_prime.len() <= n <= t.len(),
        f_double.len() == n,
    ensures
        same_net(*final(net), *old(net)),
        unused.len() == n,
        all_public(t@) && all_public(f_prime@) && all_public(f_double@) ==> all_public(unused@),
        (all_public(t@) && all_public(f_prime@) && all_public(f_double@) || old(net).single_party()
            && no_zero_divisors()) && ascending(values_of(f_prime@)) && run_flags(
            f_double@,
            values_of(f_prime@),
        ) ==> forall|j: int|
            0 <= j < n ==> #[trigger] unused[j].value() == flag_value(
                !claims_first(values_of(t@).take(n as int), values_of(f_prime@))[j],
            ),
{
    let ghost net0 = *old(net);
    let ghost tv = values_of(t@).take(n as int);
    let ghost fv = values_of(f_prime@);
    let ghost pubs = all_public(t@) && all_public(f_prime@) && all_public(f_double@);
    let ghost exact = (pubs || net0.single_party() && no_zero_divisors()) && ascending(fv)
        && run_flags(f_double@, fv);
    let one = MpcField::Public(Fe::one());
    let zero = MpcField::Public(Fe::zero());
    let m = f_prime.len();
    let mut unused: Vec<MpcField> = Vec::new();
    let mut i: usize = 0;
    while i < n
        invariant
            i <= n,
            unused.len() == i,
            one is Public,
            one.value() == 1,
            forall|k: int| 0 <= k < i ==> #[trigger] unused[k] == one,
        decreases n - i,
    {
        unused.push(one);
        i = i + 1;
    }
    proof {
        if exact {
            assert forall|j: int| 0 <= j < n implies #[trigger] unused[j].value() == flag_value(
                !claimed_upto(tv, fv, 0, j),
            ) by {
                assert(unused[j] == one);
            }
        }
    }
    i = 0;
    while i < m
        invariant
            i <= m,
            m == f_prime.len(),
            m <= n,
            n <= t.len(),
            f_double.len() == n,
            unused.len() == n,
            one is Public,
            one.value() == 1,
            zero is Public,
            zero.value() == 0,
            same_net(*net, net0),
            tv == values_of(t@).take(n as int),
            fv == values_of(f_prime@),
            pubs == (all_public(t@) && all_public(f_prime@) && all_public(f_double@)),
            exact == ((pubs || net0.single_party() && no_zero_divisors()) && ascending(fv) && run_flags(
                f_double@,
                fv,
            )),
            pubs ==> all_public(unused@),
            exact ==> forall|j: int|
                0 <= j < n ==> #[trigger] unused[j].value() == flag_value(
                    !claimed_upto(tv, fv, i as int, j),
                ),
        decreases m - i,
    {
        let mut found = zero;
        let mut j: usize = 0;
        proof {
            if exact && is_run_start(fv, i as int) {
                lemma_run_start_fresh(fv, i as int);
            }
        }
        while j < n
            invariant
                j <= n,
                i < m,
                m == f_prime.len(),
                m <= n,
                n <= t.len(),
                f_double.len() == n,
                unused.len() == n,
                one is Public,
                one.value() == 1,
                same_net(*net, net0),
                tv == values_of(t@).take(n as int),
                fv == values_of(f_prime@),
                pubs == (all_public(t@) && all_public(f_prime@) && all_public(f_double@)),
                exact == ((pubs || net0.single_party() && no_zero_divisors()) && ascending(fv) && run_flags(
                f_double@,
                fv,
            )),
                pubs ==> all_public(unused@),
                pubs ==> found is Public,
                exact && is_run_start(fv, i as int) ==> !fv.take(i as int).contains(fv[i as int]),
                exact ==> found.value() == flag_value(
                    is_run_start(fv, i as int) && exists|j2: int|
                        0 <= j2 < j && #[trigger] tv[j2] == fv[i as int],
                ),
                exact ==> forall|j2: int|
                    0 <= j2 < n ==> #[trigger] unused[j2].value() == flag_value(
                        !(claimed_upto(tv, fv, i as int, j2) || (j2 < j && is_run_start(
                            fv,
                            i as int,
                        ) && first_index(tv, j2) && tv[j2] == fv[i as int])),
                    ),
            decreases n - j,
        {
            let c1 = t[j].secure_eq(&f_prime[i], net);
            let c12 = c1.mul(&unused[j], net);
            let condition = c12.mul(&f_double[i], net);
            let not_found = one.sub(&found, net);
            let cont = condition.mul(&not_found, net);
            let not_cont = one.sub(&cont, net);
            let new_unused = not_cont.mul(&unused[j], net);
            let ghost u = unused[j as int].value();
            let ghost d = f_double[i as int].value();
            let ghost fd = found.value();
            proof {
                if exact {
                    assert(t[j as int].value() == tv[j as int]);
                    assert(f_prime[i as int].value() == fv[i as int]);
                    assert(d == flag_value(is_run_start(fv, i as int)));
                    lemma_flag_mul(c1.value(), u);
                    lemma_flag_mul(c12.value(), d);
                    lemma_flag_not(fd);
                    lemma_flag_mul(condition.value(), not_found.value());
                    lemma_flag_not(cont.value());
                    lemma_flag_mul(not_cont.value(), u);
                    lemma_small_add(fd, cont.value());
                    let run = is_run_start(fv, i as int);
                    let hit = tv[j as int] == fv[i as int];
                    if run && hit {
                        assert(!claimed_upto(tv, fv, i as int, j as int));
                        assert(u == 1);
                        if fd == 0 {
                            assert forall|k: int| 0 <= k < j implies tv[k] != tv[j as int] by {
                                if tv[k] == tv[j as int] {
                                    assert(exists|j2: int|
                                        0 <= j2 < j && #[trigger] tv[j2] == fv[i as int]);
                                }
                            }
                            assert(first_index(tv, j as int));
                        } else {
                            let j2 = choose|j2: int| 0 <= j2 < j && #[trigger] tv[j2] == fv[i as int];
                            assert(!first_index(tv, j as int));
                        }
                    }
                    if run && hit && fd == 0 {
                        assert(exists|j2: int| 0 <= j2 < j + 1 && #[trigger] tv[j2] == fv[i as int]);
                    }
                    if run && hit && fd == 1 {
                        assert(exists|j2: int| 0 <= j2 < j + 1 && #[trigger] tv[j2] == fv[i as int]);
                    }
                    if run && !hit && fd == 1 {
                        let j2 = choose|j2: int| 0 <= j2 < j && #[trigger] tv[j2] == fv[i as int];
                        assert(exists|j3: int| 0 <= j3 < j + 1 && #[trigger] tv[j3] == fv[i as int]);
                    }
                    if run && !hit && fd == 0 {
                        assert(!exists|j2: int| 0 <= j2 < j + 1 && #[trigger] tv[j2] == fv[i as int]);
                    }
                }
            }
            unused.set(j, new_unused);
            found = found.add(&cont, net);
            j = j + 1;
        }
        proof {
            if exact {
                assert forall|j2: int| 0 <= j2 < n implies #[trigger] unused[j2].value() == flag_value(
                    !claimed_upto(tv, fv, i + 1, j2),
                ) by {
                    lemma_claimed_step(tv, fv, i as int, j2);
                }
            }
        }
        i = i + 1;
    }
    proof {
        if exact {
            assert(fv.take(m as int) =~= fv);
            assert forall|j: int| 0 <= j < n implies #[trigger] unused[j].value() == flag_value(
                !claims_first(tv, fv)[j],
            ) by {
                assert(claims_first(tv, fv)[j] == claimed_upto(tv, fv, m as int, j));
            }
        }
    }
    unused
}

/// How many unclaimed entries the holes before position `i` have taken.
pub open spec fn consumed(fv: Seq<int>, unclaimed: int, i: int) -> int {
    if holes_before(fv, i) < unclaimed {
        holes_before(fv, i)
    } else {
        unclaimed
    }
}

/// The state before the filling step, on the values (as a lone party sees
/// them, or public ones): t' holds the run starts' queries and zeros, the
/// fill mask flags the run starts, and the unused flags are those of the
/// entries `keep` does not claim.
pub open spec fn fill_ready(
    t: Seq<MpcField>,
    tp: Seq<MpcField>,
    fill: Seq<MpcField>,
    unused: Seq<MpcField>,
    fv: Seq<int>,
    keep: Seq<bool>,
    n: int,
) -> bool {
    &&& n <= t.len() && keep.len() == n && tp.len() == n && fill.len() == n && unused.len() == n
    &&& forall|i: int|
        0 <= i < n ==> #[trigger] tp[i].value() == if is_run_start(fv, i) {
            fv[i]
        } else {
            0
        }
    &&& run_flags(fill, fv)
    &&& forall|j: int| 0 <= j < n ==> #[trigger] unused[j].value() == flag_value(!keep[j])
}

/// Every position not yet filled takes the first table entry still unused,
/// in order.
pub(crate) fn fill_holes<N: MpcNet>(
    n: usize,
    t: &[MpcField],
    t_prime: &mut Vec<MpcField>,
    fill_mask: &mut Vec<MpcField>,
    unused: &mut Vec<MpcField>,
    net: &mut N,
    Ghost(fv): Ghost<Seq<int>>,
    Ghost(keep): Ghost<Seq<bool>>,
)
    requires
        n <= t.len(),
        old(t_prime).len() == n,
        old(fill_mask).len() == n,
        old(unused).len() == n,
    ensures
        same_net(*final(net), *old(net)),
        final(t_prime).len() == n,
        all_public(t@) && all_public(old(t_prime)@) && all_public(old(fill_mask)@) && all_public(
            old(unused)@,
        ) ==> all_public(final(t_prime)@),
        (all_public(t@) && all_public(old(t_prime)@) && all_public(old(fill_mask)@) && all_public(
            old(unused)@,
        ) || old(net).single_party()) && fill_ready(
            t@,
            old(t_prime)@,
            old(fill_mask)@,
            old(unused)@,
            fv,
            keep,
            n as int,
        ) ==> values_of(final(t_prime)@) == routed_table(
            fv,
            select(values_of(t@).take(n as int), negated(keep), n as int),
            n as nat,
        ),
{
    let ghost net0 = *old(net);
    let ghost tv = values_of(t@).take(n as int);
    let ghost ul = select(tv, negated(keep), n as int);
    let ghost pubs = all_public(t@) && all_public(t_prime@) && all_public(fill_mask@) && all_public(
        unused@,
    );
    let ghost exact = (pubs || net0.single_party()) && fill_ready(
        t@,
        t_prime@,
        fill_mask@,
        unused@,
        fv,
        keep,
        n as int,
    );
    let one = MpcField::Public(Fe::one());
    let zero = MpcField::Public(Fe::zero());
    let mut i: usize = 0;
    while i < n
        invariant
            i <= n,
            n <= t.len(),
            t_prime.len() == n,
            fill_mask.len() == n,
            unused.len() == n,
            one is Public,
            one.value() == 1,
            zero is Public,
            zero.value() == 0,
            same_net(*net, net0),
            tv == values_of(t@).take(n as int),
            ul == select(tv, negated(keep), n as int),
            pubs ==> all_public(t@) && all_public(t_prime@) && all_public(fill_mask@) && all_public(
                unused@,
            ),
            exact ==> keep.len() == n && (pubs || net0.single_party()),
            exact ==> forall|k: int|
                0 <= k < n ==> #[trigger] t_prime[k].value() == if k < i {
                    routed(fv, ul, k)
                } else if is_run_start(fv, k) {
                    fv[k]
                } else {
                    0
                },
            exact ==> forall|k: int|
                i <= k < n ==> #[trigger] fill_mask[k].value() == flag_value(is_run_start(fv, k)),
            exact ==> forall|j: int|
                0 <= j < n ==> #[trigger] unused[j].value() == flag_value(
                    !keep[j] && select(tv, negated(keep), j).len() >= consumed(
                        fv,
                        ul.len() as int,
                        i as int,
                    ),
                ),
        decreases n - i,
    {
        let mut found = zero;
        let outer = one.sub(&fill_mask[i], net);
        let ghost c = consumed(fv, ul.len() as int, i as int);
        let ghost run = is_run_start(fv, i as int);
        proof {
            if exact {
                lemma_flag_not(fill_mask[i as int].value());
                lemma_holes_and_runs(fv, i as int);
                assert(select(tv, negated(keep), 0).len() == 0);
            }
        }
        let mut j: usize = 0;
        while j < n
            invariant
                j <= n,
                i < n,
                n <= t.len(),
                t_prime.len() == n,
                fill_mask.len() == n,
                unused.len() == n,
                one is Public,
                one.value() == 1,
                same_net(*net, net0),
                tv == values_of(t@).take(n as int),
                ul == select(tv, negated(keep), n as int),
                c == consumed(fv, ul.len() as int, i as int),
                run == is_run_start(fv, i as int),
                pubs ==> all_public(t@) && all_public(t_prime@) && all_public(fill_mask@)
                    && all_public(unused@),
                pubs ==> found is Public && outer is Public,
                exact ==> keep.len() == n && (pubs || net0.single_party()),
                exact ==> outer.value() == flag_value(!run),
                exact ==> found.value() == flag_value(
                    !run && select(tv, negated(keep), j as int).len() > c,
                ),
                exact ==> forall|k: int|
                    0 <= k < n && k != i ==> #[trigger] t_prime[k].value() == if k < i {
                        routed(fv, ul, k)
                    } else if is_run_start(fv, k) {
                        fv[k]
                    } else {
                        0
                    },
                exact ==> t_prime[i as int].value() == if run {
                    fv[i as int]
                } else if select(tv, negated(keep), j as int).len() > c {
                    ul[c]
                } else {
                    0
                },
                exact ==> forall|k: int|
                    i <= k < n ==> #[trigger] fill_mask[k].value() == flag_value(
                        is_run_start(fv, k),
                    ),
                exact ==> forall|j2: int|
                    0 <= j2 < n ==> #[trigger] unused[j2].value() == flag_value(
                        !keep[j2] && select(tv, negated(keep), j2).len() >= c && !(j2 < j && !run
                            && select(tv, negated(keep), j2).len() == c),
                    ),
            decreases n - j,
        {
            let c12 = outer.mul(&unused[j], net);
            let not_found = one.sub(&found, net);
            let inner = c12.mul(&not_found, net);
            let not_inner = one.sub(&inner, net);
            let new_unused = unused[j].mul(&not_inner, net);
            let left = inner.mul(&t[j], net);
            let right = not_inner.mul(&t_prime[i], net);
            let ghost u = unused[j as int].value();
            let ghost fd = found.value();
            let ghost rank = select(tv, negated(keep), j as int).len();
            proof {
                if exact {
                    assert(t[j as int].value() == tv[j as int]);
                    lemma_flag_mul(outer.value(), u);
                    lemma_flag_not(fd);
                    lemma_flag_mul(c12.value(), not_found.value());
                    lemma_flag_not(inner.value());
                    lemma_flag_mul(u, not_inner.value());
                    lemma_flag_mul(inner.value(), t[j as int].value());
                    lemma_flag_mul(not_inner.value(), t_prime[i as int].value());
                    lemma_small_add(fd, inner.value());
                    assert(negated(keep)[j as int] == !keep[j as int]);
                    if !keep[j as int] {
                        lemma_select_at(tv, negated(keep), j as int, n as int);
                        assert(select(tv, negated(keep), j + 1) == select(
                            tv,
                            negated(keep),
                            j as int,
                        ).push(tv[j as int]));
                    } else {
                        assert(select(tv, negated(keep), j + 1) == select(
                            tv,
                            negated(keep),
                            j as int,
                        ));
                    }
                    if !run && u == 1 && fd == 0 {
                        assert(rank == c);
                        assert(ul[c] == tv[j as int]);
                    }
                }
            }
            unused.set(j, new_unused);
            t_prime.set(i, left.add(&right, net));
            proof {
                if exact {
                    lemma_small_add(left.value(), right.value());
                }
            }
            found = found.add(&inner, net);
            j = j + 1;
        }
        let filled = fill_mask[i].add(&found, net);
        fill_mask.set(i, filled);
        proof {
            if exact {
                let hb = holes_before(fv, i as int);
                assert(holes_before(fv, i + 1) == if run {
                    hb
                } else {
                    hb + 1
                });
                assert(select(tv, negated(keep), n as int).len() == ul.len());
                assert(c <= ul.len());
                assert forall|j2: int| 0 <= j2 < n implies #[trigger] unused[j2].value()
                    == flag_value(
                    !keep[j2] && select(tv, negated(keep), j2).len() >= consumed(
                        fv,
                        ul.len() as int,
                        i + 1,
                    ),
                ) by {
                    assert(negated(keep)[j2] == !keep[j2]);
                    if !keep[j2] {
                        lemma_select_at(tv, negated(keep), j2, n as int);
                    }
                }
                assert(t_prime[i as int].value() == routed(fv, ul, i as int));
            }
        }
        i = i + 1;
    }
    proof {
        if exact {
            assert(values_of(t_prime@) =~= routed_table(fv, ul, n as nat));
        }
    }
}

} // verus!
