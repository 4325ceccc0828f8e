//! Oblivious lookup permutation.
//!
//! Given a table t (n entries) and queries f (m entries, every query a table
//! entry), find f' (the queries sorted) and t' (the table rearranged) such
//! that wherever f' starts a run of equal queries, t' holds the same value
//! at the same position: the permuted columns of a lookup argument.
//!
//! `secure_oblivious_lookup_permutation` finds the table entries that no
//! query uses as the points where the queries' product polynomial does not
//! vanish, and routes values to positions by three sorts on keys
//! (1 - flag) 2^32 + index. `naive_secure_oblivious_lookup_permutation`
//! finds them by comparing every query with every table entry.
use vstd::prelude::*;
use crate::bit_ops::same_net;
use crate::compare::modulus_num_bits;
use crate::field::{Fe, lemma_val_lt_modulus};
use crate::mpc_field::MpcField;
use crate::net::MpcNet;
use crate::poly::{build_subproduct_tree, multipoint_eval};
use crate::sorting::{
    all_public, all_shared, bitonic_network, by_first, by_low_bits, by_value, is_stable_sort, radix_sort,
    radix_sort_by_key, rows_public, valid_network_size, values_of,
};
use crate::claiming::{
    claim_first_occurrences, fill_holes, lemma_flag_mul, lemma_flag_not, lemma_small_add, run_flags,
};
use crate::field::{fmul, modulus};
use crate::placement::{
    flag_key, grouped, grouped_rows, lemma_grouped_keys, lemma_grouped_sort,
    lemma_network_stable_on_distinct_keys, lemma_select_positions, lemma_write_keys,
    lemma_write_sort, positions, run_start_flags, write_rows,
};
use crate::poly::{node_roots, peval, roots_prod};
use crate::routing::{
    claims_all, claims_first, flag_value, holes_before, is_run_start, lemma_claims_all_select,
    lemma_claims_first_select, lemma_holes_and_runs, lemma_holes_monotone, lemma_routed_outputs_ok,
    lemma_routed_table_permutes, lemma_routing_ignores_tail, lemma_select_splits,
    lemma_stable_sort_by_value, lemma_vanishes_iff_query, negated, no_zero_divisors,
    nonroot_flags, routed, routed_table, select, ascending, first_index,
};
use crate::sorting::{rows_of, sorted_by};
use crate::types::two_pow;
use crate::network_order::lemma_network_sorts;
use crate::sorting::lemma_network_arranges;
use crate::routing::lemma_arranges_multiset;
use crate::compare::lemma_two_pow_253;

verus! {

/// The bitonic network on the low 253 bits sorts field values by value and
/// keeps each value as often as it was.
proof fn lemma_low_bits_network_sorts(vals: Seq<int>)
    requires
        vals.len() <= usize::MAX,
        valid_network_size(vals.len() as usize),
        forall|i: int| 0 <= i < vals.len() ==> 0 <= #[trigger] vals[i] < modulus(),
    ensures
        sorted_by(bitonic_network(vals, by_low_bits(253)), by_value()),
        bitonic_network(vals, by_low_bits(253)).to_multiset() == vals.to_multiset(),
{
    let key = by_low_bits(253);
    let r = bitonic_network(vals, key);
    lemma_network_sorts(vals, key);
    lemma_network_arranges(vals, key);
    let perm = choose|perm: Seq<int>| crate::sorting::arranges(vals, r, perm);
    lemma_arranges_multiset(vals, r, perm);
    lemma_two_pow_253();
    assert forall|i: int| 0 <= i < r.len() implies #[trigger] key(r[i]) == r[i] by {
        let q = perm[i];
        assert(r[i] == vals[q]);
        vstd::arithmetic::div_mod::lemma_small_mod(vals[q] as nat, two_pow(253));
    }
    assert forall|i: int, j: int| 0 <= i <= j < r.len() implies by_value()(#[trigger] r[i])
        <= by_value()(#[trigger] r[j]) by {
        assert(key(r[i]) <= key(r[j]));
        assert(key(r[i]) == r[i]);
        assert(key(r[j]) == r[j]);
    }
}

broadcast use lemma_val_lt_modulus;

/// `r` is `v` cut or padded with public zeros to `len` entries.
pub open spec fn is_resized(v: Seq<MpcField>, r: Seq<MpcField>, len: nat) -> bool {
    &&& r.len() == len
    &&& forall|i: int|
        0 <= i < len ==> if i < v.len() {
            #[trigger] r[i] == v[i]
        } else {
            r[i] is Public && r[i].value() == 0
        }
}

/// The values of the queries cut or padded with zeros to `m`.
pub open spec fn query_values(f: Seq<MpcField>, m: nat) -> Seq<int> {
    Seq::new(m, |i: int| if i < f.len() { f[i].value() as int } else { 0 })
}

/// The record keys, below 2^33, fit in the bits the records are sorted by.
proof fn lemma_record_key_room()
    ensures
        two_pow(RECORD_KEY_BITS as nat) >= 0x2_0000_0000,
{
    reveal_with_fuel(two_pow, 35);
}

/// The kept queries' values are field values.
proof fn lemma_query_values_bounded(f: Seq<MpcField>, m: nat)
    ensures
        forall|i: int| 0 <= i < m ==> 0 <= #[trigger] query_values(f, m)[i] < modulus(),
{
    assert forall|i: int| 0 <= i < m implies 0 <= #[trigger] query_values(f, m)[i] < modulus() by {
        if i < f.len() {
            match f[i] {
                MpcField::Public(x) => x.lemma_val_bound(),
                MpcField::Shared(sh) => sh.val.lemma_val_bound(),
            }
        }
    }
}

/// The first `m` queries (all that are kept) are public.
pub open spec fn queries_public(f: Seq<MpcField>, m: nat) -> bool {
    forall|i: int| 0 <= i < m && i < f.len() ==> #[trigger] f[i] is Public
}

proof fn lemma_resized_views(f: Seq<MpcField>, q: Seq<MpcField>, m: nat)
    requires
        is_resized(f, q, m),
    ensures
        values_of(q) == query_values(f, m),
        all_public(q) <==> queries_public(f, m),
{
    assert(values_of(q) =~= query_values(f, m));
    if queries_public(f, m) {
        assert forall|i: int| 0 <= i < q.len() implies #[trigger] q[i] is Public by {
            if i < f.len() {
                assert(f[i] is Public);
            }
        }
    }
    if all_public(q) {
        assert forall|i: int| 0 <= i < m && i < f.len() implies #[trigger] f[i] is Public by {
            assert(q[i] is Public);
        }
    }
}

/// The multiplier that puts flagged records (flag one) before the others
/// when sorting by (1 - flag) 2^32 + index.
pub const SORT_KEY_MULTIPLIER: u64 = 0x1_0000_0000u64;

/// The number of key bits the record sorts compare.
pub const RECORD_KEY_BITS: usize = 34;

/// A copy of the first `len` entries of `v`, padded with public zeros.
fn resize_copy(v: &[MpcField], len: usize) -> (r: Vec<MpcField>)
    ensures
        is_resized(v@, r@, len as nat),
{
    let mut out: Vec<MpcField> = Vec::new();
    let mut i: usize = 0;
    while i < len
        invariant
            i <= len,
            out.len() == i,
            forall|k: int|
                0 <= k < i ==> if k < v.len() {
                    #[trigger] out[k] == v[k]
                } else {
                    out[k] is Public && out[k].value() == 0
                },
        decreases len - i,
    {
        if i < v.len() {
            out.push(v[i]);
        } else {
            out.push(MpcField::Public(Fe::zero()));
        }
        i = i + 1;
    }
    out
}

/// The key (1 - flag) 2^32 + index of a record.
fn record_key<N: MpcNet>(flag: &MpcField, index: &MpcField, net: &mut N) -> (r: MpcField)
    ensures
        same_net(*final(net), *old(net)),
        *flag is Public && *index is Public ==> r is Public,
        (*flag is Public && *index is Public || old(net).single_party()) && flag.value() <= 1
            && index.value() < 0x1_0000_0000_0000_0000 ==> r.value() == flag_key(
            flag.value() == 1,
            index.value() as int,
        ),
{
    let ghost exact = (*flag is Public && *index is Public || old(net).single_party());
    let one = MpcField::Public(Fe::one());
    let large = MpcField::Public(Fe::from_u64(SORT_KEY_MULTIPLIER));
    let rest = one.sub(flag, net);
    let scaled = rest.mul(&large, net);
    proof {
        if exact && flag.value() <= 1 {
            lemma_flag_not(flag.value());
            lemma_flag_mul(rest.value(), large.value());
            assert(rest.value() * 0x1_0000_0000 <= 0x1_0000_0000);
            assert(fmul(rest.value(), large.value()) == rest.value() * 0x1_0000_0000) by {
                lemma_flag_mul(rest.value(), large.value());
            }
        }
    }
    let r = scaled.add(index, net);
    proof {
        if exact && flag.value() <= 1 && index.value() < 0x1_0000_0000_0000_0000 {
            lemma_small_add(scaled.value(), index.value());
        }
    }
    r
}

/// Public field value of an index.
fn index_value(j: usize) -> (r: MpcField)
    ensures
        r is Public,
        r.value() == j,
{
    MpcField::Public(Fe::from_u64(j as u64))
}

/// The table entries that the polynomial method routes first (those where
/// the queries' product does not vanish), then the others, each in table
/// order.
pub open spec fn unused_first(t: Seq<MpcField>, n: int, fv: Seq<int>) -> Seq<int> {
    grouped(table_values(t, n), nonroot_flags(table_values(t, n), fv))
}

/// The oblivious lookup permutation: (t', f') for a table of `n` entries and
/// `m` queries (powers of two, 2 <= m <= n). f' is the queries sorted; t'
/// holds at each position that starts a run of equal queries in f' that
/// query, and elsewhere the table entries that no query uses, in table
/// order. Only the first `n` table entries are placed; the queries are cut
/// or padded with zeros to `m`. For public inputs (and n <= 2^32, so that
/// the record keys do not collide) t' is exactly that routing with "unused"
/// meaning "the queries' product does not vanish there"; when moreover the
/// table entries are distinct, every query is one, and the field has no
/// zero divisors, the outputs satisfy the lookup relation.
#[verifier::spinoff_prover]
pub fn secure_oblivious_lookup_permutation<N: MpcNet>(
    n: usize,
    m: usize,
    t: &[MpcField],
    f: &[MpcField],
    net: &mut N,
) -> (r: (Vec<MpcField>, Vec<MpcField>))
    requires
        2 <= m <= n,
        valid_network_size(m),
        valid_network_size(n),
        t.len() >= n,
        4 * t.len() + 8 <= usize::MAX,
    ensures
        same_net(*final(net), *old(net)),
        r.0.len() == n,
        r.1.len() == m,
        queries_public(f@, m as nat) ==> all_public(r.1@) && is_stable_sort(
            query_values(f@, m as nat),
            values_of(r.1@),
            by_value(),
        ),
        !queries_public(f@, m as nat) ==> all_shared(r.1@),
        !queries_public(f@, m as nat) && old(net).single_party() ==> values_of(r.1@)
            == bitonic_network(query_values(f@, m as nat), by_low_bits(253)),
        !queries_public(f@, m as nat) && old(net).single_party() ==> sorted_by(
            values_of(r.1@),
            by_value(),
        ) && values_of(r.1@).to_multiset() == query_values(f@, m as nat).to_multiset(),
        queries_public(f@, m as nat) && all_public(t@) ==> all_public(r.0@),
        queries_public(f@, m as nat) && all_public(t@) && n <= 0x1_0000_0000 ==> values_of(r.0@)
            == routed_table(values_of(r.1@), unused_first(t@, n as int, values_of(r.1@)), n as nat),
        old(net).single_party() && no_zero_divisors() && n <= 0x1_0000_0000 ==> values_of(r.0@)
            == routed_table(values_of(r.1@), unused_first(t@, n as int, values_of(r.1@)), n as nat),
        f.len() == m && old(net).single_party() && queries_in_table(f@, t@, n as int) && table_values(
            t@,
            n as int,
        ).no_duplicates() && no_zero_divisors() && n <= 0x1_0000_0000 ==> lookup_outputs_ok(
            n as nat,
            m as nat,
            table_values(t@, n as int),
            values_of(f@),
            values_of(r.0@),
            values_of(r.1@),
        ),
        f.len() == m && all_public(f@) && all_public(t@) && queries_in_table(f@, t@, n as int)
            && table_values(t@, n as int).no_duplicates() && no_zero_divisors() && n
            <= 0x1_0000_0000 ==> lookup_outputs_ok(
            n as nat,
            m as nat,
            table_values(t@, n as int),
            values_of(f@),
            values_of(r.0@),
            values_of(r.1@),
        ),
{
    let ghost net0 = *old(net);
    let ghost pubs_t = all_public(t@);
    let one = MpcField::Public(Fe::one());
    let zero = MpcField::Public(Fe::zero());
    // Step 1: sort the queries.
    let f_sized = resize_copy(f, m);
    proof {
        lemma_resized_views(f@, f_sized@, m as nat);
    }
    let ghost pubs = pubs_t && all_public(f_sized@);
    let ghost vx = pubs || (net0.single_party() && no_zero_divisors());
    let ghost ex = vx && n <= 0x1_0000_0000;
    let f_prime = radix_sort(f_sized, modulus_num_bits(), net);
    let ghost fv = values_of(f_prime@);
    proof {
        if all_public(f_sized@) {
            lemma_stable_sort_by_value(values_of(f_sized@), fv);
        } else if net0.single_party() {
            lemma_query_values_bounded(f@, m as nat);
            lemma_low_bits_network_sorts(values_of(f_sized@));
            assert forall|a: int, b: int| 0 <= a <= b < fv.len() implies fv[a] <= fv[b] by {
                assert(by_value()(fv[a]) <= by_value()(fv[b]));
            }
        }
    }
    let f_prime_full = resize_copy(f_prime.as_slice(), n);
    let ghost ffull = values_of(f_prime_full@);
    proof {
        if pubs {
            assert forall|i: int| 0 <= i < n implies #[trigger] f_prime_full[i] is Public by {
                if i < m {
                    assert(f_prime[i] is Public);
                }
            }
        }
    }
    // Step 2: first-occurrence indicators.
    let mut f_double: Vec<MpcField> = Vec::new();
    f_double.push(one);
    let mut i: usize = 1;
    while i < n
        invariant
            1 <= i <= n,
            m <= n,
            f_prime.len() == m,
            f_double.len() == i,
            f_prime_full.len() == n,
            one is Public,
            one.value() == 1,
            zero is Public,
            zero.value() == 0,
            same_net(*net, net0),
            fv == values_of(f_prime@),
            is_resized(f_prime@, f_prime_full@, n as nat),
            pubs ==> all_public(f_prime_full@),
            pubs ==> all_public(f_double@),
            vx == (pubs || (net0.single_party() && no_zero_divisors())),
            vx ==> run_flags(f_double@, fv),
        decreases n - i,
    {
        let is_before_m = if i < m {
            one
        } else {
            zero
        };
        let eq = f_prime_full[i].secure_eq(&f_prime_full[i - 1], net);
        let ne = one.sub(&eq, net);
        let fd = ne.mul(&is_before_m, net);
        proof {
            if vx {
                lemma_flag_not(eq.value());
                lemma_flag_mul(ne.value(), is_before_m.value());
                lemma_flag_mul(is_before_m.value(), ne.value());
                assert(fmul(ne.value(), is_before_m.value()) == fmul(is_before_m.value(), ne.value()))
                    by {
                    assert(ne.value() * is_before_m.value() == is_before_m.value() * ne.value())
                        by (nonlinear_arith);
                }
                if i < m {
                    assert(f_prime_full[i as int] == f_prime[i as int]);
                    assert(f_prime_full[i - 1] == f_prime[i - 1]);
                }
            }
        }
        f_double.push(fd);
        i = i + 1;
    }
    // Step 3: the queries' product polynomial.
    let f_tree = build_subproduct_tree(&f_prime, net);
    let root_level = f_tree.len() - 1;
    proof {
        assert(f_tree[root_level as int].len() == 1) by {
            assert((root_level - root_level) as nat == 0);
        }
    }
    let p_coeffs = &f_tree[root_level][0];
    proof {
        if vx {
            let node = f_tree[root_level as int][0];
            assert(node_roots(fv, root_level as nat, 0) =~= fv);
            assert forall|x: int| #[trigger] peval(values_of(p_coeffs@), x) % (modulus() as int)
                == roots_prod(fv, x) % (modulus() as int) by {
                assert(peval(values_of(node@), x) % (modulus() as int) == roots_prod(
                    node_roots(fv, root_level as nat, 0),
                    x,
                ) % (modulus() as int));
            }
            if pubs {
                assert(all_public(p_coeffs@));
            }
        }
    }
    // Step 4: its values at the table entries.
    let t_vec = resize_copy(t, t.len());
    let ghost t_exact = all_public(t_vec@) || net0.single_party();
    let ghost t_points = values_of(t_vec@);
    let t_tree = build_subproduct_tree(&t_vec, net);
    proof {
        if vx {
            assert(t_exact);
            if t_tree.len() == 1 {
                assert(two_pow(0) == 1);
            }
        }
    }
    let p_values = multipoint_eval(p_coeffs, &t_tree, Ghost(t_points), Ghost(t_exact), net);
    // Step 5: unused table entries.
    let ghost tv = table_values(t@, n as int);
    let ghost lead = nonroot_flags(tv, fv);
    let mut unused: Vec<MpcField> = Vec::new();
    let mut j: usize = 0;
    while j < p_values.len()
        invariant
            j <= p_values.len(),
            p_values.len() == t.len(),
            n <= t.len(),
            unused.len() == j,
            zero is Public,
            zero.value() == 0,
            same_net(*net, net0),
            tv == table_values(t@, n as int),
            lead == nonroot_flags(tv, fv),
            is_resized(t@, t_vec@, t.len() as nat),
            t_points == values_of(t_vec@),
            pubs ==> all_public(p_values@),
            pubs ==> all_public(unused@),
            vx == (pubs || (net0.single_party() && no_zero_divisors())),
            vx ==> forall|k: int|
                0 <= k < p_values.len() ==> (#[trigger] p_values[k]).value() as int == peval(
                    values_of(p_coeffs@),
                    t_points[k],
                ) % (modulus() as int),
            vx ==> forall|x: int| #[trigger] peval(values_of(p_coeffs@), x) % (modulus() as int)
                == roots_prod(fv, x) % (modulus() as int),
            vx ==> forall|k: int|
                0 <= k < j && k < n ==> (#[trigger] unused[k]).value() == flag_value(lead[k]),
        decreases p_values.len() - j,
    {
        let u = p_values[j].secure_neq(&zero, net);
        proof {
            if vx && j < n {
                assert(t_points[j as int] == tv[j as int]);
                assert(peval(values_of(p_coeffs@), tv[j as int]) % (modulus() as int) == roots_prod(
                    fv,
                    tv[j as int],
                ) % (modulus() as int));
            }
        }
        unused.push(u);
        j = j + 1;
    }
    // Step 6: unused values first, in table order.
    let mut unused_rec: Vec<(MpcField, MpcField, MpcField)> = Vec::new();
    j = 0;
    while j < n
        invariant
            j <= n,
            n <= t.len(),
            unused.len() == t.len(),
            unused_rec.len() == j,
            same_net(*net, net0),
            tv == table_values(t@, n as int),
            lead == nonroot_flags(tv, fv),
            pubs ==> all_public(t@),
            pubs ==> all_public(unused@),
            pubs ==> rows_public(unused_rec@),
            vx == (pubs || (net0.single_party() && no_zero_divisors())),
            ex == (vx && n <= 0x1_0000_0000),
            vx ==> forall|k: int|
                0 <= k < n ==> (#[trigger] unused[k]).value() == flag_value(lead[k]),
            ex ==> forall|k: int|
                0 <= k < j ==> #[trigger] rows_of(unused_rec@)[k] == grouped_rows(tv, lead)[k],
        decreases n - j,
    {
        let idx = index_value(j);
        let key = record_key(&unused[j], &idx, net);
        let ghost prev = unused_rec@;
        unused_rec.push((key, t[j], unused[j]));
        proof {
            if ex {
                assert(rows_of(unused_rec@)[j as int] == grouped_rows(tv, lead)[j as int]);
                assert forall|k: int| 0 <= k < j + 1 implies #[trigger] rows_of(unused_rec@)[k]
                    == grouped_rows(tv, lead)[k] by {
                    if k < j {
                        assert(rows_of(prev)[k] == grouped_rows(tv, lead)[k]);
                        assert(unused_rec@[k] == prev[k]);
                    }
                }
            }
        }
        j = j + 1;
    }
    proof {
        if ex {
            assert(rows_of(unused_rec@) =~= grouped_rows(tv, lead));
        }
    }
    let ghost rec0 = unused_rec@;
    let unused_rec = radix_sort_by_key(unused_rec, RECORD_KEY_BITS, net);
    let ghost gv = grouped(tv, lead);
    proof {
        if ex {
            assert(is_stable_sort(grouped_rows(tv, lead), rows_of(unused_rec@), by_first())) by {
                if !rows_public(rec0) {
                    lemma_grouped_keys(tv, lead);
                    lemma_record_key_room();
                    lemma_network_stable_on_distinct_keys(rows_of(rec0), RECORD_KEY_BITS as nat);
                }
            }
            lemma_grouped_sort(tv, lead, rows_of(unused_rec@));
        }
    }
    // Step 7: unfilled positions first, in order.
    let ghost holes = negated(run_start_flags(fv, n as nat));
    let ghost pv = positions(n as nat);
    let mut unfilled_rec: Vec<(MpcField, MpcField, MpcField)> = Vec::new();
    i = 0;
    while i < n
        invariant
            i <= n,
            f_double.len() == n,
            unfilled_rec.len() == i,
            one is Public,
            one.value() == 1,
            same_net(*net, net0),
            holes == negated(run_start_flags(fv, n as nat)),
            pv == positions(n as nat),
            pubs ==> all_public(f_double@),
            pubs ==> rows_public(unfilled_rec@),
            vx ==> run_flags(f_double@, fv),
            vx == (pubs || (net0.single_party() && no_zero_divisors())),
            ex == (vx && n <= 0x1_0000_0000),
            ex ==> forall|k: int|
                0 <= k < i ==> #[trigger] rows_of(unfilled_rec@)[k] == grouped_rows(pv, holes)[k],
        decreases n - i,
    {
        let unfilled = one.sub(&f_double[i], net);
        let idx = index_value(i);
        proof {
            if vx {
                lemma_flag_not(f_double[i as int].value());
            }
        }
        let key = record_key(&unfilled, &idx, net);
        let ghost prev = unfilled_rec@;
        unfilled_rec.push((key, idx, unfilled));
        proof {
            if ex {
                assert(holes[i as int] == !is_run_start(fv, i as int));
                assert(rows_of(unfilled_rec@)[i as int] == grouped_rows(pv, holes)[i as int]);
                assert forall|k: int| 0 <= k < i + 1 implies #[trigger] rows_of(unfilled_rec@)[k]
                    == grouped_rows(pv, holes)[k] by {
                    if k < i {
                        assert(rows_of(prev)[k] == grouped_rows(pv, holes)[k]);
                        assert(unfilled_rec@[k] == prev[k]);
                    }
                }
            }
        }
        i = i + 1;
    }
    proof {
        if ex {
            assert(rows_of(unfilled_rec@) =~= grouped_rows(pv, holes));
        }
    }
    let ghost rec1 = unfilled_rec@;
    let unfilled_rec = radix_sort_by_key(unfilled_rec, RECORD_KEY_BITS, net);
    let ghost hr = grouped(pv, holes);
    let ghost h = select(pv, holes, n as int).len();
    proof {
        if ex {
            assert(is_stable_sort(grouped_rows(pv, holes), rows_of(unfilled_rec@), by_first())) by {
                if !rows_public(rec1) {
                    lemma_grouped_keys(pv, holes);
                    lemma_record_key_room();
                    lemma_network_stable_on_distinct_keys(rows_of(rec1), RECORD_KEY_BITS as nat);
                }
            }
            lemma_grouped_sort(pv, holes, rows_of(unfilled_rec@));
            assert(pv.len() == n);
            lemma_select_splits(pv, holes, n as int);
            lemma_select_splits(tv, lead, n as int);
            lemma_select_positions(holes, n as nat, n as int);
            lemma_select_positions(negated(holes), n as nat, n as int);
            assert forall|k: int| 0 <= k < n implies 0 <= #[trigger] hr[k] < n by {
                if k >= h {
                    assert(hr[k] == select(pv, negated(holes), n as int)[k - h]);
                }
            }
        }
    }
    // Steps 8-10: write records, valid ones first by position.
    let ghost wrows = write_rows(fv, gv, ffull, n as nat);
    let mut writes: Vec<(MpcField, MpcField, MpcField)> = Vec::new();
    let mut w: usize = 0;
    let ghost urows = rows_of(unfilled_rec@);
    assert(ex ==> forall|k: int|
        0 <= k < n ==> #[trigger] urows[k].1 == hr[k] && urows[k].2 == flag_value(k < h) as int);
    while w < n
        invariant
            w <= n,
            unused_rec.len() == n,
            unfilled_rec.len() == n,
            writes.len() == w,
            same_net(*net, net0),
            wrows == write_rows(fv, gv, ffull, n as nat),
            hr == grouped(pv, holes),
            h == select(pv, holes, n as int).len(),
            holes == negated(run_start_flags(fv, n as nat)),
            pv == positions(n as nat),
            pubs ==> rows_public(unused_rec@),
            pubs ==> rows_public(unfilled_rec@),
            pubs ==> rows_public(writes@),
            vx == (pubs || (net0.single_party() && no_zero_divisors())),
            ex == (vx && n <= 0x1_0000_0000),
            ex ==> hr.len() == n && gv.len() == n,
            ex ==> forall|k: int|
                0 <= k < n ==> #[trigger] rows_of(unused_rec@)[k].1 == gv[k],
            urows == rows_of(unfilled_rec@),
            ex ==> forall|k: int|
                0 <= k < n ==> #[trigger] urows[k].1 == hr[k] && urows[k].2 == flag_value(k < h) as int,
            ex ==> forall|k: int| 0 <= k < n ==> 0 <= #[trigger] hr[k] < n,
            ex ==> forall|k: int| 0 <= k < w ==> #[trigger] rows_of(writes@)[k] == wrows[k],
        decreases n - w,
    {
        let pos = unfilled_rec[w].1;
        let val = unused_rec[w].1;
        let valid = unfilled_rec[w].2;
        proof {
            if ex {
                assert(rows_of(unfilled_rec@)[w as int].1 == hr[w as int]);
                assert(rows_of(unfilled_rec@)[w as int].2 == flag_value(w < h) as int);
                assert(rows_of(unused_rec@)[w as int].1 == gv[w as int]);
            }
        }
        let key = record_key(&valid, &pos, net);
        let ghost prev = writes@;
        writes.push((key, val, valid));
        proof {
            if ex {
                assert(rows_of(writes@)[w as int] == wrows[w as int]);
                assert forall|k: int| 0 <= k < w + 1 implies #[trigger] rows_of(writes@)[k]
                    == wrows[k] by {
                    if k < w {
                        assert(rows_of(prev)[k] == wrows[k]);
                        assert(writes@[k] == prev[k]);
                    }
                }
            }
        }
        w = w + 1;
    }
    w = 0;
    while w < n
        invariant
            w <= n,
            m <= n,
            f_prime_full.len() == n,
            f_double.len() == n,
            writes.len() == n + w,
            same_net(*net, net0),
            wrows == write_rows(fv, gv, ffull, n as nat),
            ffull == values_of(f_prime_full@),
            pubs ==> all_public(f_prime_full@),
            pubs ==> all_public(f_double@),
            vx ==> run_flags(f_double@, fv),
            pubs ==> rows_public(writes@),
            vx == (pubs || (net0.single_party() && no_zero_divisors())),
            ex == (vx && n <= 0x1_0000_0000),
            ex ==> forall|k: int| 0 <= k < n + w ==> #[trigger] rows_of(writes@)[k] == wrows[k],
        decreases n - w,
    {
        let pos = index_value(w);
        let key = record_key(&f_double[w], &pos, net);
        let ghost prev = writes@;
        writes.push((key, f_prime_full[w], f_double[w]));
        proof {
            if ex {
                assert(rows_of(writes@)[n + w] == wrows[n + w]);
                assert forall|k: int| 0 <= k < n + w + 1 implies #[trigger] rows_of(writes@)[k]
                    == wrows[k] by {
                    if k < n + w {
                        assert(rows_of(prev)[k] == wrows[k]);
                        assert(writes@[k] == prev[k]);
                    }
                }
            }
        }
        w = w + 1;
    }
    let nn = n + n;
    proof {
        assert(nn & ((nn - 1) as usize) == 0) by (bit_vector)
            requires
                nn == n + n,
                n >= 2,
                n & ((n - 1) as usize) == 0,
        ;
        if ex {
            assert(rows_of(writes@) =~= wrows);
        }
    }
    let ghost rec2 = writes@;
    let sorted_writes = radix_sort_by_key(writes, RECORD_KEY_BITS, net);
    proof {
        if ex {
            assert(is_stable_sort(wrows, rows_of(sorted_writes@), by_first())) by {
                if !rows_public(rec2) {
                    lemma_write_keys(fv, gv, ffull, n as nat);
                    lemma_record_key_room();
                    lemma_network_stable_on_distinct_keys(rows_of(rec2), RECORD_KEY_BITS as nat);
                }
            }
            lemma_write_sort(fv, gv, ffull, n as nat, rows_of(sorted_writes@));
        }
    }
    // Step 11: the permuted table.
    let mut t_prime: Vec<MpcField> = Vec::new();
    i = 0;
    while i < n
        invariant
            i <= n,
            m <= n,
            sorted_writes.len() == 2 * n,
            t_prime.len() == i,
            fv.len() == m,
            ffull == values_of(f_prime_full@),
            is_resized(f_prime@, f_prime_full@, n as nat),
            fv == values_of(f_prime@),
            pubs ==> rows_public(sorted_writes@),
            pubs ==> all_public(t_prime@),
            vx == (pubs || (net0.single_party() && no_zero_divisors())),
            ex == (vx && n <= 0x1_0000_0000),
            ex ==> gv.len() == n,
            ex ==> forall|k: int|
                0 <= k < n ==> (#[trigger] rows_of(sorted_writes@)[k]).1 == if is_run_start(fv, k) {
                    ffull[k]
                } else {
                    gv[holes_before(fv, k)]
                },
            ex ==> forall|k: int| 0 <= k < i ==> #[trigger] values_of(t_prime@)[k] == routed(fv, gv, k),
        decreases n - i,
    {
        let ghost prev = t_prime@;
        t_prime.push(sorted_writes[i].1);
        proof {
            if ex {
                lemma_holes_and_runs(fv, i as int);
                lemma_holes_monotone(fv, i as int, n as int);
                lemma_holes_and_runs(fv, n as int);
                assert(rows_of(sorted_writes@)[i as int].1 == if is_run_start(fv, i as int) {
                    ffull[i as int]
                } else {
                    gv[holes_before(fv, i as int)]
                });
                if is_run_start(fv, i as int) {
                    assert(f_prime_full@[i as int] == f_prime@[i as int]);
                }
                assert(values_of(t_prime@)[i as int] == routed(fv, gv, i as int));
                assert forall|k: int| 0 <= k < i + 1 implies #[trigger] values_of(t_prime@)[k]
                    == routed(fv, gv, k) by {
                    if k < i {
                        assert(values_of(prev)[k] == routed(fv, gv, k));
                        assert(t_prime@[k] == prev[k]);
                    }
                }
            }
        }
        i = i + 1;
    }
    proof {
        if ex {
            assert(values_of(t_prime@) =~= routed_table(fv, gv, n as nat));
        }
        if vx && f.len() == m && queries_in_table(f@, t@, n as int) && tv.no_duplicates()
            && no_zero_divisors() && n <= 0x1_0000_0000 {
            assert(query_values(f@, m as nat) =~= values_of(f@));
            lemma_sorted_queries_in_table(f@, t@, n as int, fv);
            lemma_claims_all_select(tv, fv);
            let keep = claims_all(tv, fv);
            assert forall|k: int| 0 <= k < n implies #[trigger] lead[k] == negated(keep)[k] by {
                lemma_vanishes_iff_query(fv, tv[k]);
            }
            assert(lead =~= negated(keep));
            assert(negated(lead) =~= keep);
            lemma_routed_table_permutes(tv, fv, keep);
            lemma_routing_ignores_tail(
                fv,
                select(tv, negated(keep), n as int),
                select(tv, keep, n as int),
                n as nat,
            );
            lemma_routed_outputs_ok(tv, values_of(f@), fv, keep, values_of(t_prime@));
        }
    }
    proof {
        if !queries_public(f@, m as nat) && old(net).single_party() {
            lemma_query_values_bounded(f@, m as nat);
            lemma_low_bits_network_sorts(query_values(f@, m as nat));
        }
    }
    (t_prime, f_prime)
}

/// The two methods route alike: for a table of distinct entries, sorted
/// queries that are all table entries, and a field without zero divisors,
/// the routing of `secure_oblivious_lookup_permutation` (the entries where
/// the queries' product does not vanish first) and that of
/// `naive_secure_oblivious_lookup_permutation` (the entries no run start
/// claims) give the same permuted table.
pub proof fn lemma_methods_route_alike(tv: Seq<int>, fv: Seq<int>)
    requires
        tv.no_duplicates(),
        fv.len() <= tv.len(),
        ascending(fv),
        forall|x: int| fv.contains(x) ==> tv.contains(x),
        forall|i: int| 0 <= i < tv.len() ==> 0 <= #[trigger] tv[i] < modulus(),
        forall|i: int| 0 <= i < fv.len() ==> 0 <= #[trigger] fv[i] < modulus(),
        no_zero_divisors(),
    ensures
        routed_table(fv, grouped(tv, nonroot_flags(tv, fv)), tv.len()) == routed_table(
            fv,
            select(tv, negated(claims_first(tv, fv)), tv.len() as int),
            tv.len(),
        ),
{
    let n = tv.len() as int;
    let keep = claims_all(tv, fv);
    let lead = nonroot_flags(tv, fv);
    assert forall|k: int| 0 <= k < n implies #[trigger] lead[k] == negated(keep)[k] by {
        lemma_vanishes_iff_query(fv, tv[k]);
    }
    assert(lead =~= negated(keep));
    assert(negated(lead) =~= keep);
    assert(claims_first(tv, fv) =~= keep) by {
        assert forall|j: int| 0 <= j < n implies #[trigger] first_index(tv, j) by {
            assert forall|k: int| 0 <= k < j implies tv[k] != tv[j] by {}
        }
    }
    lemma_claims_all_select(tv, fv);
    lemma_routed_table_permutes(tv, fv, keep);
    lemma_routing_ignores_tail(fv, select(tv, negated(keep), n), select(tv, keep, n), n as nat);
}

/// Sorted queries are determined by their values: two ascending sequences
/// that hold the same values, each as often, are equal (so the two methods'
/// f' agree wherever both are stated as sorted).
pub proof fn lemma_sorted_queries_agree(a: Seq<int>, b: Seq<int>)
    requires
        ascending(a),
        ascending(b),
        a.to_multiset() == b.to_multiset(),
    ensures
        a == b,
{
    let leq = int_leq();
    assert(vstd::relations::total_ordering(leq));
    assert(vstd::relations::sorted_by(a, leq)) by {
        assert forall|i: int, j: int| 0 <= i < j < a.len() implies leq(a[i], a[j]) by {
            assert(a[i] <= a[j]);
        }
    }
    assert(vstd::relations::sorted_by(b, leq)) by {
        assert forall|i: int, j: int| 0 <= i < j < b.len() implies leq(b[i], b[j]) by {
            assert(b[i] <= b[j]);
        }
    }
    vstd::seq_lib::lemma_sorted_unique(a, b, leq);
}

/// Every query's value is among the first `n` table entries.
pub open spec fn queries_in_table(f: Seq<MpcField>, t: Seq<MpcField>, n: int) -> bool {
    forall|x: int| values_of(f).contains(x) ==> values_of(t).take(n).contains(x)
}

/// The values of the first `n` table entries.
pub open spec fn table_values(t: Seq<MpcField>, n: int) -> Seq<int> {
    values_of(t).take(n)
}

/// The sorted queries are a stable sort of `f`, and each of their values
/// is a table entry.
proof fn lemma_sorted_queries_in_table(f: Seq<MpcField>, t: Seq<MpcField>, n: int, fv: Seq<int>)
    requires
        values_of(f).to_multiset() == fv.to_multiset(),
        queries_in_table(f, t, n),
    ensures
        forall|x: int| fv.contains(x) ==> table_values(t, n).contains(x),
{
    broadcast use vstd::seq_lib::group_to_multiset_ensures;

    assert forall|x: int| fv.contains(x) implies table_values(t, n).contains(x) by {
        assert(fv.to_multiset().count(x) > 0);
        assert(values_of(f).to_multiset().count(x) > 0);
    }
}

/// The lookup permutation by comparing every query with every table entry:
/// first occurrences in the sorted queries claim the first unused table
/// entry equal to them, and the remaining positions of t' take the remaining
/// table entries in table order. Same inputs and outputs as
/// `secure_oblivious_lookup_permutation`. For public inputs t' is exactly
/// that routing, and when every query is a table entry the outputs satisfy
/// the lookup relation (`lookup_outputs_ok`).
pub fn naive_secure_oblivious_lookup_permutation<N: MpcNet>(
    n: usize,
    m: usize,
    t: &[MpcField],
    f: &[MpcField],
    net: &mut N,
) -> (r: (Vec<MpcField>, Vec<MpcField>))
    requires
        2 <= m <= n,
        valid_network_size(m),
        valid_network_size(n),
        t.len() >= n,
    ensures
        same_net(*final(net), *old(net)),
        r.0.len() == n,
        r.1.len() == m,
        queries_public(f@, m as nat) ==> all_public(r.1@) && is_stable_sort(
            query_values(f@, m as nat),
            values_of(r.1@),
            by_value(),
        ),
        !queries_public(f@, m as nat) ==> all_shared(r.1@),
        !queries_public(f@, m as nat) && old(net).single_party() ==> values_of(r.1@)
            == bitonic_network(query_values(f@, m as nat), by_low_bits(253)),
        !queries_public(f@, m as nat) && old(net).single_party() ==> sorted_by(
            values_of(r.1@),
            by_value(),
        ) && values_of(r.1@).to_multiset() == query_values(f@, m as nat).to_multiset(),
        queries_public(f@, m as nat) && all_public(t@) ==> all_public(r.0@),
        queries_public(f@, m as nat) && all_public(t@) ==> values_of(r.0@) == routed_table(
            values_of(r.1@),
            select(
                table_values(t@, n as int),
                negated(claims_first(table_values(t@, n as int), values_of(r.1@))),
                n as int,
            ),
            n as nat,
        ),
        old(net).single_party() && no_zero_divisors() ==> values_of(r.0@) == routed_table(
            values_of(r.1@),
            select(
                table_values(t@, n as int),
                negated(claims_first(table_values(t@, n as int), values_of(r.1@))),
                n as int,
            ),
            n as nat,
        ),
        f.len() == m && old(net).single_party() && no_zero_divisors() && queries_in_table(
            f@,
            t@,
            n as int,
        ) ==> lookup_outputs_ok(
            n as nat,
            m as nat,
            table_values(t@, n as int),
            values_of(f@),
            values_of(r.0@),
            values_of(r.1@),
        ),
        f.len() == m && all_public(f@) && all_public(t@) && queries_in_table(f@, t@, n as int)
            ==> lookup_outputs_ok(
            n as nat,
            m as nat,
            table_values(t@, n as int),
            values_of(f@),
            values_of(r.0@),
            values_of(r.1@),
        ),
{
    let ghost net0 = *old(net);
    let one = MpcField::Public(Fe::one());
    let zero = MpcField::Public(Fe::zero());
    // Step 1: sort the queries.
    let f_sized = resize_copy(f, m);
    proof {
        lemma_resized_views(f@, f_sized@, m as nat);
    }
    let ghost pubs = all_public(t@) && all_public(f_sized@);
    let ghost ex = pubs || (net0.single_party() && no_zero_divisors());
    let f_prime = radix_sort(f_sized, modulus_num_bits(), net);
    let ghost fv = values_of(f_prime@);
    proof {
        if all_public(f_sized@) {
            lemma_stable_sort_by_value(values_of(f_sized@), fv);
        } else if net0.single_party() {
            lemma_query_values_bounded(f@, m as nat);
            lemma_low_bits_network_sorts(values_of(f_sized@));
            assert forall|a: int, b: int| 0 <= a <= b < fv.len() implies fv[a] <= fv[b] by {
                assert(by_value()(fv[a]) <= by_value()(fv[b]));
            }
        }
    }
    // Step 2: first-occurrence indicators.
    let mut f_double: Vec<MpcField> = Vec::new();
    f_double.push(one);
    let mut i: usize = 1;
    while i < n
        invariant
            1 <= i <= n,
            m <= n,
            f_prime.len() == m,
            f_double.len() == i,
            one is Public,
            one.value() == 1,
            zero is Public,
            zero.value() == 0,
            same_net(*net, net0),
            fv == values_of(f_prime@),
            ex == (pubs || (net0.single_party() && no_zero_divisors())),
            pubs ==> all_public(f_prime@),
            pubs ==> all_public(f_double@),
            ex ==> run_flags(f_double@, fv),
        decreases n - i,
    {
        if i < m {
            let is_same = f_prime[i].secure_eq(&f_prime[i - 1], net);
            proof {
                if ex {
                    lemma_flag_not(is_same.value());
                }
            }
            f_double.push(one.sub(&is_same, net));
        } else {
            f_double.push(zero);
        }
        i = i + 1;
    }
    // Step 3: first occurrences fill their own positions.
    let mut t_prime: Vec<MpcField> = Vec::new();
    let mut fill_mask: Vec<MpcField> = Vec::new();
    i = 0;
    while i < n
        invariant
            i <= n,
            m <= n,
            f_prime.len() == m,
            f_double.len() == n,
            t_prime.len() == i,
            fill_mask.len() == i,
            zero is Public,
            zero.value() == 0,
            same_net(*net, net0),
            fv == values_of(f_prime@),
            ex == (pubs || (net0.single_party() && no_zero_divisors())),
            pubs ==> all_public(f_prime@),
            pubs ==> all_public(f_double@),
            ex ==> run_flags(f_double@, fv),
            pubs ==> all_public(t_prime@) && all_public(fill_mask@),
            ex ==> run_flags(fill_mask@, fv),
            ex ==> forall|k: int|
                0 <= k < i ==> #[trigger] t_prime[k].value() == if is_run_start(fv, k) {
                    fv[k]
                } else {
                    0
                },
        decreases n - i,
    {
        if i < m {
            proof {
                if ex {
                    assert(f_double[i as int].value() == flag_value(is_run_start(fv, i as int)));
                    lemma_flag_mul(f_double[i as int].value(), f_prime[i as int].value());
                }
            }
            t_prime.push(f_double[i].mul(&f_prime[i], net));
            fill_mask.push(f_double[i]);
        } else {
            t_prime.push(zero);
            fill_mask.push(zero);
        }
        i = i + 1;
    }
    // Step 4: each first occurrence claims the first unused equal entry.
    let mut unused = claim_first_occurrences(n, t, &f_prime, &f_double, net);
    // Step 5: unfilled positions take the remaining entries in order.
    let ghost tv = table_values(t@, n as int);
    let ghost keep = claims_first(tv, fv);
    fill_holes(n, t, &mut t_prime, &mut fill_mask, &mut unused, net, Ghost(fv), Ghost(keep));
    proof {
        if ex && f.len() == m && queries_in_table(f@, t@, n as int) {
            assert(query_values(f@, m as nat) =~= values_of(f@));
            lemma_sorted_queries_in_table(f@, t@, n as int, fv);
            lemma_claims_first_select(tv, fv);
            lemma_routed_outputs_ok(tv, values_of(f@), fv, keep, values_of(t_prime@));
        }
    }
    proof {
        if !queries_public(f@, m as nat) && old(net).single_party() {
            lemma_query_values_bounded(f@, m as nat);
            lemma_low_bits_network_sorts(query_values(f@, m as nat));
        }
    }
    (t_prime, f_prime)
}

/// The values of plain field elements.
pub open spec fn fe_values(s: Seq<Fe>) -> Seq<int> {
    Seq::new(s.len(), |i: int| s[i].val() as int)
}

/// Position i of `s` starts a run of equal values.
pub open spec fn starts_run(s: Seq<int>, i: int) -> bool {
    i == 0 || s[i] != s[i - 1]
}

/// The order of integers.
pub open spec fn int_leq() -> spec_fn(int, int) -> bool {
    |a: int, b: int| a <= b
}

/// What the outputs of a lookup permutation must satisfy: t' has n entries
/// and f' has m; t' holds the table's values and f' the queries', each as
/// often; and wherever f' starts a run of equal values, t' has the same value
/// at that position.
pub open spec fn lookup_outputs_ok(
    n: nat,
    m: nat,
    t: Seq<int>,
    f: Seq<int>,
    t_prime: Seq<int>,
    f_prime: Seq<int>,
) -> bool {
    &&& t_prime.len() == n
    &&& f_prime.len() == m
    &&& t.to_multiset() == t_prime.to_multiset()
    &&& f.to_multiset() == f_prime.to_multiset()
    &&& forall|i: int|
        0 <= i < m && #[trigger] starts_run(f_prime, i) ==> i < t_prime.len() && f_prime[i]
            == t_prime[i]
}

/// The values in ascending order.
fn sort_fe_values(v: &Vec<Fe>) -> (r: Vec<Fe>)
    ensures
        r.len() == v.len(),
        vstd::relations::sorted_by(fe_values(r@), int_leq()),
        fe_values(r@).to_multiset() == fe_values(v@).to_multiset(),
{
    let n = v.len();
    let mut out: Vec<Fe> = Vec::new();
    let mut k: usize = 0;
    proof {
        assert(fe_values(out@) =~= fe_values(v@).take(0));
    }
    while k < n
        invariant
            n == v.len(),
            k <= n,
            out.len() == k,
            vstd::relations::sorted_by(fe_values(out@), int_leq()),
            fe_values(out@).to_multiset() == fe_values(v@).take(k as int).to_multiset(),
        decreases n - k,
    {
        let x = v[k];
        let mut pos: usize = 0;
        while pos < out.len() && !x.lt(&out[pos])
            invariant
                out.len() == k,
                pos <= k,
                forall|i: int| 0 <= i < pos ==> #[trigger] out[i].val() <= x.val(),
            decreases k - pos,
        {
            pos = pos + 1;
        }
        proof {
            assert forall|i: int| pos <= i < k implies x.val() < #[trigger] out[i].val() by {
                assert(int_leq()(fe_values(out@)[pos as int], fe_values(out@)[i]) || pos == i);
            }
        }
        let ghost old_vals = fe_values(out@);
        out.insert(pos, x);
        proof {
            old_vals.insert_ensures(pos as int, x.val() as int);
            assert(fe_values(out@) =~= old_vals.insert(pos as int, x.val() as int));
            assert(fe_values(v@).take(k + 1) =~= fe_values(v@).take(k as int).push(x.val() as int));
            vstd::seq_lib::to_multiset_insert(old_vals, pos as int, x.val() as int);
            vstd::seq_lib::to_multiset_build(fe_values(v@).take(k as int), x.val() as int);
            let nv = fe_values(out@);
            assert forall|i: int, j: int| 0 <= i < j < nv.len() implies #[trigger] int_leq()(
                nv[i],
                nv[j],
            ) by {
                if j < pos {
                    assert(int_leq()(old_vals[i], old_vals[j]));
                } else if j == pos {
                    if i < pos {
                        assert(nv[i] == old_vals[i]);
                    }
                } else if i < pos {
                    assert(nv[j] == old_vals[j - 1]);
                } else if i == pos {
                    assert(nv[j] == old_vals[j - 1]);
                } else {
                    assert(nv[i] == old_vals[i - 1] && nv[j] == old_vals[j - 1]);
                    assert(int_leq()(old_vals[i - 1], old_vals[j - 1]));
                }
            }
        }
        k = k + 1;
    }
    proof {
        assert(fe_values(v@).take(n as int) =~= fe_values(v@));
    }
    out
}

/// Sorted sequences of integers are equal exactly where they hold the same
/// values.
proof fn lemma_sorted_equal_iff_multiset(a: Seq<int>, b: Seq<int>)
    requires
        vstd::relations::sorted_by(a, int_leq()),
        vstd::relations::sorted_by(b, int_leq()),
    ensures
        (a == b) <==> (a.to_multiset() == b.to_multiset()),
{
    if a.to_multiset() == b.to_multiset() {
        let leq = int_leq();
        assert(vstd::relations::total_ordering(leq)) by {
            assert forall|x: int| #[trigger] leq(x, x) by {}
            assert forall|x: int, y: int| #[trigger] leq(x, y) && #[trigger] leq(y, x) implies x
                == y by {}
            assert forall|x: int, y: int, z: int| #[trigger] leq(x, y) && #[trigger] leq(y, z)
                implies leq(x, z) by {}
            assert forall|x: int, y: int| #[trigger] leq(x, y) || #[trigger] leq(y, x) by {}
        }
        vstd::seq_lib::lemma_sorted_unique(a, b, leq);
    }
}

/// Whether two vectors hold the same values, each as often.
fn same_values(a: &Vec<Fe>, b: &Vec<Fe>) -> (r: bool)
    ensures
        r == (fe_values(a@).to_multiset() == fe_values(b@).to_multiset()),
{
    let sa = sort_fe_values(a);
    let sb = sort_fe_values(b);
    proof {
        lemma_sorted_equal_iff_multiset(fe_values(sa@), fe_values(sb@));
    }
    if sa.len() != sb.len() {
        proof {
            vstd::seq_lib::to_multiset_len(fe_values(sa@));
            vstd::seq_lib::to_multiset_len(fe_values(sb@));
            assert(fe_values(sa@).len() == sa.len());
            assert(fe_values(sb@).len() == sb.len());
        }
        return false;
    }
    let mut i: usize = 0;
    while i < sa.len()
        invariant
            sa.len() == sb.len(),
            i <= sa.len(),
            vstd::relations::sorted_by(fe_values(sa@), int_leq()),
            vstd::relations::sorted_by(fe_values(sb@), int_leq()),
            fe_values(sa@).to_multiset() == fe_values(a@).to_multiset(),
            fe_values(sb@).to_multiset() == fe_values(b@).to_multiset(),
            forall|k: int| 0 <= k < i ==> #[trigger] fe_values(sa@)[k] == fe_values(sb@)[k],
        decreases sa.len() - i,
    {
        if !sa[i].eq(&sb[i]) {
            proof {
                assert(fe_values(sa@)[i as int] != fe_values(sb@)[i as int]);
                assert(fe_values(sa@) != fe_values(sb@));
                lemma_sorted_equal_iff_multiset(fe_values(sa@), fe_values(sb@));
            }
            return false;
        }
        i = i + 1;
    }
    proof {
        assert(fe_values(sa@) =~= fe_values(sb@));
    }
    true
}

/// Whether every position of f' that starts a run of equal values holds the
/// same value in t'.
fn first_occurrences_match(f_prime: &Vec<Fe>, t_prime: &Vec<Fe>) -> (r: bool)
    ensures
        r == (forall|i: int|
            0 <= i < f_prime.len() && #[trigger] starts_run(fe_values(f_prime@), i) ==> i
                < t_prime.len() && fe_values(f_prime@)[i] == fe_values(t_prime@)[i]),
{
    let ghost fp = fe_values(f_prime@);
    let ghost tp = fe_values(t_prime@);
    let m = f_prime.len();
    let n = t_prime.len();
    let mut i: usize = 0;
    while i < m
        invariant
            i <= m,
            m == f_prime.len(),
            n == t_prime.len(),
            fp == fe_values(f_prime@),
            tp == fe_values(t_prime@),
            forall|k: int| 0 <= k < i && #[trigger] starts_run(fp, k) ==> k < n && fp[k] == tp[k],
        decreases m - i,
    {
        let first = if i == 0 {
            true
        } else {
            !f_prime[i].eq(&f_prime[i - 1])
        };
        proof {
            assert(fp[i as int] == f_prime[i as int].val());
            if i > 0 {
                assert(fp[i - 1] == f_prime[i - 1].val());
            }
        }
        proof {
            assert(first == starts_run(fp, i as int));
        }
        if first {
            if i >= n {
                return false;
            }
            let same = f_prime[i].eq(&t_prime[i]);
            proof {
                assert(tp[i as int] == t_prime[i as int].val());
            }
            if !same {
                return false;
            }
        }
        i = i + 1;
    }
    true
}

/// Whether (t', f') are valid outputs of a lookup permutation of table t
/// and queries f for sizes n and m (`lookup_outputs_ok`): the checks of
/// `verify_lookup_permutation_outputs_in_plaintext`, as a verdict.
pub fn lookup_outputs_hold(
    n: usize,
    m: usize,
    t: &Vec<Fe>,
    f: &Vec<Fe>,
    t_prime: &Vec<Fe>,
    f_prime: &Vec<Fe>,
) -> (r: bool)
    ensures
        r == lookup_outputs_ok(
            n as nat,
            m as nat,
            fe_values(t@),
            fe_values(f@),
            fe_values(t_prime@),
            fe_values(f_prime@),
        ),
{
    if t_prime.len() != n || f_prime.len() != m {
        return false;
    }
    if !same_values(t, t_prime) || !same_values(f, f_prime) {
        return false;
    }
    first_occurrences_match(f_prime, t_prime)
}

/// Checks that (t', f') are valid outputs of a lookup permutation of table
/// t and queries f for sizes n and m: t' has n entries and f' has m, t' and
/// f' hold the values of t and f, each as often, and wherever f' starts a
/// run of equal values, t' has the same value. Outputs that fail a check are
/// outside its domain (`requires`), as they stop the run.
pub fn verify_lookup_permutation_outputs_in_plaintext(
    n: usize,
    m: usize,
    t: &Vec<Fe>,
    f: &Vec<Fe>,
    t_prime: &Vec<Fe>,
    f_prime: &Vec<Fe>,
)
    requires
        lookup_outputs_ok(
            n as nat,
            m as nat,
            fe_values(t@),
            fe_values(f@),
            fe_values(t_prime@),
            fe_values(f_prime@),
        ),
{
    let ok = lookup_outputs_hold(n, m, t, f, t_prime, f_prime);
    proof {
        assert(ok);
    }
}

} // verus!
