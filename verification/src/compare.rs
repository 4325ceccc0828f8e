//! Secure comparison of shared bit vectors.
//!
//! Two bit vectors (least significant bit first) are compared from the most
//! significant bit down: XOR marks the differing positions, a prefix OR finds
//! the first of them, a selection bit isolates it, and the OR of the selected
//! right-hand bits is the less-than bit.
use vstd::prelude::*;
use vstd::arithmetic::div_mod::{lemma_fundamental_div_mod_converse, lemma_small_mod};
use crate::bit_ops::{
    BooleanBeaverSource, BooleanOps, DummyBooleanBeaverSource, bits_val, lemma_bits_val_bound,
    lemma_bits_val_push, lemma_bits_val_take_step, masked_left, masked_right, round_bit, same_net,
};
use crate::bits::{
    add_public_bits, fe_to_bits_le, lemma_bits_val_take, lemma_two_pow_positive,
    limbs_to_bits_le,
};
use crate::edabits::{
    DaBitSource, DummyDaBitSource, DummyEdaBitSource, EdaBitSource, b2a, b2a_finish, bit_value,
    lemma_dealer_b2a,
};
use crate::field::{
    Fe, fadd, fsub, lemma_fadd_cong, lemma_fsub_cong, lemma_modulus_bound, lemma_residue,
    lemma_val_lt_modulus, modulus, modulus_limbs_exec,
};
use crate::compare_run::{
    batch_and_shares, batch_masked_left, batch_masked_right, diff_share, less_share, msb_first,
    or_level, or_tree, pair_left, pair_right, prefix_share, selected_round, selected_shares,
    selection_left, selection_right, selection_shares, less_rounds, tree_rounds,
};
use crate::net::MpcNet;
use crate::decompose_run::{correction_bits, decompose_run, decompose_share};
use crate::share::AdditiveFieldShare;
use crate::types::two_pow;

verus! {

broadcast use lemma_val_lt_modulus;

/// The bits at MSB-first index i differ.
pub open spec fn diff_at(l: Seq<bool>, r: Seq<bool>, i: int) -> bool {
    l[l.len() - 1 - i] != r[l.len() - 1 - i]
}

/// i is the first MSB-first index at which the bits differ.
pub open spec fn first_diff(l: Seq<bool>, r: Seq<bool>, i: int) -> bool {
    &&& 0 <= i < l.len()
    &&& diff_at(l, r, i)
    &&& forall|k: int| 0 <= k < i ==> !#[trigger] diff_at(l, r, k)
}

/// The right-hand vector holds a one at the first differing position.
pub open spec fn less_by_first_diff(l: Seq<bool>, r: Seq<bool>) -> bool {
    exists|f: int| first_diff(l, r, f) && r[l.len() - 1 - f]
}

/// Some bit of the sequence is set.
pub open spec fn or_all(s: Seq<bool>) -> bool {
    exists|i: int| 0 <= i < s.len() && s[i]
}

/// Comparing from the most significant bit decides the order of the values.
pub proof fn lemma_first_diff_decides(l: Seq<bool>, r: Seq<bool>)
    requires
        l.len() == r.len(),
    ensures
        less_by_first_diff(l, r) == (bits_val(l) < bits_val(r)),
    decreases l.len(),
{
    let n = l.len();
    if n == 0 {
        assert(!less_by_first_diff(l, r));
    } else {
        let l1 = l.drop_last();
        let r1 = r.drop_last();
        crate::bit_ops::lemma_bits_val_bound(l1);
        crate::bit_ops::lemma_bits_val_bound(r1);
        let t = two_pow((n - 1) as nat);
        if l.last() != r.last() {
            // the top bits differ: index 0 is the first difference
            assert(first_diff(l, r, 0));
            if less_by_first_diff(l, r) {
                let f = choose|f: int| first_diff(l, r, f) && r[l.len() - 1 - f];
                assert(f == 0) by {
                    if f > 0 {
                        assert(!diff_at(l, r, 0));
                    }
                }
            } else {
                assert(!r[n - 1]);
            }
        } else {
            lemma_first_diff_decides(l1, r1);
            // the first differences of l, r are those of l1, r1 shifted by one
            assert(!diff_at(l, r, 0));
            assert forall|k: int| 0 <= k < n - 1 implies diff_at(l1, r1, k) == diff_at(l, r, k + 1)
                by {
                assert(l1[l1.len() - 1 - k] == l[n - 1 - (k + 1)]);
                assert(r1[r1.len() - 1 - k] == r[n - 1 - (k + 1)]);
            }
            if less_by_first_diff(l, r) {
                let f = choose|f: int| first_diff(l, r, f) && r[l.len() - 1 - f];
                assert(f > 0);
                assert(first_diff(l1, r1, f - 1)) by {
                    assert forall|k: int| 0 <= k < f - 1 implies !#[trigger] diff_at(l1, r1, k) by {
                        assert(!diff_at(l, r, k + 1));
                    }
                }
                assert(r1[l1.len() - 1 - (f - 1)] == r[n - 1 - f]);
                assert(less_by_first_diff(l1, r1));
            }
            if less_by_first_diff(l1, r1) {
                let g = choose|g: int| first_diff(l1, r1, g) && r1[l1.len() - 1 - g];
                assert(first_diff(l, r, g + 1)) by {
                    assert forall|k: int| 0 <= k < g + 1 implies !#[trigger] diff_at(l, r, k) by {
                        if k > 0 {
                            assert(!diff_at(l1, r1, k - 1));
                        }
                    }
                }
                assert(r[n - 1 - (g + 1)] == r1[l1.len() - 1 - g]);
                assert(less_by_first_diff(l, r));
            }
        }
    }
}

impl BooleanOps {
    /// The shared less-than bit of two shared bit vectors (least significant
    /// bit first): set iff the left value is below the right one.
    pub fn compare_bits_bool<S: BooleanBeaverSource, N: MpcNet>(
        left_bits: &[bool],
        right_bits: &[bool],
        beaver_source: &mut S,
        net: &mut N,
    ) -> (r: bool)
        requires
            left_bits.len() == right_bits.len(),
            left_bits.len() >= 1,
        ensures
            same_net(*final(net), *old(net)),
            final(beaver_source).local_triples() == old(beaver_source).local_triples(),
            old(net).single_party() && old(beaver_source).local_triples() ==> r == (bits_val(
                left_bits@,
            ) < bits_val(right_bits@)),
            !old(net).single_party() ==> r == less_share(
                left_bits@,
                right_bits@,
                *old(beaver_source),
                *old(net),
            ),
            !old(net).single_party() ==> final(net).rounds() == old(net).rounds() + less_rounds(
                left_bits.len() as nat,
            ),
    {
        let bit_count = left_bits.len();
        let ghost sl = old(net).single_party() && old(beaver_source).local_triples();
        let ghost net0 = *old(net);
        let ghost src0 = *old(beaver_source);
        let ghost ns = !old(net).single_party();
        let ghost local = old(beaver_source).local_triples();
        let ghost l = left_bits@;
        let ghost r = right_bits@;
        proof {
            if net0.single_party() {
                net0.lemma_single_party_is_king();
            }
        }
        // Step 1: differing positions, most significant first.
        let mut xor_bits: Vec<bool> = Vec::new();
        let mut k: usize = 0;
        while k < bit_count
            invariant
                bit_count == left_bits.len(),
                bit_count == right_bits.len(),
                k <= bit_count,
                l == left_bits@,
                r == right_bits@,
                xor_bits.len() == k,
                forall|j: int| 0 <= j < k ==> #[trigger] xor_bits[j] == diff_at(l, r, j),
            decreases bit_count - k,
        {
            let i = bit_count - 1 - k;
            xor_bits.push(BooleanOps::bitwise_xor(left_bits[i], right_bits[i]));
            k = k + 1;
        }
        // Step 2: prefix OR, sequentially.
        let mut prefix_or: Vec<bool> = Vec::new();
        prefix_or.push(xor_bits[0]);
        let mut i: usize = 1;
        while i < bit_count
            invariant
                bit_count == xor_bits.len(),
                1 <= i <= bit_count,
                prefix_or.len() == i,
                same_net(*net, net0),
                beaver_source.local_triples() == local,
                sl == (net0.single_party() && local),
                sl ==> forall|j: int|
                    0 <= j < i ==> #[trigger] prefix_or[j] == exists|q: int|
                        0 <= q <= j && xor_bits[q],
                l == left_bits@,
                r == right_bits@,
                bit_count == left_bits.len(),
                forall|j: int| 0 <= j < bit_count ==> #[trigger] xor_bits[j] == diff_at(l, r, j),
                src0 == *old(beaver_source),
                net0 == *old(net),
                ns == !net0.single_party(),
                ns ==> net.rounds() == net0.rounds() + 2 * (i - 1),
                forall|k: nat| #[trigger] beaver_source.triple_at(k) == src0.triple_at(
                    (k + (i - 1)) as nat,
                ),
                ns ==> forall|j: int|
                    0 <= j < i ==> #[trigger] prefix_or[j] == prefix_share(l, r, src0, net0, j as nat),
            decreases bit_count - i,
        {
            let ghost src_b = *beaver_source;
            let ghost net_b = *net;
            let p = BooleanOps::beaver_bitwise_or(prefix_or[i - 1], xor_bits[i], beaver_source, net);
            let ghost before = prefix_or@;
            prefix_or.push(p);
            proof {
                assert forall|k: nat| #[trigger] beaver_source.triple_at(k) == src0.triple_at(
                    (k + i) as nat,
                ) by {
                    assert(src_b.triple_at(k + 1) == src0.triple_at((k + 1 + (i - 1)) as nat));
                }
                if ns {
                    let h = (i - 1) as nat;
                    assert(src_b.triple_at(0) == src0.triple_at(h));
                    assert(xor_bits[i as int] == diff_share(l, r, i as int));
                    assert(prefix_or[i as int] == prefix_share(l, r, src0, net0, i as nat));
                    assert forall|j: int| 0 <= j < i + 1 implies #[trigger] prefix_or[j]
                        == prefix_share(l, r, src0, net0, j as nat) by {
                        if j < i {
                            assert(prefix_or[j] == before[j]);
                        }
                    }
                }
            }
            proof {
                if sl {
                    assert forall|j: int| 0 <= j < i + 1 implies #[trigger] prefix_or[j] == exists|
                        q: int,
                    | 0 <= q <= j && xor_bits[q] by {
                        if j < i {
                            assert(prefix_or[j] == before[j]);
                        } else {
                            assert(before[i - 1] == exists|q: int| 0 <= q <= i - 1 && xor_bits[q]);
                            if xor_bits[i as int] {
                                assert(exists|q: int| 0 <= q <= j && xor_bits[q]);
                            }
                            if exists|q: int| 0 <= q <= j && xor_bits[q] {
                                let q = choose|q: int| 0 <= q <= j && xor_bits[q];
                                if q < i {
                                    assert(exists|q: int| 0 <= q <= i - 1 && xor_bits[q]);
                                }
                            }
                        }
                    }
                }
            }
            i = i + 1;
        }
        // Step 3: selection bits, marking the first differing position.
        let mut selection_bits: Vec<bool> = Vec::new();
        selection_bits.push(xor_bits[0]);
        if bit_count > 1 {
            let mut and_left_shares: Vec<bool> = Vec::new();
            let mut and_right_shares: Vec<bool> = Vec::new();
            i = 1;
            while i < bit_count
                invariant
                    bit_count == xor_bits.len(),
                    bit_count == prefix_or.len(),
                    1 <= i <= bit_count,
                    and_left_shares.len() == i - 1,
                    and_right_shares.len() == i - 1,
                    same_net(*net, net0),
                    net0.single_party() ==> net0.king(),
                    forall|j: int|
                        0 <= j < i - 1 ==> #[trigger] and_left_shares[j] == xor_bits[j + 1],
                    net0.single_party() ==> forall|j: int|
                        0 <= j < i - 1 ==> #[trigger] and_right_shares[j] == !prefix_or[j],
                    forall|j: int|
                        0 <= j < i - 1 ==> #[trigger] and_right_shares[j] == (if net0.king() {
                            !prefix_or[j]
                        } else {
                            prefix_or[j]
                        }),
                    l == left_bits@,
                    r == right_bits@,
                    bit_count == left_bits.len(),
                    forall|j: int| 0 <= j < bit_count ==> #[trigger] xor_bits[j] == diff_at(l, r, j),
                    src0 == *old(beaver_source),
                    net0 == *old(net),
                    ns == !net0.single_party(),
                    ns ==> net.rounds() == net0.rounds() + 2 * (bit_count - 1),
                    forall|k: nat| #[trigger] beaver_source.triple_at(k) == src0.triple_at(
                        (k + (bit_count - 1)) as nat,
                    ),
                    ns ==> forall|j: int|
                        0 <= j < bit_count ==> #[trigger] prefix_or[j] == prefix_share(
                            l,
                            r,
                            src0,
                            net0,
                            j as nat,
                        ),
                decreases bit_count - i,
            {
                let not_prev = BooleanOps::bitwise_not(prefix_or[i - 1], net);
                and_left_shares.push(xor_bits[i]);
                and_right_shares.push(not_prev);
                i = i + 1;
            }
            let ghost src_s = *beaver_source;
            let ghost net_s = *net;
            let and_results = BooleanOps::batch_beaver_bitwise_and(
                and_left_shares.as_slice(),
                and_right_shares.as_slice(),
                beaver_source,
                net,
            );
            let ghost n1 = (bit_count - 1) as nat;
            let ghost left_s = Seq::new(n1, |j: int| diff_share(l, r, j + 1));
            let ghost right_s = Seq::new(
                n1,
                |j: int|
                    if net0.king() {
                        !prefix_share(l, r, src0, net0, j as nat)
                    } else {
                        prefix_share(l, r, src0, net0, j as nat)
                    },
            );
            proof {
                assert forall|k: nat| #[trigger] beaver_source.triple_at(k) == src0.triple_at(
                    (k + 2 * n1) as nat,
                ) by {
                    assert(src_s.triple_at(k + n1) == src0.triple_at((k + n1 + n1) as nat));
                }
                if ns {
                    assert(and_left_shares@ =~= left_s);
                    assert(and_right_shares@ =~= right_s);
                    assert(masked_left(src_s, and_left_shares@) =~= batch_masked_left(left_s, src0, n1));
                    assert(masked_right(src_s, and_right_shares@) =~= batch_masked_right(
                        right_s,
                        src0,
                        n1,
                    ));
                    assert(left_s =~= selection_left(l, r));
                    assert(right_s =~= selection_right(l, r, src0, net0));
                    assert(and_results@ =~= batch_and_shares(left_s, right_s, src0, net0, 2 * n1, n1));
                }
            }
            i = 1;
            while i < bit_count
                invariant
                    bit_count == xor_bits.len(),
                    and_results.len() == bit_count - 1,
                    1 <= i <= bit_count,
                    selection_bits.len() == i,
                    selection_bits[0] == xor_bits[0],
                    forall|j: int| 1 <= j < i ==> #[trigger] selection_bits[j] == and_results[j - 1],
                decreases bit_count - i,
            {
                selection_bits.push(and_results[i - 1]);
                i = i + 1;
            }
            proof {
                if sl {
                    assert forall|j: int| 1 <= j < bit_count implies #[trigger] selection_bits[j] == (
                    xor_bits[j] && !prefix_or[j - 1]) by {
                        assert(and_left_shares[j - 1] == xor_bits[j]);
                        assert(and_right_shares[j - 1] == !prefix_or[j - 1]);
                    }
                }
                if ns {
                    assert(xor_bits[0] == diff_share(l, r, 0));
                    assert(selection_bits@ =~= selection_shares(l, r, src0, net0));
                }
            }
        }
        proof {
            if bit_count == 1 && ns {
                assert(xor_bits[0] == diff_share(l, r, 0));
                assert(selection_bits@ =~= selection_shares(l, r, src0, net0));
            }
        }
        // Step 4: select the right-hand bit at the first difference.
        let mut selected_and_left: Vec<bool> = Vec::new();
        let mut selected_and_right: Vec<bool> = Vec::new();
        i = 0;
        while i < bit_count
            invariant
                bit_count == selection_bits.len(),
                bit_count == right_bits.len(),
                i <= bit_count,
                selected_and_left.len() == i,
                selected_and_right.len() == i,
                forall|j: int| 0 <= j < i ==> #[trigger] selected_and_left[j] == selection_bits[j],
                forall|j: int|
                    0 <= j < i ==> #[trigger] selected_and_right[j] == right_bits[bit_count - 1 - j],
                l == left_bits@,
                r == right_bits@,
                bit_count == left_bits.len(),
                src0 == *old(beaver_source),
                net0 == *old(net),
                ns == !net0.single_party(),
                same_net(*net, net0),
                beaver_source.local_triples() == local,
                ns ==> net.rounds() == net0.rounds() + selected_round(bit_count as nat),
                forall|k: nat| #[trigger] beaver_source.triple_at(k) == src0.triple_at(
                    (k + 2 * (bit_count - 1)) as nat,
                ),
                ns ==> selection_bits@ == selection_shares(l, r, src0, net0),
            decreases bit_count - i,
        {
            let bit_idx = bit_count - 1 - i;
            selected_and_left.push(selection_bits[i]);
            selected_and_right.push(right_bits[bit_idx]);
            i = i + 1;
        }
        let ghost src_t = *beaver_source;
        let ghost net_t = *net;
        let selected_results = BooleanOps::batch_beaver_bitwise_and(
            selected_and_left.as_slice(),
            selected_and_right.as_slice(),
            beaver_source,
            net,
        );
        let ghost selected0 = selected_results@;
        let ghost nb = bit_count as nat;
        let ghost d3 = (2 * (nb - 1)) as nat;
        proof {
            assert forall|k: nat| #[trigger] beaver_source.triple_at(k) == src0.triple_at(
                (k + d3 + nb) as nat,
            ) by {
                assert(src_t.triple_at(k + nb) == src0.triple_at((k + nb + d3) as nat));
            }
            if ns {
                let right_t = msb_first(r);
                assert(selected_and_left@ =~= selection_shares(l, r, src0, net0));
                assert(selected_and_right@ =~= right_t);
                assert(masked_left(src_t, selected_and_left@) =~= batch_masked_left(
                    selection_shares(l, r, src0, net0),
                    src0,
                    d3,
                ));
                assert(masked_right(src_t, selected_and_right@) =~= batch_masked_right(
                    right_t,
                    src0,
                    d3,
                ));
                assert(selected0 =~= selected_shares(l, r, src0, net0));
            }
        }
        proof {
            if sl {
                lemma_selection_is_first_diff(l, r, xor_bits@, prefix_or@, selection_bits@, selected0);
            }
        }
        // Step 5: OR of the selected bits by a balanced tree.
        let mut current_level = selected_results;
        let ghost mut o: nat = selected_round(nb) + 2;
        let ghost mut d: nat = d3 + nb;
        while current_level.len() > 1
            invariant
                current_level.len() >= 1,
                same_net(*net, net0),
                beaver_source.local_triples() == local,
                sl == (net0.single_party() && local),
                sl ==> or_all(current_level@) == or_all(selected0),
                l == left_bits@,
                r == right_bits@,
                src0 == *old(beaver_source),
                net0 == *old(net),
                ns == !net0.single_party(),
                ns ==> net.rounds() == net0.rounds() + o,
                forall|k: nat| #[trigger] beaver_source.triple_at(k) == src0.triple_at(k + d),
                ns ==> or_tree(current_level@, src0, net0, o, d) == less_share(l, r, src0, net0),
                o + tree_rounds(current_level.len() as nat) == less_rounds(nb),
            decreases current_level.len(),
        {
            let ghost src_u = *beaver_source;
            let ghost net_u = *net;
            let ghost cur = current_level@;
            let pairs_count = current_level.len() / 2;
            let mut or_left: Vec<bool> = Vec::new();
            let mut or_right: Vec<bool> = Vec::new();
            let mut p: usize = 0;
            while p < pairs_count
                invariant
                    pairs_count == current_level.len() / 2,
                    p <= pairs_count,
                    or_left.len() == p,
                    or_right.len() == p,
                    forall|j: int| 0 <= j < p ==> #[trigger] or_left[j] == current_level[2 * j],
                    forall|j: int| 0 <= j < p ==> #[trigger] or_right[j] == current_level[2 * j + 1],
                decreases pairs_count - p,
            {
                or_left.push(current_level[p * 2]);
                or_right.push(current_level[p * 2 + 1]);
                p = p + 1;
            }
            let or_results = BooleanOps::batch_beaver_bitwise_or(
                or_left.as_slice(),
                or_right.as_slice(),
                beaver_source,
                net,
            );
            let mut next_level: Vec<bool> = or_results;
            if current_level.len() % 2 == 1 {
                next_level.push(current_level[current_level.len() - 1]);
            }
            proof {
                let m = pairs_count as nat;
                assert forall|k: nat| #[trigger] beaver_source.triple_at(k) == src0.triple_at(
                    k + (d + m),
                ) by {
                    assert(src_u.triple_at(k + m) == src0.triple_at((k + m) + d));
                }
                if ns {
                    let left_u = pair_left(cur);
                    let right_u = pair_right(cur);
                    assert(or_left@ =~= left_u);
                    assert(or_right@ =~= right_u);
                    assert(masked_left(src_u, or_left@) =~= batch_masked_left(left_u, src0, d));
                    assert(masked_right(src_u, or_right@) =~= batch_masked_right(right_u, src0, d));
                    assert(next_level@ =~= or_level(cur, src0, net0, o, d));
                }
                assert(next_level.len() == cur.len() / 2 + cur.len() % 2);
                o = o + 2;
                d = d + m;
            }
            proof {
                if sl {
                    lemma_or_tree_step(current_level@, next_level@);
                }
            }
            current_level = next_level;
        }
        let result_share = current_level[0];
        proof {
            if ns {
                assert(or_tree(current_level@, src0, net0, o, d) == current_level[0]);
            }
            if sl {
                assert(or_all(current_level@) == current_level[0]);
                lemma_first_diff_decides(l, r);
            }
        }
        result_share
    }
}

/// One level of the OR tree keeps the OR of all bits.
pub(crate) proof fn lemma_or_tree_step(cur: Seq<bool>, next: Seq<bool>)
    requires
        cur.len() > 1,
        next.len() == cur.len() / 2 + cur.len() % 2,
        forall|j: int| 0 <= j < cur.len() / 2 ==> #[trigger] next[j] == (cur[2 * j] || cur[2 * j + 1]),
        cur.len() % 2 == 1 ==> next[(cur.len() / 2) as int] == cur[cur.len() - 1],
    ensures
        or_all(next) == or_all(cur),
{
    if or_all(cur) {
        let i = choose|i: int| 0 <= i < cur.len() && cur[i];
        let j = i / 2;
        if j < cur.len() / 2 {
            assert(next[j]);
        } else {
            assert(next[(cur.len() / 2) as int]);
        }
    }
    if or_all(next) {
        let j = choose|j: int| 0 <= j < next.len() && next[j];
        if j < cur.len() / 2 {
            if cur[2 * j] {
                assert(or_all(cur));
            } else {
                assert(cur[2 * j + 1]);
            }
        } else {
            assert(cur[cur.len() - 1]);
        }
    }
}

/// The selected bits are set exactly where the first difference lies and the
/// right-hand bit is one.
pub(crate) proof fn lemma_selection_is_first_diff(
    l: Seq<bool>,
    r: Seq<bool>,
    xor_bits: Seq<bool>,
    prefix_or: Seq<bool>,
    selection: Seq<bool>,
    selected: Seq<bool>,
)
    requires
        l.len() == r.len(),
        l.len() >= 1,
        xor_bits.len() == l.len(),
        prefix_or.len() == l.len(),
        selection.len() == l.len(),
        selected.len() == l.len(),
        forall|j: int| 0 <= j < l.len() ==> #[trigger] xor_bits[j] == diff_at(l, r, j),
        forall|j: int|
            0 <= j < l.len() ==> #[trigger] prefix_or[j] == exists|q: int| 0 <= q <= j && xor_bits[q],
        selection[0] == xor_bits[0],
        forall|j: int| 1 <= j < l.len() ==> #[trigger] selection[j] == (xor_bits[j] && !prefix_or[j - 1]),
        forall|j: int|
            0 <= j < l.len() ==> #[trigger] selected[j] == (selection[j] && r[l.len() - 1 - j]),
    ensures
        or_all(selected) == less_by_first_diff(l, r),
{
    let n = l.len();
    assert forall|j: int| 0 <= j < n implies #[trigger] selection[j] == first_diff(l, r, j) by {
        if j == 0 {
        } else {
            if selection[j] {
                assert forall|k: int| 0 <= k < j implies !#[trigger] diff_at(l, r, k) by {
                    if diff_at(l, r, k) {
                        assert(xor_bits[k]);
                        assert(exists|q: int| 0 <= q <= j - 1 && xor_bits[q]);
                    }
                }
            }
            if first_diff(l, r, j) {
                if prefix_or[j - 1] {
                    let q = choose|q: int| 0 <= q <= j - 1 && xor_bits[q];
                    assert(diff_at(l, r, q));
                }
            }
        }
    }
    if or_all(selected) {
        let i = choose|i: int| 0 <= i < selected.len() && selected[i];
        assert(first_diff(l, r, i) && r[n - 1 - i]);
    }
    if less_by_first_diff(l, r) {
        let f = choose|f: int| first_diff(l, r, f) && r[l.len() - 1 - f];
        assert(selected[f]);
    }
}


/// The number of bits of the modulus.
pub fn modulus_num_bits() -> (r: usize)
    ensures
        r == 253,
        modulus() < two_pow(253),
{
    proof {
        lemma_two_pow_253();
    }
    253
}

pub(crate) proof fn lemma_two_pow_253()
    ensures
        two_pow(253) == 0x2000000000000000000000000000000000000000000000000000000000000000,
        modulus() < two_pow(253),
{
    lemma_modulus_bound();
    assert(two_pow(253) == 0x2000000000000000000000000000000000000000000000000000000000000000) by {
        crate::bits::lemma_two_pow_add(64, 64);
        crate::bits::lemma_two_pow_add(128, 64);
        crate::bits::lemma_two_pow_add(192, 61);
        crate::bits::lemma_two_pow_add(192, 61);
        lemma_two_pow_64();
        lemma_two_pow_61();
    }
}

proof fn lemma_two_pow_64()
    ensures
        two_pow(64) == 0x1_0000_0000_0000_0000,
{
    lemma_two_pow_32();
    crate::bits::lemma_two_pow_add(32, 32);
}

proof fn lemma_two_pow_32()
    ensures
        two_pow(32) == 0x1_0000_0000,
{
    lemma_two_pow_16();
    crate::bits::lemma_two_pow_add(16, 16);
}

proof fn lemma_two_pow_16()
    ensures
        two_pow(16) == 0x1_0000,
{
    reveal_with_fuel(two_pow, 17);
}

proof fn lemma_two_pow_61()
    ensures
        two_pow(61) == 0x2000_0000_0000_0000,
{
    lemma_two_pow_32();
    lemma_two_pow_16();
    reveal_with_fuel(two_pow, 14);
    crate::bits::lemma_two_pow_add(32, 16);
    crate::bits::lemma_two_pow_add(48, 13);
}

/// A bit vector of all zeros denotes zero.
pub(crate) proof fn lemma_bits_val_zeros(s: Seq<bool>)
    requires
        forall|i: int| 0 <= i < s.len() ==> !#[trigger] s[i],
    ensures
        bits_val(s) == 0,
    decreases s.len(),
{
    if s.len() > 0 {
        lemma_bits_val_zeros(s.drop_last());
    }
}

/// Complementing n bits gives 2^n - 1 minus the value.
proof fn lemma_bits_val_not(s: Seq<bool>, t: Seq<bool>)
    requires
        t.len() == s.len(),
        forall|i: int| 0 <= i < s.len() ==> #[trigger] t[i] == !s[i],
    ensures
        bits_val(s) + bits_val(t) + 1 == two_pow(s.len()),
    decreases s.len(),
{
    if s.len() > 0 {
        lemma_bits_val_not(s.drop_last(), t.drop_last());
        assert(two_pow(s.len()) == 2 * two_pow((s.len() - 1) as nat));
    }
}

/// The first n bits of a vector.
fn take_bits(s: &Vec<bool>, n: usize) -> (r: Vec<bool>)
    requires
        n <= s.len(),
    ensures
        r@ == s@.take(n as int),
{
    let mut r: Vec<bool> = Vec::new();
    let mut i: usize = 0;
    while i < n
        invariant
            n <= s.len(),
            i <= n,
            r@ == s@.take(i as int),
        decreases n - i,
    {
        r.push(s[i]);
        proof {
            assert(s@.take(i as int + 1) =~= s@.take(i as int).push(s[i as int]));
        }
        i = i + 1;
    }
    r
}

/// The n low bits of a value below 2^n denote the value.
proof fn lemma_take_small(s: Seq<bool>, n: int)
    requires
        0 <= n <= s.len(),
        bits_val(s) < two_pow(n as nat),
    ensures
        bits_val(s.take(n)) == bits_val(s),
{
    lemma_bits_val_take(s, n);
    lemma_small_mod(bits_val(s), two_pow(n as nat));
}

/// Bit n of a value below 2^(n+1) is set iff the value is at least 2^n, and
/// the bits below it denote the value modulo 2^n.
pub(crate) proof fn lemma_top_bit(s: Seq<bool>, n: int)
    requires
        0 <= n,
        n + 1 <= s.len(),
        bits_val(s) < two_pow((n + 1) as nat),
    ensures
        s[n] == (bits_val(s) >= two_pow(n as nat)),
        bits_val(s.take(n)) == bits_val(s) % two_pow(n as nat),
        s[n] ==> bits_val(s.take(n)) == bits_val(s) - two_pow(n as nat),
        !s[n] ==> bits_val(s.take(n)) == bits_val(s),
{
    lemma_take_small(s, n + 1);
    lemma_bits_val_take_step(s, n);
    lemma_bits_val_take(s, n);
    lemma_bits_val_bound(s.take(n));
    assert(s.take(n).len() == n);
}

/// Bit decomposition of a shared value once the masked value has been
/// opened: from c = v - r (public) and the shared bits of r, the shared bits
/// of v (least significant first). A lone party with consistent bits of
/// r < p obtains the bits of c + r modulo p.
#[verifier::spinoff_prover]
#[verifier::rlimit(60)]
pub fn bit_decompose_from_opened<N: MpcNet>(
    c: &Fe,
    b_bits: &[bool],
    bit_length: usize,
    net: &mut N,
) -> (h: Vec<bool>)
    requires
        b_bits.len() == bit_length,
        253 <= bit_length <= 255,
    ensures
        same_net(*final(net), *old(net)),
        h.len() == bit_length,
        old(net).single_party() && bits_val(b_bits@) < modulus() ==> bits_val(h@) == fadd(
            c.val(),
            bits_val(b_bits@),
        ),
        !old(net).single_party() ==> exists|e: Seq<bool>, pb: Seq<bool>, net1: N, net2: N|
            #[trigger] decompose_run(b_bits@, c.val(), e, pb, *old(net), net1, net2, h@),
{
    let l = bit_length;
    let ghost net0 = *old(net);
    let ghost sp = net0.single_party();
    let ghost b = bits_val(b_bits@);
    let ghost p = modulus();
    let ghost tl = two_pow(l as nat);
    proof {
        lemma_two_pow_253();
        crate::bits::lemma_two_pow_add(253, (l - 253) as nat);
        lemma_two_pow_positive((l - 253) as nat);
        assert(two_pow(253) <= tl) by (nonlinear_arith)
            requires
                tl == two_pow(253) * two_pow((l - 253) as nat),
                two_pow((l - 253) as nat) >= 1,
                two_pow(253) > 0,
        ;
        assert(two_pow(l as nat + 1) == 2 * tl);
        if sp {
            net0.lemma_single_party_is_king();
        }
    }
    // the l low bits of p
    let p_all = limbs_to_bits_le(modulus_limbs_exec());
    let p_bits = take_bits(&p_all, l);
    proof {
        lemma_take_small(p_all@, l as int);
    }
    // 2^l - p on l + 1 bits: the complement of p, plus one
    let mut not_p: Vec<bool> = Vec::new();
    let mut one: Vec<bool> = Vec::new();
    let mut i: usize = 0;
    while i < l
        invariant
            l == p_bits.len(),
            i <= l,
            not_p.len() == i,
            one.len() == i,
            forall|j: int| 0 <= j < i ==> #[trigger] not_p[j] == !p_bits[j],
            forall|j: int| 0 <= j < i ==> #[trigger] one[j] == (j == 0),
        decreases l - i,
    {
        not_p.push(!p_bits[i]);
        one.push(i == 0);
        i = i + 1;
    }
    proof {
        lemma_bits_val_not(p_bits@, not_p@);
        lemma_bits_val_one(one@);
    }
    let offset = add_public_bits(&not_p, &one);
    // e = c + 2^l - p, below 2^l, on l + 1 bits
    let c_all = fe_to_bits_le(c);
    let c_bits = take_bits(&c_all, l + 1);
    proof {
        assert(c.val() < two_pow(l as nat + 1));
        lemma_take_small(c_all@, l as int + 1);
    }
    let e_sum = add_public_bits(&c_bits, &offset);
    let e_bits = take_bits(&e_sum, l + 1);
    proof {
        assert(bits_val(e_sum@) == c.val() + tl - p);
        lemma_take_small(e_sum@, l as int + 1);
    }
    // d' = b + e, with the overflow bit
    let mut b_ext: Vec<bool> = Vec::new();
    i = 0;
    while i < l
        invariant
            l == b_bits.len(),
            i <= l,
            b_ext@ == b_bits@.take(i as int),
        decreases l - i,
    {
        b_ext.push(b_bits[i]);
        proof {
            assert(b_bits@.take(i as int + 1) =~= b_bits@.take(i as int).push(b_bits[i as int]));
        }
        i = i + 1;
    }
    proof {
        assert(b_bits@.take(l as int) =~= b_bits@);
        lemma_bits_val_push(b_ext@, false);
    }
    b_ext.push(false);
    let mut beaver_source = DummyBooleanBeaverSource::new(net.am_king());
    let ghost src0 = beaver_source;
    proof {
        assert(b_ext@ =~= b_bits@.push(false));
    }
    let d_prime_bits = BooleanOps::bits_add_const(
        b_ext.as_slice(),
        e_bits.as_slice(),
        true,
        &mut beaver_source,
        net,
    );
    let ghost net1 = *net;
    proof {
        assert(beaver_source.triple_at(0) == src0.triple_at((l + 1) as nat));
        assert(beaver_source == src0);
    }
    // q: whether b + c reached p
    let q_share = d_prime_bits[l];
    let not_q_share = BooleanOps::bitwise_not(q_share, net);
    // p where q is unset, zero where it is set
    let mut optional_p_bits: Vec<bool> = Vec::new();
    i = 0;
    while i < l
        invariant
            l == p_bits.len(),
            i <= l,
            optional_p_bits.len() == i,
            same_net(*net, net0),
            sp == net0.single_party(),
            sp ==> net0.king(),
            beaver_source.local_triples(),
            sp ==> forall|j: int|
                0 <= j < i ==> #[trigger] optional_p_bits[j] == (p_bits[j] && not_q_share),
            beaver_source == src0,
            src0 == (DummyBooleanBeaverSource { king: net0.king() }),
            same_net(net1, net0),
            !sp ==> net.rounds() == net1.rounds() + 2 * i,
            !sp ==> forall|j: int|
                0 <= j < i ==> #[trigger] optional_p_bits[j] == correction_bits(
                    p_bits@,
                    not_q_share,
                    net1,
                )[j],
        decreases l - i,
    {
        let ghost net_i = *net;
        let ghost prev = optional_p_bits@;
        let p_bit_share = if net.am_king() {
            p_bits[i]
        } else {
            false
        };
        let x = BooleanOps::beaver_bitwise_and(p_bit_share, not_q_share, &mut beaver_source, net);
        proof {
            if sp {
                assert(p_bit_share == p_bits[i as int]);
                assert(x == (p_bit_share && not_q_share));
            }
        }
        optional_p_bits.push(x);
        proof {
            assert(beaver_source.triple_at(0) == src0.triple_at(1));
            assert(beaver_source == src0);
            if !sp {
                assert forall|j: int| 0 <= j < i + 1 implies #[trigger] optional_p_bits[j]
                    == correction_bits(p_bits@, not_q_share, net1)[j] by {
                    if j < i {
                        assert(optional_p_bits[j] == prev[j]);
                    } else {
                        assert(net_i.rounds() == net1.rounds() + 2 * j);
                        assert(p_bit_share == (net0.king() && p_bits[j]));
                    }
                }
            }
        }
        i = i + 1;
    }
    let ghost net2 = *net;
    let d_prime_trimmed = take_bits(&d_prime_bits, l);
    let h_bits = BooleanOps::bits_add(
        d_prime_trimmed.as_slice(),
        optional_p_bits.as_slice(),
        false,
        &mut beaver_source,
        net,
    );
    proof {
        if !sp {
            assert(optional_p_bits@ =~= correction_bits(p_bits@, not_q_share, net1));
            assert(not_q_share == (d_prime_bits[l as int] != net0.king()));
            assert(h_bits@ =~= decompose_share(b_bits@, e_bits@, p_bits@, net0, net1, net2));
            assert(decompose_run(b_bits@, c.val(), e_bits@, p_bits@, net0, net1, net2, h_bits@));
        }
        if sp && b < p {
            let cv = c.val();
            let d = b + (cv + tl - p);
            assert(bits_val(d_prime_bits@) == d);
            assert(d < 2 * tl);
            lemma_top_bit(d_prime_bits@, l as int);
            let opt: nat = if q_share {
                0
            } else {
                p
            };
            if q_share {
                assert forall|j: int| 0 <= j < l implies !#[trigger] optional_p_bits[j] by {}
                lemma_bits_val_zeros(optional_p_bits@);
            } else {
                assert(optional_p_bits@ =~= p_bits@);
            }
            assert(bits_val(optional_p_bits@) == opt);
            lemma_two_pow_positive(l as nat);
            let s = b + cv;
            if q_share {
                // b + c >= p: the result is b + c - p
                assert(bits_val(d_prime_trimmed@) == s - p);
                lemma_small_mod((s - p) as nat, tl);
                lemma_fundamental_div_mod_converse(s as int, p as int, 1, (s - p) as int);
            } else {
                // b + c < p: the result is (b + c + 2^l) mod 2^l = b + c
                lemma_fundamental_div_mod_converse((d + p) as int, tl as int, 1, s as int);
                lemma_small_mod(s as nat, p);
            }
        }
    }
    h_bits
}

/// One bit at position 0 and zeros above denote one.
proof fn lemma_bits_val_one(s: Seq<bool>)
    requires
        s.len() >= 1,
        forall|j: int| 0 <= j < s.len() ==> #[trigger] s[j] == (j == 0),
    ensures
        bits_val(s) == 1,
    decreases s.len(),
{
    assert(s.last() == s[s.len() - 1]);
    if s.len() == 1 {
        assert(s.drop_last() =~= Seq::<bool>::empty());
        assert(bits_val(Seq::<bool>::empty()) == 0);
        assert(bits_val(s.drop_last()) == 0);
        assert(two_pow(0) == 1);
        assert(s[0]);
        assert(bits_val(s) == bits_val(s.drop_last()) + two_pow(0));
    } else {
        let t = s.drop_last();
        assert forall|j: int| 0 <= j < t.len() implies #[trigger] t[j] == (j == 0) by {
            assert(t[j] == s[j]);
        }
        lemma_bits_val_one(t);
        assert(!s[s.len() - 1]);
    }
}

/// Bit decomposition of a shared value with a fresh edaBit: the shared bits
/// of the value (least significant first).
pub fn bit_decompose<N: MpcNet>(value: AdditiveFieldShare, bit_length: usize, net: &mut N) -> (h:
    Vec<bool>)
    requires
        253 <= bit_length <= 255,
    ensures
        same_net(*final(net), *old(net)),
        h.len() == bit_length,
        old(net).single_party() ==> bits_val(h@) == value.val.val(),
{
    let mut eda_source = DummyEdaBitSource::new(net.am_king());
    let edabit = eda_source.edabit(bit_length);
    let mut c_share = value;
    c_share.sub(&edabit.arith_share);
    let c = c_share.open(net);
    let ghost r = edabit.arith_share.val.val();
    proof {
        lemma_two_pow_253();
        crate::bits::lemma_two_pow_add(253, (bit_length - 253) as nat);
        lemma_two_pow_positive((bit_length - 253) as nat);
        assert(two_pow(253) <= two_pow(bit_length as nat)) by (nonlinear_arith)
            requires
                two_pow(bit_length as nat) == two_pow(253) * two_pow((bit_length - 253) as nat),
                two_pow((bit_length - 253) as nat) >= 1,
        ;
        lemma_small_mod(r, two_pow(bit_length as nat));
    }
    let h = bit_decompose_from_opened(&c, edabit.bool_shares.as_slice(), bit_length, net);
    proof {
        if old(net).single_party() {
            lemma_add_back(value.val.val(), r);
        }
    }
    h
}

/// Both values of pair i are recovered from their masked values.
proof fn lemma_pair_add_back(
    left: Seq<AdditiveFieldShare>,
    right: Seq<AdditiveFieldShare>,
    bits: Seq<Vec<bool>>,
    c_shares: Seq<AdditiveFieldShare>,
    c_values: Seq<Fe>,
    left_bits: Seq<bool>,
    right_bits: Seq<bool>,
    i: usize,
)
    requires
        i < left.len(),
        right.len() == left.len(),
        bits.len() == 2 * left.len(),
        c_shares.len() == 2 * left.len(),
        c_values.len() == 2 * left.len(),
        forall|j: int|
            0 <= j < bits.len() ==> bits_val((#[trigger] bits[j])@) < modulus() && c_shares[j].val.val()
                == fsub(
                (if j % 2 == 0 {
                    left[j / 2]
                } else {
                    right[j / 2]
                }).val.val(),
                bits_val(bits[j]@),
            ),
        forall|j: int| 0 <= j < bits.len() ==> #[trigger] c_values[j] == c_shares[j].val,
        bits_val(left_bits) == fadd(c_values[2 * i].val(), bits_val(bits[2 * i]@)),
        bits_val(right_bits) == fadd(c_values[2 * i + 1].val(), bits_val(bits[2 * i + 1]@)),
    ensures
        bits_val(left_bits) == left[i as int].val.val(),
        bits_val(right_bits) == right[i as int].val.val(),
{
    let li = 2 * i as int;
    let ri = 2 * i as int + 1;
    assert(li % 2 == 0 && li / 2 == i);
    assert(ri % 2 == 1 && ri / 2 == i);
    assert(c_values[li] == c_shares[li].val);
    assert(c_values[ri] == c_shares[ri].val);
    assert(bits_val(bits[li]@) < modulus());
    assert(bits_val(bits[ri]@) < modulus());
    lemma_add_back(left[i as int].val.val(), bits_val(bits[li]@));
    lemma_add_back(right[i as int].val.val(), bits_val(bits[ri]@));
}

/// (v - r) + r = v in the field.
proof fn lemma_add_back(v: nat, r: nat)
    requires
        v < modulus(),
        r < modulus(),
    ensures
        fadd(fsub(v, r), r) == v,
{
    lemma_residue(v);
    lemma_residue(r);
    lemma_fsub_cong(v as int, r as int, v, r);
    lemma_fadd_cong(v - r, r as int, fsub(v, r), r);
    lemma_residue(v);
}

impl AdditiveFieldShare {
    /// The shared less-than bit of two shared bit vectors, converted to an
    /// additive share with a daBit: one iff the left value is below the right.
    pub fn compare_bits<N: MpcNet>(left_bits: &[bool], right_bits: &[bool], net: &mut N) -> (r:
        AdditiveFieldShare)
        requires
            left_bits.len() == right_bits.len(),
            left_bits.len() >= 1,
        ensures
            same_net(*final(net), *old(net)),
            old(net).single_party() ==> r.val.val() == bit_value(bits_val(left_bits@) < bits_val(
                right_bits@,
            )),
            !old(net).king() ==> r.val.val() == 0,
            old(net).king() ==> r.val.val() <= 1,
            !old(net).single_party() && old(net).king() ==> exists|b: bool|
                r.val.val() == b2a_finish(
                    bit_value(b),
                    round_bit(
                        *old(net),
                        old(net).rounds() + less_rounds(left_bits.len() as nat),
                        less_share(
                            left_bits@,
                            right_bits@,
                            (DummyBooleanBeaverSource { king: true }),
                            *old(net),
                        ) != b,
                    ),
                    true,
                ),
    {
        let ghost net0 = *old(net);
        let mut beaver_source = DummyBooleanBeaverSource::new(net.am_king());
        let ghost src_init = beaver_source;
        let result_share = BooleanOps::compare_bits_bool(
            left_bits,
            right_bits,
            &mut beaver_source,
            net,
        );
        let mut dabit_source = DummyDaBitSource::new(net.am_king());
        let dabit_result = dabit_source.dabit();
        let ghost net1 = *net;
        let r = b2a(result_share, dabit_result, net);
        proof {
            if !net0.single_party() && net0.king() {
                assert(src_init == DummyBooleanBeaverSource { king: true });
                assert(round_bit(net1, net1.rounds(), result_share != dabit_result.bool_share)
                    == round_bit(
                    net0,
                    net0.rounds() + less_rounds(left_bits.len() as nat),
                    result_share != dabit_result.bool_share,
                ));
                assert(dabit_result.arith_share.val.val() == bit_value(dabit_result.bool_share));
            }
            lemma_dealer_b2a(
                dabit_result.arith_share.val.val(),
                dabit_result.bool_share,
                round_bit(net1, net1.rounds(), result_share != dabit_result.bool_share),
                net1.king(),
            );
        }
        r
    }

    /// The shared less-than bit of two shared values: one iff self < other
    /// as integers below the modulus.
    pub fn secure_cmp<N: MpcNet>(&self, other: &Self, net: &mut N) -> (r: Self)
        ensures
            same_net(*final(net), *old(net)),
            old(net).single_party() ==> r.val.val() == bit_value(self.val.val() < other.val.val()),
            !old(net).king() ==> r.val.val() == 0,
            old(net).king() ==> r.val.val() <= 1,
    {
        let bit_length = modulus_num_bits();
        let self_bits = bit_decompose(*self, bit_length, net);
        let other_bits = bit_decompose(*other, bit_length, net);
        Self::compare_bits(self_bits.as_slice(), other_bits.as_slice(), net)
    }

    /// Pairwise shared less-than bits, with the masked values of all pairs
    /// opened in one batch.
    pub fn batch_secure_cmp<N: MpcNet>(
        left_values: &[Self],
        right_values: &[Self],
        net: &mut N,
    ) -> (r: Vec<Self>)
        requires
            left_values.len() == right_values.len(),
        ensures
            same_net(*final(net), *old(net)),
            r.len() == left_values.len(),
            old(net).single_party() ==> forall|i: int|
                0 <= i < r.len() ==> #[trigger] r[i].val.val() == bit_value(
                    left_values[i].val.val() < right_values[i].val.val(),
                ),
            !old(net).king() ==> forall|i: int| 0 <= i < r.len() ==> (#[trigger] r[i]).val.val() == 0,
            old(net).king() ==> forall|i: int| 0 <= i < r.len() ==> (#[trigger] r[i]).val.val() <= 1,
    {
        let n_pairs = left_values.len();
        if n_pairs == 0 {
            return Vec::new();
        }
        let bit_length = modulus_num_bits();
        let ghost net0 = *old(net);
        let ghost sp = net0.single_party();
        proof {
            lemma_two_pow_253();
        }
        let mut eda_source = DummyEdaBitSource::new(net.am_king());
        let mut all_bits: Vec<Vec<bool>> = Vec::new();
        let mut all_c_shares: Vec<AdditiveFieldShare> = Vec::new();
        let mut p: usize = 0;
        while p < n_pairs
            invariant
                n_pairs == left_values.len(),
                n_pairs == right_values.len(),
                bit_length == 253,
                modulus() < two_pow(253),
                p <= n_pairs,
                all_bits.len() == 2 * p,
                all_c_shares.len() == 2 * p,
                eda_source.local_ok(),
                forall|j: int| 0 <= j < 2 * p ==> (#[trigger] all_bits[j]).len() == 253,
                forall|j: int|
                    0 <= j < 2 * p ==> bits_val((#[trigger] all_bits[j])@) < modulus() && all_c_shares[j].val.val() == fsub(
                        (if j % 2 == 0 {
                            left_values[j / 2]
                        } else {
                            right_values[j / 2]
                        }).val.val(),
                        bits_val(all_bits[j]@),
                    ),
            decreases n_pairs - p,
        {
            let left_edabit = eda_source.edabit(bit_length);
            let mut left_c = left_values[p];
            proof {
                lemma_small_mod(left_edabit.arith_share.val.val(), two_pow(253));
            }
            left_c.sub(&left_edabit.arith_share);
            all_c_shares.push(left_c);
            all_bits.push(left_edabit.bool_shares);
            let right_edabit = eda_source.edabit(bit_length);
            let mut right_c = right_values[p];
            proof {
                lemma_small_mod(right_edabit.arith_share.val.val(), two_pow(253));
            }
            right_c.sub(&right_edabit.arith_share);
            all_c_shares.push(right_c);
            all_bits.push(right_edabit.bool_shares);
            proof {
                assert((2 * p) % 2 == 0 && (2 * p) / 2 == p);
                assert((2 * p + 1) % 2 == 1 && (2 * p + 1) / 2 == p);
            }
            p = p + 1;
        }
        let total = all_bits.len();
        assert(total == 2 * n_pairs);
        let all_c_values = Self::batch_open(all_c_shares.as_slice(), net);
        let mut results: Vec<Self> = Vec::new();
        let mut i: usize = 0;
        while i < n_pairs
            invariant
                n_pairs == left_values.len(),
                n_pairs == right_values.len(),
                bit_length == 253,
                all_bits.len() == 2 * n_pairs,
                all_c_shares.len() == 2 * n_pairs,
                all_c_values.len() == 2 * n_pairs,
                i <= n_pairs,
                results.len() == i,
                same_net(*net, net0),
                sp == net0.single_party(),
                forall|j: int| 0 <= j < 2 * n_pairs ==> (#[trigger] all_bits[j]).len() == 253,
                forall|j: int|
                    0 <= j < 2 * n_pairs ==> bits_val((#[trigger] all_bits[j])@) < modulus() && all_c_shares[j].val.val() == fsub(
                        (if j % 2 == 0 {
                            left_values[j / 2]
                        } else {
                            right_values[j / 2]
                        }).val.val(),
                        bits_val(all_bits[j]@),
                    ),
                sp ==> forall|j: int| 0 <= j < 2 * n_pairs ==> #[trigger] all_c_values[j] == all_c_shares[j].val,
                sp ==> forall|j: int|
                    0 <= j < i ==> #[trigger] results[j].val.val() == bit_value(
                        left_values[j].val.val() < right_values[j].val.val(),
                    ),
                !net0.king() ==> forall|j: int| 0 <= j < i ==> (#[trigger] results[j]).val.val() == 0,
                net0.king() ==> forall|j: int| 0 <= j < i ==> (#[trigger] results[j]).val.val() <= 1,
            decreases n_pairs - i,
        {
            let li = 2 * i;
            let ri = 2 * i + 1;
            let left_bits = bit_decompose_from_opened(
                &all_c_values[li],
                all_bits[li].as_slice(),
                bit_length,
                net,
            );
            let right_bits = bit_decompose_from_opened(
                &all_c_values[ri],
                all_bits[ri].as_slice(),
                bit_length,
                net,
            );
            let result = Self::compare_bits(left_bits.as_slice(), right_bits.as_slice(), net);
            proof {
                if sp {
                    assert(li % 2 == 0 && li / 2 == i);
                    assert(ri % 2 == 1 && ri / 2 == i);
                    lemma_pair_add_back(
                        left_values@,
                        right_values@,
                        all_bits@,
                        all_c_shares@,
                        all_c_values@,
                        left_bits@,
                        right_bits@,
                        i,
                    );
                }
            }
            results.push(result);
            i = i + 1;
        }
        results
    }
}

} // verus!
