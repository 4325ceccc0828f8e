//! The comparison circuit of `BooleanOps::compare_bits_bool` as each party
//! runs it.
//!
//! With n bits and rounds counted from the start of the run: the prefix OR
//! takes rounds 2(i - 1), 2(i - 1) + 1 and draw i - 1 for its i-th step; the
//! selection bits (n > 1) one batch AND in rounds 2(n - 1), 2(n - 1) + 1 with
//! draws n - 1 onwards; the selected bits one batch AND after them with draws
//! 2(n - 1) onwards; and the OR tree two rounds per level, each level drawing
//! one triple per pair.
use vstd::prelude::*;
use crate::adder::{column_secret, triples_valid};
use crate::bit_ops::{
    BooleanBeaverSource, and_finish, bits_val, lemma_beaver_and_shares, lemma_beaver_or_shares,
    lemma_xor_new_xor, round_bit, round_bits, xor_all,
};
use crate::compare::{
    diff_at, lemma_first_diff_decides, lemma_or_tree_step, lemma_selection_is_first_diff, or_all,
};
use crate::bit_ops::DummyBooleanBeaverSource;
use crate::edabits::{b2a_finish, bit_value};
use crate::net::MpcNet;

verus! {

/// A party's share of the XOR of the bits at MSB-first position k.
pub open spec fn diff_share(l: Seq<bool>, r: Seq<bool>, k: int) -> bool {
    l[l.len() - 1 - k] != r[l.len() - 1 - k]
}

/// A party's share of the OR of the differences at MSB-first positions up
/// to i.
pub open spec fn prefix_share<S: BooleanBeaverSource, N: MpcNet>(
    l: Seq<bool>,
    r: Seq<bool>,
    src: S,
    net: N,
    i: nat,
) -> bool
    decreases i,
{
    if i == 0 {
        diff_share(l, r, 0)
    } else {
        let h = (i - 1) as nat;
        let p = prefix_share(l, r, src, net, h);
        let x = diff_share(l, r, i as int);
        let t = src.triple_at(h);
        (p != x) != and_finish(
            t.0,
            t.1,
            t.2,
            round_bit(net, net.rounds() + 2 * h, p != t.0),
            round_bit(net, net.rounds() + 2 * h + 1, x != t.1),
            net.king(),
        )
    }
}

/// A party's masked left inputs of a batch of ANDs drawing from draw `d` on.
pub open spec fn batch_masked_left<S: BooleanBeaverSource>(left: Seq<bool>, src: S, d: nat) -> Seq<
    bool,
> {
    Seq::new(left.len(), |j: int| left[j] != src.triple_at(d + j as nat).0)
}

/// A party's masked right inputs of a batch of ANDs drawing from draw `d` on.
pub open spec fn batch_masked_right<S: BooleanBeaverSource>(right: Seq<bool>, src: S, d: nat) -> Seq<
    bool,
> {
    Seq::new(right.len(), |j: int| right[j] != src.triple_at(d + j as nat).1)
}

/// A party's outputs of a batch of Beaver ANDs of `left` and `right`
/// drawing from draw `d` on, in the rounds `o` and `o + 1` after the start.
pub open spec fn batch_and_shares<S: BooleanBeaverSource, N: MpcNet>(
    left: Seq<bool>,
    right: Seq<bool>,
    src: S,
    net: N,
    o: nat,
    d: nat,
) -> Seq<bool> {
    let dv = round_bits(net, net.rounds() + o, batch_masked_left(left, src, d));
    let ev = round_bits(net, net.rounds() + o + 1, batch_masked_right(right, src, d));
    Seq::new(
        left.len(),
        |j: int|
            and_finish(
                src.triple_at(d + j as nat).0,
                src.triple_at(d + j as nat).1,
                src.triple_at(d + j as nat).2,
                dv[j],
                ev[j],
                net.king(),
            ),
    )
}

/// A party's left inputs of the selection ANDs: the differences at
/// positions 1 to n - 1.
pub open spec fn selection_left(l: Seq<bool>, r: Seq<bool>) -> Seq<bool> {
    Seq::new((l.len() - 1) as nat, |j: int| diff_share(l, r, j + 1))
}

/// A party's right inputs of the selection ANDs: NOT of the prefix ORs at
/// positions 0 to n - 2 (the king flips its share).
pub open spec fn selection_right<S: BooleanBeaverSource, N: MpcNet>(
    l: Seq<bool>,
    r: Seq<bool>,
    src: S,
    net: N,
) -> Seq<bool> {
    Seq::new(
        (l.len() - 1) as nat,
        |j: int|
            if net.king() {
                !prefix_share(l, r, src, net, j as nat)
            } else {
                prefix_share(l, r, src, net, j as nat)
            },
    )
}

/// A party's selection bits: the difference at position 0, and at each
/// later position the difference AND NOT the prefix OR before it.
pub open spec fn selection_shares<S: BooleanBeaverSource, N: MpcNet>(
    l: Seq<bool>,
    r: Seq<bool>,
    src: S,
    net: N,
) -> Seq<bool> {
    let n = l.len();
    let ands = batch_and_shares(
        selection_left(l, r),
        selection_right(l, r, src, net),
        src,
        net,
        2 * (n - 1) as nat,
        (n - 1) as nat,
    );
    Seq::new(n, |i: int| if i == 0 {
        diff_share(l, r, 0)
    } else {
        ands[i - 1]
    })
}

/// A party's right-hand bits, most significant first.
pub open spec fn msb_first(r: Seq<bool>) -> Seq<bool> {
    Seq::new(r.len(), |i: int| r[r.len() - 1 - i])
}

/// The rounds that come before the selected bits' batch.
pub open spec fn selected_round(n: nat) -> nat {
    if n > 1 {
        2 * n
    } else {
        0
    }
}

/// A party's selected bits: selection AND the right-hand bit, MSB first.
pub open spec fn selected_shares<S: BooleanBeaverSource, N: MpcNet>(
    l: Seq<bool>,
    r: Seq<bool>,
    src: S,
    net: N,
) -> Seq<bool> {
    let n = l.len();
    batch_and_shares(
        selection_shares(l, r, src, net),
        msb_first(r),
        src,
        net,
        selected_round(n),
        2 * (n - 1) as nat,
    )
}

/// The first bits of the pairs of a level.
pub open spec fn pair_left(cur: Seq<bool>) -> Seq<bool> {
    Seq::new(cur.len() / 2, |j: int| cur[2 * j])
}

/// The second bits of the pairs of a level.
pub open spec fn pair_right(cur: Seq<bool>) -> Seq<bool> {
    Seq::new(cur.len() / 2, |j: int| cur[2 * j + 1])
}

/// One level of a party's OR tree: the ORs of the pairs, and the last bit
/// of an odd level carried up.
pub open spec fn or_level<S: BooleanBeaverSource, N: MpcNet>(
    cur: Seq<bool>,
    src: S,
    net: N,
    o: nat,
    d: nat,
) -> Seq<bool> {
    let m = cur.len() / 2;
    let left = pair_left(cur);
    let right = pair_right(cur);
    let ands = batch_and_shares(left, right, src, net, o, d);
    let ors = Seq::new(m, |j: int| (left[j] != right[j]) != ands[j]);
    if cur.len() % 2 == 1 {
        ors.push(cur.last())
    } else {
        ors
    }
}

/// A party's share of the OR of `cur` by the balanced tree, the next level
/// in rounds `o`, `o + 1` with draws from `d` on.
pub open spec fn or_tree<S: BooleanBeaverSource, N: MpcNet>(
    cur: Seq<bool>,
    src: S,
    net: N,
    o: nat,
    d: nat,
) -> bool
    decreases cur.len(),
{
    if cur.len() <= 1 {
        cur[0]
    } else {
        or_tree(or_level(cur, src, net, o, d), src, net, o + 2, d + cur.len() / 2)
    }
}

/// The rounds of an OR tree over len bits: two per level.
pub open spec fn tree_rounds(len: nat) -> nat
    decreases len,
{
    if len <= 1 {
        0
    } else {
        2 + tree_rounds(len / 2 + len % 2)
    }
}

/// The rounds of a comparison of n-bit vectors among several parties.
pub open spec fn less_rounds(n: nat) -> nat {
    selected_round(n) + 2 + tree_rounds(n)
}

/// A party's output of `compare_bits_bool`.
pub open spec fn less_share<S: BooleanBeaverSource, N: MpcNet>(
    l: Seq<bool>,
    r: Seq<bool>,
    src: S,
    net: N,
) -> bool {
    let n = l.len();
    or_tree(selected_shares(l, r, src, net), src, net, selected_round(n) + 2, 2 * (n - 1) as nat + n)
}

/// The parties' masked left inputs at position j of a batch of ANDs: each
/// party's left share XOR its draw d + j.
pub open spec fn masked_column_left<S: BooleanBeaverSource>(
    lefts: Seq<Seq<bool>>,
    srcs: Seq<S>,
    d: nat,
    j: int,
) -> Seq<bool> {
    Seq::new(lefts.len(), |p: int| lefts[p][j] != srcs[p].triple_at(d + j as nat).0)
}

/// The parties' masked right inputs at position j of a batch of ANDs.
pub open spec fn masked_column_right<S: BooleanBeaverSource>(
    rights: Seq<Seq<bool>>,
    srcs: Seq<S>,
    d: nat,
    j: int,
) -> Seq<bool> {
    Seq::new(rights.len(), |p: int| rights[p][j] != srcs[p].triple_at(d + j as nat).1)
}

/// In the rounds `o` and `o + 1` of a batch of ANDs of the parties'
/// vectors `lefts[q]` and `rights[q]` (of length len), drawing from draw `d`
/// on, the network opens to every party the XOR of all parties' masked
/// values, position by position.
pub open spec fn batch_opens<S: BooleanBeaverSource, N: MpcNet>(
    lefts: Seq<Seq<bool>>,
    rights: Seq<Seq<bool>>,
    srcs: Seq<S>,
    nets: Seq<N>,
    o: nat,
    d: nat,
    len: nat,
) -> bool {
    forall|q: int, j: int|
        #![trigger round_bits(nets[q], nets[q].rounds() + o, batch_masked_left(lefts[q], srcs[q], d))[j]]
        0 <= q < lefts.len() && 0 <= j < len ==> {
            &&& round_bits(nets[q], nets[q].rounds() + o, batch_masked_left(lefts[q], srcs[q], d))[j]
                == xor_all(masked_column_left(lefts, srcs, d, j))
            &&& round_bits(
                nets[q],
                nets[q].rounds() + o + 1,
                batch_masked_right(rights[q], srcs[q], d),
            )[j] == xor_all(masked_column_right(rights, srcs, d, j))
        }
}

/// The parties of one run: at least one, party 0 the king, none alone on
/// the network, every vector of length len.
pub open spec fn run_parties<S: BooleanBeaverSource, N: MpcNet>(
    vs: Seq<Seq<bool>>,
    srcs: Seq<S>,
    nets: Seq<N>,
    len: nat,
) -> bool {
    &&& vs.len() >= 1
    &&& srcs.len() == vs.len()
    &&& nets.len() == vs.len()
    &&& forall|q: int| 0 <= q < vs.len() ==> (#[trigger] vs[q]).len() == len
    &&& forall|q: int|
        0 <= q < vs.len() ==> !(#[trigger] nets[q]).single_party() && (nets[q].king() <==> q == 0)
}

/// A batch of Beaver ANDs among any number of parties: where the draws are
/// valid triples and the network opens XORs, the parties' outputs XOR,
/// position by position, to the AND of the secrets.
proof fn lemma_batch_and_shares<S: BooleanBeaverSource, N: MpcNet>(
    lefts: Seq<Seq<bool>>,
    rights: Seq<Seq<bool>>,
    srcs: Seq<S>,
    nets: Seq<N>,
    o: nat,
    d: nat,
    len: nat,
    j: int,
)
    requires
        run_parties(lefts, srcs, nets, len),
        rights.len() == lefts.len(),
        forall|q: int| 0 <= q < rights.len() ==> (#[trigger] rights[q]).len() == len,
        forall|k: nat| #[trigger] triples_valid(srcs, k),
        batch_opens(lefts, rights, srcs, nets, o, d, len),
        0 <= j < len,
    ensures
        xor_all(
            Seq::new(
                lefts.len(),
                |q: int| batch_and_shares(lefts[q], rights[q], srcs[q], nets[q], o, d)[j],
            ),
        ) == (column_secret(lefts, j) && column_secret(rights, j)),
{
    let np = lefts.len();
    let k = d + j as nat;
    let sl = Seq::new(np, |q: int| lefts[q][j]);
    let sr = Seq::new(np, |q: int| rights[q][j]);
    let ta = Seq::new(np, |q: int| srcs[q].triple_at(k).0);
    let tb = Seq::new(np, |q: int| srcs[q].triple_at(k).1);
    let tc = Seq::new(np, |q: int| srcs[q].triple_at(k).2);
    assert(triples_valid(srcs, k));
    lemma_beaver_and_shares(sl, sr, ta, tb, tc);
    let dd = xor_all(Seq::new(np, |i: int| sl[i] != ta[i]));
    let ee = xor_all(Seq::new(np, |i: int| sr[i] != tb[i]));
    assert(masked_column_left(lefts, srcs, d, j) =~= Seq::new(np, |i: int| sl[i] != ta[i]));
    assert(masked_column_right(rights, srcs, d, j) =~= Seq::new(np, |i: int| sr[i] != tb[i]));
    assert forall|q: int| 0 <= q < np implies #[trigger] batch_and_shares(
        lefts[q],
        rights[q],
        srcs[q],
        nets[q],
        o,
        d,
    )[j] == and_finish(ta[q], tb[q], tc[q], dd, ee, q == 0) by {
        assert(nets[q] == nets[q] && lefts[q][j] == lefts[q][j]);
        assert(lefts[q].len() == len);
        let dv = round_bits(nets[q], nets[q].rounds() + o, batch_masked_left(lefts[q], srcs[q], d));
        let ev = round_bits(
            nets[q],
            nets[q].rounds() + o + 1,
            batch_masked_right(rights[q], srcs[q], d),
        );
        assert(dv[j] == dd);
        assert(ev[j] == ee);
        assert(nets[q].king() == (q == 0));
        assert(srcs[q].triple_at(d + j as nat) == srcs[q].triple_at(k));
    }
    assert(Seq::new(
        np,
        |q: int| batch_and_shares(lefts[q], rights[q], srcs[q], nets[q], o, d)[j],
    ) =~= Seq::new(np, |i: int| and_finish(ta[i], tb[i], tc[i], dd, ee, i == 0)));
}

/// In every level of the parties' OR trees of `curs` (each of length len),
/// the network opens XORs.
pub open spec fn tree_opens<S: BooleanBeaverSource, N: MpcNet>(
    curs: Seq<Seq<bool>>,
    srcs: Seq<S>,
    nets: Seq<N>,
    o: nat,
    d: nat,
    len: nat,
) -> bool
    decreases len,
{
    if len <= 1 {
        true
    } else {
        let m = len / 2;
        &&& batch_opens(
            Seq::new(curs.len(), |q: int| pair_left(curs[q])),
            Seq::new(curs.len(), |q: int| pair_right(curs[q])),
            srcs,
            nets,
            o,
            d,
            m,
        )
        &&& tree_opens(
            Seq::new(curs.len(), |q: int| or_level(curs[q], srcs[q], nets[q], o, d)),
            srcs,
            nets,
            o + 2,
            d + m,
            m + len % 2,
        )
    }
}

/// The parties' column secrets of a set of vectors of length len.
pub open spec fn column_secrets(vs: Seq<Seq<bool>>, len: nat) -> Seq<bool> {
    Seq::new(len, |j: int| column_secret(vs, j))
}

/// The OR tree among any number of parties: where the draws are valid
/// triples and the network opens XORs in every level, the parties' outputs
/// XOR to the OR of the secrets.
proof fn lemma_tree_shares<S: BooleanBeaverSource, N: MpcNet>(
    curs: Seq<Seq<bool>>,
    srcs: Seq<S>,
    nets: Seq<N>,
    o: nat,
    d: nat,
    len: nat,
)
    requires
        run_parties(curs, srcs, nets, len),
        len >= 1,
        forall|k: nat| #[trigger] triples_valid(srcs, k),
        tree_opens(curs, srcs, nets, o, d, len),
    ensures
        xor_all(Seq::new(curs.len(), |q: int| or_tree(curs[q], srcs[q], nets[q], o, d))) == or_all(
            column_secrets(curs, len),
        ),
    decreases len,
{
    let np = curs.len();
    let cs = column_secrets(curs, len);
    if len == 1 {
        assert forall|q: int| 0 <= q < np implies #[trigger] or_tree(curs[q], srcs[q], nets[q], o, d)
            == curs[q][0] by {
            assert(curs[q].len() == 1);
        }
        assert(Seq::new(np, |q: int| or_tree(curs[q], srcs[q], nets[q], o, d)) =~= Seq::new(
            curs.len(),
            |q: int| curs[q][0],
        ));
        assert(cs[0] == column_secret(curs, 0));
        if or_all(cs) {
            let i = choose|i: int| 0 <= i < cs.len() && cs[i];
            assert(i == 0);
        }
    } else {
        let m = len / 2;
        let len2 = m + len % 2;
        let lefts = Seq::new(np, |q: int| pair_left(curs[q]));
        let rights = Seq::new(np, |q: int| pair_right(curs[q]));
        let nexts = Seq::new(np, |q: int| or_level(curs[q], srcs[q], nets[q], o, d));
        assert(batch_opens(lefts, rights, srcs, nets, o, d, m));
        assert(tree_opens(nexts, srcs, nets, o + 2, d + m, len2));
        assert forall|q: int| 0 <= q < np implies (#[trigger] nexts[q]).len() == len2 && lefts[q].len()
            == m && rights[q].len() == m by {
            assert(curs[q].len() == len);
        }
        assert(run_parties(lefts, srcs, nets, m));
        assert(run_parties(nexts, srcs, nets, len2));
        lemma_tree_shares(nexts, srcs, nets, o + 2, d + m, len2);
        assert forall|q: int| 0 <= q < np implies #[trigger] or_tree(curs[q], srcs[q], nets[q], o, d)
            == or_tree(nexts[q], srcs[q], nets[q], o + 2, d + m) by {
            assert(curs[q].len() == len);
        }
        assert(Seq::new(np, |q: int| or_tree(curs[q], srcs[q], nets[q], o, d)) =~= Seq::new(
            nexts.len(),
            |q: int| or_tree(nexts[q], srcs[q], nets[q], o + 2, d + m),
        ));
        let ns = column_secrets(nexts, len2);
        assert forall|j: int| 0 <= j < m implies #[trigger] ns[j] == (cs[2 * j] || cs[2 * j + 1]) by {
            lemma_batch_and_shares(lefts, rights, srcs, nets, o, d, m, j);
            let f = |q: int| lefts[q][j];
            let g = |q: int| rights[q][j];
            let h = |q: int| batch_and_shares(lefts[q], rights[q], srcs[q], nets[q], o, d)[j];
            let fg = |q: int| f(q) != g(q);
            assert forall|q: int| 0 <= q < np implies #[trigger] nexts[q][j] == (fg(q) != h(q)) by {
                assert(curs[q].len() == len);
            }
            assert(Seq::new(nexts.len(), |q: int| nexts[q][j]) =~= Seq::new(np, |q: int| fg(q) != h(q)));
            lemma_xor_new_xor(fg, h, np);
            lemma_xor_new_xor(f, g, np);
            assert(Seq::new(np, |q: int| f(q) != g(q)) =~= Seq::new(np, fg));
            assert(Seq::new(np, f) =~= Seq::new(lefts.len(), |q: int| lefts[q][j]));
            assert(Seq::new(np, g) =~= Seq::new(rights.len(), |q: int| rights[q][j]));
            assert(Seq::new(np, h) =~= Seq::new(
                lefts.len(),
                |q: int| batch_and_shares(lefts[q], rights[q], srcs[q], nets[q], o, d)[j],
            ));
            assert(Seq::new(lefts.len(), |q: int| lefts[q][j]) =~= Seq::new(
                curs.len(),
                |q: int| curs[q][2 * j],
            ));
            assert(Seq::new(rights.len(), |q: int| rights[q][j]) =~= Seq::new(
                curs.len(),
                |q: int| curs[q][2 * j + 1],
            ));
        }
        if len % 2 == 1 {
            assert forall|q: int| 0 <= q < np implies #[trigger] nexts[q][m as int] == curs[q][len - 1]
                by {
                assert(curs[q].len() == len);
            }
            assert(Seq::new(nexts.len(), |q: int| nexts[q][m as int]) =~= Seq::new(
                curs.len(),
                |q: int| curs[q][len - 1],
            ));
            assert(ns[m as int] == cs[len - 1]);
        }
        lemma_or_tree_step(cs, ns);
    }
}

/// The parties' masked prefix ORs of step h + 1 of the prefix chain.
pub open spec fn prefix_masks_left<S: BooleanBeaverSource, N: MpcNet>(
    ls: Seq<Seq<bool>>,
    rs: Seq<Seq<bool>>,
    srcs: Seq<S>,
    nets: Seq<N>,
    h: nat,
) -> Seq<bool> {
    Seq::new(
        ls.len(),
        |p: int| prefix_share(ls[p], rs[p], srcs[p], nets[p], h) != srcs[p].triple_at(h).0,
    )
}

/// The parties' masked differences of step h + 1 of the prefix chain.
pub open spec fn prefix_masks_right<S: BooleanBeaverSource>(
    ls: Seq<Seq<bool>>,
    rs: Seq<Seq<bool>>,
    srcs: Seq<S>,
    h: nat,
) -> Seq<bool> {
    Seq::new(ls.len(), |p: int| diff_share(ls[p], rs[p], (h + 1) as int) != srcs[p].triple_at(h).1)
}

/// In the two rounds of step h + 1 of the prefix chain the network opens
/// to every party the XOR of all parties' masked values.
pub open spec fn prefix_opens<S: BooleanBeaverSource, N: MpcNet>(
    ls: Seq<Seq<bool>>,
    rs: Seq<Seq<bool>>,
    srcs: Seq<S>,
    nets: Seq<N>,
    h: nat,
) -> bool {
    forall|q: int|
        #![trigger nets[q]]
        0 <= q < ls.len() ==> {
            &&& round_bit(
                nets[q],
                nets[q].rounds() + 2 * h,
                prefix_share(ls[q], rs[q], srcs[q], nets[q], h) != srcs[q].triple_at(h).0,
            ) == xor_all(prefix_masks_left(ls, rs, srcs, nets, h))
            &&& round_bit(
                nets[q],
                nets[q].rounds() + 2 * h + 1,
                diff_share(ls[q], rs[q], (h + 1) as int) != srcs[q].triple_at(h).1,
            ) == xor_all(prefix_masks_right(ls, rs, srcs, h))
        }
}

/// The secret difference at MSB-first position k of two shared n-bit
/// vectors.
pub open spec fn diff_secret(ls: Seq<Seq<bool>>, rs: Seq<Seq<bool>>, n: nat, k: int) -> bool {
    column_secret(ls, n - 1 - k) != column_secret(rs, n - 1 - k)
}

/// The parties' difference shares XOR to the secret difference.
proof fn lemma_diff_shares(ls: Seq<Seq<bool>>, rs: Seq<Seq<bool>>, n: nat, k: int)
    requires
        ls.len() == rs.len(),
        forall|q: int| 0 <= q < ls.len() ==> (#[trigger] ls[q]).len() == n && rs[q].len() == n,
    ensures
        xor_all(Seq::new(ls.len(), |q: int| diff_share(ls[q], rs[q], k))) == diff_secret(ls, rs, n, k),
{
    let np = ls.len();
    let f = |q: int| ls[q][n - 1 - k];
    let g = |q: int| rs[q][n - 1 - k];
    assert forall|q: int| 0 <= q < np implies #[trigger] diff_share(ls[q], rs[q], k) == (f(q) != g(q))
        by {
        assert(ls[q].len() == n);
    }
    assert(Seq::new(np, |q: int| diff_share(ls[q], rs[q], k)) =~= Seq::new(np, |q: int| f(q) != g(q)));
    lemma_xor_new_xor(f, g, np);
    assert(Seq::new(np, f) =~= Seq::new(ls.len(), |q: int| ls[q][n - 1 - k]));
    assert(Seq::new(np, g) =~= Seq::new(rs.len(), |q: int| rs[q][n - 1 - k]));
}

/// The parties' prefix OR shares at position i.
pub open spec fn prefix_column<S: BooleanBeaverSource, N: MpcNet>(
    ls: Seq<Seq<bool>>,
    rs: Seq<Seq<bool>>,
    srcs: Seq<S>,
    nets: Seq<N>,
    i: nat,
) -> Seq<bool> {
    Seq::new(ls.len(), |q: int| prefix_share(ls[q], rs[q], srcs[q], nets[q], i))
}

/// The prefix chain among any number of parties: the parties' prefix OR
/// shares at position i XOR to the OR of the secret differences up to i.
proof fn lemma_prefix_shares<S: BooleanBeaverSource, N: MpcNet>(
    ls: Seq<Seq<bool>>,
    rs: Seq<Seq<bool>>,
    srcs: Seq<S>,
    nets: Seq<N>,
    n: nat,
    i: nat,
)
    requires
        run_parties(ls, srcs, nets, n),
        rs.len() == ls.len(),
        forall|q: int| 0 <= q < rs.len() ==> (#[trigger] rs[q]).len() == n,
        i < n,
        forall|k: nat| #[trigger] triples_valid(srcs, k),
        forall|h: nat| h < i ==> #[trigger] prefix_opens(ls, rs, srcs, nets, h),
    ensures
        xor_all(prefix_column(ls, rs, srcs, nets, i)) == exists|k: int|
            0 <= k <= i && #[trigger] diff_secret(ls, rs, n, k),
    decreases i,
{
    let np = ls.len();
    let pre = prefix_column(ls, rs, srcs, nets, i);
    if i == 0 {
        assert(pre =~= Seq::new(ls.len(), |q: int| diff_share(ls[q], rs[q], 0)));
        lemma_diff_shares(ls, rs, n, 0);
        if exists|k: int| 0 <= k <= 0 && #[trigger] diff_secret(ls, rs, n, k) {
            let k = choose|k: int| 0 <= k <= 0 && #[trigger] diff_secret(ls, rs, n, k);
            assert(k == 0);
        }
    } else {
        let h = (i - 1) as nat;
        lemma_prefix_shares(ls, rs, srcs, nets, n, h);
        assert(prefix_opens(ls, rs, srcs, nets, h));
        let sl = Seq::new(np, |q: int| prefix_share(ls[q], rs[q], srcs[q], nets[q], h));
        let sr = Seq::new(np, |q: int| diff_share(ls[q], rs[q], i as int));
        let ta = Seq::new(np, |q: int| srcs[q].triple_at(h).0);
        let tb = Seq::new(np, |q: int| srcs[q].triple_at(h).1);
        let tc = Seq::new(np, |q: int| srcs[q].triple_at(h).2);
        assert(triples_valid(srcs, h));
        lemma_beaver_or_shares(sl, sr, ta, tb, tc);
        let dd = xor_all(Seq::new(np, |j: int| sl[j] != ta[j]));
        let ee = xor_all(Seq::new(np, |j: int| sr[j] != tb[j]));
        assert(prefix_masks_left(ls, rs, srcs, nets, h) =~= Seq::new(np, |j: int| sl[j] != ta[j]));
        assert(prefix_masks_right(ls, rs, srcs, h) =~= Seq::new(np, |j: int| sr[j] != tb[j]));
        assert forall|q: int| 0 <= q < np implies #[trigger] pre[q] == ((sl[q] != sr[q]) != and_finish(
            ta[q],
            tb[q],
            tc[q],
            dd,
            ee,
            q == 0,
        )) by {
            assert(nets[q] == nets[q]);
            assert(ls[q].len() == n);
        }
        assert(pre =~= Seq::new(
            np,
            |j: int| (sl[j] != sr[j]) != and_finish(ta[j], tb[j], tc[j], dd, ee, j == 0),
        ));
        assert(sl =~= prefix_column(ls, rs, srcs, nets, h));
        lemma_diff_shares(ls, rs, n, i as int);
        assert(sr =~= Seq::new(ls.len(), |q: int| diff_share(ls[q], rs[q], i as int)));
        if exists|k: int| 0 <= k <= i && #[trigger] diff_secret(ls, rs, n, k) {
            let k = choose|k: int| 0 <= k <= i && #[trigger] diff_secret(ls, rs, n, k);
            if k < i {
                assert(exists|k2: int| 0 <= k2 <= h && #[trigger] diff_secret(ls, rs, n, k2));
            }
        }
        if exists|k: int| 0 <= k <= h && #[trigger] diff_secret(ls, rs, n, k) {
            let k = choose|k: int| 0 <= k <= h && #[trigger] diff_secret(ls, rs, n, k);
            assert(0 <= k <= i && diff_secret(ls, rs, n, k));
        }
    }
}

/// The parties' shares with the king's flipped (a NOT among the parties).
pub open spec fn king_flipped<N: MpcNet>(x: Seq<bool>, nets: Seq<N>) -> Seq<bool> {
    Seq::new(x.len(), |q: int| if nets[q].king() {
        !x[q]
    } else {
        x[q]
    })
}

/// NOT among the parties: the king flips its share, so the shares XOR to
/// the negated secret.
proof fn lemma_not_shares<N: MpcNet>(x: Seq<bool>, nets: Seq<N>)
    requires
        x.len() >= 1,
        nets.len() == x.len(),
        forall|q: int| 0 <= q < nets.len() ==> ((#[trigger] nets[q]).king() <==> q == 0),
    ensures
        xor_all(king_flipped(x, nets)) == !xor_all(x),
{
    let np = x.len();
    let f = |q: int| x[q];
    let g = |q: int| q == 0;
    assert forall|q: int| 0 <= q < np implies (if (#[trigger] nets[q]).king() {
        !x[q]
    } else {
        x[q]
    }) == (f(q) != g(q)) by {
        assert(nets[q].king() == (q == 0));
    }
    assert(king_flipped(x, nets) =~= Seq::new(np, |q: int| f(q) != g(q)));
    lemma_xor_new_xor(f, g, np);
    lemma_xor_first_only(np);
    assert(Seq::new(np, f) =~= x);
}

/// A bit set at party 0 alone: the XOR is set.
pub(crate) proof fn lemma_xor_first_only(n: nat)
    requires
        n >= 1,
    ensures
        xor_all(Seq::new(n, |q: int| q == 0)),
    decreases n,
{
    let s = Seq::new(n, |q: int| q == 0);
    if n == 1 {
        assert(s.drop_last() =~= Seq::<bool>::empty());
        assert(!xor_all(Seq::<bool>::empty()));
        assert(s.last());
    } else {
        lemma_xor_first_only((n - 1) as nat);
        assert(s.drop_last() =~= Seq::new((n - 1) as nat, |q: int| q == 0));
        assert(!s.last());
    }
}

/// In every round of a run of the comparison circuit on n-bit vectors the
/// network opens to every party the XOR of what all parties send.
pub open spec fn less_run_opens<S: BooleanBeaverSource, N: MpcNet>(
    ls: Seq<Seq<bool>>,
    rs: Seq<Seq<bool>>,
    srcs: Seq<S>,
    nets: Seq<N>,
    n: nat,
) -> bool {
    let np = ls.len();
    &&& forall|h: nat| h + 1 < n ==> #[trigger] prefix_opens(ls, rs, srcs, nets, h)
    &&& n > 1 ==> batch_opens(
        Seq::new(np, |q: int| selection_left(ls[q], rs[q])),
        Seq::new(np, |q: int| selection_right(ls[q], rs[q], srcs[q], nets[q])),
        srcs,
        nets,
        2 * (n - 1) as nat,
        (n - 1) as nat,
        (n - 1) as nat,
    )
    &&& batch_opens(
        Seq::new(np, |q: int| selection_shares(ls[q], rs[q], srcs[q], nets[q])),
        Seq::new(np, |q: int| msb_first(rs[q])),
        srcs,
        nets,
        selected_round(n),
        2 * (n - 1) as nat,
        n,
    )
    &&& tree_opens(
        Seq::new(np, |q: int| selected_shares(ls[q], rs[q], srcs[q], nets[q])),
        srcs,
        nets,
        selected_round(n) + 2,
        2 * (n - 1) as nat + n,
        n,
    )
}

/// Correctness of `compare_bits_bool` among any number of parties.
///
/// Party q (party 0 the king, none alone on the network) holds shares
/// ls[q], rs[q] of two n-bit vectors (least significant bit first), draws
/// its triples from srcs[q], and runs the comparison over nets[q]. Where
/// every triple drawn is valid (its secrets are a, b and a AND b) and in
/// every round the network opens the XOR of what all parties send, the
/// parties' outputs XOR to the less-than bit of the two secrets' values.
pub proof fn lemma_less_shares<S: BooleanBeaverSource, N: MpcNet>(
    ls: Seq<Seq<bool>>,
    rs: Seq<Seq<bool>>,
    srcs: Seq<S>,
    nets: Seq<N>,
    n: nat,
)
    requires
        run_parties(ls, srcs, nets, n),
        n >= 1,
        rs.len() == ls.len(),
        forall|q: int| 0 <= q < rs.len() ==> (#[trigger] rs[q]).len() == n,
        forall|k: nat| #[trigger] triples_valid(srcs, k),
        less_run_opens(ls, rs, srcs, nets, n),
    ensures
        xor_all(Seq::new(ls.len(), |q: int| less_share(ls[q], rs[q], srcs[q], nets[q]))) == (bits_val(
            column_secrets(ls, n),
        ) < bits_val(column_secrets(rs, n))),
{
    let np = ls.len();
    let lv = column_secrets(ls, n);
    let rv = column_secrets(rs, n);
    let xb = Seq::new(n, |j: int| diff_at(lv, rv, j));
    let pb = Seq::new(n, |j: int| exists|k: int| 0 <= k <= j && xb[k]);
    let sels = Seq::new(np, |q: int| selection_shares(ls[q], rs[q], srcs[q], nets[q]));
    let msbs = Seq::new(np, |q: int| msb_first(rs[q]));
    let seld = Seq::new(np, |q: int| selected_shares(ls[q], rs[q], srcs[q], nets[q]));
    let sb = column_secrets(sels, n);
    let selb = column_secrets(seld, n);
    assert forall|j: int| 0 <= j < n implies #[trigger] xb[j] == diff_secret(ls, rs, n, j) by {}
    // The prefix ORs.
    assert forall|j: int| 0 <= j < n implies #[trigger] xor_all(
        prefix_column(ls, rs, srcs, nets, j as nat),
    ) == pb[j] by {
        lemma_prefix_shares(ls, rs, srcs, nets, n, j as nat);
        if pb[j] {
            let k = choose|k: int| 0 <= k <= j && xb[k];
            assert(diff_secret(ls, rs, n, k));
        }
        if exists|k: int| 0 <= k <= j && #[trigger] diff_secret(ls, rs, n, k) {
            let k = choose|k: int| 0 <= k <= j && #[trigger] diff_secret(ls, rs, n, k);
            assert(xb[k]);
        }
    }
    // The selection bits.
    assert forall|q: int| 0 <= q < np implies (#[trigger] sels[q]).len() == n && msbs[q].len() == n
        && seld[q].len() == n by {
        assert(ls[q].len() == n && rs[q].len() == n);
    }
    assert(sb[0] == xb[0]) by {
        assert forall|q: int| 0 <= q < np implies #[trigger] sels[q][0] == diff_share(ls[q], rs[q], 0)
            by {
            assert(ls[q].len() == n);
        }
        assert(Seq::new(sels.len(), |q: int| sels[q][0]) =~= Seq::new(
            ls.len(),
            |q: int| diff_share(ls[q], rs[q], 0),
        ));
        lemma_diff_shares(ls, rs, n, 0);
    }
    if n > 1 {
        let n1 = (n - 1) as nat;
        let lefts = Seq::new(np, |q: int| selection_left(ls[q], rs[q]));
        let rights = Seq::new(np, |q: int| selection_right(ls[q], rs[q], srcs[q], nets[q]));
        assert forall|q: int| 0 <= q < np implies (#[trigger] lefts[q]).len() == n1 && rights[q].len()
            == n1 by {
            assert(ls[q].len() == n);
        }
        assert forall|j: int| 1 <= j < n implies #[trigger] sb[j] == (xb[j] && !pb[j - 1]) by {
            lemma_batch_and_shares(lefts, rights, srcs, nets, 2 * n1, n1, n1, j - 1);
            assert forall|q: int| 0 <= q < np implies #[trigger] sels[q][j] == batch_and_shares(
                lefts[q],
                rights[q],
                srcs[q],
                nets[q],
                2 * n1,
                n1,
            )[j - 1] by {
                assert(ls[q].len() == n);
            }
            assert(Seq::new(sels.len(), |q: int| sels[q][j]) =~= Seq::new(
                lefts.len(),
                |q: int| batch_and_shares(lefts[q], rights[q], srcs[q], nets[q], 2 * n1, n1)[j - 1],
            ));
            assert forall|q: int| 0 <= q < np implies #[trigger] lefts[q][j - 1] == diff_share(
                ls[q],
                rs[q],
                j,
            ) by {
                assert(ls[q].len() == n);
            }
            assert(Seq::new(lefts.len(), |q: int| lefts[q][j - 1]) =~= Seq::new(
                ls.len(),
                |q: int| diff_share(ls[q], rs[q], j),
            ));
            lemma_diff_shares(ls, rs, n, j);
            let px = Seq::new(np, |q: int| prefix_share(ls[q], rs[q], srcs[q], nets[q], (j - 1) as nat));
            lemma_not_shares(px, nets);
            assert forall|q: int| 0 <= q < np implies #[trigger] rights[q][j - 1] == (if nets[q].king() {
                !px[q]
            } else {
                px[q]
            }) by {
                assert(ls[q].len() == n);
            }
            assert(Seq::new(rights.len(), |q: int| rights[q][j - 1]) =~= king_flipped(px, nets));
            assert(px =~= prefix_column(ls, rs, srcs, nets, (j - 1) as nat));
            assert(xor_all(prefix_column(ls, rs, srcs, nets, (j - 1) as nat)) == pb[j - 1]);
            assert(xor_all(px) == pb[j - 1]);
        }
    }
    // The selected bits.
    assert forall|j: int| 0 <= j < n implies #[trigger] selb[j] == (sb[j] && rv[n - 1 - j]) by {
        lemma_batch_and_shares(sels, msbs, srcs, nets, selected_round(n), 2 * (n - 1) as nat, n, j);
        assert forall|q: int| 0 <= q < np implies #[trigger] seld[q][j] == batch_and_shares(
            sels[q],
            msbs[q],
            srcs[q],
            nets[q],
            selected_round(n),
            2 * (n - 1) as nat,
        )[j] by {
            assert(ls[q].len() == n);
        }
        assert(Seq::new(seld.len(), |q: int| seld[q][j]) =~= Seq::new(
            sels.len(),
            |q: int|
                batch_and_shares(
                    sels[q],
                    msbs[q],
                    srcs[q],
                    nets[q],
                    selected_round(n),
                    2 * (n - 1) as nat,
                )[j],
        ));
        assert(Seq::new(msbs.len(), |q: int| msbs[q][j]) =~= Seq::new(
            rs.len(),
            |q: int| rs[q][n - 1 - j],
        ));
    }
    assert(run_parties(sels, srcs, nets, n));
    assert(run_parties(seld, srcs, nets, n));
    lemma_selection_is_first_diff(lv, rv, xb, pb, sb, selb);
    lemma_first_diff_decides(lv, rv);
    lemma_tree_shares(seld, srcs, nets, selected_round(n) + 2, 2 * (n - 1) as nat + n, n);
    assert forall|q: int| 0 <= q < np implies #[trigger] less_share(ls[q], rs[q], srcs[q], nets[q])
        == or_tree(seld[q], srcs[q], nets[q], selected_round(n) + 2, 2 * (n - 1) as nat + n) by {
        assert(ls[q].len() == n);
    }
    assert(Seq::new(np, |q: int| less_share(ls[q], rs[q], srcs[q], nets[q])) =~= Seq::new(
        seld.len(),
        |q: int| or_tree(seld[q], srcs[q], nets[q], selected_round(n) + 2, 2 * (n - 1) as nat + n),
    ));
}

/// The parties' dummy triple sources: the king's yields (1, 1, 1), every
/// other (0, 0, 0).
pub open spec fn dummy_sources(np: nat) -> Seq<DummyBooleanBeaverSource> {
    Seq::new(np, |q: int| DummyBooleanBeaverSource { king: q == 0 })
}

/// The dummy dealer's draws are valid triples.
pub(crate) proof fn lemma_dummy_triples_valid(np: nat, k: nat)
    requires
        np >= 1,
    ensures
        triples_valid(dummy_sources(np), k),
{
    let srcs = dummy_sources(np);
    assert(Seq::new(srcs.len(), |q: int| srcs[q].triple_at(k).0) =~= Seq::new(np, |q: int| q == 0));
    assert(Seq::new(srcs.len(), |q: int| srcs[q].triple_at(k).1) =~= Seq::new(np, |q: int| q == 0));
    assert(Seq::new(srcs.len(), |q: int| srcs[q].triple_at(k).2) =~= Seq::new(np, |q: int| q == 0));
    lemma_xor_first_only(np);
}

/// Correctness of `AdditiveFieldShare::compare_bits` among any number of
/// parties.
///
/// The parties (party 0 the king, none alone on the network) run the
/// comparison circuit on shares ls[q], rs[q] of two n-bit vectors with the
/// dummy dealer's triples, every opening of the run being the XOR of what
/// the parties send; then each converts its bit with a daBit: the king's
/// holds the random bit b (its field share bit_value(b)), every other's
/// zero, and the network opens the XOR of the parties' bits XOR their
/// daBit bits. The others' outputs are zero (see `compare_bits`), and the
/// king's, `out`, is one iff the left secret is below the right one.
pub proof fn lemma_compare_bits_shares<N: MpcNet>(
    ls: Seq<Seq<bool>>,
    rs: Seq<Seq<bool>>,
    nets: Seq<N>,
    n: nat,
    b: bool,
    out: nat,
)
    requires
        run_parties(ls, dummy_sources(ls.len()), nets, n),
        n >= 1,
        rs.len() == ls.len(),
        forall|q: int| 0 <= q < rs.len() ==> (#[trigger] rs[q]).len() == n,
        less_run_opens(ls, rs, dummy_sources(ls.len()), nets, n),
        round_bit(
            nets[0],
            nets[0].rounds() + less_rounds(n),
            less_share(ls[0], rs[0], dummy_sources(ls.len())[0], nets[0]) != b,
        ) == xor_all(
            Seq::new(
                ls.len(),
                |q: int|
                    less_share(ls[q], rs[q], dummy_sources(ls.len())[q], nets[q]) != (q == 0 && b),
            ),
        ),
        out == b2a_finish(
            bit_value(b),
            round_bit(
                nets[0],
                nets[0].rounds() + less_rounds(n),
                less_share(ls[0], rs[0], dummy_sources(ls.len())[0], nets[0]) != b,
            ),
            true,
        ),
    ensures
        out == bit_value(bits_val(column_secrets(ls, n)) < bits_val(column_secrets(rs, n))),
{
    let np = ls.len();
    let srcs = dummy_sources(np);
    assert forall|k: nat| #[trigger] triples_valid(srcs, k) by {
        lemma_dummy_triples_valid(np, k);
    }
    lemma_less_shares(ls, rs, srcs, nets, n);
    let f = |q: int| less_share(ls[q], rs[q], srcs[q], nets[q]);
    let g = |q: int| q == 0 && b;
    lemma_xor_new_xor(f, g, np);
    assert(Seq::new(np, |q: int| less_share(ls[q], rs[q], srcs[q], nets[q]) != (q == 0 && b))
        =~= Seq::new(np, |q: int| f(q) != g(q)));
    assert(Seq::new(np, f) =~= Seq::new(ls.len(), |q: int| less_share(ls[q], rs[q], srcs[q], nets[q])));
    if b {
        lemma_xor_first_only(np);
        assert(Seq::new(np, g) =~= Seq::new(np, |q: int| q == 0));
    } else {
        lemma_xor_none(np);
        assert(Seq::new(np, g) =~= Seq::new(np, |q: int| false));
    }
}

/// No bit set: the XOR is unset.
pub(crate) proof fn lemma_xor_none(n: nat)
    ensures
        !xor_all(Seq::new(n, |q: int| false)),
    decreases n,
{
    if n > 0 {
        lemma_xor_none((n - 1) as nat);
        assert(Seq::new(n, |q: int| false).drop_last() =~= Seq::new((n - 1) as nat, |q: int| false));
    }
}

} // verus!
