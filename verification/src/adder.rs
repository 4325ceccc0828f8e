//! The ripple-carry adder of `BooleanOps::bits_add` as each party runs it.
//!
//! Step j of the adder draws five Boolean triples (draws 5j to 5j + 4) and
//! opens six values (rounds 6j to 6j + 5 after the start): the masked inputs
//! of the three ANDs a b, a c and b c in one batch (two rounds), then the two
//! ORs that combine them into the next carry. A party's carry share is thus a
//! function of its input shares, its triples and what the network opens,
//! and its output bit j is a ^ b ^ carry.
use vstd::prelude::*;
use crate::bit_ops::{
    BooleanBeaverSource, and_finish, bits_val, lemma_beaver_and_shares, lemma_beaver_or_shares,
    lemma_bits_val_bound, lemma_bits_val_push, lemma_bits_val_take_step, lemma_mod_of_carry,
    lemma_xor_new_xor, round_bit, round_bits, xor_all,
};
use crate::compare_run::lemma_xor_first_only;
use crate::types::two_pow;
use crate::net::MpcNet;

verus! {

/// A party's masked left inputs of the three ANDs of adder step j:
/// a ^ x for a AND b, a ^ x for a AND c, b ^ x for b AND c.
pub open spec fn adder_d<S: BooleanBeaverSource>(a: bool, b: bool, src: S, j: nat) -> Seq<bool> {
    seq![
        a != src.triple_at(5 * j).0,
        a != src.triple_at(5 * j + 1).0,
        b != src.triple_at(5 * j + 2).0,
    ]
}

/// A party's masked right inputs of the three ANDs of adder step j.
pub open spec fn adder_e<S: BooleanBeaverSource>(b: bool, c: bool, src: S, j: nat) -> Seq<bool> {
    seq![
        b != src.triple_at(5 * j).1,
        c != src.triple_at(5 * j + 1).1,
        c != src.triple_at(5 * j + 2).1,
    ]
}

/// A party's output of AND m (0, 1 or 2) of adder step j, from the opened
/// masked vectors dv and ev.
pub open spec fn adder_and<S: BooleanBeaverSource>(
    src: S,
    j: nat,
    m: int,
    dv: Seq<bool>,
    ev: Seq<bool>,
    king: bool,
) -> bool {
    let t = src.triple_at((5 * j + m) as nat);
    and_finish(t.0, t.1, t.2, dv[m], ev[m], king)
}

/// The masked vector of the three ANDs of adder step j as the network
/// opens it (round 6j after the start).
pub open spec fn adder_dv<S: BooleanBeaverSource, N: MpcNet>(
    a: bool,
    b: bool,
    src: S,
    net: N,
    j: nat,
) -> Seq<bool> {
    round_bits(net, net.rounds() + 6 * j, adder_d(a, b, src, j))
}

/// The second masked vector of adder step j as opened (round 6j + 1).
pub open spec fn adder_ev<S: BooleanBeaverSource, N: MpcNet>(
    b: bool,
    c: bool,
    src: S,
    net: N,
    j: nat,
) -> Seq<bool> {
    round_bits(net, net.rounds() + 6 * j + 1, adder_e(b, c, src, j))
}

/// A party's share of AND m of adder step j (a b, a c, b c for m = 0, 1,
/// 2), from its shares a, b of the input bits and c of the carry in.
pub open spec fn adder_t<S: BooleanBeaverSource, N: MpcNet>(
    a: bool,
    b: bool,
    c: bool,
    src: S,
    net: N,
    j: nat,
    m: int,
) -> bool {
    adder_and(src, j, m, adder_dv(a, b, src, net, j), adder_ev(b, c, src, net, j), net.king())
}

/// A party's share of (a b) OR (a c) in adder step j (rounds 6j + 2 and
/// 6j + 3, draw 5j + 3).
pub open spec fn adder_t4<S: BooleanBeaverSource, N: MpcNet>(
    a: bool,
    b: bool,
    c: bool,
    src: S,
    net: N,
    j: nat,
) -> bool {
    let k = net.rounds() + 6 * j;
    let t1 = adder_t(a, b, c, src, net, j, 0);
    let t2 = adder_t(a, b, c, src, net, j, 1);
    let u = src.triple_at(5 * j + 3);
    (t1 != t2) != and_finish(
        u.0,
        u.1,
        u.2,
        round_bit(net, k + 2, t1 != u.0),
        round_bit(net, k + 3, t2 != u.1),
        net.king(),
    )
}

/// A party's share of the carry out of adder step j: the OR of the two
/// above with b c (rounds 6j + 4 and 6j + 5, draw 5j + 4).
pub open spec fn adder_next<S: BooleanBeaverSource, N: MpcNet>(
    a: bool,
    b: bool,
    c: bool,
    src: S,
    net: N,
    j: nat,
) -> bool {
    let k = net.rounds() + 6 * j;
    let t3 = adder_t(a, b, c, src, net, j, 2);
    let t4 = adder_t4(a, b, c, src, net, j);
    let w = src.triple_at(5 * j + 4);
    (t4 != t3) != and_finish(
        w.0,
        w.1,
        w.2,
        round_bit(net, k + 4, t4 != w.0),
        round_bit(net, k + 5, t3 != w.1),
        net.king(),
    )
}

/// A party's share of the carry into adder step j (none into step 0).
pub open spec fn adder_carry<S: BooleanBeaverSource, N: MpcNet>(
    l: Seq<bool>,
    r: Seq<bool>,
    src: S,
    net: N,
    j: nat,
) -> bool
    decreases j,
{
    if j == 0 {
        false
    } else {
        let i = (j - 1) as nat;
        adder_next(l[i as int], r[i as int], adder_carry(l, r, src, net, i), src, net, i)
    }
}

/// A party's output of `bits_add`: bit j is l ^ r ^ carry at j; the carry
/// out of the last step is appended where the overflow is kept.
pub open spec fn adder_output<S: BooleanBeaverSource, N: MpcNet>(
    l: Seq<bool>,
    r: Seq<bool>,
    preserve_overflow: bool,
    src: S,
    net: N,
) -> Seq<bool> {
    let sum = Seq::new(l.len(), |j: int| (l[j] != r[j]) != adder_carry(l, r, src, net, j as nat));
    if preserve_overflow {
        sum.push(adder_carry(l, r, src, net, l.len()))
    } else {
        sum
    }
}

/// The secret at position j of the parties' shared vectors: the XOR of
/// their shares.
pub open spec fn column_secret(vs: Seq<Seq<bool>>, j: int) -> bool {
    xor_all(Seq::new(vs.len(), |q: int| vs[q][j]))
}

/// The XOR of the parties' carry shares into adder step j.
pub open spec fn carry_secret<S: BooleanBeaverSource, N: MpcNet>(
    ls: Seq<Seq<bool>>,
    rs: Seq<Seq<bool>>,
    srcs: Seq<S>,
    nets: Seq<N>,
    j: nat,
) -> bool {
    xor_all(Seq::new(ls.len(), |q: int| adder_carry(ls[q], rs[q], srcs[q], nets[q], j)))
}

/// The plaintext carry into step j of adding the bit vectors x and y
/// (least significant bit first).
pub open spec fn plain_carry(x: Seq<bool>, y: Seq<bool>, j: nat) -> bool
    decreases j,
{
    if j == 0 {
        false
    } else {
        let i = (j - 1) as nat;
        let c = plain_carry(x, y, i);
        (x[i as int] && y[i as int]) || (x[i as int] && c) || (y[i as int] && c)
    }
}

/// The parties of one run of the adder on n-bit vectors: at least one,
/// party 0 the king, none alone on the network.
pub open spec fn adder_parties<S: BooleanBeaverSource, N: MpcNet>(
    ls: Seq<Seq<bool>>,
    rs: Seq<Seq<bool>>,
    srcs: Seq<S>,
    nets: Seq<N>,
    n: nat,
) -> bool {
    &&& ls.len() >= 1
    &&& rs.len() == ls.len()
    &&& srcs.len() == ls.len()
    &&& nets.len() == ls.len()
    &&& forall|q: int| 0 <= q < ls.len() ==> (#[trigger] ls[q]).len() == n && rs[q].len() == n
    &&& forall|q: int|
        0 <= q < ls.len() ==> !(#[trigger] nets[q]).single_party() && (nets[q].king() <==> q == 0)
}

/// The parties' k-th draws form a triple of secrets (a, b, a AND b).
pub open spec fn triples_valid<S: BooleanBeaverSource>(srcs: Seq<S>, k: nat) -> bool {
    xor_all(Seq::new(srcs.len(), |q: int| srcs[q].triple_at(k).2)) == (xor_all(
        Seq::new(srcs.len(), |q: int| srcs[q].triple_at(k).0),
    ) && xor_all(Seq::new(srcs.len(), |q: int| srcs[q].triple_at(k).1)))
}

/// Party q's share of the carry into adder step j.
pub open spec fn party_carry<S: BooleanBeaverSource, N: MpcNet>(
    ls: Seq<Seq<bool>>,
    rs: Seq<Seq<bool>>,
    srcs: Seq<S>,
    nets: Seq<N>,
    q: int,
    j: nat,
) -> bool {
    adder_carry(ls[q], rs[q], srcs[q], nets[q], j)
}

/// Party q's share of AND m of adder step j.
pub open spec fn party_and<S: BooleanBeaverSource, N: MpcNet>(
    ls: Seq<Seq<bool>>,
    rs: Seq<Seq<bool>>,
    srcs: Seq<S>,
    nets: Seq<N>,
    q: int,
    j: nat,
    m: int,
) -> bool {
    adder_t(ls[q][j as int], rs[q][j as int], party_carry(ls, rs, srcs, nets, q, j), srcs[q], nets[q], j, m)
}

/// Party q's share of the first OR of adder step j.
pub open spec fn party_or<S: BooleanBeaverSource, N: MpcNet>(
    ls: Seq<Seq<bool>>,
    rs: Seq<Seq<bool>>,
    srcs: Seq<S>,
    nets: Seq<N>,
    q: int,
    j: nat,
) -> bool {
    adder_t4(ls[q][j as int], rs[q][j as int], party_carry(ls, rs, srcs, nets, q, j), srcs[q], nets[q], j)
}

/// In adder step j the network opens to every party, in each of the step's
/// six rounds, the XOR of the values that all parties send in it.
pub open spec fn adder_step_opens<S: BooleanBeaverSource, N: MpcNet>(
    ls: Seq<Seq<bool>>,
    rs: Seq<Seq<bool>>,
    srcs: Seq<S>,
    nets: Seq<N>,
    j: nat,
) -> bool {
    let np = ls.len();
    let ji = j as int;
    forall|q: int|
        #![trigger nets[q]]
        0 <= q < np ==> {
            let k = nets[q].rounds() + 6 * j;
            let dv = adder_dv(ls[q][ji], rs[q][ji], srcs[q], nets[q], j);
            let ev = adder_ev(rs[q][ji], party_carry(ls, rs, srcs, nets, q, j), srcs[q], nets[q], j);
            &&& dv[0] == xor_all(Seq::new(np, |p: int| ls[p][ji] != srcs[p].triple_at(5 * j).0))
            &&& dv[1] == xor_all(Seq::new(np, |p: int| ls[p][ji] != srcs[p].triple_at(5 * j + 1).0))
            &&& dv[2] == xor_all(Seq::new(np, |p: int| rs[p][ji] != srcs[p].triple_at(5 * j + 2).0))
            &&& ev[0] == xor_all(Seq::new(np, |p: int| rs[p][ji] != srcs[p].triple_at(5 * j).1))
            &&& ev[1] == xor_all(
                Seq::new(
                    np,
                    |p: int|
                        party_carry(ls, rs, srcs, nets, p, j) != srcs[p].triple_at(5 * j + 1).1,
                ),
            )
            &&& ev[2] == xor_all(
                Seq::new(
                    np,
                    |p: int|
                        party_carry(ls, rs, srcs, nets, p, j) != srcs[p].triple_at(5 * j + 2).1,
                ),
            )
            &&& round_bit(
                nets[q],
                k + 2,
                party_and(ls, rs, srcs, nets, q, j, 0) != srcs[q].triple_at(5 * j + 3).0,
            ) == xor_all(
                Seq::new(
                    np,
                    |p: int|
                        party_and(ls, rs, srcs, nets, p, j, 0) != srcs[p].triple_at(5 * j + 3).0,
                ),
            )
            &&& round_bit(
                nets[q],
                k + 3,
                party_and(ls, rs, srcs, nets, q, j, 1) != srcs[q].triple_at(5 * j + 3).1,
            ) == xor_all(
                Seq::new(
                    np,
                    |p: int|
                        party_and(ls, rs, srcs, nets, p, j, 1) != srcs[p].triple_at(5 * j + 3).1,
                ),
            )
            &&& round_bit(
                nets[q],
                k + 4,
                party_or(ls, rs, srcs, nets, q, j) != srcs[q].triple_at(5 * j + 4).0,
            ) == xor_all(
                Seq::new(
                    np,
                    |p: int| party_or(ls, rs, srcs, nets, p, j) != srcs[p].triple_at(5 * j + 4).0,
                ),
            )
            &&& round_bit(
                nets[q],
                k + 5,
                party_and(ls, rs, srcs, nets, q, j, 2) != srcs[q].triple_at(5 * j + 4).1,
            ) == xor_all(
                Seq::new(
                    np,
                    |p: int|
                        party_and(ls, rs, srcs, nets, p, j, 2) != srcs[p].triple_at(5 * j + 4).1,
                ),
            )
        }
}

/// One step of the adder among any number of parties: where the step's
/// triples are valid and the network opens XORs, the parties' carry shares
/// out of the step XOR to the majority of the input bits and the carry in.
proof fn lemma_adder_step<S: BooleanBeaverSource, N: MpcNet>(
    ls: Seq<Seq<bool>>,
    rs: Seq<Seq<bool>>,
    srcs: Seq<S>,
    nets: Seq<N>,
    n: nat,
    j: nat,
)
    requires
        adder_parties(ls, rs, srcs, nets, n),
        j < n,
        triples_valid(srcs, 5 * j),
        triples_valid(srcs, 5 * j + 1),
        triples_valid(srcs, 5 * j + 2),
        triples_valid(srcs, 5 * j + 3),
        triples_valid(srcs, 5 * j + 4),
        adder_step_opens(ls, rs, srcs, nets, j),
    ensures
        ({
            let x = column_secret(ls, j as int);
            let y = column_secret(rs, j as int);
            let c = carry_secret(ls, rs, srcs, nets, j);
            carry_secret(ls, rs, srcs, nets, j + 1) == ((x && y) || (x && c) || (y && c))
        }),
{
    let np = ls.len();
    let ji = j as int;
    let sa = Seq::new(np, |q: int| ls[q][ji]);
    let sb = Seq::new(np, |q: int| rs[q][ji]);
    let sc = Seq::new(np, |q: int| party_carry(ls, rs, srcs, nets, q, j));
    let ta = |m: nat| Seq::new(np, |q: int| srcs[q].triple_at(5 * j + m).0);
    let tb = |m: nat| Seq::new(np, |q: int| srcs[q].triple_at(5 * j + m).1);
    let tc = |m: nat| Seq::new(np, |q: int| srcs[q].triple_at(5 * j + m).2);
    let t1 = Seq::new(np, |q: int| party_and(ls, rs, srcs, nets, q, j, 0));
    let t2 = Seq::new(np, |q: int| party_and(ls, rs, srcs, nets, q, j, 1));
    let t3 = Seq::new(np, |q: int| party_and(ls, rs, srcs, nets, q, j, 2));
    let t4 = Seq::new(np, |q: int| party_or(ls, rs, srcs, nets, q, j));
    let cn = Seq::new(np, |q: int| party_carry(ls, rs, srcs, nets, q, j + 1));
    // The opened masked values of the three ANDs.
    let d0 = xor_all(Seq::new(np, |i: int| sa[i] != ta(0)[i]));
    let d1 = xor_all(Seq::new(np, |i: int| sa[i] != ta(1)[i]));
    let d2 = xor_all(Seq::new(np, |i: int| sb[i] != ta(2)[i]));
    let e0 = xor_all(Seq::new(np, |i: int| sb[i] != tb(0)[i]));
    let e1 = xor_all(Seq::new(np, |i: int| sc[i] != tb(1)[i]));
    let e2 = xor_all(Seq::new(np, |i: int| sc[i] != tb(2)[i]));
    assert(Seq::new(np, |p: int| ls[p][ji] != srcs[p].triple_at(5 * j).0) =~= Seq::new(
        np,
        |i: int| sa[i] != ta(0)[i],
    ));
    assert(Seq::new(np, |p: int| ls[p][ji] != srcs[p].triple_at(5 * j + 1).0) =~= Seq::new(
        np,
        |i: int| sa[i] != ta(1)[i],
    ));
    assert(Seq::new(np, |p: int| rs[p][ji] != srcs[p].triple_at(5 * j + 2).0) =~= Seq::new(
        np,
        |i: int| sb[i] != ta(2)[i],
    ));
    assert(Seq::new(np, |p: int| rs[p][ji] != srcs[p].triple_at(5 * j).1) =~= Seq::new(
        np,
        |i: int| sb[i] != tb(0)[i],
    ));
    assert(Seq::new(
        np,
        |p: int| party_carry(ls, rs, srcs, nets, p, j) != srcs[p].triple_at(5 * j + 1).1,
    ) =~= Seq::new(np, |i: int| sc[i] != tb(1)[i]));
    assert(Seq::new(
        np,
        |p: int| party_carry(ls, rs, srcs, nets, p, j) != srcs[p].triple_at(5 * j + 2).1,
    ) =~= Seq::new(np, |i: int| sc[i] != tb(2)[i]));
    assert(ta(0) =~= Seq::new(np, |q: int| srcs[q].triple_at(5 * j).0));
    assert(tb(0) =~= Seq::new(np, |q: int| srcs[q].triple_at(5 * j).1));
    assert(tc(0) =~= Seq::new(np, |q: int| srcs[q].triple_at(5 * j).2));
    lemma_beaver_and_shares(sa, sb, ta(0), tb(0), tc(0));
    lemma_beaver_and_shares(sa, sc, ta(1), tb(1), tc(1));
    lemma_beaver_and_shares(sb, sc, ta(2), tb(2), tc(2));
    assert forall|q: int| 0 <= q < np implies #[trigger] t1[q] == and_finish(
        ta(0)[q],
        tb(0)[q],
        tc(0)[q],
        d0,
        e0,
        q == 0,
    ) && t2[q] == and_finish(ta(1)[q], tb(1)[q], tc(1)[q], d1, e1, q == 0) && t3[q] == and_finish(
        ta(2)[q],
        tb(2)[q],
        tc(2)[q],
        d2,
        e2,
        q == 0,
    ) by {
        assert(nets[q] == nets[q]);
    }
    assert(t1 =~= Seq::new(np, |i: int| and_finish(ta(0)[i], tb(0)[i], tc(0)[i], d0, e0, i == 0)));
    assert(t2 =~= Seq::new(np, |i: int| and_finish(ta(1)[i], tb(1)[i], tc(1)[i], d1, e1, i == 0)));
    assert(t3 =~= Seq::new(np, |i: int| and_finish(ta(2)[i], tb(2)[i], tc(2)[i], d2, e2, i == 0)));
    // (a b) OR (a c).
    let d4 = xor_all(Seq::new(np, |i: int| t1[i] != ta(3)[i]));
    let e4 = xor_all(Seq::new(np, |i: int| t2[i] != tb(3)[i]));
    lemma_beaver_or_shares(t1, t2, ta(3), tb(3), tc(3));
    assert(Seq::new(
        np,
        |p: int| party_and(ls, rs, srcs, nets, p, j, 0) != srcs[p].triple_at(5 * j + 3).0,
    ) =~= Seq::new(np, |i: int| t1[i] != ta(3)[i]));
    assert(Seq::new(
        np,
        |p: int| party_and(ls, rs, srcs, nets, p, j, 1) != srcs[p].triple_at(5 * j + 3).1,
    ) =~= Seq::new(np, |i: int| t2[i] != tb(3)[i]));
    assert forall|q: int| 0 <= q < np implies #[trigger] t4[q] == ((t1[q] != t2[q]) != and_finish(
        ta(3)[q],
        tb(3)[q],
        tc(3)[q],
        d4,
        e4,
        q == 0,
    )) by {
        assert(nets[q] == nets[q]);
    }
    assert(t4 =~= Seq::new(
        np,
        |i: int| (t1[i] != t2[i]) != and_finish(ta(3)[i], tb(3)[i], tc(3)[i], d4, e4, i == 0),
    ));
    // ... OR (b c): the carry out.
    let d5 = xor_all(Seq::new(np, |i: int| t4[i] != ta(4)[i]));
    let e5 = xor_all(Seq::new(np, |i: int| t3[i] != tb(4)[i]));
    lemma_beaver_or_shares(t4, t3, ta(4), tb(4), tc(4));
    assert(Seq::new(
        np,
        |p: int| party_or(ls, rs, srcs, nets, p, j) != srcs[p].triple_at(5 * j + 4).0,
    ) =~= Seq::new(np, |i: int| t4[i] != ta(4)[i]));
    assert(Seq::new(
        np,
        |p: int| party_and(ls, rs, srcs, nets, p, j, 2) != srcs[p].triple_at(5 * j + 4).1,
    ) =~= Seq::new(np, |i: int| t3[i] != tb(4)[i]));
    assert forall|q: int| 0 <= q < np implies #[trigger] cn[q] == ((t4[q] != t3[q]) != and_finish(
        ta(4)[q],
        tb(4)[q],
        tc(4)[q],
        d5,
        e5,
        q == 0,
    )) by {
        assert(nets[q] == nets[q]);
    }
    assert(cn =~= Seq::new(
        np,
        |i: int| (t4[i] != t3[i]) != and_finish(ta(4)[i], tb(4)[i], tc(4)[i], d5, e5, i == 0),
    ));
    assert(sa =~= Seq::new(ls.len(), |q: int| ls[q][ji]));
    assert(sb =~= Seq::new(rs.len(), |q: int| rs[q][ji]));
    assert(sc =~= Seq::new(ls.len(), |q: int| adder_carry(ls[q], rs[q], srcs[q], nets[q], j)));
    assert(cn =~= Seq::new(ls.len(), |q: int| adder_carry(ls[q], rs[q], srcs[q], nets[q], j + 1)));
}

/// The carries of the whole run: the parties' carry shares into every step
/// up to n XOR to the plaintext carries of the two secrets.
proof fn lemma_adder_carries<S: BooleanBeaverSource, N: MpcNet>(
    ls: Seq<Seq<bool>>,
    rs: Seq<Seq<bool>>,
    srcs: Seq<S>,
    nets: Seq<N>,
    n: nat,
    j: nat,
)
    requires
        adder_parties(ls, rs, srcs, nets, n),
        j <= n,
        forall|k: nat| k < 5 * n ==> #[trigger] triples_valid(srcs, k),
        forall|i: nat| i < n ==> #[trigger] adder_step_opens(ls, rs, srcs, nets, i),
    ensures
        carry_secret(ls, rs, srcs, nets, j) == plain_carry(
            Seq::new(n, |i: int| column_secret(ls, i)),
            Seq::new(n, |i: int| column_secret(rs, i)),
            j,
        ),
    decreases j,
{
    let x = Seq::new(n, |i: int| column_secret(ls, i));
    let y = Seq::new(n, |i: int| column_secret(rs, i));
    if j == 0 {
        let np = ls.len();
        assert(Seq::new(np, |q: int| adder_carry(ls[q], rs[q], srcs[q], nets[q], 0)) =~= Seq::new(
            np,
            |q: int| false,
        ));
        lemma_xor_false(np);
    } else {
        let i = (j - 1) as nat;
        lemma_adder_carries(ls, rs, srcs, nets, n, i);
        assert(triples_valid(srcs, 5 * i));
        assert(triples_valid(srcs, 5 * i + 1));
        assert(triples_valid(srcs, 5 * i + 2));
        assert(triples_valid(srcs, 5 * i + 3));
        assert(triples_valid(srcs, 5 * i + 4));
        assert(adder_step_opens(ls, rs, srcs, nets, i));
        lemma_adder_step(ls, rs, srcs, nets, n, i);
        assert(x[i as int] == column_secret(ls, i as int));
        assert(y[i as int] == column_secret(rs, i as int));
    }
}

/// The XOR of no set bits is unset.
pub(crate) proof fn lemma_xor_false(n: nat)
    ensures
        !xor_all(Seq::new(n, |q: int| false)),
    decreases n,
{
    if n > 0 {
        lemma_xor_false((n - 1) as nat);
        assert(Seq::new(n, |q: int| false).drop_last() =~= Seq::new((n - 1) as nat, |q: int| false));
    }
}

/// The parties' outputs at position j < n XOR to the sum bit of the
/// secrets: x ^ y ^ carry.
proof fn lemma_adder_output_bit<S: BooleanBeaverSource, N: MpcNet>(
    ls: Seq<Seq<bool>>,
    rs: Seq<Seq<bool>>,
    srcs: Seq<S>,
    nets: Seq<N>,
    n: nat,
    preserve_overflow: bool,
    j: int,
)
    requires
        adder_parties(ls, rs, srcs, nets, n),
        0 <= j < n,
    ensures
        xor_all(
            Seq::new(
                ls.len(),
                |q: int| adder_output(ls[q], rs[q], preserve_overflow, srcs[q], nets[q])[j],
            ),
        ) == ((column_secret(ls, j) != column_secret(rs, j)) != carry_secret(
            ls,
            rs,
            srcs,
            nets,
            j as nat,
        )),
{
    let np = ls.len();
    let f = |q: int| ls[q][j];
    let g = |q: int| rs[q][j];
    let h = |q: int| adder_carry(ls[q], rs[q], srcs[q], nets[q], j as nat);
    let fg = |q: int| f(q) != g(q);
    assert forall|q: int| 0 <= q < np implies #[trigger] adder_output(
        ls[q],
        rs[q],
        preserve_overflow,
        srcs[q],
        nets[q],
    )[j] == (fg(q) != h(q)) by {
        assert(ls[q].len() == n);
    }
    assert(Seq::new(
        np,
        |q: int| adder_output(ls[q], rs[q], preserve_overflow, srcs[q], nets[q])[j],
    ) =~= Seq::new(np, |q: int| fg(q) != h(q)));
    lemma_xor_new_xor(fg, h, np);
    lemma_xor_new_xor(f, g, np);
    assert(Seq::new(np, |q: int| f(q) != g(q)) =~= Seq::new(np, fg));
    assert(Seq::new(np, f) =~= Seq::new(ls.len(), |q: int| ls[q][j]));
    assert(Seq::new(np, g) =~= Seq::new(rs.len(), |q: int| rs[q][j]));
    assert(Seq::new(np, h) =~= Seq::new(
        ls.len(),
        |q: int| adder_carry(ls[q], rs[q], srcs[q], nets[q], j as nat),
    ));
}

/// The plaintext ripple-carry adder: the sum bits of the first j positions
/// and the carry out of them make the sum of the two prefixes.
proof fn lemma_plain_adder(x: Seq<bool>, y: Seq<bool>, j: nat)
    requires
        j <= x.len(),
        x.len() == y.len(),
    ensures
        bits_val(Seq::new(j, |i: int| (x[i] != y[i]) != plain_carry(x, y, i as nat))) + (if plain_carry(
            x,
            y,
            j,
        ) {
            two_pow(j)
        } else {
            0
        }) == bits_val(x.take(j as int)) + bits_val(y.take(j as int)),
    decreases j,
{
    let sum = |k: nat| Seq::new(k, |i: int| (x[i] != y[i]) != plain_carry(x, y, i as nat));
    if j == 0 {
        assert(sum(0) =~= Seq::<bool>::empty());
        assert(x.take(0) =~= Seq::<bool>::empty());
        assert(y.take(0) =~= Seq::<bool>::empty());
    } else {
        let i = (j - 1) as nat;
        lemma_plain_adder(x, y, i);
        let bit = (x[i as int] != y[i as int]) != plain_carry(x, y, i);
        assert(sum(j) =~= sum(i).push(bit));
        lemma_bits_val_push(sum(i), bit);
        lemma_bits_val_take_step(x, i as int);
        lemma_bits_val_take_step(y, i as int);
        assert(two_pow(j) == 2 * two_pow(i));
    }
}

/// Correctness of `bits_add` among any number of parties.
///
/// Party q (party 0 the king, none alone on the network) holds shares
/// ls[q], rs[q] of two n-bit vectors (least significant bit first), draws
/// its triples from srcs[q], and runs `bits_add` over nets[q]. Where every
/// triple drawn is valid (its secrets are a, b and a AND b) and in every
/// round the network opens the XOR of what all parties send, the parties'
/// outputs XOR, position by position, to the bits of the sum of the two
/// secrets: all of it where the overflow is kept, else modulo 2^n.
pub proof fn lemma_bits_add_shares<S: BooleanBeaverSource, N: MpcNet>(
    ls: Seq<Seq<bool>>,
    rs: Seq<Seq<bool>>,
    srcs: Seq<S>,
    nets: Seq<N>,
    n: nat,
    preserve_overflow: bool,
)
    requires
        adder_parties(ls, rs, srcs, nets, n),
        forall|k: nat| k < 5 * n ==> #[trigger] triples_valid(srcs, k),
        forall|i: nat| i < n ==> #[trigger] adder_step_opens(ls, rs, srcs, nets, i),
    ensures
        ({
            let x = Seq::new(n, |i: int| column_secret(ls, i));
            let y = Seq::new(n, |i: int| column_secret(rs, i));
            let outs = Seq::new(
                ls.len(),
                |q: int| adder_output(ls[q], rs[q], preserve_overflow, srcs[q], nets[q]),
            );
            let len: nat = if preserve_overflow {
                n + 1
            } else {
                n
            };
            bits_val(Seq::new(len, |i: int| column_secret(outs, i))) == if preserve_overflow {
                bits_val(x) + bits_val(y)
            } else {
                (bits_val(x) + bits_val(y)) % two_pow(n)
            }
        }),
{
    let np = ls.len();
    let x = Seq::new(n, |i: int| column_secret(ls, i));
    let y = Seq::new(n, |i: int| column_secret(rs, i));
    let outs = Seq::new(
        np,
        |q: int| adder_output(ls[q], rs[q], preserve_overflow, srcs[q], nets[q]),
    );
    let sum = Seq::new(n, |i: int| (x[i] != y[i]) != plain_carry(x, y, i as nat));
    lemma_plain_adder(x, y, n);
    assert(x.take(n as int) =~= x);
    assert(y.take(n as int) =~= y);
    assert forall|i: int| 0 <= i < n implies #[trigger] column_secret(outs, i) == sum[i] by {
        lemma_adder_output_bit(ls, rs, srcs, nets, n, preserve_overflow, i);
        lemma_adder_carries(ls, rs, srcs, nets, n, i as nat);
        assert(Seq::new(outs.len(), |q: int| outs[q][i]) =~= Seq::new(
            ls.len(),
            |q: int| adder_output(ls[q], rs[q], preserve_overflow, srcs[q], nets[q])[i],
        ));
    }
    lemma_adder_carries(ls, rs, srcs, nets, n, n);
    if preserve_overflow {
        let c = plain_carry(x, y, n);
        assert forall|q: int| 0 <= q < np implies #[trigger] outs[q][n as int] == adder_carry(
            ls[q],
            rs[q],
            srcs[q],
            nets[q],
            n,
        ) by {
            assert(ls[q].len() == n);
        }
        assert(Seq::new(outs.len(), |q: int| outs[q][n as int]) =~= Seq::new(
            ls.len(),
            |q: int| adder_carry(ls[q], rs[q], srcs[q], nets[q], n),
        ));
        assert(Seq::new((n + 1) as nat, |i: int| column_secret(outs, i)) =~= sum.push(c));
        lemma_bits_val_push(sum, c);
    } else {
        assert(Seq::new(n, |i: int| column_secret(outs, i)) =~= sum);
        lemma_bits_val_bound(sum);
        lemma_mod_of_carry(
            bits_val(x) + bits_val(y),
            two_pow(n),
            bits_val(sum),
            plain_carry(x, y, n),
        );
    }
}

/// A party's share of the carry out of step j of adding the public bits
/// `pb` to its shared bits: one AND of a and c (rounds 2j, 2j + 1 after
/// the start, draw j), ORed with a where the public bit is set.
pub open spec fn const_next<S: BooleanBeaverSource, N: MpcNet>(
    a: bool,
    b: bool,
    c: bool,
    src: S,
    net: N,
    j: nat,
) -> bool {
    let t = src.triple_at(j);
    let ac = and_finish(
        t.0,
        t.1,
        t.2,
        round_bit(net, net.rounds() + 2 * j, a != t.0),
        round_bit(net, net.rounds() + 2 * j + 1, c != t.1),
        net.king(),
    );
    if b {
        (a != c) != ac
    } else {
        ac
    }
}

/// A party's share of the carry into step j of adding public bits.
pub open spec fn const_carry<S: BooleanBeaverSource, N: MpcNet>(
    l: Seq<bool>,
    pb: Seq<bool>,
    src: S,
    net: N,
    j: nat,
) -> bool
    decreases j,
{
    if j == 0 {
        false
    } else {
        let i = (j - 1) as nat;
        const_next(l[i as int], pb[i as int], const_carry(l, pb, src, net, i), src, net, i)
    }
}

/// A party's output of `bits_add_const`: bit j is l ^ carry, with the
/// public bit added by the king; the carry out of the last step appended
/// where the overflow is kept.
pub open spec fn const_output<S: BooleanBeaverSource, N: MpcNet>(
    l: Seq<bool>,
    pb: Seq<bool>,
    preserve_overflow: bool,
    src: S,
    net: N,
) -> Seq<bool> {
    let sum = Seq::new(
        l.len(),
        |j: int| ((l[j] != (net.king() && pb[j])) != const_carry(l, pb, src, net, j as nat)),
    );
    if preserve_overflow {
        sum.push(const_carry(l, pb, src, net, l.len()))
    } else {
        sum
    }
}

/// Party q's share of the carry into step j of adding public bits.
pub open spec fn party_const_carry<S: BooleanBeaverSource, N: MpcNet>(
    ls: Seq<Seq<bool>>,
    pb: Seq<bool>,
    srcs: Seq<S>,
    nets: Seq<N>,
    q: int,
    j: nat,
) -> bool {
    const_carry(ls[q], pb, srcs[q], nets[q], j)
}

/// The parties' masked shared bits of step j of adding public bits.
pub open spec fn const_masks_left<S: BooleanBeaverSource>(
    ls: Seq<Seq<bool>>,
    srcs: Seq<S>,
    j: nat,
) -> Seq<bool> {
    Seq::new(ls.len(), |p: int| ls[p][j as int] != srcs[p].triple_at(j).0)
}

/// The parties' masked carries of step j of adding public bits.
pub open spec fn const_masks_right<S: BooleanBeaverSource, N: MpcNet>(
    ls: Seq<Seq<bool>>,
    pb: Seq<bool>,
    srcs: Seq<S>,
    nets: Seq<N>,
    j: nat,
) -> Seq<bool> {
    Seq::new(
        ls.len(),
        |p: int| party_const_carry(ls, pb, srcs, nets, p, j) != srcs[p].triple_at(j).1,
    )
}

/// In the two rounds of step j of adding public bits the network opens to
/// every party the XOR of all parties' masked values.
pub open spec fn const_step_opens<S: BooleanBeaverSource, N: MpcNet>(
    ls: Seq<Seq<bool>>,
    pb: Seq<bool>,
    srcs: Seq<S>,
    nets: Seq<N>,
    j: nat,
) -> bool {
    forall|q: int|
        #![trigger nets[q]]
        0 <= q < ls.len() ==> {
            &&& round_bit(
                nets[q],
                nets[q].rounds() + 2 * j,
                ls[q][j as int] != srcs[q].triple_at(j).0,
            ) == xor_all(const_masks_left(ls, srcs, j))
            &&& round_bit(
                nets[q],
                nets[q].rounds() + 2 * j + 1,
                party_const_carry(ls, pb, srcs, nets, q, j) != srcs[q].triple_at(j).1,
            ) == xor_all(const_masks_right(ls, pb, srcs, nets, j))
        }
}

/// The XOR of the parties' carry shares into step j of adding public bits.
pub open spec fn const_carry_secret<S: BooleanBeaverSource, N: MpcNet>(
    ls: Seq<Seq<bool>>,
    pb: Seq<bool>,
    srcs: Seq<S>,
    nets: Seq<N>,
    j: nat,
) -> bool {
    xor_all(Seq::new(ls.len(), |q: int| party_const_carry(ls, pb, srcs, nets, q, j)))
}

/// The carries of adding public bits among any number of parties: they XOR
/// to the plaintext carries.
proof fn lemma_const_carries<S: BooleanBeaverSource, N: MpcNet>(
    ls: Seq<Seq<bool>>,
    pb: Seq<bool>,
    srcs: Seq<S>,
    nets: Seq<N>,
    n: nat,
    j: nat,
)
    requires
        adder_parties(ls, ls, srcs, nets, n),
        pb.len() == n,
        j <= n,
        forall|k: nat| k < n ==> #[trigger] triples_valid(srcs, k),
        forall|i: nat| i < n ==> #[trigger] const_step_opens(ls, pb, srcs, nets, i),
    ensures
        const_carry_secret(ls, pb, srcs, nets, j) == plain_carry(
            Seq::new(n, |i: int| column_secret(ls, i)),
            pb,
            j,
        ),
    decreases j,
{
    let np = ls.len();
    let x = Seq::new(n, |i: int| column_secret(ls, i));
    if j == 0 {
        assert(Seq::new(np, |q: int| party_const_carry(ls, pb, srcs, nets, q, 0)) =~= Seq::new(
            np,
            |q: int| false,
        ));
        lemma_xor_false(np);
    } else {
        let i = (j - 1) as nat;
        let ii = i as int;
        lemma_const_carries(ls, pb, srcs, nets, n, i);
        assert(triples_valid(srcs, i));
        assert(const_step_opens(ls, pb, srcs, nets, i));
        let sa = Seq::new(np, |q: int| ls[q][ii]);
        let sc = Seq::new(np, |q: int| party_const_carry(ls, pb, srcs, nets, q, i));
        let ta = Seq::new(np, |q: int| srcs[q].triple_at(i).0);
        let tb = Seq::new(np, |q: int| srcs[q].triple_at(i).1);
        let tc = Seq::new(np, |q: int| srcs[q].triple_at(i).2);
        lemma_beaver_and_shares(sa, sc, ta, tb, tc);
        let dd = xor_all(Seq::new(np, |k: int| sa[k] != ta[k]));
        let ee = xor_all(Seq::new(np, |k: int| sc[k] != tb[k]));
        assert(const_masks_left(ls, srcs, i) =~= Seq::new(np, |k: int| sa[k] != ta[k]));
        assert(const_masks_right(ls, pb, srcs, nets, i) =~= Seq::new(np, |k: int| sc[k] != tb[k]));
        let ac = Seq::new(np, |k: int| and_finish(ta[k], tb[k], tc[k], dd, ee, k == 0));
        let cn = Seq::new(np, |q: int| party_const_carry(ls, pb, srcs, nets, q, j));
        assert forall|q: int| 0 <= q < np implies #[trigger] cn[q] == (if pb[ii] {
            (sa[q] != sc[q]) != ac[q]
        } else {
            ac[q]
        }) by {
            assert(nets[q] == nets[q]);
        }
        if pb[ii] {
            let f = |k: int| sa[k] != sc[k];
            let g = |k: int| ac[k];
            assert(cn =~= Seq::new(np, |k: int| f(k) != g(k)));
            lemma_xor_new_xor(f, g, np);
            let fa = |k: int| sa[k];
            let fc = |k: int| sc[k];
            lemma_xor_new_xor(fa, fc, np);
            assert(Seq::new(np, |k: int| fa(k) != fc(k)) =~= Seq::new(np, f));
            assert(Seq::new(np, fa) =~= sa);
            assert(Seq::new(np, fc) =~= sc);
            assert(Seq::new(np, g) =~= ac);
        } else {
            assert(cn =~= ac);
        }
        assert(sa =~= Seq::new(ls.len(), |q: int| ls[q][ii]));
        assert(x[ii] == column_secret(ls, ii));
    }
}

/// Correctness of `bits_add_const` among any number of parties.
///
/// Party q (party 0 the king, none alone on the network) holds shares
/// ls[q] of an n-bit vector, all parties add the same public bits pb (least
/// significant first), drawing triples from srcs[q] over nets[q]. Where every
/// triple drawn is valid and in every round the network opens the XOR of
/// what all parties send, the parties' outputs XOR, position by position,
/// to the bits of the sum of the secret and the public value: all of it
/// where the overflow is kept, else modulo 2^n.
pub proof fn lemma_bits_add_const_shares<S: BooleanBeaverSource, N: MpcNet>(
    ls: Seq<Seq<bool>>,
    pb: Seq<bool>,
    srcs: Seq<S>,
    nets: Seq<N>,
    n: nat,
    preserve_overflow: bool,
)
    requires
        adder_parties(ls, ls, srcs, nets, n),
        pb.len() == n,
        forall|k: nat| k < n ==> #[trigger] triples_valid(srcs, k),
        forall|i: nat| i < n ==> #[trigger] const_step_opens(ls, pb, srcs, nets, i),
    ensures
        ({
            let x = Seq::new(n, |i: int| column_secret(ls, i));
            let outs = Seq::new(
                ls.len(),
                |q: int| const_output(ls[q], pb, preserve_overflow, srcs[q], nets[q]),
            );
            let len: nat = if preserve_overflow {
                n + 1
            } else {
                n
            };
            bits_val(Seq::new(len, |i: int| column_secret(outs, i))) == if preserve_overflow {
                bits_val(x) + bits_val(pb)
            } else {
                (bits_val(x) + bits_val(pb)) % two_pow(n)
            }
        }),
{
    let np = ls.len();
    let x = Seq::new(n, |i: int| column_secret(ls, i));
    let outs = Seq::new(np, |q: int| const_output(ls[q], pb, preserve_overflow, srcs[q], nets[q]));
    let sum = Seq::new(n, |i: int| (x[i] != pb[i]) != plain_carry(x, pb, i as nat));
    lemma_plain_adder(x, pb, n);
    assert(x.take(n as int) =~= x);
    assert(pb.take(n as int) =~= pb);
    assert forall|i: int| 0 <= i < n implies #[trigger] column_secret(outs, i) == sum[i] by {
        lemma_const_carries(ls, pb, srcs, nets, n, i as nat);
        let f = |q: int| ls[q][i];
        let g = |q: int| q == 0 && pb[i];
        let h = |q: int| party_const_carry(ls, pb, srcs, nets, q, i as nat);
        let fg = |q: int| f(q) != g(q);
        assert forall|q: int| 0 <= q < np implies #[trigger] outs[q][i] == (fg(q) != h(q)) by {
            assert(ls[q].len() == n);
            assert(nets[q].king() == (q == 0));
        }
        assert(Seq::new(outs.len(), |q: int| outs[q][i]) =~= Seq::new(np, |q: int| fg(q) != h(q)));
        lemma_xor_new_xor(fg, h, np);
        lemma_xor_new_xor(f, g, np);
        assert(Seq::new(np, |q: int| f(q) != g(q)) =~= Seq::new(np, fg));
        assert(Seq::new(np, f) =~= Seq::new(ls.len(), |q: int| ls[q][i]));
        assert(Seq::new(np, h) =~= Seq::new(
            ls.len(),
            |q: int| party_const_carry(ls, pb, srcs, nets, q, i as nat),
        ));
        if pb[i] {
            lemma_xor_first_only(np);
            assert(Seq::new(np, g) =~= Seq::new(np, |q: int| q == 0));
        } else {
            lemma_xor_false(np);
            assert(Seq::new(np, g) =~= Seq::new(np, |q: int| false));
        }
    }
    lemma_const_carries(ls, pb, srcs, nets, n, n);
    if preserve_overflow {
        let c = plain_carry(x, pb, n);
        assert forall|q: int| 0 <= q < np implies #[trigger] outs[q][n as int]
            == party_const_carry(ls, pb, srcs, nets, q, n) by {
            assert(ls[q].len() == n);
        }
        assert(Seq::new(outs.len(), |q: int| outs[q][n as int]) =~= Seq::new(
            ls.len(),
            |q: int| party_const_carry(ls, pb, srcs, nets, q, n),
        ));
        assert(Seq::new((n + 1) as nat, |i: int| column_secret(outs, i)) =~= sum.push(c));
        lemma_bits_val_push(sum, c);
    } else {
        assert(Seq::new(n, |i: int| column_secret(outs, i)) =~= sum);
        lemma_bits_val_bound(sum);
        lemma_mod_of_carry(
            bits_val(x) + bits_val(pb),
            two_pow(n),
            bits_val(sum),
            plain_carry(x, pb, n),
        );
    }
}

} // verus!
