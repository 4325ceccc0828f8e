//! Bit decomposition among any number of parties: what each party computes
//! from its shares and what the network opens to it, and the law that the
//! parties' outputs together denote the decomposed value.
use vstd::prelude::*;
use crate::adder::{
    adder_output, adder_parties, adder_step_opens, column_secret, const_output, const_step_opens,
    lemma_bits_add_const_shares, lemma_bits_add_shares, lemma_xor_false, triples_valid,
};
use crate::bit_ops::{
    BooleanBeaverSource, DummyBooleanBeaverSource, and_finish, bits_val, lemma_bits_val_push, lemma_beaver_and_shares,
    lemma_xor_new_xor, round_bit, same_net, xor_all,
};
use crate::compare::{lemma_bits_val_zeros, lemma_top_bit, lemma_two_pow_253};
use crate::compare_run::{dummy_sources, lemma_dummy_triples_valid, lemma_xor_first_only};
use crate::field::{fadd, modulus};
use crate::net::MpcNet;
use crate::types::two_pow;

verus! {

/// The opened left input of AND i of the correction: the XOR of the
/// masked bits of p (the king's bit of p, zero elsewhere) that the parties
/// send in round 2i after the start of `net`.
pub open spec fn correction_left_open<N: MpcNet>(net: N, pb: Seq<bool>, i: int) -> bool {
    round_bit(net, (net.rounds() + 2 * i) as nat, (net.king() && pb[i]) != net.king())
}

/// The opened right input of AND i of the correction, from the party's
/// share `nq` of NOT q (round 2i + 1).
pub open spec fn correction_right_open<N: MpcNet>(net: N, nq: bool, i: int) -> bool {
    round_bit(net, (net.rounds() + 2 * i + 1) as nat, nq != net.king())
}

/// A party's shares of the correction bits p AND NOT q: AND i takes the
/// king's bit i of p (zero elsewhere) and the party's share `nq` of NOT q,
/// with the dummy dealer's triple and the openings of rounds 2i and 2i + 1
/// after the start of `net`.
pub open spec fn correction_bits<N: MpcNet>(pb: Seq<bool>, nq: bool, net: N) -> Seq<bool> {
    let king = net.king();
    Seq::new(
        pb.len(),
        |i: int|
            and_finish(
                king,
                king,
                king,
                correction_left_open(net, pb, i),
                correction_right_open(net, nq, i),
                king,
            ),
    )
}

/// A party's output of bit decomposition from its shares `b` of the mask's
/// bits, the public bits `e` of c + 2^l - p and `pb` of p: the sum d of b
/// and e with its overflow (over the run from `net0`), the party's share of
/// NOT q for the top bit q of d (the king flips its share), the correction
/// bits (over the run from `net1`), and the sum of the low l bits of d and
/// the correction without overflow (over the run from `net2`).
pub open spec fn decompose_share<N: MpcNet>(
    b: Seq<bool>,
    e: Seq<bool>,
    pb: Seq<bool>,
    net0: N,
    net1: N,
    net2: N,
) -> Seq<bool> {
    let king = net0.king();
    let src = DummyBooleanBeaverSource { king };
    let l = b.len();
    let d = const_output(b.push(false), e, true, src, net0);
    let nq = d[l as int] != king;
    adder_output(d.take(l as int), correction_bits(pb, nq, net1), false, src, net2)
}

/// A run of bit decomposition at a party: the public bits it adds are those
/// of c + 2^l - p and of p, its three stages run on the network one after
/// the other from `net0` on, and `h` is its output.
pub open spec fn decompose_run<N: MpcNet>(
    b: Seq<bool>,
    c: nat,
    e: Seq<bool>,
    pb: Seq<bool>,
    net0: N,
    net1: N,
    net2: N,
    h: Seq<bool>,
) -> bool {
    &&& e.len() == b.len() + 1
    &&& bits_val(e) == c + two_pow(b.len()) - modulus()
    &&& pb.len() == b.len()
    &&& bits_val(pb) == modulus()
    &&& same_net(net1, net0)
    &&& same_net(net2, net0)
    &&& net1.rounds() == net0.rounds() + 2 * (b.len() + 1)
    &&& net2.rounds() == net1.rounds() + 2 * b.len()
    &&& h == decompose_share(b, e, pb, net0, net1, net2)
}

/// The secrets at positions 0 to n - 1 of the parties' shared vectors.
pub open spec fn columns(vs: Seq<Seq<bool>>, n: nat) -> Seq<bool> {
    Seq::new(n, |i: int| column_secret(vs, i))
}

/// The parties' shares of the mask's bits, with a zero bit on top.
pub open spec fn ext_shares(bs: Seq<Seq<bool>>) -> Seq<Seq<bool>> {
    Seq::new(bs.len(), |q: int| bs[q].push(false))
}

/// The parties' shares of d, the sum of the mask and the public bits e,
/// with its overflow.
pub open spec fn sum_shares<N: MpcNet>(bs: Seq<Seq<bool>>, e: Seq<bool>, nets0: Seq<N>) -> Seq<
    Seq<bool>,
> {
    Seq::new(
        bs.len(),
        |q: int| const_output(bs[q].push(false), e, true, dummy_sources(bs.len())[q], nets0[q]),
    )
}

/// The parties' shares of NOT q, q the bit l of d.
pub open spec fn not_q_shares<N: MpcNet>(
    bs: Seq<Seq<bool>>,
    e: Seq<bool>,
    nets0: Seq<N>,
    l: nat,
) -> Seq<bool> {
    Seq::new(bs.len(), |q: int| sum_shares(bs, e, nets0)[q][l as int] != (q == 0))
}

/// The parties' shares of the correction bits p AND NOT q.
pub open spec fn correction_shares<N: MpcNet>(
    bs: Seq<Seq<bool>>,
    e: Seq<bool>,
    pb: Seq<bool>,
    nets0: Seq<N>,
    nets1: Seq<N>,
    l: nat,
) -> Seq<Seq<bool>> {
    Seq::new(bs.len(), |q: int| correction_bits(pb, not_q_shares(bs, e, nets0, l)[q], nets1[q]))
}

/// The parties' shares of the low l bits of d.
pub open spec fn low_sum_shares<N: MpcNet>(
    bs: Seq<Seq<bool>>,
    e: Seq<bool>,
    nets0: Seq<N>,
    l: nat,
) -> Seq<Seq<bool>> {
    Seq::new(bs.len(), |q: int| sum_shares(bs, e, nets0)[q].take(l as int))
}

/// In every round of the decomposition the network opens to every party
/// the XOR of what all parties send: in the sum of the mask and e, in the
/// ANDs of the correction, and in the final sum.
pub open spec fn decompose_opens<N: MpcNet>(
    bs: Seq<Seq<bool>>,
    e: Seq<bool>,
    pb: Seq<bool>,
    nets0: Seq<N>,
    nets1: Seq<N>,
    nets2: Seq<N>,
    l: nat,
) -> bool {
    let np = bs.len();
    let nqs = not_q_shares(bs, e, nets0, l);
    &&& forall|i: nat|
        i < l + 1 ==> #[trigger] const_step_opens(ext_shares(bs), e, dummy_sources(np), nets0, i)
    &&& forall|i: int, q: int|
        0 <= i < l && 0 <= q < np ==> #[trigger] correction_left_open(nets1[q], pb, i) == xor_all(
            Seq::new(np, |k: int| (k == 0 && pb[i]) != (k == 0)),
        )
    &&& forall|i: int, q: int|
        0 <= i < l && 0 <= q < np ==> #[trigger] correction_right_open(nets1[q], nqs[q], i)
            == xor_all(Seq::new(np, |k: int| nqs[k] != (k == 0)))
    &&& forall|i: nat|
        i < l ==> #[trigger] adder_step_opens(
            low_sum_shares(bs, e, nets0, l),
            correction_shares(bs, e, pb, nets0, nets1, l),
            dummy_sources(np),
            nets2,
            i,
        )
}

/// The parties of a decomposition run: at least one, party 0 the king,
/// none alone on the network, each running `decompose_run` on its shares
/// of the l bits of the mask.
pub open spec fn decompose_parties<N: MpcNet>(
    bs: Seq<Seq<bool>>,
    c: nat,
    e: Seq<bool>,
    pb: Seq<bool>,
    nets0: Seq<N>,
    nets1: Seq<N>,
    nets2: Seq<N>,
    hs: Seq<Seq<bool>>,
    l: nat,
) -> bool {
    &&& bs.len() >= 1
    &&& nets0.len() == bs.len()
    &&& nets1.len() == bs.len()
    &&& nets2.len() == bs.len()
    &&& hs.len() == bs.len()
    &&& forall|q: int|
        0 <= q < bs.len() ==> {
            &&& (#[trigger] bs[q]).len() == l
            &&& !nets0[q].single_party()
            &&& (nets0[q].king() <==> q == 0)
            &&& decompose_run(bs[q], c, e, pb, nets0[q], nets1[q], nets2[q], hs[q])
        }
}

/// The first stage: the parties' shares of d XOR to the bits of
/// r + c + 2^l - p, whose bit l tells whether r + c reaches p.
proof fn lemma_sum_stage<N: MpcNet>(
    bs: Seq<Seq<bool>>,
    c: nat,
    e: Seq<bool>,
    pb: Seq<bool>,
    nets0: Seq<N>,
    nets1: Seq<N>,
    nets2: Seq<N>,
    hs: Seq<Seq<bool>>,
    l: nat,
)
    requires
        decompose_parties(bs, c, e, pb, nets0, nets1, nets2, hs, l),
        decompose_opens(bs, e, pb, nets0, nets1, nets2, l),
        253 <= l <= 255,
        c < modulus(),
        bits_val(columns(bs, l)) < modulus(),
    ensures
        ({
            let r = bits_val(columns(bs, l));
            let ds = sum_shares(bs, e, nets0);
            let big = r + c >= modulus();
            &&& column_secret(ds, l as int) == big
            &&& bits_val(columns(ds, l)) == if big {
                r + c - modulus()
            } else {
                r + c + two_pow(l) - modulus()
            }
        }),
{
    let np = bs.len();
    let srcs = dummy_sources(np);
    let exts = ext_shares(bs);
    let ds = sum_shares(bs, e, nets0);
    let x = columns(bs, l);
    let r = bits_val(x);
    let p = modulus();
    let tl = two_pow(l);
    let run0 = decompose_run(bs[0], c, e, pb, nets0[0], nets1[0], nets2[0], hs[0]);
    assert(run0);
    lemma_two_pow_253();
    crate::bits::lemma_two_pow_add(253, (l - 253) as nat);
    crate::bits::lemma_two_pow_positive((l - 253) as nat);
    assert(two_pow(253) <= tl) by (nonlinear_arith)
        requires
            tl == two_pow(253) * two_pow((l - 253) as nat),
            two_pow((l - 253) as nat) >= 1,
            two_pow(253) > 0,
    ;
    assert(two_pow(l + 1) == 2 * tl);
    assert(two_pow(l + 2) == 2 * two_pow(l + 1));
    assert forall|k: nat| k < l + 1 implies #[trigger] triples_valid(srcs, k) by {
        lemma_dummy_triples_valid(np, k);
    }
    assert forall|q: int| 0 <= q < np implies (#[trigger] exts[q]).len() == l + 1 by {
        assert(bs[q].len() == l);
    }
    assert forall|q: int| 0 <= q < np implies !(#[trigger] nets0[q]).single_party() && (
    nets0[q].king() <==> q == 0) by {
        assert(bs[q].len() == l);
    }
    assert(adder_parties(exts, exts, srcs, nets0, l + 1));
    lemma_bits_add_const_shares(exts, e, srcs, nets0, l + 1, true);
    let outs = Seq::new(np, |q: int| const_output(exts[q], e, true, srcs[q], nets0[q]));
    assert(outs =~= ds);
    let xe = Seq::new((l + 1) as nat, |i: int| column_secret(exts, i));
    assert(xe =~= x.push(false)) by {
        assert forall|i: int| 0 <= i < l implies #[trigger] xe[i] == x[i] by {
            assert(Seq::new(exts.len(), |q: int| exts[q][i]) =~= Seq::new(
                bs.len(),
                |q: int| bs[q][i],
            )) by {
                assert forall|q: int| 0 <= q < np implies #[trigger] exts[q][i] == bs[q][i] by {
                    assert(bs[q].len() == l);
                }
            }
        }
        assert(Seq::new(exts.len(), |q: int| exts[q][l as int]) =~= Seq::new(np, |q: int| false))
            by {
            assert forall|q: int| 0 <= q < np implies !#[trigger] exts[q][l as int] by {
                assert(bs[q].len() == l);
            }
        }
        lemma_xor_false(np);
    }
    lemma_bits_val_push(x, false);
    let dsec = Seq::new((l + 2) as nat, |i: int| column_secret(outs, i));
    assert(bits_val(dsec) == r + (c + tl - p));
    assert(bits_val(dsec) < two_pow(l + 2));
    lemma_top_bit(dsec, (l + 1) as int);
    let d1 = dsec.take((l + 1) as int);
    assert(bits_val(d1) == r + c + tl - p);
    lemma_top_bit(d1, l as int);
    assert(d1.take(l as int) =~= columns(ds, l));
    assert(d1[l as int] == column_secret(ds, l as int));
}

/// The second stage: the king's NOT of q and the ANDs with the king's bits
/// of p give shares that XOR to p AND NOT q, bit by bit.
proof fn lemma_correction_stage<N: MpcNet>(
    bs: Seq<Seq<bool>>,
    c: nat,
    e: Seq<bool>,
    pb: Seq<bool>,
    nets0: Seq<N>,
    nets1: Seq<N>,
    nets2: Seq<N>,
    hs: Seq<Seq<bool>>,
    l: nat,
)
    requires
        decompose_parties(bs, c, e, pb, nets0, nets1, nets2, hs, l),
        decompose_opens(bs, e, pb, nets0, nets1, nets2, l),
    ensures
        forall|i: int|
            0 <= i < l ==> #[trigger] column_secret(correction_shares(bs, e, pb, nets0, nets1, l), i)
                == (pb[i] && !column_secret(sum_shares(bs, e, nets0), l as int)),
{
    let np = bs.len();
    let ds = sum_shares(bs, e, nets0);
    let nqs = not_q_shares(bs, e, nets0, l);
    let opts = correction_shares(bs, e, pb, nets0, nets1, l);
    let a = Seq::new(np, |q: int| q == 0);
    lemma_xor_first_only(np);
    let big = column_secret(ds, l as int);
    // the parties' shares of NOT q XOR to NOT q
    let f = |q: int| ds[q][l as int];
    let g = |q: int| q == 0;
    lemma_xor_new_xor(f, g, np);
    assert(Seq::new(np, |q: int| f(q) != g(q)) =~= nqs);
    assert(Seq::new(np, f) =~= Seq::new(ds.len(), |q: int| ds[q][l as int]));
    assert(Seq::new(np, g) =~= a);
    assert(xor_all(nqs) == !big);
    assert forall|q: int| 0 <= q < np implies (#[trigger] nets1[q]).king() == (q == 0) by {
        assert(bs[q].len() == l);
    }
    assert forall|i: int| 0 <= i < l implies #[trigger] column_secret(opts, i) == (pb[i] && !big) by {
        let lv = Seq::new(np, |k: int| k == 0 && pb[i]);
        let dd = xor_all(Seq::new(np, |k: int| (k == 0 && pb[i]) != (k == 0)));
        let ee = xor_all(Seq::new(np, |k: int| nqs[k] != (k == 0)));
        lemma_beaver_and_shares(lv, nqs, a, a, a);
        assert(Seq::new(np, |k: int| lv[k] != a[k]) =~= Seq::new(
            np,
            |k: int| (k == 0 && pb[i]) != (k == 0),
        ));
        assert(Seq::new(np, |k: int| nqs[k] != a[k]) =~= Seq::new(np, |k: int| nqs[k] != (k == 0)));
        assert forall|q: int| 0 <= q < np implies #[trigger] opts[q][i] == and_finish(
            a[q],
            a[q],
            a[q],
            dd,
            ee,
            q == 0,
        ) by {
            assert(bs[q].len() == l);
            assert(pb.len() == l) by {
                assert(decompose_run(bs[q], c, e, pb, nets0[q], nets1[q], nets2[q], hs[q]));
            }
            assert(correction_left_open(nets1[q], pb, i) == dd);
            assert(correction_right_open(nets1[q], nqs[q], i) == ee);
        }
        assert(Seq::new(opts.len(), |q: int| opts[q][i]) =~= Seq::new(
            np,
            |k: int| and_finish(a[k], a[k], a[k], dd, ee, k == 0),
        ));
        if pb[i] {
            assert(lv =~= a);
        } else {
            assert(lv =~= Seq::new(np, |q: int| false));
            lemma_xor_false(np);
        }
    }
}

/// Correctness of bit decomposition among any number of parties.
///
/// Party q (party 0 the king, none alone on the network) holds shares
/// bs[q] of the l bits of a mask r below p, knows the opened value c below
/// p, and runs the decomposition from nets0[q] through nets1[q] and
/// nets2[q] to its output hs[q] (`decompose_run`, what
/// `bit_decompose_from_opened` computes there). Where in every round the
/// network opens to every party the XOR of what all parties send, the
/// parties' outputs XOR, position by position, to the l bits of (c + r)
/// mod p.
pub proof fn lemma_decompose_shares<N: MpcNet>(
    bs: Seq<Seq<bool>>,
    c: nat,
    e: Seq<bool>,
    pb: Seq<bool>,
    nets0: Seq<N>,
    nets1: Seq<N>,
    nets2: Seq<N>,
    hs: Seq<Seq<bool>>,
    l: nat,
)
    requires
        decompose_parties(bs, c, e, pb, nets0, nets1, nets2, hs, l),
        decompose_opens(bs, e, pb, nets0, nets1, nets2, l),
        253 <= l <= 255,
        c < modulus(),
        bits_val(columns(bs, l)) < modulus(),
    ensures
        bits_val(columns(hs, l)) == fadd(c, bits_val(columns(bs, l))),
{
    lemma_sum_stage(bs, c, e, pb, nets0, nets1, nets2, hs, l);
    lemma_correction_stage(bs, c, e, pb, nets0, nets1, nets2, hs, l);
    let np = bs.len();
    let srcs = dummy_sources(np);
    let ds = sum_shares(bs, e, nets0);
    let nqs = not_q_shares(bs, e, nets0, l);
    let trims = low_sum_shares(bs, e, nets0, l);
    let opts = correction_shares(bs, e, pb, nets0, nets1, l);
    let r = bits_val(columns(bs, l));
    let p = modulus();
    let tl = two_pow(l);
    let big = column_secret(ds, l as int);
    assert(decompose_run(bs[0], c, e, pb, nets0[0], nets1[0], nets2[0], hs[0]));
    assert(pb.len() == l);
    assert forall|q: int| 0 <= q < np implies {
        &&& (#[trigger] trims[q]).len() == l
        &&& opts[q].len() == l
        &&& !nets2[q].single_party()
        &&& (nets2[q].king() <==> q == 0)
        &&& hs[q] == adder_output(trims[q], opts[q], false, srcs[q], nets2[q])
    } by {
        assert(bs[q].len() == l);
        assert(decompose_run(bs[q], c, e, pb, nets0[q], nets1[q], nets2[q], hs[q]));
        assert(srcs[q] == DummyBooleanBeaverSource { king: nets0[q].king() });
        assert(ds[q].len() == l + 2);
    }
    assert forall|q: int| 0 <= q < np implies !(#[trigger] nets2[q]).single_party() && (
    nets2[q].king() <==> q == 0) by {
        assert(bs[q].len() == l);
        assert(decompose_run(bs[q], c, e, pb, nets0[q], nets1[q], nets2[q], hs[q]));
    }
    assert(adder_parties(trims, opts, srcs, nets2, l));
    assert forall|k: nat| k < 5 * l implies #[trigger] triples_valid(srcs, k) by {
        lemma_dummy_triples_valid(np, k);
    }
    lemma_bits_add_shares(trims, opts, srcs, nets2, l, false);
    let outs = Seq::new(np, |q: int| adder_output(trims[q], opts[q], false, srcs[q], nets2[q]));
    assert(outs =~= hs);
    let xt = Seq::new(l, |i: int| column_secret(trims, i));
    let y = Seq::new(l, |i: int| column_secret(opts, i));
    assert(xt =~= columns(ds, l)) by {
        assert forall|i: int| 0 <= i < l implies #[trigger] xt[i] == columns(ds, l)[i] by {
            assert(Seq::new(trims.len(), |q: int| trims[q][i]) =~= Seq::new(
                ds.len(),
                |q: int| ds[q][i],
            )) by {
                assert forall|q: int| 0 <= q < np implies #[trigger] trims[q][i] == ds[q][i] by {
                    assert(bs[q].len() == l);
                    assert(ds[q].len() == l + 2);
                }
            }
        }
    }
    assert(bits_val(Seq::new(l, |i: int| column_secret(outs, i))) == (bits_val(xt) + bits_val(y))
        % tl);
    assert(columns(hs, l) =~= Seq::new(l, |i: int| column_secret(outs, i)));
    lemma_two_pow_253();
    crate::bits::lemma_two_pow_add(253, (l - 253) as nat);
    crate::bits::lemma_two_pow_positive((l - 253) as nat);
    assert(two_pow(253) <= tl) by (nonlinear_arith)
        requires
            tl == two_pow(253) * two_pow((l - 253) as nat),
            two_pow((l - 253) as nat) >= 1,
            two_pow(253) > 0,
    ;
    if big {
        assert forall|i: int| 0 <= i < y.len() implies !#[trigger] y[i] by {}
        lemma_bits_val_zeros(y);
        let s = (r + c - p) as nat;
        assert(bits_val(xt) == s);
        vstd::arithmetic::div_mod::lemma_small_mod(s, tl);
        vstd::arithmetic::div_mod::lemma_fundamental_div_mod_converse(
            (r + c) as int,
            p as int,
            1,
            s as int,
        );
    } else {
        assert(y =~= pb);
        let s = (r + c) as nat;
        assert(bits_val(xt) + bits_val(y) == s + tl);
        vstd::arithmetic::div_mod::lemma_fundamental_div_mod_converse(
            (s + tl) as int,
            tl as int,
            1,
            s as int,
        );
        vstd::arithmetic::div_mod::lemma_small_mod(s, p);
    }
}

} // verus!
