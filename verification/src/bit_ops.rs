//! Boolean secret sharing: XOR-shared bits, Beaver AND, OR, and bit adders.
//!
//! A secret bit is shared among the parties as bits whose XOR is the secret.
//! XOR is computed locally; AND consumes a Beaver triple (a, b, c) with
//! c = a AND b (as secrets) and opens two masked values. The result of each
//! protocol is stated for a party that runs alone and draws locally consistent
//! triples, and among several parties in terms of what the network opens;
//! `lemma_beaver_and_shares` states the multi-party correctness of the AND
//! step on which all the others rest, and `crate::adder` that of the adder.
use vstd::prelude::*;
use vstd::arithmetic::div_mod::lemma_fundamental_div_mod_converse;
use crate::adder::{adder_carry, adder_d, adder_e, adder_output, const_carry, const_output};
use crate::net::MpcNet;
use crate::types::two_pow;

verus! {

/// XOR of all the bits in a sequence: the secret that XOR-shares stand for.
pub open spec fn xor_all(s: Seq<bool>) -> bool
    decreases s.len(),
{
    if s.len() == 0 {
        false
    } else {
        xor_all(s.drop_last()) != s.last()
    }
}

/// Little-endian value of a bit sequence (least significant bit first).
pub open spec fn bits_val(s: Seq<bool>) -> nat
    decreases s.len(),
{
    if s.len() == 0 {
        0
    } else {
        bits_val(s.drop_last()) + if s.last() {
            two_pow((s.len() - 1) as nat)
        } else {
            0
        }
    }
}

/// A party's output share of a Beaver AND, from its triple shares (a, b, c),
/// the opened masked values d and e, and whether it is the king:
/// c ^ (d & b) ^ (e & a) ^ (king & d & e).
pub open spec fn and_finish(a: bool, b: bool, c: bool, d: bool, e: bool, king: bool) -> bool {
    ((c != (d && b)) != (e && a)) != (king && d && e)
}

/// The two views of a network describe the same party in the same run.
pub open spec fn same_net<N: MpcNet>(x: N, y: N) -> bool {
    x.single_party() == y.single_party() && x.king() == y.king() && x.bit_rounds()
        == y.bit_rounds() && x.bits_rounds() == y.bits_rounds() && x.fe_rounds() == y.fe_rounds()
}

/// The opened value of a bit: the XOR of the shares heard, or the party's
/// own share where it hears none (a lone party).
pub open spec fn opened_bit(heard: Seq<bool>, own: bool) -> bool {
    if heard.len() == 0 {
        own
    } else {
        xor_all(heard)
    }
}

/// The XOR of position i of every vector heard (a vector too short to
/// reach position i adds nothing).
pub open spec fn xor_column(heard: Seq<Seq<bool>>, i: int) -> bool
    decreases heard.len(),
{
    if heard.len() == 0 {
        false
    } else {
        xor_column(heard.drop_last(), i) != (i < heard.last().len() && heard.last()[i])
    }
}

/// The opened vector: position by position the XOR of the vectors heard,
/// or the party's own vector where it hears none (a lone party).
pub open spec fn opened_bits(heard: Seq<Seq<bool>>, own: Seq<bool>) -> Seq<bool> {
    if heard.len() == 0 {
        own
    } else {
        Seq::new(own.len(), |i: int| xor_column(heard, i))
    }
}

/// The bit vector opened in round k of a run.
pub open spec fn round_bits<N: MpcNet>(net: N, k: nat, own: Seq<bool>) -> Seq<bool> {
    opened_bits((net.bits_rounds())(k, own), own)
}

/// A party's masked left inputs of a batch of Beaver ANDs: its shares XOR
/// the first shares of the triples it draws, in order.
pub open spec fn masked_left<S: BooleanBeaverSource>(src: S, l: Seq<bool>) -> Seq<bool> {
    Seq::new(l.len(), |j: int| l[j] != src.triple_at(j as nat).0)
}

/// A party's masked right inputs of a batch of Beaver ANDs.
pub open spec fn masked_right<S: BooleanBeaverSource>(src: S, r: Seq<bool>) -> Seq<bool> {
    Seq::new(r.len(), |j: int| r[j] != src.triple_at(j as nat).1)
}

/// The bit opened in round k of a run.
pub open spec fn round_bit<N: MpcNet>(net: N, k: nat, own: bool) -> bool {
    opened_bit((net.bit_rounds())(k, own), own)
}

/// A source of Boolean Beaver triples (a, b, c) with c = a AND b.
pub trait BooleanBeaverSource {
    /// Every triple it yields satisfies c = a AND b on this party's own shares.
    spec fn local_triples(&self) -> bool;

    /// The triple that the k-th draw from now yields.
    spec fn triple_at(&self, k: nat) -> (bool, bool, bool);

    /// The next triple of this party's shares.
    fn bool_triple(&mut self) -> (t: (bool, bool, bool))
        ensures
            final(self).local_triples() == old(self).local_triples(),
            t == old(self).triple_at(0),
            forall|k: nat| #[trigger] final(self).triple_at(k) == old(self).triple_at(k + 1),
            old(self).local_triples() ==> t.2 == (t.0 && t.1),
    ;
}

/// A trusted-dealer triple source without randomness: the king holds
/// (1, 1, 1) and every other party (0, 0, 0). Insecure; for testing.
#[derive(Clone, Copy, Debug, Default)]
pub struct DummyBooleanBeaverSource {
    /// Whether this party is the king.
    pub king: bool,
}

impl DummyBooleanBeaverSource {
    /// The source of the party that is (or is not) the king.
    pub fn new(king: bool) -> (s: Self)
        ensures
            s.king == king,
    {
        DummyBooleanBeaverSource { king }
    }
}

impl BooleanBeaverSource for DummyBooleanBeaverSource {
    open spec fn local_triples(&self) -> bool {
        true
    }

    open spec fn triple_at(&self, k: nat) -> (bool, bool, bool) {
        (self.king, self.king, self.king)
    }

    fn bool_triple(&mut self) -> (t: (bool, bool, bool))
        ensures
            t == (old(self).king, old(self).king, old(self).king),
            *final(self) == *old(self),
    {
        let a = if self.king {
            true
        } else {
            false
        };
        let b = if self.king {
            true
        } else {
            false
        };
        let c = if self.king {
            true
        } else {
            false
        };
        (a, b, c)
    }
}

/// Boolean secret-sharing operations.
pub struct BooleanOps;

impl BooleanOps {
    /// NOT of a shared bit: the king flips its share, the others keep theirs.
    pub fn bitwise_not<N: MpcNet>(share: bool, net: &N) -> (r: bool)
        ensures
            r == (if net.king() {
                !share
            } else {
                share
            }),
    {
        if net.am_king() {
            !share
        } else {
            share
        }
    }

    /// XOR of shared bits, computed locally.
    pub fn bitwise_xor(left_share: bool, right_share: bool) -> (r: bool)
        ensures
            r == (left_share != right_share),
    {
        left_share ^ right_share
    }

    /// Open a shared bit: the XOR of all parties' shares; a lone party's own share.
    pub(crate) fn open_bool<N: MpcNet>(share: bool, net: &mut N) -> (r: bool)
        ensures
            same_net(*final(net), *old(net)),
            old(net).single_party() ==> r == share,
            !old(net).single_party() ==> final(net).rounds() == old(net).rounds() + 1,
            r == round_bit(*old(net), old(net).rounds(), share),
    {
        let all_shares = net.broadcast_bool(share);
        if all_shares.len() == 0 {
            return share;
        }
        let mut acc = false;
        let mut i: usize = 0;
        while i < all_shares.len()
            invariant
                i <= all_shares.len(),
                acc == xor_all(all_shares@.take(i as int)),
            decreases all_shares.len() - i,
        {
            proof {
                assert(all_shares@.take(i as int + 1).drop_last() =~= all_shares@.take(i as int));
            }
            acc = acc ^ all_shares[i];
            i = i + 1;
        }
        assert(all_shares@.take(all_shares.len() as int) =~= all_shares@);
        acc
    }

    /// Open a vector of shared bits in one broadcast: position i is the XOR
    /// of every party's share at position i; a lone party's own shares.
    pub fn batch_open_bool<N: MpcNet>(shares: &[bool], net: &mut N) -> (r: Vec<bool>)
        ensures
            same_net(*final(net), *old(net)),
            r.len() == shares.len(),
            old(net).single_party() ==> r@ == shares@,
            !old(net).single_party() ==> final(net).rounds() == old(net).rounds() + 1,
            r@ == round_bits(*old(net), old(net).rounds(), shares@),
    {
        let ghost net0 = *old(net);
        let mut shares_vec: Vec<bool> = Vec::new();
        let mut k: usize = 0;
        while k < shares.len()
            invariant
                k <= shares.len(),
                shares_vec@ == shares@.take(k as int),
            decreases shares.len() - k,
        {
            shares_vec.push(shares[k]);
            k = k + 1;
        }
        assert(shares_vec@ == shares@.take(shares.len() as int));
        assert(shares@.take(shares.len() as int) =~= shares@);
        let all_party_shares = net.broadcast_bools(&shares_vec);
        let ghost heard = all_party_shares.deep_view();
        if all_party_shares.len() == 0 {
            return shares_vec;
        }
        let n_shares = shares.len();
        let mut results: Vec<bool> = Vec::new();
        k = 0;
        while k < n_shares
            invariant
                k <= n_shares,
                results.len() == k,
                forall|j: int| 0 <= j < k ==> !(#[trigger] results[j]),
            decreases n_shares - k,
        {
            results.push(false);
            k = k + 1;
        }
        let mut p: usize = 0;
        while p < all_party_shares.len()
            invariant
                p <= all_party_shares.len(),
                heard == all_party_shares.deep_view(),
                results.len() == n_shares,
                forall|j: int|
                    0 <= j < n_shares ==> #[trigger] results[j] == xor_column(heard.take(p as int), j),
            decreases all_party_shares.len() - p,
        {
            let party_shares = &all_party_shares[p];
            let ghost before = results@;
            proof {
                assert(heard.take(p as int + 1).drop_last() =~= heard.take(p as int));
                assert(heard.take(p as int + 1).last() == party_shares@);
            }
            let mut i: usize = 0;
            while i < party_shares.len() && i < n_shares
                invariant
                    i <= n_shares,
                    results.len() == n_shares,
                    forall|j: int| 0 <= j < i ==> #[trigger] results[j] == (before[j] != (j
                        < party_shares.len() && party_shares[j])),
                    forall|j: int| i <= j < n_shares ==> #[trigger] results[j] == before[j],
                decreases party_shares.len() - i,
            {
                let x = results[i] ^ party_shares[i];
                results.set(i, x);
                i = i + 1;
            }
            proof {
                assert forall|j: int| 0 <= j < n_shares implies #[trigger] results[j] == xor_column(
                    heard.take(p as int + 1),
                    j,
                ) by {
                    assert(before[j] == xor_column(heard.take(p as int), j));
                }
            }
            p = p + 1;
        }
        proof {
            assert(heard.take(heard.len() as int) =~= heard);
            assert(results@ =~= round_bits(net0, net0.rounds(), shares@));
        }
        results
    }

    /// A party's output share of a Beaver AND, from its triple shares and the
    /// opened masked values d = left ^ a and e = right ^ b.
    pub fn beaver_and_combine(
        triple: (bool, bool, bool),
        d: bool,
        e: bool,
        am_king: bool,
    ) -> (r: bool)
        ensures
            r == and_finish(triple.0, triple.1, triple.2, d, e, am_king),
    {
        let (a_share, b_share, c_share) = triple;
        let mut result = c_share;
        if d {
            result = result ^ b_share;
        }
        if e {
            result = result ^ a_share;
        }
        if am_king && d && e {
            result = result ^ true;
        }
        result
    }

    /// Secure AND of two shared bits with one Beaver triple and two openings.
    pub fn beaver_bitwise_and<S: BooleanBeaverSource, N: MpcNet>(
        left_share: bool,
        right_share: bool,
        beaver_source: &mut S,
        net: &mut N,
    ) -> (r: bool)
        ensures
            same_net(*final(net), *old(net)),
            final(beaver_source).local_triples() == old(beaver_source).local_triples(),
            !old(net).single_party() ==> final(net).rounds() == old(net).rounds() + 2,
            forall|k: nat| #[trigger] final(beaver_source).triple_at(k) == old(beaver_source).triple_at(k + 1),
            ({
                let t = old(beaver_source).triple_at(0);
                r == and_finish(
                    t.0,
                    t.1,
                    t.2,
                    round_bit(*old(net), old(net).rounds(), left_share != t.0),
                    round_bit(*old(net), old(net).rounds() + 1, right_share != t.1),
                    old(net).king(),
                )
            }),
            old(net).single_party() && old(beaver_source).local_triples() ==> r == (left_share
                && right_share),
    {
        let ghost net0 = *old(net);
        let (a_share, b_share, c_share) = beaver_source.bool_triple();
        let d = Self::open_bool(left_share ^ a_share, net);
        let e = Self::open_bool(right_share ^ b_share, net);
        let king = net.am_king();
        proof {
            if net0.single_party() {
                net0.lemma_single_party_is_king();
                net0.lemma_single_party_hears_nothing();
                assert((net0.bit_rounds())(net0.rounds(), left_share != a_share).len() == 0);
                assert((net0.bit_rounds())(net0.rounds() + 1, right_share != b_share).len() == 0);
            }
        }
        Self::beaver_and_combine((a_share, b_share, c_share), d, e, king)
    }

    /// Secure OR of two shared bits: left ^ right ^ AND(left, right).
    pub fn beaver_bitwise_or<S: BooleanBeaverSource, N: MpcNet>(
        left_share: bool,
        right_share: bool,
        beaver_source: &mut S,
        net: &mut N,
    ) -> (r: bool)
        ensures
            same_net(*final(net), *old(net)),
            final(beaver_source).local_triples() == old(beaver_source).local_triples(),
            !old(net).single_party() ==> final(net).rounds() == old(net).rounds() + 2,
            forall|k: nat| #[trigger] final(beaver_source).triple_at(k) == old(beaver_source).triple_at(k + 1),
            ({
                let t = old(beaver_source).triple_at(0);
                r == ((left_share != right_share) != and_finish(
                    t.0,
                    t.1,
                    t.2,
                    round_bit(*old(net), old(net).rounds(), left_share != t.0),
                    round_bit(*old(net), old(net).rounds() + 1, right_share != t.1),
                    old(net).king(),
                ))
            }),
            old(net).single_party() && old(beaver_source).local_triples() ==> r == (left_share
                || right_share),
    {
        let and_result = Self::beaver_bitwise_and(left_share, right_share, beaver_source, net);
        left_share ^ right_share ^ and_result
    }

    /// The output shares of a batch of Beaver ANDs, position by position.
    pub fn batch_beaver_and_combine(
        triples: &Vec<(bool, bool, bool)>,
        d_opened: &Vec<bool>,
        e_opened: &Vec<bool>,
        am_king: bool,
    ) -> (r: Vec<bool>)
        requires
            d_opened.len() == triples.len(),
            e_opened.len() == triples.len(),
        ensures
            r.len() == triples.len(),
            forall|i: int|
                0 <= i < r.len() ==> #[trigger] r[i] == and_finish(
                    triples[i].0,
                    triples[i].1,
                    triples[i].2,
                    d_opened[i],
                    e_opened[i],
                    am_king,
                ),
    {
        let n = triples.len();
        let mut results: Vec<bool> = Vec::new();
        let mut i: usize = 0;
        while i < n
            invariant
                n == triples.len(),
                d_opened.len() == n,
                e_opened.len() == n,
                i <= n,
                results.len() == i,
                forall|j: int|
                    0 <= j < i ==> #[trigger] results[j] == and_finish(
                        triples[j].0,
                        triples[j].1,
                        triples[j].2,
                        d_opened[j],
                        e_opened[j],
                        am_king,
                    ),
            decreases n - i,
        {
            let r = Self::beaver_and_combine(triples[i], d_opened[i], e_opened[i], am_king);
            results.push(r);
            i = i + 1;
        }
        results
    }

    /// Secure AND of two vectors of shared bits, position by position, with
    /// one opening round for all positions.
    pub fn batch_beaver_bitwise_and<S: BooleanBeaverSource, N: MpcNet>(
        left_shares: &[bool],
        right_shares: &[bool],
        beaver_source: &mut S,
        net: &mut N,
    ) -> (r: Vec<bool>)
        requires
            left_shares.len() == right_shares.len(),
        ensures
            same_net(*final(net), *old(net)),
            final(beaver_source).local_triples() == old(beaver_source).local_triples(),
            r.len() == left_shares.len(),
            !old(net).single_party() ==> final(net).rounds() == old(net).rounds() + 2,
            forall|k: nat| #[trigger] final(beaver_source).triple_at(k) == old(beaver_source).triple_at(
                (k + left_shares.len()) as nat,
            ),
            forall|i: int|
                0 <= i < r.len() ==> #[trigger] r[i] == and_finish(
                    old(beaver_source).triple_at(i as nat).0,
                    old(beaver_source).triple_at(i as nat).1,
                    old(beaver_source).triple_at(i as nat).2,
                    round_bits(
                        *old(net),
                        old(net).rounds(),
                        masked_left(*old(beaver_source), left_shares@),
                    )[i],
                    round_bits(
                        *old(net),
                        old(net).rounds() + 1,
                        masked_right(*old(beaver_source), right_shares@),
                    )[i],
                    old(net).king(),
                ),
            old(net).single_party() && old(beaver_source).local_triples() ==> forall|i: int|
                0 <= i < r.len() ==> #[trigger] r[i] == (left_shares[i] && right_shares[i]),
    {
        let n = left_shares.len();
        let ghost local = old(beaver_source).local_triples();
        let ghost src0 = *old(beaver_source);
        let ghost net0 = *old(net);
        let mut triples: Vec<(bool, bool, bool)> = Vec::new();
        let mut k: usize = 0;
        while k < n
            invariant
                k <= n,
                triples.len() == k,
                beaver_source.local_triples() == local,
                local ==> forall|j: int|
                    0 <= j < k ==> #[trigger] triples[j].2 == (triples[j].0 && triples[j].1),
                forall|j: int| 0 <= j < k ==> #[trigger] triples[j] == src0.triple_at(j as nat),
                forall|q: nat| #[trigger] beaver_source.triple_at(q) == src0.triple_at(q + k as nat),
            decreases n - k,
        {
            let ghost before = *beaver_source;
            triples.push(beaver_source.bool_triple());
            proof {
                assert(triples[k as int] == before.triple_at(0));
                assert(before.triple_at(0) == src0.triple_at(0 + k as nat));
                assert forall|q: nat| #[trigger] beaver_source.triple_at(q) == src0.triple_at(
                    q + (k + 1) as nat,
                ) by {
                    assert(beaver_source.triple_at(q) == before.triple_at(q + 1));
                    assert(before.triple_at(q + 1) == src0.triple_at((q + 1) + k as nat));
                }
            }
            k = k + 1;
        }
        let mut d_shares: Vec<bool> = Vec::new();
        let mut e_shares: Vec<bool> = Vec::new();
        let mut i: usize = 0;
        while i < n
            invariant
                n == left_shares.len(),
                n == right_shares.len(),
                triples.len() == n,
                i <= n,
                d_shares.len() == i,
                e_shares.len() == i,
                forall|j: int|
                    0 <= j < i ==> #[trigger] d_shares[j] == (left_shares[j] != triples[j].0),
                forall|j: int|
                    0 <= j < i ==> #[trigger] e_shares[j] == (right_shares[j] != triples[j].1),
            decreases n - i,
        {
            let (a_share, b_share, _c) = triples[i];
            d_shares.push(left_shares[i] ^ a_share);
            e_shares.push(right_shares[i] ^ b_share);
            i = i + 1;
        }
        proof {
            assert(d_shares@ =~= masked_left(src0, left_shares@));
            assert(e_shares@ =~= masked_right(src0, right_shares@));
        }
        let d_opened = Self::batch_open_bool(d_shares.as_slice(), net);
        let ghost net1 = *net;
        let e_opened = Self::batch_open_bool(e_shares.as_slice(), net);
        let king = net.am_king();
        proof {
            if old(net).single_party() {
                net.lemma_single_party_is_king();
                net0.lemma_single_party_hears_nothing();
                assert((net0.bits_rounds())(net1.rounds(), e_shares@).len() == 0);
                assert((net0.bits_rounds())(net0.rounds() + 1, e_shares@).len() == 0);
            }
            assert(e_opened@ == round_bits(net0, net0.rounds() + 1, e_shares@));
        }
        let results = Self::batch_beaver_and_combine(&triples, &d_opened, &e_opened, king);
        proof {
            if old(net).single_party() && local {
                assert(d_opened@ == d_shares@);
                assert(e_opened@ == e_shares@);
                assert forall|j: int| 0 <= j < results.len() implies #[trigger] results[j] == (
                left_shares[j] && right_shares[j]) by {
                    assert(d_opened[j] == d_shares[j]);
                    assert(e_opened[j] == e_shares[j]);
                }
            }
        }
        results
    }

    /// Secure OR of two vectors of shared bits, position by position.
    pub fn batch_beaver_bitwise_or<S: BooleanBeaverSource, N: MpcNet>(
        left_shares: &[bool],
        right_shares: &[bool],
        beaver_source: &mut S,
        net: &mut N,
    ) -> (r: Vec<bool>)
        requires
            left_shares.len() == right_shares.len(),
        ensures
            same_net(*final(net), *old(net)),
            final(beaver_source).local_triples() == old(beaver_source).local_triples(),
            r.len() == left_shares.len(),
            !old(net).single_party() ==> final(net).rounds() == old(net).rounds() + 2,
            forall|k: nat| #[trigger] final(beaver_source).triple_at(k) == old(beaver_source).triple_at(
                (k + left_shares.len()) as nat,
            ),
            forall|i: int|
                0 <= i < r.len() ==> #[trigger] r[i] == ((left_shares[i] != right_shares[i])
                    != and_finish(
                    old(beaver_source).triple_at(i as nat).0,
                    old(beaver_source).triple_at(i as nat).1,
                    old(beaver_source).triple_at(i as nat).2,
                    round_bits(
                        *old(net),
                        old(net).rounds(),
                        masked_left(*old(beaver_source), left_shares@),
                    )[i],
                    round_bits(
                        *old(net),
                        old(net).rounds() + 1,
                        masked_right(*old(beaver_source), right_shares@),
                    )[i],
                    old(net).king(),
                )),
            old(net).single_party() && old(beaver_source).local_triples() ==> forall|i: int|
                0 <= i < r.len() ==> #[trigger] r[i] == (left_shares[i] || right_shares[i]),
    {
        let and_results = Self::batch_beaver_bitwise_and(
            left_shares,
            right_shares,
            beaver_source,
            net,
        );
        let n = left_shares.len();
        let mut results: Vec<bool> = Vec::new();
        let mut i: usize = 0;
        while i < n
            invariant
                n == left_shares.len(),
                n == right_shares.len(),
                and_results.len() == n,
                i <= n,
                results.len() == i,
                forall|j: int|
                    0 <= j < i ==> #[trigger] results[j] == ((left_shares[j] != right_shares[j])
                        != and_results[j]),
            decreases n - i,
        {
            results.push(left_shares[i] ^ right_shares[i] ^ and_results[i]);
            i = i + 1;
        }
        results
    }
    /// Ripple-carry addition of two shared bit vectors (least significant bit
    /// first); the final carry is appended where `preserve_overflow` is set.
    pub fn bits_add<S: BooleanBeaverSource, N: MpcNet>(
        left_bits: &[bool],
        right_bits: &[bool],
        preserve_overflow: bool,
        beaver_source: &mut S,
        net: &mut N,
    ) -> (r: Vec<bool>)
        requires
            left_bits.len() == right_bits.len(),
        ensures
            same_net(*final(net), *old(net)),
            final(beaver_source).local_triples() == old(beaver_source).local_triples(),
            r.len() == (if preserve_overflow {
                left_bits.len() + 1
            } else {
                left_bits.len() as int
            }),
            !old(net).single_party() ==> final(net).rounds() == old(net).rounds() + 6
                * left_bits.len(),
            forall|k: nat| #[trigger] final(beaver_source).triple_at(k) == old(beaver_source).triple_at(
                (k + 5 * left_bits.len()) as nat,
            ),
            old(net).single_party() && old(beaver_source).local_triples() ==> bits_val(r@) == (
            if preserve_overflow {
                bits_val(left_bits@) + bits_val(right_bits@)
            } else {
                (bits_val(left_bits@) + bits_val(right_bits@)) % two_pow(left_bits.len() as nat)
            }),
            !old(net).single_party() ==> r@ == adder_output(
                left_bits@,
                right_bits@,
                preserve_overflow,
                *old(beaver_source),
                *old(net),
            ),
    {
        let bit_count = left_bits.len();
        let ghost sl = old(net).single_party() && old(beaver_source).local_triples();
        let ghost net0 = *old(net);
        let ghost local = old(beaver_source).local_triples();
        let ghost src0 = *old(beaver_source);
        let mut result_bits: Vec<bool> = Vec::new();
        let mut carry_share = false;
        let mut i: usize = 0;
        while i < bit_count
            invariant
                bit_count == left_bits.len(),
                bit_count == right_bits.len(),
                i <= bit_count,
                result_bits.len() == i,
                same_net(*net, net0),
                !net0.single_party() ==> net.rounds() == net0.rounds() + 6 * i,
                forall|k: nat| #[trigger] beaver_source.triple_at(k) == src0.triple_at((k + 5 * i) as nat),
                beaver_source.local_triples() == local,
                sl == (net0.single_party() && local),
                sl ==> bits_val(result_bits@) + (if carry_share {
                    two_pow(i as nat)
                } else {
                    0
                }) == bits_val(left_bits@.take(i as int)) + bits_val(right_bits@.take(i as int)),
                !net0.single_party() ==> carry_share == adder_carry(
                    left_bits@,
                    right_bits@,
                    src0,
                    net0,
                    i as nat,
                ),
                !net0.single_party() ==> forall|j: int|
                    0 <= j < i ==> #[trigger] result_bits[j] == ((left_bits[j] != right_bits[j])
                        != adder_carry(left_bits@, right_bits@, src0, net0, j as nat)),
            decreases bit_count - i,
        {
            let a_bit_share = left_bits[i];
            let b_bit_share = right_bits[i];
            let ghost old_result = result_bits@;
            let ghost old_carry = carry_share;
            let ghost s0 = *beaver_source;
            let ghost neti = *net;
            result_bits.push(a_bit_share ^ b_bit_share ^ carry_share);
            let and_left = vec![a_bit_share, a_bit_share, b_bit_share];
            let and_right = vec![b_bit_share, carry_share, carry_share];
            let and_results = Self::batch_beaver_bitwise_and(
                and_left.as_slice(),
                and_right.as_slice(),
                beaver_source,
                net,
            );
            let ghost s1 = *beaver_source;
            let t1 = and_results[0];
            let t2 = and_results[1];
            let t3 = and_results[2];
            let t4 = Self::beaver_bitwise_or(t1, t2, beaver_source, net);
            let ghost s2 = *beaver_source;
            carry_share = Self::beaver_bitwise_or(t4, t3, beaver_source, net);
            proof {
                assert forall|k: nat| #[trigger] beaver_source.triple_at(k) == src0.triple_at(
                    (k + 5 * (i + 1)) as nat,
                ) by {
                    assert(beaver_source.triple_at(k) == s2.triple_at(k + 1));
                    assert(s2.triple_at(k + 1) == s1.triple_at(k + 1 + 1));
                    assert(s1.triple_at((k + 2) as nat) == src0.triple_at((k + 2 + 3 + 5 * i) as nat));
                }
                if !net0.single_party() {
                    let ii = i as nat;
                    let k = net0.rounds() + 6 * ii;
                    assert(neti.rounds() == k);
                    assert(and_left@ =~= seq![a_bit_share, a_bit_share, b_bit_share]);
                    assert(and_right@ =~= seq![b_bit_share, old_carry, old_carry]);
                    assert(s0.triple_at(0) == src0.triple_at(5 * ii));
                    assert(s0.triple_at(1) == src0.triple_at(5 * ii + 1));
                    assert(s0.triple_at(2) == src0.triple_at(5 * ii + 2));
                    assert(s1.triple_at(0) == src0.triple_at(5 * ii + 3));
                    assert(s2.triple_at(0) == src0.triple_at(5 * ii + 4));
                    assert(masked_left(s0, and_left@) =~= adder_d(a_bit_share, b_bit_share, src0, ii));
                    assert(masked_right(s0, and_right@) =~= adder_e(b_bit_share, old_carry, src0, ii));
                    assert(result_bits[i as int] == ((left_bits[i as int] != right_bits[i as int])
                        != adder_carry(left_bits@, right_bits@, src0, net0, ii)));
                    assert forall|j: int| 0 <= j < i + 1 implies #[trigger] result_bits[j] == ((
                    left_bits[j] != right_bits[j]) != adder_carry(
                        left_bits@,
                        right_bits@,
                        src0,
                        net0,
                        j as nat,
                    )) by {
                        if j < i {
                            assert(result_bits[j] == old_result[j]);
                        }
                    }
                }
                if sl {
                    assert(and_left[0] == a_bit_share && and_right[0] == b_bit_share);
                    assert(and_left[1] == a_bit_share && and_right[1] == old_carry);
                    assert(and_left[2] == b_bit_share && and_right[2] == old_carry);
                    assert(t1 == (a_bit_share && b_bit_share));
                    assert(t2 == (a_bit_share && old_carry));
                    assert(t3 == (b_bit_share && old_carry));
                    lemma_bits_val_push(old_result, (a_bit_share != b_bit_share) != old_carry);
                    lemma_bits_val_take_step(left_bits@, i as int);
                    lemma_bits_val_take_step(right_bits@, i as int);
                    assert(two_pow(i as nat + 1) == 2 * two_pow(i as nat));
                }
            }
            i = i + 1;
        }
        proof {
            assert(left_bits@.take(bit_count as int) =~= left_bits@);
            assert(right_bits@.take(bit_count as int) =~= right_bits@);
        }
        let ghost before = result_bits@;
        proof {
            if !net0.single_party() {
                assert(before =~= Seq::new(
                    left_bits@.len(),
                    |j: int|
                        (left_bits@[j] != right_bits@[j]) != adder_carry(
                            left_bits@,
                            right_bits@,
                            src0,
                            net0,
                            j as nat,
                        ),
                ));
            }
        }
        if preserve_overflow {
            result_bits.push(carry_share);
            proof {
                lemma_bits_val_push(before, carry_share);
            }
        } else {
            proof {
                if sl {
                    lemma_bits_val_bound(before);
                    lemma_mod_of_carry(
                        bits_val(left_bits@) + bits_val(right_bits@),
                        two_pow(bit_count as nat),
                        bits_val(before),
                        carry_share,
                    );
                }
            }
        }
        result_bits
    }

    /// Addition of a shared bit vector and a public one (least significant
    /// bit first); the king alone adds the public bits into its shares.
    pub fn bits_add_const<S: BooleanBeaverSource, N: MpcNet>(
        left_bits: &[bool],
        right_const: &[bool],
        preserve_overflow: bool,
        beaver_source: &mut S,
        net: &mut N,
    ) -> (r: Vec<bool>)
        requires
            left_bits.len() == right_const.len(),
        ensures
            same_net(*final(net), *old(net)),
            final(beaver_source).local_triples() == old(beaver_source).local_triples(),
            r.len() == (if preserve_overflow {
                left_bits.len() + 1
            } else {
                left_bits.len() as int
            }),
            old(net).single_party() && old(beaver_source).local_triples() ==> bits_val(r@) == (
            if preserve_overflow {
                bits_val(left_bits@) + bits_val(right_const@)
            } else {
                (bits_val(left_bits@) + bits_val(right_const@)) % two_pow(left_bits.len() as nat)
            }),
            !old(net).single_party() ==> r@ == const_output(
                left_bits@,
                right_const@,
                preserve_overflow,
                *old(beaver_source),
                *old(net),
            ),
            !old(net).single_party() ==> final(net).rounds() == old(net).rounds() + 2
                * left_bits.len(),
            forall|k: nat| #[trigger] final(beaver_source).triple_at(k) == old(beaver_source).triple_at(
                (k + left_bits.len()) as nat,
            ),
    {
        let bit_count = left_bits.len();
        let ghost sl = old(net).single_party() && old(beaver_source).local_triples();
        let ghost net0 = *old(net);
        let ghost src0 = *old(beaver_source);
        let ghost local = old(beaver_source).local_triples();
        proof {
            if old(net).single_party() {
                old(net).lemma_single_party_is_king();
            }
        }
        let mut result_bits: Vec<bool> = Vec::new();
        let mut carry_share = false;
        let mut i: usize = 0;
        while i < bit_count
            invariant
                bit_count == left_bits.len(),
                bit_count == right_const.len(),
                i <= bit_count,
                result_bits.len() == i,
                same_net(*net, net0),
                net0.single_party() ==> net0.king(),
                beaver_source.local_triples() == local,
                sl == (net0.single_party() && local),
                sl ==> bits_val(result_bits@) + (if carry_share {
                    two_pow(i as nat)
                } else {
                    0
                }) == bits_val(left_bits@.take(i as int)) + bits_val(right_const@.take(i as int)),
                !net0.single_party() ==> net.rounds() == net0.rounds() + 2 * i,
                forall|k: nat| #[trigger] beaver_source.triple_at(k) == src0.triple_at((k + i) as nat),
                !net0.single_party() ==> carry_share == const_carry(
                    left_bits@,
                    right_const@,
                    src0,
                    net0,
                    i as nat,
                ),
                !net0.single_party() ==> forall|j: int|
                    0 <= j < i ==> #[trigger] result_bits[j] == ((left_bits[j] != (net0.king()
                        && right_const[j])) != const_carry(
                        left_bits@,
                        right_const@,
                        src0,
                        net0,
                        j as nat,
                    )),
            decreases bit_count - i,
        {
            let ghost s0 = *beaver_source;
            let a_bit_share = left_bits[i];
            let b_bit = if net.am_king() {
                right_const[i]
            } else {
                false
            };
            let ghost old_result = result_bits@;
            let ghost old_carry = carry_share;
            result_bits.push(a_bit_share ^ b_bit ^ carry_share);
            if !right_const[i] {
                let t2 = Self::beaver_bitwise_and(a_bit_share, carry_share, beaver_source, net);
                carry_share = t2;
            } else {
                let t2 = Self::beaver_bitwise_and(a_bit_share, carry_share, beaver_source, net);
                carry_share = a_bit_share ^ carry_share ^ t2;
            }
            proof {
                if sl {
                    lemma_bits_val_push(old_result, (a_bit_share != b_bit) != old_carry);
                    lemma_bits_val_take_step(left_bits@, i as int);
                    lemma_bits_val_take_step(right_const@, i as int);
                    assert(two_pow(i as nat + 1) == 2 * two_pow(i as nat));
                }
                assert forall|k: nat| #[trigger] beaver_source.triple_at(k) == src0.triple_at(
                    (k + (i + 1)) as nat,
                ) by {
                    assert(s0.triple_at(k + 1) == src0.triple_at((k + 1 + i) as nat));
                }
                if !net0.single_party() {
                    assert(s0.triple_at(0) == src0.triple_at(i as nat));
                    assert forall|j: int| 0 <= j < i + 1 implies #[trigger] result_bits[j] == ((
                    left_bits[j] != (net0.king() && right_const[j])) != const_carry(
                        left_bits@,
                        right_const@,
                        src0,
                        net0,
                        j as nat,
                    )) by {
                        if j < i {
                            assert(result_bits[j] == old_result[j]);
                        }
                    }
                }
            }
            i = i + 1;
        }
        proof {
            assert(left_bits@.take(bit_count as int) =~= left_bits@);
            assert(right_const@.take(bit_count as int) =~= right_const@);
        }
        let ghost before = result_bits@;
        proof {
            if !net0.single_party() {
                assert(before =~= Seq::new(
                    left_bits@.len(),
                    |j: int|
                        ((left_bits@[j] != (net0.king() && right_const@[j])) != const_carry(
                            left_bits@,
                            right_const@,
                            src0,
                            net0,
                            j as nat,
                        )),
                ));
            }
        }
        if preserve_overflow {
            result_bits.push(carry_share);
            proof {
                lemma_bits_val_push(before, carry_share);
            }
        } else {
            proof {
                if sl {
                    lemma_bits_val_bound(before);
                    lemma_mod_of_carry(
                        bits_val(left_bits@) + bits_val(right_const@),
                        two_pow(bit_count as nat),
                        bits_val(before),
                        carry_share,
                    );
                }
            }
        }
        result_bits
    }
}

/// Appending a bit adds its weight.
pub proof fn lemma_bits_val_push(s: Seq<bool>, b: bool)
    ensures
        bits_val(s.push(b)) == bits_val(s) + if b {
            two_pow(s.len())
        } else {
            0
        },
{
    assert(s.push(b).drop_last() =~= s);
}

/// The prefix of length i + 1 adds the weight of bit i to the prefix of length i.
pub proof fn lemma_bits_val_take_step(s: Seq<bool>, i: int)
    requires
        0 <= i < s.len(),
    ensures
        bits_val(s.take(i + 1)) == bits_val(s.take(i)) + if s[i] {
            two_pow(i as nat)
        } else {
            0
        },
{
    assert(s.take(i + 1).drop_last() =~= s.take(i));
}

/// A bit vector of length n denotes a value below 2^n.
pub proof fn lemma_bits_val_bound(s: Seq<bool>)
    ensures
        bits_val(s) < two_pow(s.len()),
    decreases s.len(),
{
    if s.len() > 0 {
        lemma_bits_val_bound(s.drop_last());
    }
}

pub(crate) proof fn lemma_mod_of_carry(x: nat, m: nat, low: nat, carry: bool)
    requires
        m > 0,
        low < m,
        low + (if carry {
            m
        } else {
            0
        }) == x,
    ensures
        x % m == low,
{
    let q: int = if carry {
        1
    } else {
        0
    };
    assert(x == q * m + low);
    lemma_fundamental_div_mod_converse(x as int, m as int, q, low as int);
}

/// XOR over the first n + 1 values of f adds f(n).
proof fn lemma_xor_new_step(f: spec_fn(int) -> bool, n: nat)
    ensures
        xor_all(Seq::new(n + 1, f)) == (xor_all(Seq::new(n, f)) != f(n as int)),
{
    assert(Seq::new(n + 1, f).drop_last() =~= Seq::new(n, f));
}

/// XOR-sharing is linear: the XOR of pointwise XORs is the XOR of the XORs.
pub(crate) proof fn lemma_xor_new_xor(f: spec_fn(int) -> bool, g: spec_fn(int) -> bool, n: nat)
    ensures
        xor_all(Seq::new(n, |i: int| f(i) != g(i))) == (xor_all(Seq::new(n, f)) != xor_all(
            Seq::new(n, g),
        )),
    decreases n,
{
    if n > 0 {
        let m = (n - 1) as nat;
        lemma_xor_new_xor(f, g, m);
        lemma_xor_new_step(|i: int| f(i) != g(i), m);
        lemma_xor_new_step(f, m);
        lemma_xor_new_step(g, m);
    } else {
        assert(Seq::new(0, |i: int| f(i) != g(i)) =~= Seq::<bool>::empty());
        assert(Seq::new(0, f) =~= Seq::<bool>::empty());
        assert(Seq::new(0, g) =~= Seq::<bool>::empty());
    }
}

/// AND with a public bit commutes with the XOR of shares.
proof fn lemma_xor_new_and(d: bool, f: spec_fn(int) -> bool, n: nat)
    ensures
        xor_all(Seq::new(n, |i: int| d && f(i))) == (d && xor_all(Seq::new(n, f))),
    decreases n,
{
    if n > 0 {
        let m = (n - 1) as nat;
        lemma_xor_new_and(d, f, m);
        lemma_xor_new_step(|i: int| d && f(i), m);
        lemma_xor_new_step(f, m);
    } else {
        assert(Seq::new(0, |i: int| d && f(i)) =~= Seq::<bool>::empty());
        assert(Seq::new(0, f) =~= Seq::<bool>::empty());
    }
}

/// A value held by party 0 alone is the XOR of the shares.
proof fn lemma_xor_new_first(k: bool, n: nat)
    requires
        n >= 1,
    ensures
        xor_all(Seq::new(n, |i: int| i == 0 && k)) == k,
    decreases n,
{
    let f = |i: int| i == 0 && k;
    let m = (n - 1) as nat;
    lemma_xor_new_step(f, m);
    assert(Seq::new(n, |i: int| i == 0 && k) =~= Seq::new(n, f));
    if n == 1 {
        assert(Seq::new(0, f) =~= Seq::<bool>::empty());
    } else {
        lemma_xor_new_first(k, m);
        assert(Seq::new(m, |i: int| i == 0 && k) =~= Seq::new(m, f));
    }
}

/// XOR is computed locally: among any number of parties, the XORs of each
/// party's two shares (`bitwise_xor`) XOR to the XOR of the two secrets.
pub proof fn lemma_xor_shares(l: Seq<bool>, r: Seq<bool>)
    requires
        r.len() == l.len(),
    ensures
        xor_all(Seq::new(l.len(), |i: int| l[i] != r[i])) == (xor_all(l) != xor_all(r)),
{
    let n = l.len();
    let f = |i: int| l[i];
    let g = |i: int| r[i];
    lemma_xor_new_xor(f, g, n);
    assert(Seq::new(n, |i: int| f(i) != g(i)) =~= Seq::new(n, |i: int| l[i] != r[i]));
    assert(Seq::new(n, f) =~= l);
    assert(Seq::new(n, g) =~= r);
}

/// Correctness of Beaver AND among any number of parties.
///
/// Party i holds shares l[i], r[i] of the inputs and a triple share
/// (a[i], b[i], c[i]) whose secrets satisfy c = a AND b; party 0 is the king.
/// The masked values d = l ^ a and e = r ^ b are opened (the XOR of all
/// parties' masked shares), and each party combines them with
/// `beaver_and_combine`. The XOR of the parties' outputs is then the AND of the
/// input secrets.
pub proof fn lemma_beaver_and_shares(
    l: Seq<bool>,
    r: Seq<bool>,
    a: Seq<bool>,
    b: Seq<bool>,
    c: Seq<bool>,
)
    requires
        l.len() >= 1,
        r.len() == l.len(),
        a.len() == l.len(),
        b.len() == l.len(),
        c.len() == l.len(),
        xor_all(c) == (xor_all(a) && xor_all(b)),
    ensures
        ({
            let n = l.len();
            let d = xor_all(Seq::new(n, |i: int| l[i] != a[i]));
            let e = xor_all(Seq::new(n, |i: int| r[i] != b[i]));
            xor_all(Seq::new(n, |i: int| and_finish(a[i], b[i], c[i], d, e, i == 0))) == (xor_all(
                l,
            ) && xor_all(r))
        }),
{
    let n = l.len();
    let fl = |i: int| l[i];
    let fr = |i: int| r[i];
    let fa = |i: int| a[i];
    let fb = |i: int| b[i];
    let fc = |i: int| c[i];
    assert(Seq::new(n, fl) =~= l);
    assert(Seq::new(n, fr) =~= r);
    assert(Seq::new(n, fa) =~= a);
    assert(Seq::new(n, fb) =~= b);
    assert(Seq::new(n, fc) =~= c);
    lemma_xor_new_xor(fl, fa, n);
    lemma_xor_new_xor(fr, fb, n);
    assert(Seq::new(n, |i: int| fl(i) != fa(i)) =~= Seq::new(n, |i: int| l[i] != a[i]));
    assert(Seq::new(n, |i: int| fr(i) != fb(i)) =~= Seq::new(n, |i: int| r[i] != b[i]));
    let d = xor_all(Seq::new(n, |i: int| l[i] != a[i]));
    let e = xor_all(Seq::new(n, |i: int| r[i] != b[i]));
    let db = |i: int| d && b[i];
    let ea = |i: int| e && a[i];
    let kk = |i: int| i == 0 && (d && e);
    let q = |i: int| c[i] != db(i);
    let p = |i: int| q(i) != ea(i);
    lemma_xor_new_and(d, fb, n);
    lemma_xor_new_and(e, fa, n);
    assert(Seq::new(n, |i: int| d && fb(i)) =~= Seq::new(n, db));
    assert(Seq::new(n, |i: int| e && fa(i)) =~= Seq::new(n, ea));
    lemma_xor_new_first(d && e, n);
    assert(Seq::new(n, |i: int| i == 0 && (d && e)) =~= Seq::new(n, kk));
    lemma_xor_new_xor(fc, db, n);
    assert(Seq::new(n, |i: int| fc(i) != db(i)) =~= Seq::new(n, q));
    lemma_xor_new_xor(q, ea, n);
    assert(Seq::new(n, |i: int| q(i) != ea(i)) =~= Seq::new(n, p));
    lemma_xor_new_xor(p, kk, n);
    assert(Seq::new(n, |i: int| p(i) != kk(i)) =~= Seq::new(
        n,
        |i: int| and_finish(a[i], b[i], c[i], d, e, i == 0),
    ));
}

/// Correctness of Beaver OR among any number of parties: each party adds
/// its two input shares to its share of the Beaver AND (see
/// `lemma_beaver_and_shares`), and the XOR of the parties' outputs is the OR
/// of the input secrets.
pub proof fn lemma_beaver_or_shares(
    l: Seq<bool>,
    r: Seq<bool>,
    a: Seq<bool>,
    b: Seq<bool>,
    c: Seq<bool>,
)
    requires
        l.len() >= 1,
        r.len() == l.len(),
        a.len() == l.len(),
        b.len() == l.len(),
        c.len() == l.len(),
        xor_all(c) == (xor_all(a) && xor_all(b)),
    ensures
        ({
            let n = l.len();
            let d = xor_all(Seq::new(n, |i: int| l[i] != a[i]));
            let e = xor_all(Seq::new(n, |i: int| r[i] != b[i]));
            xor_all(
                Seq::new(
                    n,
                    |i: int| (l[i] != r[i]) != and_finish(a[i], b[i], c[i], d, e, i == 0),
                ),
            ) == (xor_all(l) || xor_all(r))
        }),
{
    let n = l.len();
    let d = xor_all(Seq::new(n, |i: int| l[i] != a[i]));
    let e = xor_all(Seq::new(n, |i: int| r[i] != b[i]));
    lemma_beaver_and_shares(l, r, a, b, c);
    let fl = |i: int| l[i];
    let fr = |i: int| r[i];
    let lr = |i: int| fl(i) != fr(i);
    let fand = |i: int| and_finish(a[i], b[i], c[i], d, e, i == 0);
    assert(Seq::new(n, fl) =~= l);
    assert(Seq::new(n, fr) =~= r);
    lemma_xor_new_xor(fl, fr, n);
    assert(Seq::new(n, |i: int| fl(i) != fr(i)) =~= Seq::new(n, lr));
    lemma_xor_new_xor(lr, fand, n);
    assert(Seq::new(n, |i: int| lr(i) != fand(i)) =~= Seq::new(
        n,
        |i: int| (l[i] != r[i]) != and_finish(a[i], b[i], c[i], d, e, i == 0),
    ));
    assert(Seq::new(n, fand) =~= Seq::new(n, |i: int| and_finish(a[i], b[i], c[i], d, e, i == 0)));
}

} // verus!
