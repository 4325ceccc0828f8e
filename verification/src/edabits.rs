//! Values shared in both domains, and conversion from Boolean to arithmetic
//! shares.
//!
//! An edaBit is a random value shared additively together with XOR-shares of
//! its bits; a daBit is a random bit shared both ways. A lone party's own
//! shares are the values themselves, so for it consistency is a property of
//! the shares it holds.
use vstd::prelude::*;
use crate::bit_ops::{BooleanOps, bits_val, lemma_xor_new_xor, round_bit, same_net, xor_all};
use crate::bits::{fe_to_bits_le, lemma_bits_val_take};
use crate::field::{Fe, fe_random, fsub, lemma_val_lt_modulus, modulus};
use crate::net::MpcNet;
use crate::share::{
    AdditiveFieldShare, fsum, lemma_fsum_reduces, lemma_zsum_cong, lemma_zsum_scale, lemma_zsum_split,
    zsum,
};
use crate::types::two_pow;

verus! {

broadcast use lemma_val_lt_modulus;

/// A random value shared additively (`arith_share`) and bit by bit
/// (`bool_shares`, least significant first).
#[derive(Clone, Debug)]
pub struct EdaBit {
    /// Additive share of the value.
    pub arith_share: AdditiveFieldShare,
    /// XOR-shares of the value's bits.
    pub bool_shares: Vec<bool>,
}

/// A random bit shared additively (0 or 1) and by XOR.
#[derive(Clone, Copy, Debug)]
pub struct DaBitPrioPlus {
    /// Additive share of the bit.
    pub arith_share: AdditiveFieldShare,
    /// XOR-share of the bit.
    pub bool_share: bool,
}

/// The additive share of a bit: one or zero.
pub open spec fn bit_value(b: bool) -> nat {
    if b {
        1
    } else {
        0
    }
}

/// A source of edaBits.
pub trait EdaBitSource {
    /// Its edaBits agree on this party's own shares: the bits denote the
    /// additive share's value modulo 2^bit_length.
    spec fn local_ok(&self) -> bool;

    /// The next edaBit with `bit_length` bits.
    fn edabit(&mut self, bit_length: usize) -> (e: EdaBit)
        requires
            bit_length <= 256,
        ensures
            final(self).local_ok() == old(self).local_ok(),
            e.bool_shares.len() == bit_length,
            old(self).local_ok() ==> bits_val(e.bool_shares@) == e.arith_share.val.val() % two_pow(
                bit_length as nat,
            ),
    ;
}

/// A source of daBits.
pub trait DaBitSource {
    /// Its daBits agree on this party's own shares.
    spec fn local_ok(&self) -> bool;

    /// The next daBit.
    fn dabit(&mut self) -> (d: DaBitPrioPlus)
        ensures
            final(self).local_ok() == old(self).local_ok(),
            old(self).local_ok() ==> d.arith_share.val.val() == bit_value(d.bool_share),
    ;
}

/// A trusted-dealer edaBit source: the king draws a random value and holds
/// it with its bits; the other parties hold zeros. Insecure; for testing.
#[derive(Clone, Copy, Debug, Default)]
pub struct DummyEdaBitSource {
    /// Whether this party is the king.
    pub king: bool,
}

/// A trusted-dealer daBit source: the king draws a random bit and holds it
/// in both forms; the other parties hold zeros. Insecure; for testing.
#[derive(Clone, Copy, Debug, Default)]
pub struct DummyDaBitSource {
    /// Whether this party is the king.
    pub king: bool,
}

impl DummyEdaBitSource {
    pub fn new(king: bool) -> (s: Self)
        ensures
            s.king == king,
    {
        DummyEdaBitSource { king }
    }
}

impl DummyDaBitSource {
    pub fn new(king: bool) -> (s: Self)
        ensures
            s.king == king,
    {
        DummyDaBitSource { king }
    }
}

/// A uniformly random bit, through `rand::random`. Nothing is promised of it.
#[verifier::external_body]
fn random_bit() -> (b: bool) {
    rand::random::<bool>()
}

impl EdaBitSource for DummyEdaBitSource {
    open spec fn local_ok(&self) -> bool {
        true
    }

    fn edabit(&mut self, bit_length: usize) -> (e: EdaBit) {
        if self.king {
            let r = fe_random();
            let all_bits = fe_to_bits_le(&r);
            let mut bits: Vec<bool> = Vec::new();
            let mut i: usize = 0;
            while i < bit_length
                invariant
                    bit_length <= 256,
                    all_bits.len() == 256,
                    i <= bit_length,
                    bits@ == all_bits@.take(i as int),
                decreases bit_length - i,
            {
                bits.push(all_bits[i]);
                proof {
                    assert(all_bits@.take(i as int + 1) =~= all_bits@.take(i as int).push(all_bits[i as int]));
                }
                i = i + 1;
            }
            proof {
                lemma_bits_val_take(all_bits@, bit_length as int);
                assert(bits_val(bits@) == r.val() % two_pow(bit_length as nat));
            }
            EdaBit { arith_share: AdditiveFieldShare::from_add_shared(r), bool_shares: bits }
        } else {
            let mut bits: Vec<bool> = Vec::new();
            let mut i: usize = 0;
            while i < bit_length
                invariant
                    i <= bit_length,
                    bits.len() == i,
                    forall|j: int| 0 <= j < i ==> !#[trigger] bits[j],
                    bits_val(bits@) == 0,
                decreases bit_length - i,
            {
                let ghost before = bits@;
                bits.push(false);
                proof {
                    crate::bit_ops::lemma_bits_val_push(before, false);
                }
                i = i + 1;
            }
            proof {
                crate::bits::lemma_two_pow_positive(bit_length as nat);
                vstd::arithmetic::div_mod::lemma_small_mod(0, two_pow(bit_length as nat));
            }
            EdaBit {
                arith_share: AdditiveFieldShare::from_add_shared(Fe::zero()),
                bool_shares: bits,
            }
        }
    }
}

impl DaBitSource for DummyDaBitSource {
    open spec fn local_ok(&self) -> bool {
        true
    }

    fn dabit(&mut self) -> (d: DaBitPrioPlus)
        ensures
            *final(self) == *old(self),
            old(self).king ==> d.arith_share.val.val() == bit_value(d.bool_share),
            !old(self).king ==> d.arith_share.val.val() == 0 && !d.bool_share,
    {
        if self.king {
            let bit = random_bit();
            let field_val = if bit {
                Fe::one()
            } else {
                Fe::zero()
            };
            DaBitPrioPlus {
                arith_share: AdditiveFieldShare::from_add_shared(field_val),
                bool_share: bit,
            }
        } else {
            DaBitPrioPlus {
                arith_share: AdditiveFieldShare::from_add_shared(Fe::zero()),
                bool_share: false,
            }
        }
    }
}

/// Boolean-to-arithmetic conversion with a daBit ([r]_p, [r]_2): opens
/// b ^ r and returns [r]_p where it is 0, and 1 - [r]_p where it is 1.
pub fn b2a<N: MpcNet>(bool_share: bool, dabit: DaBitPrioPlus, net: &mut N) -> (r:
    AdditiveFieldShare)
    ensures
        same_net(*final(net), *old(net)),
        !old(net).single_party() ==> final(net).rounds() == old(net).rounds() + 1,
        r.val.val() == b2a_finish(
            dabit.arith_share.val.val(),
            round_bit(*old(net), old(net).rounds(), bool_share != dabit.bool_share),
            old(net).king(),
        ),
        old(net).single_party() && dabit.arith_share.val.val() == bit_value(dabit.bool_share)
            ==> r.val.val() == bit_value(bool_share),
{
    let delta_share = bool_share ^ dabit.bool_share;
    let delta = BooleanOps::open_bool(delta_share, net);
    if !delta {
        dabit.arith_share
    } else {
        proof {
            if old(net).single_party() {
                old(net).lemma_single_party_is_king();
            }
        }
        let mut one_share = AdditiveFieldShare::from_public(Fe::one(), net);
        one_share.sub(&dabit.arith_share);
        one_share
    }
}


/// A party's output share of a Boolean-to-arithmetic conversion, from its
/// daBit's arithmetic share, the opened bit b ^ r and whether it is the
/// king: the daBit share where the opened bit is 0, and (1 at the king, 0
/// elsewhere) minus it where the opened bit is 1.
pub open spec fn b2a_finish(arith: nat, delta: bool, king: bool) -> nat {
    if !delta {
        arith
    } else {
        fsub(
            if king {
                1
            } else {
                0
            },
            arith,
        )
    }
}

/// Correctness of the conversion among any number of parties: party i holds
/// an XOR-share b[i] of the bit and a daBit (a[i], d[i]) whose arithmetic
/// shares add up to the bit that its Boolean shares XOR to; party 0 is the
/// king. With the opened bit XOR_i (b[i] ^ d[i]), the parties' outputs add
/// up to the bit XOR_i b[i].
pub proof fn lemma_b2a_shares(b: Seq<bool>, a: Seq<nat>, d: Seq<bool>)
    requires
        b.len() >= 1,
        a.len() == b.len(),
        d.len() == b.len(),
        fsum(a) == bit_value(xor_all(d)),
    ensures
        ({
            let n = b.len();
            let delta = xor_all(Seq::new(n, |i: int| b[i] != d[i]));
            fsum(Seq::new(n, |i: int| b2a_finish(a[i], delta, i == 0))) == bit_value(xor_all(b))
        }),
{
    let p = modulus() as int;
    let n = b.len();
    let fb = |i: int| b[i];
    let fd = |i: int| d[i];
    assert(Seq::new(n, fb) =~= b);
    assert(Seq::new(n, fd) =~= d);
    lemma_xor_new_xor(fb, fd, n);
    assert(Seq::new(n, |i: int| fb(i) != fd(i)) =~= Seq::new(n, |i: int| b[i] != d[i]));
    let delta = xor_all(Seq::new(n, |i: int| b[i] != d[i]));
    assert(delta == (xor_all(b) != xor_all(d)));
    let w = Seq::new(n, |i: int| b2a_finish(a[i], delta, i == 0));
    if !delta {
        assert(w =~= a);
    } else {
        let ai = Seq::new(a.len(), |i: int| a[i] as int);
        let zeros = Seq::new(n, |i: int| 0int);
        let wi = Seq::new(w.len(), |i: int| w[i] as int);
        let ui = Seq::new(
            n,
            |i: int|
                zeros[i] - ai[i] - zeros[i] + (if i == 0 {
                    1int
                } else {
                    0
                }),
        );
        assert forall|i: int| 0 <= i < n implies #[trigger] wi[i] % p == ui[i] % p by {
            let k: int = if i == 0 {
                1
            } else {
                0
            };
            vstd::arithmetic::div_mod::lemma_mod_twice(k - a[i], p);
            assert(ui[i] == k - a[i]);
        }
        lemma_fsum_reduces(w);
        lemma_fsum_reduces(a);
        lemma_zsum_cong(wi, ui);
        lemma_zsum_split(zeros, ai, zeros, 1);
        lemma_zsum_scale(ai, 0);
        assert(Seq::new(ai.len(), |i: int| ai[i] * 0) =~= zeros);
        assert(zsum(ui) == 1 - zsum(ai));
        let bd = bit_value(xor_all(d)) as int;
        assert(zsum(ai) % p == bd);
        vstd::arithmetic::div_mod::lemma_sub_mod_noop(1, zsum(ai), p);
        vstd::arithmetic::div_mod::lemma_small_mod(1, modulus());
        vstd::arithmetic::div_mod::lemma_sub_mod_noop(1, bd, p);
        vstd::arithmetic::div_mod::lemma_small_mod(bd as nat, modulus());
        vstd::arithmetic::div_mod::lemma_small_mod((1 - bd) as nat, modulus());
        assert((1 - zsum(ai)) % p == 1 - bd);
    }
}


/// With the trusted dealer, only the king's conversion output can be
/// nonzero, and it is a bit: the other parties hold zero daBit shares.
pub proof fn lemma_dealer_b2a(arith: nat, dbit: bool, delta: bool, king: bool)
    requires
        king ==> arith == bit_value(dbit),
        !king ==> arith == 0,
    ensures
        !king ==> b2a_finish(arith, delta, king) == 0,
        king ==> b2a_finish(arith, delta, king) == bit_value(delta != dbit),
{
    vstd::arithmetic::div_mod::lemma_small_mod(0, modulus());
    vstd::arithmetic::div_mod::lemma_small_mod(1, modulus());
}

} // verus!
