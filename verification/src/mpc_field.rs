//! Field elements that are either public or additively shared.
//!
//! `MpcField::value` is the secret a value stands for as a lone party sees it:
//! the public element, or the party's own summand (which, alone, is the whole
//! secret). Arithmetic on two public values stays public; any shared operand
//! makes the result shared.
use vstd::prelude::*;
use crate::bit_ops::{BooleanBeaverSource, BooleanOps, DummyBooleanBeaverSource, bits_val, same_net};
use crate::compare::{bit_decompose_from_opened, modulus_num_bits};
use crate::edabits::{
    DaBitSource, DummyDaBitSource, DummyEdaBitSource, EdaBitSource, b2a_finish, bit_value,
};
use crate::bit_ops::round_bits;
use crate::compare_run::{less_rounds, less_share};
use crate::field::{
    Fe, fadd, fe_add, fe_inverse, fe_mul, fe_sub, finv, fmul, fpow, fsub, is_inverse, lemma_val_lt_modulus,
    modulus,
};
use crate::net::MpcNet;
use crate::share::{
    AdditiveFieldShare, DummyFieldTripleSource, fsum, lemma_fsum_reduces, lemma_zsum_add,
    lemma_zsum_cong, lemma_zsum_sub, neq_share, zsum,
};
use crate::poly_ops::own_summand;
use crate::types::two_pow;

use crate::routing::no_zero_divisors;
use crate::fermat::lemma_fermat_indicator;

verus! {

broadcast use lemma_val_lt_modulus;

/// A public field element or this party's additive share of a secret one.
#[derive(Clone, Copy, Debug, PartialEq, Eq)]
pub enum MpcField {
    Public(Fe),
    Shared(AdditiveFieldShare),
}

impl MpcField {
    /// The value this party holds: a public value itself, or this party's
    /// own summand of a shared one. The summand is the secret only where
    /// the party runs alone; among several parties the secret is the sum of
    /// all parties' summands.
    pub open spec fn value(self) -> nat {
        match self {
            MpcField::Public(x) => x.val(),
            MpcField::Shared(s) => s.val.val(),
        }
    }

    /// A public value.
    pub fn from_public(b: Fe) -> (r: Self)
        ensures
            r == MpcField::Public(b),
    {
        MpcField::Public(b)
    }

    /// A shared value of which this party holds the summand `b`.
    pub fn from_add_shared(b: Fe) -> (r: Self)
        ensures
            r == MpcField::Shared(AdditiveFieldShare { val: b }),
    {
        MpcField::Shared(AdditiveFieldShare::from_add_shared(b))
    }

    /// Whether the value is shared.
    pub fn is_shared(&self) -> (r: bool)
        ensures
            r == (*self is Shared),
    {
        match self {
            MpcField::Shared(_) => true,
            MpcField::Public(_) => false,
        }
    }

    /// The public element, or this party's summand.
    pub fn unwrap_as_public(&self) -> (r: Fe)
        ensures
            r.val() == self.value(),
    {
        match self {
            MpcField::Shared(s) => s.unwrap_as_public(),
            MpcField::Public(x) => *x,
        }
    }

    /// The secret: the public element, or the opened share.
    pub fn revealed<N: MpcNet>(&self, net: &mut N) -> (r: Fe)
        ensures
            same_net(*final(net), *old(net)),
            *self is Public ==> r.val() == self.value(),
            old(net).single_party() ==> r.val() == self.value(),
            *self is Shared ==> r.val() == crate::share::round_value(
                *old(net),
                old(net).rounds(),
                self.value(),
            ),
            *self is Public ==> final(net).rounds() == old(net).rounds(),
            *self is Shared && !old(net).single_party() ==> final(net).rounds() == old(net).rounds()
                + 1,
    {
        match self {
            MpcField::Shared(s) => s.open(net),
            MpcField::Public(x) => *x,
        }
    }

    /// Make the value public by opening it where it is shared.
    pub fn publicize<N: MpcNet>(&mut self, net: &mut N)
        ensures
            same_net(*final(net), *old(net)),
            *final(self) is Public,
            *old(self) is Public ==> *final(self) == *old(self),
            old(net).single_party() ==> final(self).value() == old(self).value(),
    {
        match self {
            MpcField::Shared(s) => {
                let v = s.open(net);
                *self = MpcField::Public(v);
            },
            MpcField::Public(_) => {},
        }
    }

    /// Sum. The king adds a public operand into a shared one; every other
    /// party keeps its summand.
    pub fn add<N: MpcNet>(&self, other: &Self, net: &N) -> (r: Self)
        ensures
            (r is Public) == (*self is Public && *other is Public),
            (*self is Public && *other is Public) || net.single_party() ==> r.value() == fadd(
                self.value(),
                other.value(),
            ),
            !(*self is Public && *other is Public) ==> r.value() == fadd(
                if *self is Public && !net.king() {
                    0
                } else {
                    self.value()
                },
                if *other is Public && !net.king() {
                    0
                } else {
                    other.value()
                },
            ),
    {
        proof {
            if net.single_party() {
                net.lemma_single_party_is_king();
            }
            crate::field::lemma_residue(self.value());
            crate::field::lemma_residue(other.value());
        }
        match (self, other) {
            (MpcField::Public(x), MpcField::Public(y)) => MpcField::Public(fe_add(x, y)),
            (MpcField::Shared(x), MpcField::Public(y)) => {
                let mut t = *x;
                t.shift(y, net);
                MpcField::Shared(t)
            },
            (MpcField::Public(x), MpcField::Shared(y)) => {
                let mut t = *y;
                t.shift(x, net);
                proof {
                    assert(fadd(y.val.val(), x.val()) == fadd(x.val(), y.val.val()));
                }
                MpcField::Shared(t)
            },
            (MpcField::Shared(x), MpcField::Shared(y)) => {
                let mut t = *x;
                t.add(y);
                MpcField::Shared(t)
            },
        }
    }

    /// Difference. The king subtracts a public operand from a shared one;
    /// every other party keeps its summand (negated where it is the one
    /// subtracted).
    pub fn sub<N: MpcNet>(&self, other: &Self, net: &N) -> (r: Self)
        ensures
            (r is Public) == (*self is Public && *other is Public),
            (*self is Public && *other is Public) || net.single_party() ==> r.value() == fsub(
                self.value(),
                other.value(),
            ),
            !(*self is Public && *other is Public) ==> r.value() == fsub(
                if *self is Public && !net.king() {
                    0
                } else {
                    self.value()
                },
                if *other is Public && !net.king() {
                    0
                } else {
                    other.value()
                },
            ),
    {
        proof {
            if net.single_party() {
                net.lemma_single_party_is_king();
            }
            crate::field::lemma_residue(self.value());
            crate::field::lemma_residue(other.value());
        }
        match (self, other) {
            (MpcField::Public(x), MpcField::Public(y)) => MpcField::Public(fe_sub(x, y)),
            (MpcField::Shared(x), MpcField::Public(y)) => {
                let neg_y = fe_sub(&Fe::zero(), y);
                let mut t = *x;
                t.shift(&neg_y, net);
                proof {
                    lemma_add_neg(x.val.val(), y.val());
                }
                MpcField::Shared(t)
            },
            (MpcField::Public(x), MpcField::Shared(y)) => {
                let mut t = *y;
                t.neg();
                let ghost negated = t.val.val();
                t.shift(x, net);
                proof {
                    lemma_neg_add(y.val.val(), x.val());
                }
                MpcField::Shared(t)
            },
            (MpcField::Shared(x), MpcField::Shared(y)) => {
                let mut t = *x;
                t.sub(y);
                MpcField::Shared(t)
            },
        }
    }

    /// Product. A public operand scales a shared one; two shared operands
    /// are multiplied with a Beaver triple.
    pub fn mul<N: MpcNet>(&self, other: &Self, net: &mut N) -> (r: Self)
        ensures
            same_net(*final(net), *old(net)),
            (r is Public) == (*self is Public && *other is Public),
            (*self is Public && *other is Public) || old(net).single_party() ==> r.value() == fmul(
                self.value(),
                other.value(),
            ),
            !(*self is Shared && *other is Shared) ==> r.value() == fmul(self.value(), other.value()),
            !(*self is Shared && *other is Shared) ==> final(net).rounds() == old(net).rounds(),
    {
        match (self, other) {
            (MpcField::Public(x), MpcField::Public(y)) => MpcField::Public(fe_mul(x, y)),
            (MpcField::Public(x), MpcField::Shared(y)) => {
                let mut t = *y;
                t.scale(x);
                proof {
                    lemma_fmul_comm(y.val.val(), x.val());
                }
                MpcField::Shared(t)
            },
            (MpcField::Shared(x), MpcField::Public(y)) => {
                let mut t = *x;
                t.scale(y);
                MpcField::Shared(t)
            },
            (MpcField::Shared(x), MpcField::Shared(y)) => {
                let mut source = DummyFieldTripleSource::new(net.am_king());
                proof {
                    if old(net).single_party() {
                        old(net).lemma_single_party_is_king();
                    }
                }
                MpcField::Shared(x.mul(*y, &mut source, net))
            },
        }
    }

    /// Multiplicative inverse; `None` for zero.
    pub fn inv<N: MpcNet>(self, net: &mut N) -> (r: Option<Self>)
        ensures
            same_net(*final(net), *old(net)),
            r matches Some(w) ==> ((w is Public) == (self is Public)),
            self is Public || old(net).single_party() ==> (r is None <==> self.value() == 0),
            self is Public || old(net).single_party() ==> (r matches Some(w) ==> w.value() == finv(
                self.value(),
            )),
            self is Public || old(net).single_party() ==> (r matches Some(w) ==> is_inverse(
                self.value(),
                w.value(),
            )),
    {
        match self {
            MpcField::Public(x) => match fe_inverse(&x) {
                Some(w) => Some(MpcField::Public(w)),
                None => None,
            },
            MpcField::Shared(x) => {
                let mut source = DummyFieldTripleSource::new(net.am_king());
                proof {
                    if old(net).single_party() {
                        old(net).lemma_single_party_is_king();
                    }
                }
                match x.inv(&mut source, net) {
                    Some(w) => Some(MpcField::Shared(w)),
                    None => None,
                }
            },
        }
    }

    /// Quotient; `None` where the divisor is zero.
    pub fn div<N: MpcNet>(&self, other: &Self, net: &mut N) -> (r: Option<Self>)
        ensures
            same_net(*final(net), *old(net)),
            r matches Some(q) ==> ((q is Public) == (*self is Public && *other is Public)),
            (*self is Public && *other is Public) || old(net).single_party() ==> (r is None
                <==> other.value() == 0),
            (*self is Public && *other is Public) || old(net).single_party() ==> (r matches Some(
                q,
            ) ==> q.value() == fmul(self.value(), finv(other.value()))),
    {
        match other.inv(net) {
            Some(o_inv) => {
                let q = self.mul(&o_inv, net);
                Some(q)
            },
            None => None,
        }
    }

    /// The public values of a homogeneous vector (`Ok`), or its shares
    /// (`Err`, also for the empty vector).
    pub fn all_public_or_shared(v: Vec<Self>) -> (r: Result<Vec<Fe>, Vec<AdditiveFieldShare>>)
        requires
            !(exists|i: int, j: int|
                0 <= i < v.len() && 0 <= j < v.len() && v[i] is Public && v[j] is Shared),
        ensures
            r matches Ok(xs) ==> v.len() > 0 && xs.len() == v.len() && forall|i: int|
                0 <= i < v.len() ==> #[trigger] v[i] == MpcField::Public(xs[i]),
            r matches Err(ss) ==> ss.len() == v.len() && forall|i: int|
                0 <= i < v.len() ==> #[trigger] v[i] == MpcField::Shared(ss[i]),
    {
        let mut out_a: Vec<Fe> = Vec::new();
        let mut out_b: Vec<AdditiveFieldShare> = Vec::new();
        let mut i: usize = 0;
        while i < v.len()
            invariant
                i <= v.len(),
                out_a.len() + out_b.len() == i,
                out_a.len() == 0 || out_b.len() == 0,
                forall|k: int| 0 <= k < i && v[k] is Public ==> out_b.len() == 0,
                forall|k: int| 0 <= k < i && v[k] is Shared ==> out_a.len() == 0,
                out_b.len() == 0 ==> forall|k: int|
                    0 <= k < i ==> #[trigger] v[k] == MpcField::Public(out_a[k]),
                out_a.len() == 0 ==> forall|k: int|
                    0 <= k < i ==> #[trigger] v[k] == MpcField::Shared(out_b[k]),
                !(exists|p: int, q: int|
                    0 <= p < v.len() && 0 <= q < v.len() && v[p] is Public && v[q] is Shared),
            decreases v.len() - i,
        {
            match v[i] {
                MpcField::Public(x) => {
                    proof {
                        if out_b.len() > 0 {
                            assert(v[0] is Shared);
                        }
                    }
                    out_a.push(x);
                },
                MpcField::Shared(x) => {
                    proof {
                        if out_a.len() > 0 {
                            assert(v[0] is Public);
                        }
                    }
                    out_b.push(x);
                },
            }
            i = i + 1;
        }
        if out_a.len() > 0 {
            Ok(out_a)
        } else {
            Err(out_b)
        }
    }

    /// Element-wise products of two vectors: public where every operand is
    /// public, else shared, with the shared products in one batch.
    #[verifier::spinoff_prover]
    #[verifier::rlimit(30)]
    pub fn batch_mul_vec<N: MpcNet>(xs: Vec<Self>, ys: Vec<Self>, net: &mut N) -> (r: Vec<Self>)
        requires
            xs.len() == ys.len(),
        ensures
            same_net(*final(net), *old(net)),
            r.len() == xs.len(),
            (forall|i: int| 0 <= i < xs.len() ==> #[trigger] xs[i] is Public && ys[i] is Public)
                ==> forall|i: int| 0 <= i < r.len() ==> #[trigger] r[i] is Public,
            forall|i: int|
                0 <= i < r.len() && !(xs[i] is Public && ys[i] is Public) ==> #[trigger] r[i] is Shared,
            (forall|i: int| 0 <= i < xs.len() ==> #[trigger] xs[i] is Public && ys[i] is Public)
                || old(net).single_party() ==> forall|i: int|
                0 <= i < r.len() ==> #[trigger] r[i].value() == fmul(xs[i].value(), ys[i].value()),
    {
        let n = xs.len();
        let mut all_public = true;
        let mut i: usize = 0;
        while i < n
            invariant
                n == xs.len(),
                n == ys.len(),
                i <= n,
                all_public == forall|k: int| 0 <= k < i ==> #[trigger] xs[k] is Public && ys[k] is Public,
            decreases n - i,
        {
            let both = !xs[i].is_shared() && !ys[i].is_shared();
            all_public = all_public && both;
            i = i + 1;
        }
        if all_public {
            let mut out: Vec<Self> = Vec::new();
            i = 0;
            while i < n
                invariant
                    n == xs.len(),
                    n == ys.len(),
                    i <= n,
                    out.len() == i,
                    forall|k: int| 0 <= k < n ==> #[trigger] xs[k] is Public && ys[k] is Public,
                    forall|k: int| 0 <= k < i ==> #[trigger] out[k] is Public,
                    forall|k: int|
                        0 <= k < i ==> #[trigger] out[k].value() == fmul(xs[k].value(), ys[k].value()),
                decreases n - i,
            {
                let a = xs[i].unwrap_as_public();
                let b = ys[i].unwrap_as_public();
                out.push(MpcField::Public(fe_mul(&a, &b)));
                i = i + 1;
            }
            return out;
        }
        let mut x_shares: Vec<AdditiveFieldShare> = Vec::new();
        let mut y_shares: Vec<AdditiveFieldShare> = Vec::new();
        proof {
            if net.single_party() {
                net.lemma_single_party_is_king();
            }
        }
        i = 0;
        while i < n
            invariant
                n == xs.len(),
                n == ys.len(),
                i <= n,
                x_shares.len() == i,
                y_shares.len() == i,
                net.single_party() ==> net.king(),
                net.single_party() ==> forall|k: int|
                    0 <= k < i ==> #[trigger] x_shares[k].val.val() == xs[k].value(),
                net.single_party() ==> forall|k: int|
                    0 <= k < i ==> #[trigger] y_shares[k].val.val() == ys[k].value(),
            decreases n - i,
        {
            proof {
                if net.single_party() {
                    net.lemma_single_party_is_king();
                }
            }
            let xs_i = xs[i].to_share(net);
            let ys_i = ys[i].to_share(net);
            proof {
                if net.single_party() {
                    assert(xs_i.val.val() == xs[i as int].value());
                    assert(ys_i.val.val() == ys[i as int].value());
                }
            }
            let ghost before_x = x_shares@;
            let ghost before_y = y_shares@;
            x_shares.push(xs_i);
            y_shares.push(ys_i);
            proof {
                if net.single_party() {
                    assert forall|k: int| 0 <= k < i + 1 implies #[trigger] x_shares[k].val.val()
                        == xs[k].value() by {
                        if k < i {
                            assert(x_shares[k] == before_x[k]);
                            assert(before_x[k].val.val() == xs[k].value());
                        }
                    }
                    assert forall|k: int| 0 <= k < i + 1 implies #[trigger] y_shares[k].val.val()
                        == ys[k].value() by {
                        if k < i {
                            assert(y_shares[k] == before_y[k]);
                            assert(before_y[k].val.val() == ys[k].value());
                        }
                    }
                }
            }
            i = i + 1;
        }
        proof {
            if old(net).single_party() {
                old(net).lemma_single_party_is_king();
            }
        }
        let mut source = DummyFieldTripleSource::new(net.am_king());
        let products = AdditiveFieldShare::batch_mul(x_shares, y_shares, &mut source, net);
        let mut out: Vec<Self> = Vec::new();
        i = 0;
        while i < n
            invariant
                n == xs.len(),
                products.len() == n,
                i <= n,
                out.len() == i,
                forall|k: int| 0 <= k < i ==> #[trigger] out[k] == MpcField::Shared(products[k]),
            decreases n - i,
        {
            out.push(MpcField::Shared(products[i]));
            i = i + 1;
        }
        out
    }
}

impl MpcField {
    /// This party's share of the value: its own, or the king's sharing of a
    /// public one.
    pub fn to_share<N: MpcNet>(&self, net: &N) -> (s: AdditiveFieldShare)
        ensures
            *self is Shared ==> *self == MpcField::Shared(s),
            *self is Public ==> s.val.val() == (if net.king() {
                self.value()
            } else {
                0
            }),
            net.single_party() ==> s.val.val() == self.value(),
    {
        proof {
            if net.single_party() {
                net.lemma_single_party_is_king();
            }
        }
        match self {
            MpcField::Public(x) => AdditiveFieldShare::from_public(*x, net),
            MpcField::Shared(s) => *s,
        }
    }

    /// The less-than bit: one iff self < other as integers below the modulus.
    /// Public for two public operands, else shared.
    pub fn secure_cmp<N: MpcNet>(&self, other: &Self, net: &mut N) -> (r: Self)
        ensures
            same_net(*final(net), *old(net)),
            (r is Public) == (*self is Public && *other is Public),
            (*self is Public && *other is Public) || old(net).single_party() ==> r.value()
                == bit_value(self.value() < other.value()),
            r.value() <= 1,
            !(*self is Public && *other is Public) && !old(net).king() ==> r.value() == 0,
    {
        match (self, other) {
            (MpcField::Public(x), MpcField::Public(y)) => {
                if x.lt(y) {
                    MpcField::Public(Fe::one())
                } else {
                    MpcField::Public(Fe::zero())
                }
            },
            _ => {
                let xs = self.to_share(net);
                let ys = other.to_share(net);
                MpcField::Shared(xs.secure_cmp(&ys, net))
            },
        }
    }

    /// Pairwise less-than bits. All public pairs give public bits; otherwise
    /// every operand is shared and the comparisons run in one batch.
    pub fn batch_secure_cmp<N: MpcNet>(pairs: &[(Self, Self)], net: &mut N) -> (r: Vec<Self>)
        ensures
            same_net(*final(net), *old(net)),
            r.len() == pairs.len(),
            (forall|i: int| 0 <= i < pairs.len() ==> #[trigger] pairs[i].0 is Public && pairs[i].1 is Public)
                ==> forall|i: int| 0 <= i < r.len() ==> #[trigger] r[i] is Public,
            (forall|i: int| 0 <= i < pairs.len() ==> #[trigger] pairs[i].0 is Public && pairs[i].1 is Public)
                || old(net).single_party() ==> forall|i: int|
                0 <= i < r.len() ==> #[trigger] r[i].value() == bit_value(
                    pairs[i].0.value() < pairs[i].1.value(),
                ),
    {
        let n = pairs.len();
        let mut all_public = true;
        let mut i: usize = 0;
        while i < n
            invariant
                n == pairs.len(),
                i <= n,
                all_public == forall|k: int| 0 <= k < i ==> #[trigger] pairs[k].0 is Public && pairs[k].1 is Public,
            decreases n - i,
        {
            let both = !pairs[i].0.is_shared() && !pairs[i].1.is_shared();
            all_public = all_public && both;
            i = i + 1;
        }
        let mut out: Vec<Self> = Vec::new();
        if all_public {
            i = 0;
            while i < n
                invariant
                    n == pairs.len(),
                    i <= n,
                    out.len() == i,
                    forall|k: int| 0 <= k < n ==> #[trigger] pairs[k].0 is Public && pairs[k].1 is Public,
                    forall|k: int| 0 <= k < i ==> #[trigger] out[k] is Public,
                    forall|k: int|
                        0 <= k < i ==> #[trigger] out[k].value() == bit_value(
                            pairs[k].0.value() < pairs[k].1.value(),
                        ),
                decreases n - i,
            {
                let x = pairs[i].0.unwrap_as_public();
                let y = pairs[i].1.unwrap_as_public();
                if x.lt(&y) {
                    out.push(MpcField::Public(Fe::one()));
                } else {
                    out.push(MpcField::Public(Fe::zero()));
                }
                i = i + 1;
            }
            return out;
        }
        let mut left_shares: Vec<AdditiveFieldShare> = Vec::new();
        let mut right_shares: Vec<AdditiveFieldShare> = Vec::new();
        i = 0;
        while i < n
            invariant
                n == pairs.len(),
                i <= n,
                left_shares.len() == i,
                right_shares.len() == i,
                net.single_party() ==> forall|k: int|
                    0 <= k < i ==> #[trigger] left_shares[k].val.val() == pairs[k].0.value(),
                net.single_party() ==> forall|k: int|
                    0 <= k < i ==> #[trigger] right_shares[k].val.val() == pairs[k].1.value(),
            decreases n - i,
        {
            let ls = pairs[i].0.to_share(net);
            let rs = pairs[i].1.to_share(net);

            let ghost before_l = left_shares@;
            let ghost before_r = right_shares@;
            left_shares.push(ls);
            right_shares.push(rs);
            proof {
                if net.single_party() {
                    assert forall|k: int| 0 <= k < i + 1 implies #[trigger] left_shares[k].val.val()
                        == pairs[k].0.value() by {
                        if k < i {
                            assert(left_shares[k] == before_l[k]);
                            assert(before_l[k].val.val() == pairs[k].0.value());
                        }
                    }
                    assert forall|k: int| 0 <= k < i + 1 implies #[trigger] right_shares[k].val.val()
                        == pairs[k].1.value() by {
                        if k < i {
                            assert(right_shares[k] == before_r[k]);
                            assert(before_r[k].val.val() == pairs[k].1.value());
                        }
                    }
                }
            }
            i = i + 1;
        }
        let result_shares = AdditiveFieldShare::batch_secure_cmp(
            left_shares.as_slice(),
            right_shares.as_slice(),
            net,
        );
        i = 0;
        while i < n
            invariant
                n == pairs.len(),
                result_shares.len() == n,
                i <= n,
                out.len() == i,
                forall|k: int| 0 <= k < i ==> #[trigger] out[k] == MpcField::Shared(result_shares[k]),
            decreases n - i,
        {
            out.push(MpcField::Shared(result_shares[i]));
            i = i + 1;
        }
        out
    }

    /// The inequality indicator: for public operands one where they differ
    /// and zero where equal; for shared ones (a - b)^(p-1).
    pub fn secure_neq<N: MpcNet>(&self, other: &Self, net: &mut N) -> (r: Self)
        ensures
            same_net(*final(net), *old(net)),
            (r is Public) == (*self is Public && *other is Public),
            (*self is Public && *other is Public) ==> r.value() == (if self.value()
                == other.value() {
                0nat
            } else {
                1nat
            }),
            !(*self is Public && *other is Public) && old(net).single_party() ==> r.value() == fmul(
                fsub(self.value(), other.value()),
                fpow(fsub(self.value(), other.value()), (modulus() - 2) as nat),
            ),
            old(net).single_party() && self.value() == other.value() ==> r.value() == 0,
            old(net).single_party() && no_zero_divisors() ==> r.value() == (if self.value()
                == other.value() {
                0nat
            } else {
                1nat
            }),
            !(*self is Public && *other is Public) && !old(net).single_party() ==> r.value()
                == neq_party(*self, *other, *old(net)),
    {
        proof {
            if old(net).single_party() && no_zero_divisors() {
                lemma_fermat_indicator(self.value(), other.value());
            }
        }
        match (self, other) {
            (MpcField::Public(x), MpcField::Public(y)) => {
                if x.eq(y) {
                    MpcField::Public(Fe::zero())
                } else {
                    MpcField::Public(Fe::one())
                }
            },
            _ => {
                proof {
                    if old(net).single_party() {
                        old(net).lemma_single_party_is_king();
                    }
                }
                let xs = self.to_share(net);
                let ys = other.to_share(net);
                let mut source = DummyFieldTripleSource::new(net.am_king());
                MpcField::Shared(xs.secure_neq(&ys, &mut source, net))
            },
        }
    }

    /// The equality indicator: one minus `secure_neq`.
    #[verifier::spinoff_prover]
    #[verifier::rlimit(40)]
    pub fn secure_eq<N: MpcNet>(&self, other: &Self, net: &mut N) -> (r: Self)
        ensures
            same_net(*final(net), *old(net)),
            (r is Public) == (*self is Public && *other is Public),
            (*self is Public && *other is Public) ==> r.value() == (if self.value()
                == other.value() {
                1nat
            } else {
                0nat
            }),
            !(*self is Public && *other is Public) && old(net).single_party() ==> r.value() == fsub(
                1,
                fmul(
                    fsub(self.value(), other.value()),
                    fpow(fsub(self.value(), other.value()), (modulus() - 2) as nat),
                ),
            ),
            old(net).single_party() && self.value() == other.value() ==> r.value() == 1,
            old(net).single_party() && no_zero_divisors() ==> r.value() == (if self.value()
                == other.value() {
                1nat
            } else {
                0nat
            }),
            !(*self is Public && *other is Public) && !old(net).single_party() ==> r.value()
                == fsub(
                if old(net).king() {
                    1nat
                } else {
                    0nat
                },
                neq_party(*self, *other, *old(net)),
            ),
    {
        proof {
            if old(net).single_party() && no_zero_divisors() {
                lemma_fermat_indicator(self.value(), other.value());
            }
        }
        let neq = self.secure_neq(other, net);
        match neq {
            MpcField::Public(x) => MpcField::Public(fe_sub(&Fe::one(), &x)),
            MpcField::Shared(x) => {
                proof {
                    if old(net).single_party() {
                        old(net).lemma_single_party_is_king();
                    }
                }
                let mut one_share = AdditiveFieldShare::from_public(Fe::one(), net);
                one_share.sub(&x);
                MpcField::Shared(one_share)
            },
        }
    }

    /// The shared bits (least significant first, as many as the modulus has)
    /// of every value, with all masked values opened in one batch.
    pub fn batch_bit_decompose_bool<N: MpcNet>(values: &[Self], net: &mut N) -> (r: Vec<
        Vec<bool>,
    >)
        ensures
            same_net(*final(net), *old(net)),
            r.len() == values.len(),
            forall|i: int| 0 <= i < r.len() ==> (#[trigger] r[i]).len() == 253,
            old(net).single_party() ==> forall|i: int|
                0 <= i < r.len() ==> bits_val((#[trigger] r[i])@) == values[i].value(),
    {
        let n = values.len();
        let bit_length = modulus_num_bits();
        let ghost net0 = *old(net);
        let ghost sp = net0.single_party();
        let mut eda_source = DummyEdaBitSource::new(net.am_king());
        let mut masks: Vec<Vec<bool>> = Vec::new();
        let mut c_shares: Vec<AdditiveFieldShare> = Vec::new();
        let mut i: usize = 0;
        while i < n
            invariant
                n == values.len(),
                bit_length == 253,
                modulus() < two_pow(253),
                i <= n,
                masks.len() == i,
                c_shares.len() == i,
                eda_source.local_ok(),
                same_net(*net, net0),
                sp == net0.single_party(),
                forall|j: int| 0 <= j < i ==> (#[trigger] masks[j]).len() == 253,
                forall|j: int| 0 <= j < i ==> bits_val((#[trigger] masks[j])@) < modulus(),
                sp ==> forall|j: int|
                    0 <= j < i ==> #[trigger] c_shares[j].val.val() == fsub(
                        values[j].value(),
                        bits_val(masks[j]@),
                    ),
            decreases n - i,
        {
            let edabit = eda_source.edabit(bit_length);
            let mut c_share = values[i].to_share(net);
            proof {
                vstd::arithmetic::div_mod::lemma_small_mod(
                    edabit.arith_share.val.val(),
                    two_pow(253),
                );
            }
            c_share.sub(&edabit.arith_share);
            let ghost before_c = c_shares@;
            let ghost before_m = masks@;
            c_shares.push(c_share);
            masks.push(edabit.bool_shares);
            proof {
                if sp {
                    assert forall|j: int| 0 <= j < i + 1 implies #[trigger] c_shares[j].val.val()
                        == fsub(values[j].value(), bits_val(masks[j]@)) by {
                        if j < i {
                            assert(c_shares[j] == before_c[j] && masks[j] == before_m[j]);
                            assert(before_c[j].val.val() == fsub(
                                values[j].value(),
                                bits_val(before_m[j]@),
                            ));
                        }
                    }
                }
            }
            i = i + 1;
        }
        let c_values = AdditiveFieldShare::batch_open(c_shares.as_slice(), net);
        let mut out: Vec<Vec<bool>> = Vec::new();
        i = 0;
        while i < n
            invariant
                n == values.len(),
                bit_length == 253,
                masks.len() == n,
                c_shares.len() == n,
                c_values.len() == n,
                i <= n,
                out.len() == i,
                same_net(*net, net0),
                sp == net0.single_party(),
                forall|j: int| 0 <= j < n ==> (#[trigger] masks[j]).len() == 253,
                forall|j: int| 0 <= j < n ==> bits_val((#[trigger] masks[j])@) < modulus(),
                sp ==> forall|j: int|
                    0 <= j < n ==> #[trigger] c_shares[j].val.val() == fsub(
                        values[j].value(),
                        bits_val(masks[j]@),
                    ),
                sp ==> forall|j: int| 0 <= j < n ==> #[trigger] c_values[j] == c_shares[j].val,
                forall|j: int| 0 <= j < i ==> (#[trigger] out[j]).len() == 253,
                sp ==> forall|j: int| 0 <= j < i ==> bits_val((#[trigger] out[j])@) == values[j].value(),
            decreases n - i,
        {
            let bits = bit_decompose_from_opened(
                &c_values[i],
                masks[i].as_slice(),
                bit_length,
                net,
            );
            proof {
                if sp {
                    lemma_add_back_value(values[i as int].value(), bits_val(masks[i as int]@));
                }
            }
            out.push(bits);
            i = i + 1;
        }
        out
    }

    /// Pairwise less-than bits of precomputed bit vectors, as XOR-shares.
    pub fn batch_compare_bits<N: MpcNet>(
        left_bits: &[Vec<bool>],
        right_bits: &[Vec<bool>],
        net: &mut N,
    ) -> (r: Vec<bool>)
        requires
            left_bits.len() == right_bits.len(),
            forall|i: int|
                0 <= i < left_bits.len() ==> (#[trigger] left_bits[i]).len() == right_bits[i].len()
                    && left_bits[i].len() >= 1,
        ensures
            same_net(*final(net), *old(net)),
            r.len() == left_bits.len(),
            old(net).single_party() ==> forall|i: int|
                0 <= i < r.len() ==> #[trigger] r[i] == (bits_val(left_bits[i]@) < bits_val(
                    right_bits[i]@,
                )),
            !old(net).single_party() ==> exists|nets: Seq<N>|
                #[trigger] less_runs(bit_views(left_bits@), bit_views(right_bits@), *old(net), nets, r@),
    {
        let n = left_bits.len();
        let ghost net0 = *old(net);
        let ghost ls = bit_views(left_bits@);
        let ghost rs = bit_views(right_bits@);
        let ghost mut nets: Seq<N> = Seq::empty();
        let king = net.am_king();
        let mut out: Vec<bool> = Vec::new();
        let mut i: usize = 0;
        while i < n
            invariant
                n == left_bits.len(),
                n == right_bits.len(),
                forall|k: int|
                    0 <= k < n ==> (#[trigger] left_bits[k]).len() == right_bits[k].len()
                        && left_bits[k].len() >= 1,
                i <= n,
                out.len() == i,
                same_net(*net, net0),
                king == net0.king(),
                ls == bit_views(left_bits@),
                rs == bit_views(right_bits@),
                !net0.single_party() ==> less_runs_upto(ls, rs, net0, nets, out@, i as nat),
                !net0.single_party() ==> net.rounds() == next_round(ls, net0, nets, i as nat),
                net0.single_party() ==> forall|k: int|
                    0 <= k < i ==> #[trigger] out[k] == (bits_val(left_bits[k]@) < bits_val(
                        right_bits[k]@,
                    )),
            decreases n - i,
        {
            let ghost net_i = *net;
            let ghost prev = out@;
            let mut source = DummyBooleanBeaverSource::new(king);
            let b = BooleanOps::compare_bits_bool(
                left_bits[i].as_slice(),
                right_bits[i].as_slice(),
                &mut source,
                net,
            );
            out.push(b);
            proof {
                if !net0.single_party() {
                    assert(ls[i as int] == left_bits[i as int]@);
                    assert(rs[i as int] == right_bits[i as int]@);
                    let old_nets = nets;
                    assert(less_runs_upto(ls, rs, net0, old_nets, prev, i as nat));
                    nets = nets.push(net_i);
                    assert(nets.drop_last() =~= old_nets);
                    assert forall|q: int| 0 <= q < i + 1 implies #[trigger] less_run_at(
                        ls,
                        rs,
                        net0,
                        nets,
                        out@,
                        q,
                    ) by {
                        if q < i {
                            assert(less_run_at(ls, rs, net0, nets.drop_last(), prev, q));
                            assert(nets[q] == nets.drop_last()[q]);
                            if q > 0 {
                                assert(nets[q - 1] == nets.drop_last()[q - 1]);
                            }
                        } else if q > 0 {
                            assert(nets[q - 1] == nets.drop_last()[q - 1]);
                        }
                    }
                }
            }
            i = i + 1;
        }
        proof {
            if !net0.single_party() {
                assert(less_runs(ls, rs, net0, nets, out@));
            }
        }
        out
    }

    /// Boolean-to-arithmetic conversion of many XOR-shared bits with one
    /// opening round: shared values that are one or zero.
    pub fn batch_b2a_bool<N: MpcNet>(bool_shares: &[bool], net: &mut N) -> (r: Vec<Self>)
        ensures
            same_net(*final(net), *old(net)),
            r.len() == bool_shares.len(),
            forall|i: int| 0 <= i < r.len() ==> #[trigger] r[i] is Shared,
            old(net).single_party() ==> forall|i: int|
                0 <= i < r.len() ==> #[trigger] r[i].value() == bit_value(bool_shares[i]),
            exists|ds: Seq<bool>| #[trigger]
                b2a_outputs(bool_shares@, ds, *old(net), values_of_shared(r@)),
    {
        let n = bool_shares.len();
        let ghost net0 = *old(net);
        let ghost sp = net0.single_party();
        proof {
            if sp {
                net0.lemma_single_party_is_king();
            }
        }
        let mut source = DummyDaBitSource::new(net.am_king());
        let mut dabits: Vec<crate::edabits::DaBitPrioPlus> = Vec::new();
        let mut deltas: Vec<bool> = Vec::new();
        let ghost mut dbits: Seq<bool> = Seq::empty();
        let mut i: usize = 0;
        while i < n
            invariant
                n == bool_shares.len(),
                i <= n,
                dabits.len() == i,
                deltas.len() == i,
                source.local_ok(),
                source.king == net0.king(),
                dbits.len() == i,
                forall|k: int| 0 <= k < i ==> #[trigger] dbits[k] == dabits[k].bool_share,
                !net0.king() ==> forall|k: int| 0 <= k < i ==> !#[trigger] dbits[k],
                forall|k: int|
                    0 <= k < i ==> #[trigger] dabits[k].arith_share.val.val() == bit_value(
                        dabits[k].bool_share,
                    ),
                forall|k: int|
                    0 <= k < i ==> #[trigger] deltas[k] == (bool_shares[k] != dabits[k].bool_share),
            decreases n - i,
        {
            let ghost prev = dabits@;
            assert forall|k: int| 0 <= k < i implies #[trigger] prev[k].arith_share.val.val()
                == bit_value(prev[k].bool_share) by {
                assert(prev[k] == dabits[k]);
                assert(dabits[k].arith_share.val.val() == bit_value(dabits[k].bool_share));
            }
            let d = source.dabit();
            deltas.push(bool_shares[i] ^ d.bool_share);
            dabits.push(d);
            proof {
                dbits = dbits.push(d.bool_share);
                assert forall|k: int| 0 <= k < i + 1 implies #[trigger] dabits[k].arith_share.val.val()
                    == bit_value(dabits[k].bool_share) by {
                    if k < i {
                        assert(dabits[k] == prev[k]);
                        assert(prev[k].arith_share.val.val() == bit_value(prev[k].bool_share));
                    } else {
                        assert(dabits[k] == d);
                        assert(d.arith_share.val.val() == bit_value(d.bool_share));
                    }
                }
            }
            i = i + 1;
        }
        proof {
            assert(deltas@ =~= masked_with(bool_shares@, dbits));
        }
        let opened = BooleanOps::batch_open_bool(deltas.as_slice(), net);
        let mut out: Vec<Self> = Vec::new();
        i = 0;
        while i < n
            invariant
                n == bool_shares.len(),
                dabits.len() == n,
                deltas.len() == n,
                opened.len() == n,
                i <= n,
                out.len() == i,
                same_net(*net, net0),
                sp == net0.single_party(),
                sp ==> net0.king(),
                forall|k: int|
                    0 <= k < n ==> #[trigger] dabits[k].arith_share.val.val() == bit_value(
                        dabits[k].bool_share,
                    ),
                forall|k: int|
                    0 <= k < n ==> #[trigger] deltas[k] == (bool_shares[k] != dabits[k].bool_share),
                sp ==> opened@ == deltas@,
                forall|k: int| 0 <= k < i ==> #[trigger] out[k] is Shared,
                sp ==> forall|k: int|
                    0 <= k < i ==> #[trigger] out[k].value() == bit_value(bool_shares[k]),
                dbits.len() == n,
                forall|k: int| 0 <= k < n ==> #[trigger] dbits[k] == dabits[k].bool_share,
                !net0.king() ==> forall|k: int| 0 <= k < n ==> !#[trigger] dbits[k],
                opened@ == round_bits(net0, net0.rounds(), masked_with(bool_shares@, dbits)),
                forall|k: int|
                    0 <= k < i ==> #[trigger] out[k].value() == b2a_finish(
                        bit_value(dbits[k]),
                        opened[k],
                        net0.king(),
                    ),
            decreases n - i,
        {
            let d = dabits[i];
            if !opened[i] {
                out.push(MpcField::Shared(d.arith_share));
            } else {
                let mut one_share = AdditiveFieldShare::from_public(Fe::one(), net);
                one_share.sub(&d.arith_share);
                out.push(MpcField::Shared(one_share));
            }
            proof {
                if sp {
                    assert(opened[i as int] == deltas[i as int]);
                }
            }
            i = i + 1;
        }
        proof {
            assert(b2a_outputs(bool_shares@, dbits, net0, values_of_shared(out@)));
        }
        out
    }
}

/// (v - r) + r = v in the field.
proof fn lemma_add_back_value(v: nat, r: nat)
    requires
        v < modulus(),
        r < modulus(),
    ensures
        fadd(fsub(v, r), r) == v,
{
    crate::field::lemma_residue(v);
    crate::field::lemma_residue(r);
    crate::field::lemma_fsub_cong(v as int, r as int, v, r);
    crate::field::lemma_fadd_cong(v - r, r as int, fsub(v, r), r);
}

proof fn lemma_fmul_comm(a: nat, b: nat)
    ensures
        fmul(a, b) == fmul(b, a),
{
    assert(a * b == b * a) by (nonlinear_arith);
}

/// a + (0 - b) = a - b in the field.
proof fn lemma_add_neg(a: nat, b: nat)
    requires
        a < crate::field::modulus(),
        b < crate::field::modulus(),
    ensures
        fadd(a, fsub(0, b)) == fsub(a, b),
{
    crate::field::lemma_residue(a);
    crate::field::lemma_residue(b);
    crate::field::lemma_fsub_cong(0, b as int, 0, b);
    crate::field::lemma_fadd_cong(a as int, 0 - b, a, fsub(0, b));
    crate::field::lemma_fsub_cong(a as int, b as int, a, b);
}

/// (0 - b) + a = a - b in the field.
proof fn lemma_neg_add(b: nat, a: nat)
    requires
        a < crate::field::modulus(),
        b < crate::field::modulus(),
    ensures
        fadd(fsub(0, b), a) == fsub(a, b),
{
    crate::field::lemma_residue(a);
    crate::field::lemma_residue(b);
    crate::field::lemma_fsub_cong(0, b as int, 0, b);
    crate::field::lemma_fadd_cong(0 - b, a as int, fsub(0, b), a);
    crate::field::lemma_fsub_cong(a as int, b as int, a, b);
}

/// The bit vectors of a vector of bit vectors.
pub open spec fn bit_views(v: Seq<Vec<bool>>) -> Seq<Seq<bool>> {
    Seq::new(v.len(), |i: int| v[i]@)
}

/// The round at which comparison q of a batch starts: the batch's first
/// round for the first, else where comparison q - 1 started plus the
/// rounds of a comparison of its width.
pub open spec fn next_round<N: MpcNet>(ls: Seq<Seq<bool>>, net0: N, nets: Seq<N>, q: nat) -> nat {
    if q == 0 {
        net0.rounds()
    } else {
        nets[q - 1].rounds() + less_rounds(ls[q - 1].len())
    }
}

/// Comparison q of a batch at a party: it runs on the network from the
/// round where it starts, with the dummy dealer of the party, and its
/// output is the party's share of the less-than bit (`less_share`).
pub open spec fn less_run_at<N: MpcNet>(
    ls: Seq<Seq<bool>>,
    rs: Seq<Seq<bool>>,
    net0: N,
    nets: Seq<N>,
    out: Seq<bool>,
    q: int,
) -> bool {
    &&& same_net(nets[q], net0)
    &&& nets[q].rounds() == next_round(ls, net0, nets, q as nat)
    &&& out[q] == less_share(ls[q], rs[q], DummyBooleanBeaverSource { king: net0.king() }, nets[q])
}

/// The first i comparisons of a batch at a party.
pub open spec fn less_runs_upto<N: MpcNet>(
    ls: Seq<Seq<bool>>,
    rs: Seq<Seq<bool>>,
    net0: N,
    nets: Seq<N>,
    out: Seq<bool>,
    i: nat,
) -> bool {
    &&& nets.len() == i
    &&& out.len() == i
    &&& forall|q: int| 0 <= q < i ==> #[trigger] less_run_at(ls, rs, net0, nets, out, q)
}

/// A batch of comparisons at a party, one after the other on the network
/// from `net0` on: output q is the party's share of the less-than bit of
/// comparison q.
pub open spec fn less_runs<N: MpcNet>(
    ls: Seq<Seq<bool>>,
    rs: Seq<Seq<bool>>,
    net0: N,
    nets: Seq<N>,
    out: Seq<bool>,
) -> bool {
    less_runs_upto(ls, rs, net0, nets, out, ls.len())
}

/// The values of a party's shared results.
pub open spec fn values_of_shared(v: Seq<MpcField>) -> Seq<nat> {
    Seq::new(v.len(), |i: int| v[i].value())
}

/// Each bit XOR its mask bit.
pub open spec fn masked_with(b: Seq<bool>, d: Seq<bool>) -> Seq<bool> {
    Seq::new(b.len(), |k: int| b[k] != d[k])
}

/// A party's outputs of converting its XOR-shares `b` with daBits whose
/// Boolean shares are `ds` (the king's drawn at random, every other party's
/// zero) and whose arithmetic shares denote the same bits: the masked bits
/// are opened in one round, and output i is `b2a_finish` of the daBit's
/// arithmetic share and the opened bit i.
pub open spec fn b2a_outputs<N: MpcNet>(b: Seq<bool>, ds: Seq<bool>, net: N, out: Seq<nat>) -> bool {
    &&& ds.len() == b.len()
    &&& out.len() == b.len()
    &&& !net.king() ==> forall|k: int| 0 <= k < ds.len() ==> !#[trigger] ds[k]
    &&& forall|k: int|
        0 <= k < out.len() ==> #[trigger] out[k] == b2a_finish(
            bit_value(ds[k]),
            round_bits(net, net.rounds(), masked_with(b, ds))[k],
            net.king(),
        )
}

/// A party's summand of the inequality indicator of two values not both
/// public: the indicator of its own summands, with the triples of a party
/// that is (or is not) the king.
pub open spec fn neq_party<N: MpcNet>(a: MpcField, b: MpcField, net: N) -> nat {
    neq_share(
        own_summand(a, net.king()),
        own_summand(b, net.king()),
        DummyFieldTripleSource { king: net.king() },
        net,
    )
}

/// The constant one as the parties hold it: one at the king, party 0, and
/// zero elsewhere.
pub open spec fn king_one(n: nat) -> Seq<nat> {
    Seq::new(n, |i: int| if i == 0 {
        1nat
    } else {
        0nat
    })
}

/// The king's one and the others' zeros add up to one.
pub proof fn lemma_king_one_sum(n: nat)
    requires
        n >= 1,
    ensures
        fsum(king_one(n)) == 1,
    decreases n,
{
    crate::field::lemma_residue(1);
    if n == 1 {
        assert(king_one(1).drop_last() =~= Seq::<nat>::empty());
        assert(king_one(1).last() == 1);
        assert(fsum(king_one(1)) == fadd(fsum(Seq::<nat>::empty()), 1));
    } else {
        lemma_king_one_sum((n - 1) as nat);
        assert(king_one(n).drop_last() =~= king_one((n - 1) as nat));
        assert(king_one(n).last() == 0);
        assert(fsum(king_one(n)) == fadd(1, 0));
    }
}

/// Among any number of parties with a shared operand, the outputs of
/// `secure_eq` add up to one minus what the outputs of `secure_neq` add up
/// to: party i's output of `secure_eq` is the king's one (zero elsewhere)
/// minus its output `neqs[i]` of `secure_neq`.
pub proof fn lemma_eq_shares(neqs: Seq<nat>)
    requires
        neqs.len() >= 1,
    ensures
        fsum(
            Seq::new(
                neqs.len(),
                |i: int|
                    fsub(
                        if i == 0 {
                            1nat
                        } else {
                            0nat
                        },
                        neqs[i],
                    ),
            ),
        ) == fsub(1, fsum(neqs)),
{
    let n = neqs.len();
    let ones = king_one(n);
    lemma_sub_shares(ones, neqs);
    lemma_king_one_sum(n);
    assert(Seq::new(n, |i: int| fsub(ones[i], neqs[i])) =~= Seq::new(
        n,
        |i: int|
            fsub(
                if i == 0 {
                    1nat
                } else {
                    0nat
                },
                neqs[i],
            ),
    ));
}

/// Among any number of parties the outputs of `add` add up to the sum of the
/// operands: party i's output is the field sum of a[i] and b[i], what it
/// holds of each operand (its summand of a shared one; of a public one, the
/// value at the king and zero elsewhere), and the parties' outputs sum to
/// the sum of the a's plus the sum of the b's.
pub proof fn lemma_add_shares(a: Seq<nat>, b: Seq<nat>)
    requires
        a.len() == b.len(),
    ensures
        fsum(Seq::new(a.len(), |i: int| fadd(a[i], b[i]))) == fadd(fsum(a), fsum(b)),
{
    let p = crate::field::modulus() as int;
    let n = a.len();
    let u = Seq::new(n, |i: int| fadd(a[i], b[i]));
    let ui = Seq::new(n, |i: int| u[i] as int);
    let ai = Seq::new(n, |i: int| a[i] as int);
    let bi = Seq::new(n, |i: int| b[i] as int);
    let abi = Seq::new(n, |i: int| ai[i] + bi[i]);
    lemma_fsum_reduces(u);
    lemma_fsum_reduces(a);
    lemma_fsum_reduces(b);
    assert forall|i: int| 0 <= i < n implies #[trigger] ui[i] % p == abi[i] % p by {
        vstd::arithmetic::div_mod::lemma_mod_twice(ai[i] + bi[i], p);
    }
    lemma_zsum_cong(ui, abi);
    lemma_zsum_add(ai, bi);
    assert(Seq::new(ai.len(), |i: int| ai[i] + bi[i]) =~= abi);
    vstd::arithmetic::div_mod::lemma_add_mod_noop(zsum(ai), zsum(bi), p);
}

/// Among any number of parties the outputs of `sub` add up to the
/// difference of the operands: party i's output is the field difference of
/// a[i] and b[i], what it holds of each operand (as for `add`), and the
/// parties' outputs sum to the sum of the a's minus the sum of the b's.
pub proof fn lemma_sub_shares(a: Seq<nat>, b: Seq<nat>)
    requires
        a.len() == b.len(),
    ensures
        fsum(Seq::new(a.len(), |i: int| fsub(a[i], b[i]))) == fsub(fsum(a), fsum(b)),
{
    let p = crate::field::modulus() as int;
    let n = a.len();
    let u = Seq::new(n, |i: int| fsub(a[i], b[i]));
    let ui = Seq::new(n, |i: int| u[i] as int);
    let ai = Seq::new(n, |i: int| a[i] as int);
    let bi = Seq::new(n, |i: int| b[i] as int);
    let abi = Seq::new(n, |i: int| ai[i] - bi[i]);
    lemma_fsum_reduces(u);
    lemma_fsum_reduces(a);
    lemma_fsum_reduces(b);
    assert forall|i: int| 0 <= i < n implies #[trigger] ui[i] % p == abi[i] % p by {
        vstd::arithmetic::div_mod::lemma_mod_twice(ai[i] - bi[i], p);
    }
    lemma_zsum_cong(ui, abi);
    lemma_zsum_sub(ai, bi);
    assert(Seq::new(ai.len(), |i: int| ai[i] - bi[i]) =~= abi);
    vstd::arithmetic::div_mod::lemma_sub_mod_noop(zsum(ai), zsum(bi), p);
}

} // verus!
