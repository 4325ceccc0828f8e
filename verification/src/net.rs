//! The parties' network, as the protocols of this library see it.
//!
//! A protocol step that needs the other parties' shares broadcasts its own
//! share and receives the shares of all parties. With a single party there is
//! nobody to hear from: the broadcast returns nothing and the party, the king,
//! holds every value in full.
use vstd::prelude::*;
use crate::field::Fe;

verus! {

/// A party's view of the network.
pub trait MpcNet {
    /// This party is alone.
    spec fn single_party(&self) -> bool;

    /// This party is party 0, the king.
    spec fn king(&self) -> bool;

    /// A lone party is the king.
    proof fn lemma_single_party_is_king(&self)
        requires
            self.single_party(),
        ensures
            self.king(),
    ;

    /// Whether this party is the king.
    fn am_king(&self) -> (r: bool)
        ensures
            r == self.king(),
    ;

    /// The rounds of communication with the other parties so far.
    spec fn rounds(&self) -> nat;

    /// The run's bit broadcasts: `bit_rounds()(k, s)` is what a broadcast of
    /// the bit `s` as round `k` brings back, every party's share of it.
    spec fn bit_rounds(&self) -> spec_fn(nat, bool) -> Seq<bool>;

    /// The run's broadcasts of bit vectors: `bits_rounds()(k, s)` is what a
    /// broadcast of the vector `s` as round `k` brings back, every party's
    /// vector.
    spec fn bits_rounds(&self) -> spec_fn(nat, Seq<bool>) -> Seq<Seq<bool>>;

    /// The run's broadcasts of field vectors, by value: `fe_rounds()(k, s)`
    /// is what a broadcast of a vector with values `s` as round `k` brings
    /// back, the values of every party's vector.
    spec fn fe_rounds(&self) -> spec_fn(nat, Seq<nat>) -> Seq<Seq<nat>>;

    /// A lone party hears nothing in any round.
    proof fn lemma_single_party_hears_nothing(&self)
        requires
            self.single_party(),
        ensures
            forall|k: nat, s: bool| (#[trigger] (self.bit_rounds())(k, s)).len() == 0,
            forall|k: nat, s: Seq<bool>| (#[trigger] (self.bits_rounds())(k, s)).len() == 0,
            forall|k: nat, s: Seq<nat>| (#[trigger] (self.fe_rounds())(k, s)).len() == 0,
    ;

    /// Send a boolean share to every party; receive every party's share.
    /// Among several parties this is one round.
    fn broadcast_bool(&mut self, share: bool) -> (r: Vec<bool>)
        ensures
            final(self).single_party() == old(self).single_party(),
            final(self).king() == old(self).king(),
            final(self).bit_rounds() == old(self).bit_rounds(),
            final(self).bits_rounds() == old(self).bits_rounds(),
            final(self).fe_rounds() == old(self).fe_rounds(),
            !old(self).single_party() ==> final(self).rounds() == old(self).rounds() + 1,
            old(self).single_party() ==> r.len() == 0,
            r@ == (old(self).bit_rounds())(old(self).rounds(), share),
    ;

    /// Send a vector of boolean shares; receive every party's vector.
    /// Among several parties this is one round.
    fn broadcast_bools(&mut self, shares: &Vec<bool>) -> (r: Vec<Vec<bool>>)
        ensures
            final(self).single_party() == old(self).single_party(),
            final(self).king() == old(self).king(),
            final(self).bit_rounds() == old(self).bit_rounds(),
            final(self).bits_rounds() == old(self).bits_rounds(),
            final(self).fe_rounds() == old(self).fe_rounds(),
            !old(self).single_party() ==> final(self).rounds() == old(self).rounds() + 1,
            old(self).single_party() ==> r.len() == 0,
            r.deep_view() == (old(self).bits_rounds())(old(self).rounds(), shares@),
    ;

    /// Send a vector of field shares; receive every party's vector.
    /// Among several parties this is one round.
    fn broadcast_fes(&mut self, shares: &Vec<Fe>) -> (r: Vec<Vec<Fe>>)
        ensures
            final(self).single_party() == old(self).single_party(),
            final(self).king() == old(self).king(),
            final(self).bit_rounds() == old(self).bit_rounds(),
            final(self).bits_rounds() == old(self).bits_rounds(),
            final(self).fe_rounds() == old(self).fe_rounds(),
            !old(self).single_party() ==> final(self).rounds() == old(self).rounds() + 1,
            old(self).single_party() ==> r.len() == 0,
            heard_values(r@, (old(self).fe_rounds())(old(self).rounds(), fe_vals(shares@))),
    ;
}

/// The values of field elements.
pub open spec fn fe_vals(s: Seq<Fe>) -> Seq<nat> {
    Seq::new(s.len(), |i: int| s[i].val())
}

/// The vectors received hold the values heard.
pub open spec fn heard_values(r: Seq<Vec<Fe>>, heard: Seq<Seq<nat>>) -> bool {
    &&& r.len() == heard.len()
    &&& forall|p: int| 0 <= p < r.len() ==> fe_vals((#[trigger] r[p])@) == heard[p]
}

/// The network of a party that runs alone.
#[derive(Clone, Copy, Debug, Default)]
pub struct LocalNet;

impl MpcNet for LocalNet {
    open spec fn single_party(&self) -> bool {
        true
    }

    open spec fn king(&self) -> bool {
        true
    }

    proof fn lemma_single_party_is_king(&self) {
    }

    open spec fn rounds(&self) -> nat {
        0
    }

    open spec fn bit_rounds(&self) -> spec_fn(nat, bool) -> Seq<bool> {
        |k: nat, s: bool| Seq::empty()
    }

    open spec fn bits_rounds(&self) -> spec_fn(nat, Seq<bool>) -> Seq<Seq<bool>> {
        |k: nat, s: Seq<bool>| Seq::empty()
    }

    open spec fn fe_rounds(&self) -> spec_fn(nat, Seq<nat>) -> Seq<Seq<nat>> {
        |k: nat, s: Seq<nat>| Seq::empty()
    }

    proof fn lemma_single_party_hears_nothing(&self) {
    }

    fn am_king(&self) -> (r: bool) {
        true
    }

    fn broadcast_bool(&mut self, share: bool) -> (r: Vec<bool>) {
        Vec::new()
    }

    fn broadcast_bools(&mut self, shares: &Vec<bool>) -> (r: Vec<Vec<bool>>) {
        Vec::new()
    }

    fn broadcast_fes(&mut self, shares: &Vec<Fe>) -> (r: Vec<Vec<Fe>>) {
        Vec::new()
    }
}

} // verus!
