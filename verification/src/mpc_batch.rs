//! In-place batch arithmetic on vectors of public or shared values.
//!
//! Each vector must be all public or all shared. Shared by shared work goes
//! through one batch of Beaver products (or inverses); anything else is done
//! value by value.
use vstd::prelude::*;
use crate::bit_ops::same_net;
use crate::field::{Fe, finv, fmul, lemma_val_lt_modulus};
use crate::mpc_field::MpcField;
use crate::net::MpcNet;
use crate::share::{AdditiveFieldShare, DummyFieldTripleSource, prefix_product, share_values};

verus! {

broadcast use lemma_val_lt_modulus;

/// Every value is shared, or every value is public.
pub open spec fn homogeneous(s: Seq<MpcField>) -> bool {
    forall|i: int| 0 <= i < s.len() ==> (#[trigger] s[i] is Shared) == (s[0] is Shared)
}

/// The values as a lone party sees them.
pub open spec fn mpc_values(s: Seq<MpcField>) -> Seq<nat> {
    Seq::new(s.len(), |i: int| s[i].value())
}

/// The smaller of two lengths.
pub open spec fn min_len(a: int, b: int) -> int {
    if a <= b {
        a
    } else {
        b
    }
}

/// The shares of the first `n` values, all shared.
fn shares_of(v: &[MpcField], n: usize) -> (r: Vec<AdditiveFieldShare>)
    requires
        n <= v.len(),
        forall|i: int| 0 <= i < n ==> #[trigger] v[i] is Shared,
    ensures
        r.len() == n,
        forall|i: int| 0 <= i < n ==> v[i] == MpcField::Shared(#[trigger] r[i]),
{
    let mut out: Vec<AdditiveFieldShare> = Vec::new();
    let mut i: usize = 0;
    while i < n
        invariant
            i <= n,
            n <= v.len(),
            out.len() == i,
            forall|k: int| 0 <= k < n ==> #[trigger] v[k] is Shared,
            forall|k: int| 0 <= k < i ==> v[k] == MpcField::Shared(#[trigger] out[k]),
        decreases n - i,
    {
        match v[i] {
            MpcField::Shared(s) => out.push(s),
            MpcField::Public(x) => {
                proof {
                    assert(v[i as int] is Shared);
                }
                out.push(AdditiveFieldShare::from_add_shared(x));
            },
        }
        i = i + 1;
    }
    out
}

impl MpcField {
    /// Multiply each value by the matching one of `others`, in place (as far
    /// as both reach): shared by shared in one batch of Beaver products,
    /// otherwise value by value.
    pub fn batch_product_in_place<N: MpcNet>(selfs: &mut Vec<Self>, others: &[Self], net: &mut N)
        requires
            old(selfs).len() >= 1,
            others.len() >= 1,
            homogeneous(old(selfs)@),
            homogeneous(others@),
            old(selfs)[0] is Shared && others[0] is Shared ==> others.len() >= old(selfs).len(),
        ensures
            same_net(*final(net), *old(net)),
            final(selfs).len() == old(selfs).len(),
            forall|i: int|
                0 <= i < old(selfs).len() && i >= others.len() ==> #[trigger] final(selfs)[i]
                    == old(selfs)[i],
            forall|i: int|
                0 <= i < min_len(old(selfs).len() as int, others.len() as int) ==> (
                #[trigger] final(selfs)[i] is Shared) == (old(selfs)[i] is Shared || others[i] is Shared),
            forall|i: int|
                0 <= i < min_len(old(selfs).len() as int, others.len() as int) && ((old(selfs)[i] is Public
                    && others[i] is Public) || old(net).single_party()) ==> #[trigger] final(selfs)[i].value() == fmul(old(selfs)[i].value(), others[i].value()),
    {
        let ghost net0 = *old(net);
        let ghost s0 = selfs@;
        let n = selfs.len();
        let selfs_shared = selfs[0].is_shared();
        let others_shared = others[0].is_shared();
        if selfs_shared && others_shared {
            let sshares = shares_of(selfs.as_slice(), n);
            let oshares = shares_of(others, n);
            let mut source = DummyFieldTripleSource::new(net.am_king());
            proof {
                if net0.single_party() {
                    net0.lemma_single_party_is_king();
                }
            }
            let nshares = AdditiveFieldShare::batch_mul(sshares, oshares, &mut source, net);
            let mut i: usize = 0;
            while i < n
                invariant
                    i <= n,
                    n == s0.len(),
                    n <= others.len(),
                    nshares.len() == n,
                    selfs.len() == n,
                    same_net(*net, net0),
                    forall|k: int| 0 <= k < n ==> #[trigger] s0[k] is Shared && others[k] is Shared,
                    forall|k: int| i <= k < n ==> #[trigger] selfs[k] == s0[k],
                    forall|k: int| 0 <= k < i ==> #[trigger] selfs[k] == MpcField::Shared(nshares[k]),
                    net0.single_party() ==> forall|k: int|
                        0 <= k < n ==> #[trigger] nshares[k].val.val() == fmul(
                            s0[k].value(),
                            others[k].value(),
                        ),
                decreases n - i,
            {
                selfs.set(i, MpcField::Shared(nshares[i]));
                i = i + 1;
            }
        } else {
            let m = if n <= others.len() {
                n
            } else {
                others.len()
            };
            let mut i: usize = 0;
            while i < m
                invariant
                    i <= m,
                    m == min_len(n as int, others.len() as int),
                    n == s0.len(),
                    selfs.len() == n,
                    same_net(*net, net0),
                    forall|k: int| i <= k < n ==> #[trigger] selfs[k] == s0[k],
                    forall|k: int|
                        0 <= k < i ==> (#[trigger] selfs[k] is Shared) == (s0[k] is Shared
                            || others[k] is Shared),
                    forall|k: int|
                        0 <= k < i && ((s0[k] is Public && others[k] is Public)
                            || net0.single_party()) ==> #[trigger] selfs[k].value() == fmul(
                            s0[k].value(),
                            others[k].value(),
                        ),
                decreases m - i,
            {
                let v = selfs[i].mul(&others[i], net);
                selfs.set(i, v);
                i = i + 1;
            }
        }
    }

    /// Divide each value by the matching one of `others`, in place: shared
    /// by shared with one batch of inverses and one of products; otherwise
    /// value by value, where (as written) the values are multiplied. False,
    /// and nothing changed, where a shared divisor has no inverse.
    pub fn batch_division_in_place<N: MpcNet>(
        selfs: &mut Vec<Self>,
        others: &[Self],
        net: &mut N,
    ) -> (ok: bool)
        requires
            old(selfs).len() >= 1,
            others.len() >= 1,
            homogeneous(old(selfs)@),
            homogeneous(others@),
            old(selfs)[0] is Shared && others[0] is Shared ==> others.len() == old(selfs).len(),
        ensures
            same_net(*final(net), *old(net)),
            final(selfs).len() == old(selfs).len(),
            !ok ==> *final(selfs) == *old(selfs),
            !(old(selfs)[0] is Shared && others[0] is Shared) ==> ok,
            old(selfs)[0] is Shared && others[0] is Shared && old(net).single_party() ==> (ok
                <==> forall|i: int| 0 <= i < others.len() ==> #[trigger] others[i].value() != 0),
            old(selfs)[0] is Shared && others[0] is Shared && ok ==> forall|i: int|
                0 <= i < old(selfs).len() ==> (#[trigger] final(selfs)[i] is Shared),
            old(selfs)[0] is Shared && others[0] is Shared && ok && old(net).single_party()
                ==> forall|i: int|
                0 <= i < old(selfs).len() ==> #[trigger] final(selfs)[i].value() == fmul(
                    old(selfs)[i].value(),
                    finv(others[i].value()),
                ),
            !(old(selfs)[0] is Shared && others[0] is Shared) ==> forall|i: int|
                0 <= i < old(selfs).len() && i >= others.len() ==> #[trigger] final(selfs)[i]
                    == old(selfs)[i],
            !(old(selfs)[0] is Shared && others[0] is Shared) ==> forall|i: int|
                0 <= i < min_len(old(selfs).len() as int, others.len() as int) && ((old(selfs)[i] is Public
                    && others[i] is Public) || old(net).single_party()) ==> #[trigger] final(selfs)[i].value() == fmul(old(selfs)[i].value(), others[i].value()),
    {
        let ghost net0 = *old(net);
        let ghost s0 = selfs@;
        let n = selfs.len();
        let selfs_shared = selfs[0].is_shared();
        let others_shared = others[0].is_shared();
        if selfs_shared && others_shared {
            let sshares = shares_of(selfs.as_slice(), n);
            let oshares = shares_of(others, n);
            let ghost o0 = oshares@;
            let mut source = DummyFieldTripleSource::new(net.am_king());
            proof {
                if net0.single_party() {
                    net0.lemma_single_party_is_king();
                }
            }
            match AdditiveFieldShare::batch_inv(oshares, &mut source, net) {
                Some(invs) => {
                    let nshares = AdditiveFieldShare::batch_mul(sshares, invs, &mut source, net);
                    let mut i: usize = 0;
                    while i < n
                        invariant
                            i <= n,
                            n == s0.len(),
                            n == others.len(),
                            nshares.len() == n,
                            selfs.len() == n,
                            same_net(*net, net0),
                            forall|k: int| 0 <= k < n ==> #[trigger] s0[k] is Shared && others[k] is Shared,
                            forall|k: int| i <= k < n ==> #[trigger] selfs[k] == s0[k],
                            forall|k: int|
                                0 <= k < i ==> #[trigger] selfs[k] == MpcField::Shared(nshares[k]),
                            net0.single_party() ==> forall|k: int|
                                0 <= k < n ==> #[trigger] nshares[k].val.val() == fmul(
                                    s0[k].value(),
                                    finv(others[k].value()),
                                ),
                        decreases n - i,
                    {
                        selfs.set(i, MpcField::Shared(nshares[i]));
                        i = i + 1;
                    }
                    proof {
                        if net0.single_party() {
                            assert forall|k: int| 0 <= k < others.len() implies #[trigger] others[k].value()
                                != 0 by {
                                assert(o0[k].val.val() == others[k].value());
                            }
                        }
                    }
                    true
                },
                None => {
                    proof {
                        if net0.single_party() {
                            let k = choose|k: int| 0 <= k < o0.len() && #[trigger] o0[k].val.val() == 0;
                            assert(others[k].value() == 0);
                        }
                        assert(selfs@ =~= s0);
                    }
                    false
                },
            }
        } else {
            let m = if n <= others.len() {
                n
            } else {
                others.len()
            };
            let mut i: usize = 0;
            while i < m
                invariant
                    i <= m,
                    m == min_len(n as int, others.len() as int),
                    n == s0.len(),
                    selfs.len() == n,
                    same_net(*net, net0),
                    forall|k: int| i <= k < n ==> #[trigger] selfs[k] == s0[k],
                    forall|k: int|
                        0 <= k < i && ((s0[k] is Public && others[k] is Public)
                            || net0.single_party()) ==> #[trigger] selfs[k].value() == fmul(
                            s0[k].value(),
                            others[k].value(),
                        ),
                decreases m - i,
            {
                let v = selfs[i].mul(&others[i], net);
                selfs.set(i, v);
                i = i + 1;
            }
            true
        }
    }

    /// Replace the values by their prefix products x_0, x_0 x_1, ...: shared
    /// values through `AdditiveFieldShare::partial_products`, public ones one
    /// by one. False, and nothing changed, where the shared method fails.
    pub fn partial_products_in_place<N: MpcNet>(selfs: &mut Vec<Self>, net: &mut N) -> (ok: bool)
        requires
            old(selfs).len() >= 1,
            old(selfs).len() < usize::MAX,
            homogeneous(old(selfs)@),
        ensures
            same_net(*final(net), *old(net)),
            final(selfs).len() == old(selfs).len(),
            !ok ==> *final(selfs) == *old(selfs),
            old(selfs)[0] is Public || old(net).single_party() ==> ok,
            homogeneous(final(selfs)@) && (final(selfs)[0] is Shared) == (old(selfs)[0] is Shared),
            ok && (old(selfs)[0] is Public || old(net).single_party()) ==> forall|i: int|
                0 <= i < old(selfs).len() ==> #[trigger] final(selfs)[i].value() == prefix_product(
                    mpc_values(old(selfs)@),
                    i + 1,
                ),
    {
        let ghost net0 = *old(net);
        let ghost s0 = selfs@;
        let ghost xv = mpc_values(s0);
        let n = selfs.len();
        if selfs[0].is_shared() {
            let sshares = shares_of(selfs.as_slice(), n);
            proof {
                assert(share_values(sshares@) =~= xv);
            }
            let mut source = DummyFieldTripleSource::new(net.am_king());
            proof {
                if net0.single_party() {
                    net0.lemma_single_party_is_king();
                }
            }
            match AdditiveFieldShare::partial_products(sshares, &mut source, net) {
                Some(prods) => {
                    let mut i: usize = 0;
                    while i < n
                        invariant
                            i <= n,
                            n == s0.len(),
                            prods.len() == n,
                            selfs.len() == n,
                            same_net(*net, net0),
                            xv == mpc_values(s0),
                            forall|k: int| 0 <= k < n ==> #[trigger] s0[k] is Shared,
                            forall|k: int| i <= k < n ==> #[trigger] selfs[k] == s0[k],
                            forall|k: int| 0 <= k < i ==> #[trigger] selfs[k] == MpcField::Shared(prods[k]),
                            net0.single_party() ==> forall|k: int|
                                0 <= k < n ==> #[trigger] prods[k].val.val() == prefix_product(xv, k + 1),
                        decreases n - i,
                    {
                        selfs.set(i, MpcField::Shared(prods[i]));
                        i = i + 1;
                    }
                    proof {
                        assert forall|k: int| 0 <= k < n implies (#[trigger] selfs[k] is Shared) == (
                        selfs[0] is Shared) by {}
                    }
                    true
                },
                None => {
                    proof {
                        assert(selfs@ =~= s0);
                    }
                    false
                },
            }
        } else {
            let mut i: usize = 1;
            proof {
                assert(prefix_product(xv, 0) == 1);
                assert(prefix_product(xv, 1) == fmul(1, xv[0]));
                vstd::arithmetic::div_mod::lemma_small_mod(xv[0], crate::field::modulus());
                assert(1 * xv[0] == xv[0]);
            }
            while i < n
                invariant
                    1 <= i <= n,
                    n == s0.len(),
                    selfs.len() == n,
                    same_net(*net, net0),
                    xv == mpc_values(s0),
                    forall|k: int| 0 <= k < n ==> #[trigger] s0[k] is Public,
                    forall|k: int| i <= k < n ==> #[trigger] selfs[k] == s0[k],
                    forall|k: int| 0 <= k < i ==> #[trigger] selfs[k] is Public,
                    forall|k: int|
                        0 <= k < i ==> #[trigger] selfs[k].value() == prefix_product(xv, k + 1),
                decreases n - i,
            {
                let last = selfs[i - 1];
                let v = selfs[i].mul(&last, net);
                proof {
                    assert(xv[i as int] == s0[i as int].value());
                    assert(fmul(xv[i as int], last.value()) == fmul(last.value(), xv[i as int])) by {
                        assert(xv[i as int] * last.value() == last.value() * xv[i as int])
                            by (nonlinear_arith);
                    }
                }
                selfs.set(i, v);
                i = i + 1;
            }
            proof {
                assert forall|k: int| 0 <= k < n implies (#[trigger] selfs[k] is Shared) == (
                selfs[0] is Shared) by {}
            }
            true
        }
    }
}

} // verus!
