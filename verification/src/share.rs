//! Additive secret sharing of field elements.
//!
//! A secret is shared among the parties as field elements whose sum is the
//! secret. Addition and scaling by public values are local; multiplication
//! consumes a Beaver triple (x, y, z) with z = x y and opens two masked values.
//! Results are stated for a party that runs alone with locally consistent
//! preprocessing; `lemma_beaver_mul_local` is the algebra behind the product.
use vstd::prelude::*;
use crate::bit_ops::same_net;
use crate::bit_ops::bits_val;
use crate::bits::limbs_to_bits_le;
use crate::field::{
    Fe, fadd, fe_add, fe_inverse, fe_mul, fe_sub, finv, fmul, fpow, fsub, is_inverse,
    lemma_fpow_add, lemma_fpow_bound, limbs_val, modulus_minus_two_limbs,
    lemma_fadd_cong, lemma_finv_is, lemma_fmul_assoc, lemma_fmul_cong, lemma_fsub_cong, lemma_residue,
    lemma_val_lt_modulus,
    modulus,
};
use crate::net::{MpcNet, fe_vals, heard_values};

verus! {

broadcast use lemma_val_lt_modulus;

/// One party's additive share of a field element.
#[derive(Clone, Copy, Debug, PartialEq, Eq)]
pub struct AdditiveFieldShare {
    /// This party's summand.
    pub val: Fe,
}

/// A source of multiplication triples and inverse pairs of additive shares.
pub trait BeaverSource {
    /// Every triple it yields has z = x y, and every pair (x, y) has x y = 1,
    /// on this party's own shares.
    spec fn local_ok(&self) -> bool;

    /// The values of the multiplication triple that the k-th draw from now
    /// yields.
    spec fn triple_vals(&self, k: nat) -> (nat, nat, nat);

    /// The next multiplication triple (x, y, z).
    fn triple(&mut self) -> (t: (AdditiveFieldShare, AdditiveFieldShare, AdditiveFieldShare))
        ensures
            final(self).local_ok() == old(self).local_ok(),
            old(self).local_ok() ==> t.2.val.val() == fmul(t.0.val.val(), t.1.val.val()),
            (t.0.val.val(), t.1.val.val(), t.2.val.val()) == old(self).triple_vals(0),
            forall|k: nat| #[trigger] final(self).triple_vals(k) == old(self).triple_vals(k + 1),
    ;

    /// The next inverse pair (x, x⁻¹). Locally consistent pairs are
    /// self-inverse (x = x⁻¹), as `inv` scales the second component.
    fn inv_pair(&mut self) -> (t: (AdditiveFieldShare, AdditiveFieldShare))
        ensures
            final(self).local_ok() == old(self).local_ok(),
            old(self).local_ok() ==> is_inverse(t.0.val.val(), t.1.val.val()) && t.0.val.val()
                == t.1.val.val(),
            forall|k: nat| #[trigger] final(self).triple_vals(k) == old(self).triple_vals(k),
    ;
}

/// A trusted-dealer source without randomness: the king holds ones and the
/// other parties zeros. Insecure; for testing.
#[derive(Clone, Copy, Debug, Default)]
pub struct DummyFieldTripleSource {
    /// Whether this party is the king.
    pub king: bool,
}

impl DummyFieldTripleSource {
    /// The source of the party that is (or is not) the king.
    pub fn new(king: bool) -> (s: Self)
        ensures
            s.king == king,
    {
        DummyFieldTripleSource { king }
    }

    fn king_value(&self) -> (r: AdditiveFieldShare)
        ensures
            r.val.val() == (if self.king {
                1nat
            } else {
                0nat
            }),
    {
        if self.king {
            AdditiveFieldShare::from_add_shared(Fe::one())
        } else {
            AdditiveFieldShare::from_add_shared(Fe::zero())
        }
    }
}

impl BeaverSource for DummyFieldTripleSource {
    open spec fn local_ok(&self) -> bool {
        self.king
    }

    open spec fn triple_vals(&self, k: nat) -> (nat, nat, nat) {
        if self.king {
            (1, 1, 1)
        } else {
            (0, 0, 0)
        }
    }

    fn triple(&mut self) -> (t: (AdditiveFieldShare, AdditiveFieldShare, AdditiveFieldShare)) {
        let v = self.king_value();
        (v, v, v)
    }

    fn inv_pair(&mut self) -> (t: (AdditiveFieldShare, AdditiveFieldShare)) {
        proof {
            assert(1nat * 1nat % modulus() == 1);
        }
        let v = self.king_value();
        (v, v)
    }
}

/// The field sum of entry i over the vectors heard (a vector too short to
/// reach entry i adds nothing).
pub open spec fn fe_column_sum(heard: Seq<Seq<nat>>, i: int) -> nat
    decreases heard.len(),
{
    if heard.len() == 0 {
        0
    } else {
        fadd(
            fe_column_sum(heard.drop_last(), i),
            if 0 <= i < heard.last().len() {
                heard.last()[i]
            } else {
                0
            },
        )
    }
}

/// The opened value: the sum of the values heard, or the party's own
/// summand where it hears none (a lone party).
pub open spec fn opened_value(heard: Seq<Seq<nat>>, own: nat) -> nat {
    if heard.len() == 0 {
        own
    } else {
        fe_column_sum(heard, 0)
    }
}

/// The values of shares.
pub open spec fn share_vals(s: Seq<AdditiveFieldShare>) -> Seq<nat> {
    Seq::new(s.len(), |i: int| s[i].val.val())
}

/// The opened vector: entry by entry the sum of the values heard, or the
/// party's own summands where it hears none (a lone party).
pub open spec fn opened_values(heard: Seq<Seq<nat>>, own: Seq<nat>) -> Seq<nat> {
    if heard.len() == 0 {
        own
    } else {
        Seq::new(own.len(), |i: int| fe_column_sum(heard, i))
    }
}

/// The vector opened in round k of a run, from this party's summands.
pub open spec fn round_values<N: MpcNet>(net: N, k: nat, own: Seq<nat>) -> Seq<nat> {
    opened_values((net.fe_rounds())(k, own), own)
}

/// The value opened in round k of a run, from this party's summand.
pub open spec fn round_value<N: MpcNet>(net: N, k: nat, own: nat) -> nat {
    opened_value((net.fe_rounds())(k, seq![own]), own)
}

/// A party's output share of a Beaver product, from its triple (x, y, z),
/// the opened masked values d = s + x and e = o + y, and whether it is the
/// king: z - y d - x e, plus d e at the king.
pub open spec fn beaver_finish(x: nat, y: nat, z: nat, d: nat, e: nat, king: bool) -> nat {
    let base = fsub(fsub(z, fmul(y, d)), fmul(x, e));
    if king {
        fadd(base, fmul(d, e))
    } else {
        base
    }
}

/// The algebra of Beaver multiplication for a lone party:
/// z - y (s + x) - x (o + y) + (s + x)(o + y) = s o when z = x y.
pub proof fn lemma_beaver_mul_local(s: nat, o: nat, x: nat, y: nat)
    requires
        s < modulus(),
        o < modulus(),
        x < modulus(),
        y < modulus(),
    ensures
        ({
            let z = fmul(x, y);
            let sx = fadd(s, x);
            let oy = fadd(o, y);
            fadd(fsub(fsub(z, fmul(y, sx)), fmul(x, oy)), fmul(sx, oy)) == fmul(s, o)
        }),
{
    let m = modulus() as int;
    let (si, oi, xi, yi) = (s as int, o as int, x as int, y as int);
    lemma_residue(s);
    lemma_residue(o);
    lemma_residue(x);
    lemma_residue(y);
    let z = fmul(x, y);
    let sx = fadd(s, x);
    let oy = fadd(o, y);
    lemma_fmul_cong(xi, yi, x, y);
    lemma_fadd_cong(si, xi, s, x);
    lemma_fadd_cong(oi, yi, o, y);
    let t1 = fmul(y, sx);
    let t2 = fmul(x, oy);
    lemma_fmul_cong(yi, si + xi, y, sx);
    lemma_fmul_cong(xi, oi + yi, x, oy);
    let u1 = fsub(z, t1);
    lemma_fsub_cong(xi * yi, yi * (si + xi), z, t1);
    let u2 = fsub(u1, t2);
    lemma_fsub_cong(xi * yi - yi * (si + xi), xi * (oi + yi), u1, t2);
    let w = fmul(sx, oy);
    lemma_fmul_cong(si + xi, oi + yi, sx, oy);
    lemma_fadd_cong(
        xi * yi - yi * (si + xi) - xi * (oi + yi),
        (si + xi) * (oi + yi),
        u2,
        w,
    );
    assert(xi * yi - yi * (si + xi) - xi * (oi + yi) + (si + xi) * (oi + yi) == si * oi)
        by (nonlinear_arith);
    lemma_fmul_cong(si, oi, s, o);
}

/// The field sum of field values.
pub open spec fn fsum(v: Seq<nat>) -> nat
    decreases v.len(),
{
    if v.len() == 0 {
        0
    } else {
        fadd(fsum(v.drop_last()), v.last())
    }
}

/// The integer sum.
pub(crate) open spec fn zsum(v: Seq<int>) -> int
    decreases v.len(),
{
    if v.len() == 0 {
        0
    } else {
        zsum(v.drop_last()) + v.last()
    }
}

/// The field sum is the integer sum reduced.
pub(crate) proof fn lemma_fsum_reduces(v: Seq<nat>)
    ensures
        fsum(v) as int == zsum(Seq::new(v.len(), |i: int| v[i] as int)) % (modulus() as int),
    decreases v.len(),
{
    let p = modulus() as int;
    let w = Seq::new(v.len(), |i: int| v[i] as int);
    if v.len() == 0 {
        vstd::arithmetic::div_mod::lemma_small_mod(0, modulus());
    } else {
        let k = v.len() - 1;
        lemma_fsum_reduces(v.drop_last());
        assert(w.drop_last() =~= Seq::new(v.drop_last().len(), |i: int| v.drop_last()[i] as int));
        vstd::arithmetic::div_mod::lemma_add_mod_noop(zsum(w.drop_last()), v[k] as int, p);
        vstd::arithmetic::div_mod::lemma_add_mod_noop(fsum(v.drop_last()) as int, v[k] as int, p);
        vstd::arithmetic::div_mod::lemma_mod_twice(zsum(w.drop_last()), p);
    }
}

/// The integer sum of scaled terms is the scaled sum.
pub(crate) proof fn lemma_zsum_scale(v: Seq<int>, f: int)
    ensures
        zsum(Seq::new(v.len(), |i: int| v[i] * f)) == zsum(v) * f,
    decreases v.len(),
{
    if v.len() > 0 {
        let k = v.len() - 1;
        lemma_zsum_scale(v.drop_last(), f);
        assert(Seq::new(v.len(), |i: int| v[i] * f).drop_last() =~= Seq::new(
            v.drop_last().len(),
            |i: int| v.drop_last()[i] * f,
        ));
        assert(zsum(v.drop_last()) * f + v[k] * f == (zsum(v.drop_last()) + v[k]) * f)
            by (nonlinear_arith);
    }
}

/// The integer sum of pairwise sums is the sum of the sums.
pub(crate) proof fn lemma_zsum_add(a: Seq<int>, b: Seq<int>)
    requires
        a.len() == b.len(),
    ensures
        zsum(Seq::new(a.len(), |i: int| a[i] + b[i])) == zsum(a) + zsum(b),
    decreases a.len(),
{
    if a.len() > 0 {
        lemma_zsum_add(a.drop_last(), b.drop_last());
        assert(Seq::new(a.len(), |i: int| a[i] + b[i]).drop_last() =~= Seq::new(
            a.drop_last().len(),
            |i: int| a.drop_last()[i] + b.drop_last()[i],
        ));
    }
}

/// The integer sum of pairwise differences is the difference of the sums.
pub(crate) proof fn lemma_zsum_sub(a: Seq<int>, b: Seq<int>)
    requires
        a.len() == b.len(),
    ensures
        zsum(Seq::new(a.len(), |i: int| a[i] - b[i])) == zsum(a) - zsum(b),
    decreases a.len(),
{
    if a.len() > 0 {
        lemma_zsum_sub(a.drop_last(), b.drop_last());
        assert(Seq::new(a.len(), |i: int| a[i] - b[i]).drop_last() =~= Seq::new(
            a.drop_last().len(),
            |i: int| a.drop_last()[i] - b.drop_last()[i],
        ));
    }
}

/// Sums of congruent terms are congruent.
pub(crate) proof fn lemma_zsum_cong(u: Seq<int>, w: Seq<int>)
    requires
        u.len() == w.len(),
        forall|i: int| 0 <= i < u.len() ==> #[trigger] u[i] % (modulus() as int) == w[i] % (
        modulus() as int),
    ensures
        zsum(u) % (modulus() as int) == zsum(w) % (modulus() as int),
    decreases u.len(),
{
    let p = modulus() as int;
    if u.len() > 0 {
        let k = u.len() - 1;
        assert forall|i: int| 0 <= i < u.len() - 1 implies #[trigger] u.drop_last()[i] % p
            == w.drop_last()[i] % p by {
            assert(u.drop_last()[i] == u[i] && w.drop_last()[i] == w[i]);
        }
        lemma_zsum_cong(u.drop_last(), w.drop_last());
        assert(u[k] % p == w[k] % p);
        crate::poly_ops::lemma_add_cong(zsum(u.drop_last()), u[k], zsum(w.drop_last()), w[k]);
    }
}

/// The sum of terms a - b - c, plus t at index 0, splits.
pub(crate) proof fn lemma_zsum_split(a: Seq<int>, b: Seq<int>, c: Seq<int>, t: int)
    requires
        a.len() >= 1,
        b.len() == a.len(),
        c.len() == a.len(),
    ensures
        zsum(
            Seq::new(
                a.len(),
                |i: int|
                    a[i] - b[i] - c[i] + (if i == 0 {
                        t
                    } else {
                        0
                    }),
            ),
        ) == zsum(a) - zsum(b) - zsum(c) + t,
    decreases a.len(),
{
    let f = |i: int|
        a[i] - b[i] - c[i] + (if i == 0 {
            t
        } else {
            0
        });
    let u = Seq::new(a.len(), f);
    if a.len() == 1 {
        assert(u.drop_last() =~= Seq::<int>::empty());
        assert(a.drop_last() =~= Seq::<int>::empty());
        assert(b.drop_last() =~= Seq::<int>::empty());
        assert(c.drop_last() =~= Seq::<int>::empty());
    } else {
        let k = a.len() - 1;
        lemma_zsum_split(a.drop_last(), b.drop_last(), c.drop_last(), t);
        assert(u.drop_last() =~= Seq::new(
            a.drop_last().len(),
            |i: int|
                a.drop_last()[i] - b.drop_last()[i] - c.drop_last()[i] + (if i == 0 {
                    t
                } else {
                    0
                }),
        ));
    }
}

/// A party's Beaver output stands for z - y d - x e, plus d e at the king.
proof fn lemma_finish_stands(x: nat, y: nat, z: nat, d: nat, e: nat, king: bool)
    ensures
        (beaver_finish(x, y, z, d, e, king) as int) % (modulus() as int) == (z - y * d - x * e + (
        if king {
            d * e
        } else {
            0
        })) % (modulus() as int),
{
    let p = modulus() as int;
    let (xi, yi, zi, di, ei) = (x as int, y as int, z as int, d as int, e as int);
    let m1 = fmul(y, d);
    let m2 = fmul(x, e);
    let b1 = fsub(z, m1);
    let base = fsub(b1, m2);
    assert(yi * di == y * d && xi * ei == x * e && di * ei == d * e);
    vstd::arithmetic::div_mod::lemma_mod_twice(yi * di, p);
    vstd::arithmetic::div_mod::lemma_mod_twice(xi * ei, p);
    assert((m1 as int) % p == (yi * di) % p);
    assert((m2 as int) % p == (xi * ei) % p);
    vstd::arithmetic::div_mod::lemma_mod_twice(zi - m1, p);
    crate::poly_ops::lemma_sub_cong(zi, m1 as int, zi, yi * di);
    assert((b1 as int) % p == (zi - yi * di) % p);
    vstd::arithmetic::div_mod::lemma_mod_twice(b1 - m2, p);
    crate::poly_ops::lemma_sub_cong(b1 as int, m2 as int, zi - yi * di, xi * ei);
    assert((base as int) % p == (zi - yi * di - xi * ei) % p);
    if king {
        let m3 = fmul(d, e);
        vstd::arithmetic::div_mod::lemma_mod_twice(di * ei, p);
        vstd::arithmetic::div_mod::lemma_mod_twice(base + m3 as int, p);
        crate::poly_ops::lemma_add_cong(base as int, m3 as int, zi - yi * di - xi * ei, di * ei);
    }
}

/// Correctness of Beaver multiplication among any number of parties.
///
/// Party i holds summands s[i], o[i] of the inputs and a triple
/// (x[i], y[i], z[i]) whose secrets satisfy z = x y; party 0 is the king.
/// The masked values d = s + x and e = o + y are opened (the sums of all
/// parties' masked summands), and each party finishes with `beaver_finish`.
/// The parties' outputs then add up to the product of the input secrets.
pub proof fn lemma_beaver_mul_shares(
    s: Seq<nat>,
    o: Seq<nat>,
    x: Seq<nat>,
    y: Seq<nat>,
    z: Seq<nat>,
)
    requires
        s.len() >= 1,
        o.len() == s.len(),
        x.len() == s.len(),
        y.len() == s.len(),
        z.len() == s.len(),
        fsum(z) == fmul(fsum(x), fsum(y)),
    ensures
        ({
            let n = s.len();
            let d = fsum(Seq::new(n, |i: int| fadd(s[i], x[i])));
            let e = fsum(Seq::new(n, |i: int| fadd(o[i], y[i])));
            fsum(Seq::new(n, |i: int| beaver_finish(x[i], y[i], z[i], d, e, i == 0))) == fmul(
                fsum(s),
                fsum(o),
            )
        }),
{
    let p = modulus() as int;
    let n = s.len();
    let si = Seq::new(n, |i: int| s[i] as int);
    let oi = Seq::new(n, |i: int| o[i] as int);
    let xi = Seq::new(n, |i: int| x[i] as int);
    let yi = Seq::new(n, |i: int| y[i] as int);
    let zi = Seq::new(n, |i: int| z[i] as int);
    let (ss, so, sx, sy, sz) = (zsum(si), zsum(oi), zsum(xi), zsum(yi), zsum(zi));
    lemma_fsum_reduces(s);
    lemma_fsum_reduces(o);
    lemma_fsum_reduces(x);
    lemma_fsum_reduces(y);
    lemma_fsum_reduces(z);
    assert(Seq::new(s.len(), |i: int| s[i] as int) =~= si);
    assert(Seq::new(o.len(), |i: int| o[i] as int) =~= oi);
    assert(Seq::new(x.len(), |i: int| x[i] as int) =~= xi);
    assert(Seq::new(y.len(), |i: int| y[i] as int) =~= yi);
    assert(Seq::new(z.len(), |i: int| z[i] as int) =~= zi);
    // d stands for S + X and e for O + Y.
    let dv = Seq::new(n, |i: int| fadd(s[i], x[i]));
    let ev = Seq::new(n, |i: int| fadd(o[i], y[i]));
    let d = fsum(dv);
    let e = fsum(ev);
    lemma_fsum_reduces(dv);
    lemma_fsum_reduces(ev);
    let dvi = Seq::new(dv.len(), |i: int| dv[i] as int);
    let evi = Seq::new(ev.len(), |i: int| ev[i] as int);
    let sxi = Seq::new(n, |i: int| si[i] + xi[i]);
    let oyi = Seq::new(n, |i: int| oi[i] + yi[i]);
    assert forall|i: int| 0 <= i < n implies #[trigger] dvi[i] % p == sxi[i] % p by {
        vstd::arithmetic::div_mod::lemma_mod_twice(s[i] as int + x[i] as int, p);
    }
    assert forall|i: int| 0 <= i < n implies #[trigger] evi[i] % p == oyi[i] % p by {
        vstd::arithmetic::div_mod::lemma_mod_twice(o[i] as int + y[i] as int, p);
    }
    lemma_zsum_cong(dvi, sxi);
    lemma_zsum_cong(evi, oyi);
    lemma_zsum_add(si, xi);
    lemma_zsum_add(oi, yi);
    vstd::arithmetic::div_mod::lemma_mod_twice(zsum(dvi), p);
    vstd::arithmetic::div_mod::lemma_mod_twice(zsum(evi), p);
    assert((d as int) % p == (ss + sx) % p);
    assert((e as int) % p == (so + sy) % p);
    // The outputs add up to Z - d Y - e X + d e.
    let w = Seq::new(n, |i: int| beaver_finish(x[i], y[i], z[i], d, e, i == 0));
    lemma_fsum_reduces(w);
    let wi = Seq::new(w.len(), |i: int| w[i] as int);
    let yd = Seq::new(n, |i: int| yi[i] * d);
    let xe = Seq::new(n, |i: int| xi[i] * e);
    let ui = Seq::new(
        n,
        |i: int|
            zi[i] - yd[i] - xe[i] + (if i == 0 {
                d * e
            } else {
                0
            }),
    );
    assert forall|i: int| 0 <= i < n implies #[trigger] wi[i] % p == ui[i] % p by {
        lemma_finish_stands(x[i], y[i], z[i], d, e, i == 0);
    }
    lemma_zsum_cong(wi, ui);
    lemma_zsum_split(zi, yd, xe, (d * e) as int);
    lemma_zsum_scale(yi, d as int);
    lemma_zsum_scale(xi, e as int);
    let t = sz - sy * d - sx * e + d * e;
    assert(zsum(ui) == t);
    // Z stands for X Y.
    vstd::arithmetic::div_mod::lemma_mod_twice(sx, p);
    vstd::arithmetic::div_mod::lemma_mod_twice(sy, p);
    crate::poly_ops::lemma_mul_cong(fsum(x) as int, fsum(y) as int, sx, sy);
    vstd::arithmetic::div_mod::lemma_mod_twice(sz, p);
    assert(sz % p == (sx * sy) % p);
    // Substitute and compute.
    crate::poly_ops::lemma_mul_cong(sy, d as int, sy, ss + sx);
    crate::poly_ops::lemma_mul_cong(sx, e as int, sx, so + sy);
    crate::poly_ops::lemma_mul_cong(d as int, e as int, ss + sx, so + sy);
    crate::poly_ops::lemma_sub_cong(sz, sy * d, sx * sy, sy * (ss + sx));
    crate::poly_ops::lemma_sub_cong(
        sz - sy * d,
        sx * e,
        sx * sy - sy * (ss + sx),
        sx * (so + sy),
    );
    crate::poly_ops::lemma_add_cong(
        sz - sy * d - sx * e,
        (d * e) as int,
        sx * sy - sy * (ss + sx) - sx * (so + sy),
        (ss + sx) * (so + sy),
    );
    assert(sx * sy - sy * (ss + sx) - sx * (so + sy) + (ss + sx) * (so + sy) == ss * so)
        by (nonlinear_arith);
    // The product of the sums.
    vstd::arithmetic::div_mod::lemma_mod_twice(ss, p);
    vstd::arithmetic::div_mod::lemma_mod_twice(so, p);
    crate::poly_ops::lemma_mul_cong(fsum(s) as int, fsum(o) as int, ss, so);
    vstd::arithmetic::div_mod::lemma_mod_twice(zsum(wi), p);
}

impl AdditiveFieldShare {
    /// The share that holds `f` as this party's summand.
    pub fn from_add_shared(f: Fe) -> (s: Self)
        ensures
            s.val == f,
    {
        AdditiveFieldShare { val: f }
    }

    /// The sharing of a public value: the king holds it, the others hold zero.
    pub fn from_public<N: MpcNet>(f: Fe, net: &N) -> (s: Self)
        ensures
            s.val.val() == (if net.king() {
                f.val()
            } else {
                0
            }),
    {
        if net.am_king() {
            AdditiveFieldShare { val: f }
        } else {
            AdditiveFieldShare { val: Fe::zero() }
        }
    }

    /// This party's summand, read as the value (meaningful for a lone party).
    pub fn unwrap_as_public(&self) -> (r: Fe)
        ensures
            r == self.val,
    {
        self.val
    }

    /// Add another share.
    pub fn add(&mut self, other: &Self)
        ensures
            final(self).val.val() == fadd(old(self).val.val(), other.val.val()),
    {
        self.val = fe_add(&self.val, &other.val);
    }

    /// Subtract another share.
    pub fn sub(&mut self, other: &Self)
        ensures
            final(self).val.val() == fsub(old(self).val.val(), other.val.val()),
    {
        self.val = fe_sub(&self.val, &other.val);
    }

    /// Negate the share.
    pub fn neg(&mut self)
        ensures
            final(self).val.val() == fsub(0, old(self).val.val()),
    {
        self.val = fe_sub(&Fe::zero(), &self.val);
    }

    /// Multiply the share by a public value.
    pub fn scale(&mut self, other: &Fe)
        ensures
            final(self).val.val() == fmul(old(self).val.val(), other.val()),
    {
        self.val = fe_mul(&self.val, other);
    }

    /// Add a public value to the secret: the king adds it to its summand.
    pub fn shift<N: MpcNet>(&mut self, other: &Fe, net: &N)
        ensures
            final(self).val.val() == (if net.king() {
                fadd(old(self).val.val(), other.val())
            } else {
                old(self).val.val()
            }),
    {
        if net.am_king() {
            self.val = fe_add(&self.val, other);
        }
    }

    /// Open the secret: the sum of every party's summand; a lone party's own.
    pub fn open<N: MpcNet>(&self, net: &mut N) -> (r: Fe)
        ensures
            same_net(*final(net), *old(net)),
            old(net).single_party() ==> r == self.val,
            !old(net).single_party() ==> final(net).rounds() == old(net).rounds() + 1,
            r.val() == round_value(*old(net), old(net).rounds(), self.val.val()),
    {
        let ghost net0 = *old(net);
        let mut mine: Vec<Fe> = Vec::new();
        mine.push(self.val);
        proof {
            assert(fe_vals(mine@) =~= seq![self.val.val()]);
        }
        let all = net.broadcast_fes(&mine);
        let ghost heard = (net0.fe_rounds())(net0.rounds(), seq![self.val.val()]);
        if all.len() == 0 {
            return self.val;
        }
        let mut acc = Fe::zero();
        let mut p: usize = 0;
        while p < all.len()
            invariant
                p <= all.len(),
                heard_values(all@, heard),
                acc.val() == fe_column_sum(heard.take(p as int), 0),
            decreases all.len() - p,
        {
            proof {
                assert(heard.take(p as int + 1).drop_last() =~= heard.take(p as int));
                assert(heard.take(p as int + 1).last() == heard[p as int]);
                assert(fe_vals(all[p as int]@) == heard[p as int]);
            }
            if all[p].len() > 0 {
                proof {
                    assert(fe_vals(all[p as int]@)[0] == all[p as int][0].val());
                }
                acc = fe_add(&acc, &all[p][0]);
            } else {
                proof {
                    acc.lemma_val_bound();
                    vstd::arithmetic::div_mod::lemma_small_mod(acc.val(), modulus());
                    assert(fadd(acc.val(), 0) == acc.val());
                }
            }
            p = p + 1;
        }
        proof {
            assert(heard.take(heard.len() as int) =~= heard);
        }
        acc
    }

    /// Open a vector of shares in one broadcast; a lone party's own summands.
    pub fn batch_open<N: MpcNet>(shares: &[Self], net: &mut N) -> (r: Vec<Fe>)
        ensures
            same_net(*final(net), *old(net)),
            r.len() == shares.len(),
            old(net).single_party() ==> forall|i: int|
                0 <= i < r.len() ==> #[trigger] r[i] == shares[i].val,
            !old(net).single_party() ==> final(net).rounds() == old(net).rounds() + 1,
            forall|i: int|
                0 <= i < r.len() ==> #[trigger] r[i].val() == round_values(
                    *old(net),
                    old(net).rounds(),
                    share_vals(shares@),
                )[i],
    {
        let ghost net0 = *old(net);
        let n = shares.len();
        let mut mine: Vec<Fe> = Vec::new();
        let mut i: usize = 0;
        while i < n
            invariant
                n == shares.len(),
                i <= n,
                mine.len() == i,
                forall|j: int| 0 <= j < i ==> #[trigger] mine[j] == shares[j].val,
            decreases n - i,
        {
            mine.push(shares[i].val);
            i = i + 1;
        }
        proof {
            assert(fe_vals(mine@) =~= share_vals(shares@));
        }
        let all = net.broadcast_fes(&mine);
        let ghost heard = (net0.fe_rounds())(net0.rounds(), share_vals(shares@));
        if all.len() == 0 {
            return mine;
        }
        let mut results: Vec<Fe> = Vec::new();
        i = 0;
        while i < n
            invariant
                i <= n,
                results.len() == i,
                forall|j: int| 0 <= j < i ==> (#[trigger] results[j]).val() == 0,
            decreases n - i,
        {
            proof {
                vstd::arithmetic::div_mod::lemma_small_mod(0, modulus());
            }
            results.push(Fe::zero());
            i = i + 1;
        }
        let mut p: usize = 0;
        while p < all.len()
            invariant
                p <= all.len(),
                heard_values(all@, heard),
                results.len() == n,
                forall|j: int|
                    0 <= j < n ==> (#[trigger] results[j]).val() == fe_column_sum(
                        heard.take(p as int),
                        j,
                    ),
            decreases all.len() - p,
        {
            let party = &all[p];
            let ghost before = results@;
            proof {
                assert(heard.take(p as int + 1).drop_last() =~= heard.take(p as int));
                assert(heard.take(p as int + 1).last() == heard[p as int]);
                assert(fe_vals(party@) == heard[p as int]);
            }
            let mut k: usize = 0;
            while k < party.len() && k < n
                invariant
                    k <= n,
                    k <= party.len(),
                    results.len() == n,
                    before.len() == n,
                    fe_vals(party@) == heard[p as int],
                    forall|j: int|
                        0 <= j < k ==> (#[trigger] results[j]).val() == fadd(
                            before[j].val(),
                            party[j].val(),
                        ),
                    forall|j: int| k <= j < n ==> #[trigger] results[j] == before[j],
                decreases party.len() - k,
            {
                let x = fe_add(&results[k], &party[k]);
                results.set(k, x);
                k = k + 1;
            }
            proof {
                assert forall|j: int| 0 <= j < n implies (#[trigger] results[j]).val()
                    == fe_column_sum(heard.take(p as int + 1), j) by {
                    assert(before[j].val() == fe_column_sum(heard.take(p as int), j));
                    assert(fe_column_sum(heard.take(p as int + 1), j) == fadd(
                        fe_column_sum(heard.take(p as int), j),
                        if 0 <= j < heard[p as int].len() {
                            heard[p as int][j]
                        } else {
                            0
                        },
                    ));
                    assert(heard[p as int].len() == party.len());
                    if j < party.len() {
                        assert(j < k);
                        assert(fe_vals(party@)[j] == party[j].val());
                    } else {
                        before[j].lemma_val_bound();
                        vstd::arithmetic::div_mod::lemma_small_mod(before[j].val(), modulus());
                    }
                }
            }
            p = p + 1;
        }
        proof {
            assert(heard.take(heard.len() as int) =~= heard);
        }
        results
    }

    /// Beaver multiplication of two shared values with one triple and two openings.
    pub fn mul<S: BeaverSource, N: MpcNet>(self, other: Self, source: &mut S, net: &mut N) -> (r:
        Self)
        ensures
            same_net(*final(net), *old(net)),
            final(source).local_ok() == old(source).local_ok(),
            !old(net).single_party() ==> final(net).rounds() == old(net).rounds() + 2,
            forall|k: nat| #[trigger] final(source).triple_vals(k) == old(source).triple_vals(k + 1),
            ({
                let t = old(source).triple_vals(0);
                r.val.val() == beaver_finish(
                    t.0,
                    t.1,
                    t.2,
                    round_value(*old(net), old(net).rounds(), fadd(self.val.val(), t.0)),
                    round_value(*old(net), old(net).rounds() + 1, fadd(other.val.val(), t.1)),
                    old(net).king(),
                )
            }),
            old(net).single_party() && old(source).local_ok() ==> r.val.val() == fmul(
                self.val.val(),
                other.val.val(),
            ),
    {
        let ghost net0 = *old(net);
        let (mut x, mut y, z) = source.triple();
        let ghost (x0, y0) = (x, y);
        let mut s = self;
        s.add(&x);
        let sx = s.open(net);
        let mut o = other;
        o.add(&y);
        let oy = o.open(net);
        proof {
            if net0.single_party() {
                net0.lemma_single_party_hears_nothing();
                assert((net0.fe_rounds())(net0.rounds() + 1, seq![o.val.val()]).len() == 0);
            }
        }
        let mut result = z;
        y.scale(&sx);
        result.sub(&y);
        x.scale(&oy);
        result.sub(&x);
        let prod = fe_mul(&sx, &oy);
        result.shift(&prod, net);
        proof {
            if old(net).single_party() && old(source).local_ok() {
                net.lemma_single_party_is_king();
                lemma_beaver_mul_local(
                    self.val.val(),
                    other.val.val(),
                    x0.val.val(),
                    y0.val.val(),
                );
            }
        }
        result
    }

    /// Beaver multiplication of two vectors of shares, position by position,
    /// with one opening round for all positions.
    pub fn batch_mul<S: BeaverSource, N: MpcNet>(
        xs: Vec<Self>,
        ys: Vec<Self>,
        source: &mut S,
        net: &mut N,
    ) -> (r: Vec<Self>)
        requires
            xs.len() == ys.len(),
        ensures
            same_net(*final(net), *old(net)),
            final(source).local_ok() == old(source).local_ok(),
            r.len() == xs.len(),
            old(net).single_party() && old(source).local_ok() ==> forall|i: int|
                0 <= i < r.len() ==> #[trigger] r[i].val.val() == fmul(
                    xs[i].val.val(),
                    ys[i].val.val(),
                ),
            !old(net).single_party() ==> final(net).rounds() == old(net).rounds() + 2,
            forall|k: nat| #[trigger] final(source).triple_vals(k) == old(source).triple_vals(
                (k + xs.len()) as nat,
            ),
            forall|i: int|
                0 <= i < r.len() ==> #[trigger] r[i].val.val() == beaver_finish(
                    old(source).triple_vals(i as nat).0,
                    old(source).triple_vals(i as nat).1,
                    old(source).triple_vals(i as nat).2,
                    round_values(
                        *old(net),
                        old(net).rounds(),
                        Seq::new(
                            xs.len() as nat,
                            |j: int| fadd(xs[j].val.val(), old(source).triple_vals(j as nat).0),
                        ),
                    )[i],
                    round_values(
                        *old(net),
                        old(net).rounds() + 1,
                        Seq::new(
                            ys.len() as nat,
                            |j: int| fadd(ys[j].val.val(), old(source).triple_vals(j as nat).1),
                        ),
                    )[i],
                    old(net).king(),
                ),
    {
        let n = xs.len();
        let ghost local = old(source).local_ok();
        let ghost src0 = *old(source);
        let ghost net0 = *old(net);
        let ghost mx = Seq::new(
            xs.len() as nat,
            |j: int| fadd(xs[j].val.val(), src0.triple_vals(j as nat).0),
        );
        let ghost my = Seq::new(
            ys.len() as nat,
            |j: int| fadd(ys[j].val.val(), src0.triple_vals(j as nat).1),
        );
        let mut triples: Vec<(AdditiveFieldShare, AdditiveFieldShare, AdditiveFieldShare)> =
            Vec::new();
        let mut masked_x: Vec<AdditiveFieldShare> = Vec::new();
        let mut masked_y: Vec<AdditiveFieldShare> = Vec::new();
        let mut i: usize = 0;
        while i < n
            invariant
                n == xs.len(),
                n == ys.len(),
                i <= n,
                triples.len() == i,
                masked_x.len() == i,
                masked_y.len() == i,
                source.local_ok() == local,
                forall|k: nat| #[trigger] source.triple_vals(k) == src0.triple_vals((k + i) as nat),
                forall|j: int|
                    0 <= j < i ==> (triples[j].0.val.val(), triples[j].1.val.val(), #[trigger] triples[
                        j
                    ].2.val.val()) == src0.triple_vals(j as nat),
                local ==> forall|j: int|
                    0 <= j < i ==> #[trigger] triples[j].2.val.val() == fmul(
                        triples[j].0.val.val(),
                        triples[j].1.val.val(),
                    ),
                forall|j: int|
                    0 <= j < i ==> #[trigger] masked_x[j].val.val() == fadd(
                        xs[j].val.val(),
                        triples[j].0.val.val(),
                    ),
                forall|j: int|
                    0 <= j < i ==> #[trigger] masked_y[j].val.val() == fadd(
                        ys[j].val.val(),
                        triples[j].1.val.val(),
                    ),
            decreases n - i,
        {
            let ghost before = *source;
            let t = source.triple();
            proof {
                assert(before.triple_vals(0) == src0.triple_vals(i as nat));
                assert forall|k: nat| #[trigger] source.triple_vals(k) == src0.triple_vals(
                    (k + (i + 1)) as nat,
                ) by {
                    assert(before.triple_vals(k + 1) == src0.triple_vals((k + 1 + i) as nat));
                }
            }
            let mut sx = xs[i];
            sx.add(&t.0);
            let mut oy = ys[i];
            oy.add(&t.1);
            triples.push(t);
            masked_x.push(sx);
            masked_y.push(oy);
            i = i + 1;
        }
        proof {
            assert(mx.len() == n && my.len() == n);
            assert forall|j: int| 0 <= j < n implies #[trigger] share_vals(masked_x@)[j] == mx[j] by {
                let tv = src0.triple_vals(j as nat);
                assert((triples[j].0.val.val(), triples[j].1.val.val(), triples[j].2.val.val()) == tv);
                assert(masked_x[j].val.val() == fadd(xs[j].val.val(), triples[j].0.val.val()));
            }
            assert forall|j: int| 0 <= j < n implies #[trigger] share_vals(masked_y@)[j] == my[j] by {
                let tv = src0.triple_vals(j as nat);
                assert((triples[j].0.val.val(), triples[j].1.val.val(), triples[j].2.val.val()) == tv);
                assert(masked_y[j].val.val() == fadd(ys[j].val.val(), triples[j].1.val.val()));
            }
            assert(share_vals(masked_x@) =~= mx);
            assert(share_vals(masked_y@) =~= my);
        }
        let sxs = Self::batch_open(masked_x.as_slice(), net);
        let ghost net1 = *net;
        let oys = Self::batch_open(masked_y.as_slice(), net);
        proof {
            if old(net).single_party() {
                net.lemma_single_party_is_king();
                net0.lemma_single_party_hears_nothing();
                net1.lemma_single_party_hears_nothing();
                assert((net0.fe_rounds())(net0.rounds() + 1, my).len() == 0);
                assert((net1.fe_rounds())(net1.rounds(), my).len() == 0);
            }
            assert(round_values(net1, net1.rounds(), my) == round_values(
                net0,
                net0.rounds() + 1,
                my,
            ));
        }
        let mut results: Vec<Self> = Vec::new();
        i = 0;
        while i < n
            invariant
                n == xs.len(),
                n == ys.len(),
                triples.len() == n,
                masked_x.len() == n,
                masked_y.len() == n,
                sxs.len() == n,
                oys.len() == n,
                i <= n,
                results.len() == i,
                same_net(*net, *old(net)),
                net0 == *old(net),
                forall|j: int|
                    0 <= j < n ==> (triples[j].0.val.val(), triples[j].1.val.val(), #[trigger] triples[
                        j
                    ].2.val.val()) == src0.triple_vals(j as nat),
                forall|j: int|
                    0 <= j < n ==> #[trigger] sxs[j].val() == round_values(net0, net0.rounds(), mx)[j],
                forall|j: int|
                    0 <= j < n ==> #[trigger] oys[j].val() == round_values(
                        net0,
                        net0.rounds() + 1,
                        my,
                    )[j],
                forall|j: int|
                    0 <= j < i ==> #[trigger] results[j].val.val() == beaver_finish(
                        src0.triple_vals(j as nat).0,
                        src0.triple_vals(j as nat).1,
                        src0.triple_vals(j as nat).2,
                        sxs[j].val(),
                        oys[j].val(),
                        net0.king(),
                    ),
                old(net).single_party() ==> net.king(),
                old(net).single_party() ==> forall|j: int|
                    0 <= j < n ==> #[trigger] sxs[j] == masked_x[j].val,
                old(net).single_party() ==> forall|j: int|
                    0 <= j < n ==> #[trigger] oys[j] == masked_y[j].val,
                local ==> forall|j: int|
                    0 <= j < n ==> #[trigger] triples[j].2.val.val() == fmul(
                        triples[j].0.val.val(),
                        triples[j].1.val.val(),
                    ),
                forall|j: int|
                    0 <= j < n ==> #[trigger] masked_x[j].val.val() == fadd(
                        xs[j].val.val(),
                        triples[j].0.val.val(),
                    ),
                forall|j: int|
                    0 <= j < n ==> #[trigger] masked_y[j].val.val() == fadd(
                        ys[j].val.val(),
                        triples[j].1.val.val(),
                    ),
                old(net).single_party() && local ==> forall|j: int|
                    0 <= j < i ==> #[trigger] results[j].val.val() == fmul(
                        xs[j].val.val(),
                        ys[j].val.val(),
                    ),
            decreases n - i,
        {
            let (mut x, mut y, z) = triples[i];
            let ghost (x0, y0) = (x, y);
            let mut result = z;
            y.scale(&sxs[i]);
            result.sub(&y);
            x.scale(&oys[i]);
            result.sub(&x);
            let prod = fe_mul(&sxs[i], &oys[i]);
            result.shift(&prod, net);
            proof {
                if old(net).single_party() && local {
                    lemma_beaver_mul_local(
                        xs[i as int].val.val(),
                        ys[i as int].val.val(),
                        x0.val.val(),
                        y0.val.val(),
                    );
                }
            }
            results.push(result);
            i = i + 1;
        }
        results
    }

    /// Inverse of a shared value with one inverse pair (x, x⁻¹): opens x a and
    /// scales x⁻¹ by its inverse. `None` where the opened product is zero.
    #[verifier::spinoff_prover]
    pub fn inv<S: BeaverSource, N: MpcNet>(self, source: &mut S, net: &mut N) -> (r: Option<Self>)
        ensures
            same_net(*final(net), *old(net)),
            final(source).local_ok() == old(source).local_ok(),
            old(net).single_party() && old(source).local_ok() ==> (r is None <==> self.val.val()
                == 0),
            old(net).single_party() && old(source).local_ok() ==> (r matches Some(w) ==> w.val.val()
                == finv(self.val.val())),
            old(net).single_party() && old(source).local_ok() ==> (r matches Some(w) ==> is_inverse(
                self.val.val(),
                w.val.val(),
            )),
    {
        let (x, mut y) = source.inv_pair();
        let ghost (x0, y0) = (x, y);
        let xa_share = x.mul(self, source, net);
        let xa = xa_share.open(net);
        proof {
            if old(net).single_party() && old(source).local_ok() {
                assert(xa == xa_share.val);
                assert(xa_share.val.val() == fmul(x0.val.val(), self.val.val()));
            }
        }
        match fe_inverse(&xa) {
            Some(xa_inv) => {
                y.scale(&xa_inv);
                proof {
                    if old(net).single_party() && old(source).local_ok() {
                        if self.val.val() == 0 {
                            assert(x0.val.val() * 0 == 0);
                            vstd::arithmetic::div_mod::lemma_small_mod(0, modulus());
                            assert(fmul(x0.val.val(), 0) == 0);
                        }
                        assert(self.val.val() != 0);
                        lemma_inverse_of_masked(
                            x0.val.val(),
                            y0.val.val(),
                            self.val.val(),
                            xa_inv.val(),
                        );
                    }
                }
                Some(y)
            },
            None => {
                proof {
                    if old(net).single_party() && old(source).local_ok() {
                        lemma_zero_product(x0.val.val(), y0.val.val(), self.val.val());
                    }
                }
                None
            },
        }
    }

    /// Division by a shared value: self times the inverse of `other`.
    pub fn div<S: BeaverSource, N: MpcNet>(self, other: Self, source: &mut S, net: &mut N) -> (r:
        Option<Self>)
        ensures
            same_net(*final(net), *old(net)),
            final(source).local_ok() == old(source).local_ok(),
            old(net).single_party() && old(source).local_ok() ==> (r is None <==> other.val.val()
                == 0),
            old(net).single_party() && old(source).local_ok() ==> (r matches Some(q) ==> q.val.val()
                == fmul(self.val.val(), finv(other.val.val()))),
    {
        match other.inv(source, net) {
            Some(o_inv) => Some(self.mul(o_inv, source, net)),
            None => None,
        }
    }
}

/// A party's summand of the Beaver product of its summands x and y, made
/// with the t-th triple of its source and the openings of rounds k and k + 1.
pub open spec fn mul_share<S: BeaverSource, N: MpcNet>(
    x: nat,
    y: nat,
    src: S,
    t: nat,
    net: N,
    k: nat,
) -> nat {
    let tr = src.triple_vals(t);
    beaver_finish(
        tr.0,
        tr.1,
        tr.2,
        round_value(net, k, fadd(x, tr.0)),
        round_value(net, k + 1, fadd(y, tr.1)),
        net.king(),
    )
}

/// Bit i of v.
pub open spec fn value_bit(v: nat, i: nat) -> bool {
    v % crate::types::two_pow(i + 1) >= crate::types::two_pow(i)
}

/// A party's state after the first i steps of square-and-multiply on its
/// summand b of the base with the exponent e, every product a Beaver
/// multiplication with the next triple of the source and the next two
/// rounds of the run: its summand of the result, its summand of the running
/// square, and the number of products so far.
pub closed spec fn pow_run<S: BeaverSource, N: MpcNet>(
    b: nat,
    e: nat,
    i: nat,
    src: S,
    net: N,
) -> (nat, nat, nat)
    decreases i,
{
    if i == 0 {
        (
            if net.king() {
                1nat
            } else {
                0nat
            },
            b,
            0nat,
        )
    } else {
        let prev = pow_run(b, e, (i - 1) as nat, src, net);
        let m = prev.2;
        if value_bit(e, (i - 1) as nat) {
            let r = mul_share(prev.0, prev.1, src, m, net, net.rounds() + 2 * m);
            let c = mul_share(prev.1, prev.1, src, m + 1, net, net.rounds() + 2 * (m + 1));
            (r, c, m + 2)
        } else {
            let c = mul_share(prev.1, prev.1, src, m, net, net.rounds() + 2 * m);
            (prev.0, c, m + 1)
        }
    }
}

/// A party's summand of the inequality indicator (a - b)^(p-1) of shared
/// values, from its summands a and b: the power (a - b)^(p-2) by
/// square-and-multiply, then one more product with a - b.
pub open spec fn neq_share<S: BeaverSource, N: MpcNet>(a: nat, b: nat, src: S, net: N) -> nat {
    let c = fsub(a, b);
    let run = pow_run(c, (modulus() - 2) as nat, 256, src, net);
    mul_share(c, run.0, src, run.2, net, net.rounds() + 2 * run.2)
}

/// Bit i of a bit vector is bit i of the value it denotes.
pub proof fn lemma_bit_of_value(s: Seq<bool>, i: int)
    requires
        0 <= i < s.len(),
    ensures
        s[i] == value_bit(bits_val(s), i as nat),
{
    crate::bits::lemma_bits_val_take(s, i + 1);
    crate::bit_ops::lemma_bits_val_take_step(s, i);
    crate::bit_ops::lemma_bits_val_bound(s.take(i));
    assert(s.take(i).len() == i);
}

impl AdditiveFieldShare {
    /// base^exp by square-and-multiply over the bits of the exponent, least
    /// significant first, each step a Beaver multiplication.
    pub fn pow_bigint<S: BeaverSource, N: MpcNet>(
        base: Self,
        exp: &[u64; 4],
        source: &mut S,
        net: &mut N,
    ) -> (r: Self)
        ensures
            same_net(*final(net), *old(net)),
            final(source).local_ok() == old(source).local_ok(),
            old(net).single_party() && old(source).local_ok() ==> r.val.val() == fpow(
                base.val.val(),
                limbs_val(*exp),
            ),
            !old(net).single_party() ==> r.val.val() == pow_run(
                base.val.val(),
                limbs_val(*exp),
                256,
                *old(source),
                *old(net),
            ).0,
            !old(net).single_party() ==> final(net).rounds() == old(net).rounds() + 2 * pow_run(
                base.val.val(),
                limbs_val(*exp),
                256,
                *old(source),
                *old(net),
            ).2,
            forall|k: nat| #[trigger]
                final(source).triple_vals(k) == old(source).triple_vals(
                    k + pow_run(base.val.val(), limbs_val(*exp), 256, *old(source), *old(net)).2,
                ),
    {
        let bits = limbs_to_bits_le(*exp);
        let ghost src0 = *old(source);
        let ghost e = limbs_val(*exp);
        proof {
            assert forall|k: int| 0 <= k < 256 implies #[trigger] bits@[k] == value_bit(e, k as nat) by {
                lemma_bit_of_value(bits@, k);
            }
        }
        let ghost net0 = *old(net);
        let ghost sl = old(net).single_party() && old(source).local_ok();
        let ghost local = old(source).local_ok();
        let ghost b = base.val.val();
        proof {
            if net0.single_party() {
                net0.lemma_single_party_is_king();
            }
            assert(bits@.take(0) =~= Seq::<bool>::empty());
            assert(bits_val(Seq::<bool>::empty()) == 0);
            reveal_with_fuel(fpow, 2);
            assert(fpow(b, 1) == fmul(1, b));
            vstd::arithmetic::div_mod::lemma_small_mod(b, crate::field::modulus());
        }
        let mut result = Self::from_public(Fe::one(), net);
        let mut current = base;
        let mut i: usize = 0;
        while i < 256
            invariant
                bits.len() == 256,
                i <= 256,
                same_net(*net, net0),
                net0.single_party() ==> net0.king(),
                source.local_ok() == local,
                sl == (net0.single_party() && local),
                b == base.val.val(),
                sl ==> result.val.val() == fpow(b, bits_val(bits@.take(i as int))),
                sl ==> current.val.val() == fpow(b, crate::types::two_pow(i as nat)),
                e == limbs_val(*exp),
                forall|k: int| 0 <= k < 256 ==> #[trigger] bits@[k] == value_bit(e, k as nat),
                !net0.single_party() ==> result.val.val() == pow_run(b, e, i as nat, src0, net0).0,
                !net0.single_party() ==> current.val.val() == pow_run(b, e, i as nat, src0, net0).1,
                !net0.single_party() ==> net.rounds() == net0.rounds() + 2 * pow_run(
                    b,
                    e,
                    i as nat,
                    src0,
                    net0,
                ).2,
                forall|k: nat| #[trigger]
                    source.triple_vals(k) == src0.triple_vals(k + pow_run(b, e, i as nat, src0, net0).2),
            decreases 256 - i,
        {
            let ghost r0 = result.val.val();
            let ghost c0 = current.val.val();
            let ghost prev = pow_run(b, e, i as nat, src0, net0);
            proof {
                assert(pow_run(b, e, (i + 1) as nat, src0, net0) == {
                    let m = prev.2;
                    if value_bit(e, i as nat) {
                        (
                            mul_share(prev.0, prev.1, src0, m, net0, net0.rounds() + 2 * m),
                            mul_share(prev.1, prev.1, src0, m + 1, net0, net0.rounds() + 2 * (m + 1)),
                            m + 2,
                        )
                    } else {
                        (prev.0, mul_share(prev.1, prev.1, src0, m, net0, net0.rounds() + 2 * m), m + 1)
                    }
                });
                assert(bits@[i as int] == value_bit(e, i as nat));
                assert(source.triple_vals(0) == src0.triple_vals(prev.2));
                assert(source.triple_vals(1) == src0.triple_vals(prev.2 + 1));
            }
            if bits[i] {
                result = result.mul(current, source, net);
            }
            current = current.mul(current, source, net);
            proof {
                if sl {
                    let v = bits_val(bits@.take(i as int));
                    let t = crate::types::two_pow(i as nat);
                    crate::bit_ops::lemma_bits_val_take_step(bits@, i as int);
                    assert(crate::types::two_pow(i as nat + 1) == t + t);
                    lemma_fpow_add(b, t, t);
                    if bits[i as int] {
                        lemma_fpow_add(b, v, t);
                    }
                }
            }
            i = i + 1;
        }
        proof {
            assert(bits@.take(256) =~= bits@);
        }
        result
    }

    /// The shared inequality indicator (a - b)^(p-1), by Fermat's little
    /// theorem one where a and b differ and zero where they are equal.
    pub fn secure_neq<S: BeaverSource, N: MpcNet>(
        &self,
        other: &Self,
        source: &mut S,
        net: &mut N,
    ) -> (r: Self)
        ensures
            same_net(*final(net), *old(net)),
            final(source).local_ok() == old(source).local_ok(),
            old(net).single_party() && old(source).local_ok() ==> r.val.val() == fmul(
                fsub(self.val.val(), other.val.val()),
                fpow(fsub(self.val.val(), other.val.val()), (modulus() - 2) as nat),
            ),
            old(net).single_party() && old(source).local_ok() && self.val.val()
                == other.val.val() ==> r.val.val() == 0,
            !old(net).single_party() ==> r.val.val() == neq_share(
                self.val.val(),
                other.val.val(),
                *old(source),
                *old(net),
            ),
    {
        let ghost src0 = *old(source);
        let ghost net0 = *old(net);
        let mut c = *self;
        c.sub(other);
        let modulus_minus_two = modulus_minus_two_limbs();
        let d = Self::pow_bigint(c, &modulus_minus_two, source, net);
        proof {
            let run = pow_run(c.val.val(), (modulus() - 2) as nat, 256, src0, net0);
            assert(source.triple_vals(0) == src0.triple_vals(run.2));
        }
        let e = c.mul(d, source, net);
        proof {
            if self.val.val() == other.val.val() {
                let z = fsub(self.val.val(), other.val.val());
                assert(z == 0);
                let w = fpow(z, (modulus() - 2) as nat);
                assert(z * w == 0) by (nonlinear_arith)
                    requires
                        z == 0,
                ;
            }
        }
        e
    }
}

/// With x y = 1, the product x a is zero only for a = 0.
proof fn lemma_zero_product(x: nat, y: nat, a: nat)
    requires
        x < modulus(),
        y < modulus(),
        a < modulus(),
        is_inverse(x, y),
        fmul(x, a) == 0,
    ensures
        a == 0,
{
    let m = modulus() as int;
    lemma_residue(x);
    lemma_residue(y);
    lemma_residue(a);
    // y (x a) = (y x) a = a
    lemma_fmul_cong(y as int, (x * a) as int, y, fmul(x, a));
    lemma_fmul_cong((y * x) as int, a as int, fmul(y, x), a);
    assert((y * x) as int * (a as int) == (y as int) * ((x * a) as int)) by (nonlinear_arith);
    assert(fmul(y, x) == 1) by {
        assert(y * x == x * y) by (nonlinear_arith);
    }
    assert(fmul(1, a) == a);
}

/// With x = y and x y = 1, y times the inverse of x a is the inverse of a.
proof fn lemma_inverse_of_masked(x: nat, y: nat, a: nat, w: nat)
    requires
        x < modulus(),
        y < modulus(),
        a < modulus(),
        w < modulus(),
        x == y,
        is_inverse(fmul(x, a), w),
    ensures
        fmul(y, w) == finv(a),
        is_inverse(a, fmul(y, w)),
{
    let m = modulus() as int;
    let xa = fmul(x, a);
    let r = fmul(y, w);
    // a (y w) = (x a) w = 1
    lemma_residue(a);
    lemma_residue(w);
    lemma_residue(x);
    lemma_fmul_cong(x as int, w as int, x, w);
    lemma_fmul_cong(a as int, (x * w) as int, a, r);
    lemma_fmul_cong((x * a) as int, w as int, xa, w);
    assert((a as int) * ((x * w) as int) == ((x * a) as int) * (w as int)) by (nonlinear_arith);
    lemma_finv_is(a, r);
}


/// The product of the first `k` values.
pub open spec fn prefix_product(s: Seq<nat>, k: int) -> nat
    decreases k,
{
    if k <= 0 {
        1
    } else {
        fmul(prefix_product(s, k - 1), s[k - 1])
    }
}

/// The secrets of shares, as a lone party sees them.
pub open spec fn share_values(s: Seq<AdditiveFieldShare>) -> Seq<nat> {
    Seq::new(s.len(), |i: int| s[i].val.val())
}

proof fn lemma_fmul_one(x: nat)
    requires
        x < modulus(),
    ensures
        fmul(1, x) == x,
        fmul(x, 1) == x,
{
    vstd::arithmetic::div_mod::lemma_small_mod(x, modulus());
    assert(1 * x == x);
    assert(x * 1 == x);
}

proof fn lemma_fmul_swap(a: nat, b: nat)
    ensures
        fmul(a, b) == fmul(b, a),
{
    assert(a * b == b * a) by (nonlinear_arith);
}

/// m (m x) = x when m m = 1.
proof fn lemma_cancel_pair(m: nat, x: nat)
    requires
        m < modulus(),
        x < modulus(),
        fmul(m, m) == 1,
    ensures
        fmul(m, fmul(m, x)) == x,
{
    lemma_fmul_assoc(m, m, x);
    lemma_fmul_one(x);
}

/// One step of telescoping prefix products:
/// ((m x) m') ((a q) m) = (a (q x)) m' when m m = 1.
proof fn lemma_telescope_step(a: nat, q: nat, m: nat, x: nat, m2: nat)
    requires
        a < modulus(),
        q < modulus(),
        m < modulus(),
        x < modulus(),
        m2 < modulus(),
        fmul(m, m) == 1,
    ensures
        fmul(fmul(fmul(m, x), m2), fmul(fmul(a, q), m)) == fmul(fmul(a, fmul(q, x)), m2),
{
    let u = fmul(fmul(m, x), m2);
    let big_a = fmul(a, q);
    let v = fmul(big_a, m);
    lemma_fmul_swap(u, v);
    lemma_fmul_assoc(big_a, m, u);
    lemma_fmul_assoc(m, fmul(m, x), m2);
    lemma_cancel_pair(m, x);
    lemma_fmul_assoc(big_a, x, m2);
    lemma_fmul_assoc(a, q, x);
}

/// Unmasking the telescoped product: (m0 m) ((m0 q) m) = q, and m0 m is its
/// own inverse, when m0 m0 = 1 and m m = 1.
proof fn lemma_unmask(m0: nat, m: nat, q: nat)
    requires
        m0 < modulus(),
        m < modulus(),
        q < modulus(),
        fmul(m0, m0) == 1,
        fmul(m, m) == 1,
    ensures
        is_inverse(fmul(m0, m), fmul(m0, m)),
        fmul(fmul(m0, m), fmul(fmul(m0, q), m)) == q,
{
    let c = fmul(m0, m);
    let p = fmul(fmul(m0, q), m);
    lemma_fmul_assoc(m0, m, c);
    lemma_fmul_swap(m0, m);
    lemma_cancel_pair(m, m0);
    assert(fmul(m, c) == m0);
    assert(fmul(c, c) == 1);
    lemma_fmul_assoc(m0, m, p);
    lemma_fmul_swap(m, p);
    lemma_fmul_assoc(fmul(m0, q), m, m);
    lemma_fmul_one(fmul(m0, q));
    lemma_cancel_pair(m0, q);
}

impl AdditiveFieldShare {
    /// Inverses of shared values, one inverse pair (b, c) each: the products
    /// with the b are opened in one batch, and each c is scaled by the inverse
    /// of its opened product. `None` where an opened product is zero.
    pub fn batch_inv<S: BeaverSource, N: MpcNet>(xs: Vec<Self>, source: &mut S, net: &mut N) -> (r:
        Option<Vec<Self>>)
        ensures
            same_net(*final(net), *old(net)),
            final(source).local_ok() == old(source).local_ok(),
            r matches Some(v) ==> v.len() == xs.len(),
            old(net).single_party() && old(source).local_ok() ==> (r is None <==> exists|i: int|
                0 <= i < xs.len() && #[trigger] xs[i].val.val() == 0),
            old(net).single_party() && old(source).local_ok() ==> (r matches Some(v) ==> forall|i: int|
                0 <= i < xs.len() ==> #[trigger] v[i].val.val() == finv(xs[i].val.val())),
    {
        let n = xs.len();
        let ghost net0 = *old(net);
        let ghost local = old(source).local_ok();
        let mut bs: Vec<Self> = Vec::new();
        let mut cs: Vec<Self> = Vec::new();
        let mut i: usize = 0;
        while i < n
            invariant
                i <= n,
                n == xs.len(),
                bs.len() == i,
                cs.len() == i,
                source.local_ok() == local,
                local ==> forall|k: int|
                    0 <= k < i ==> is_inverse(#[trigger] bs[k].val.val(), cs[k].val.val())
                        && bs[k].val.val() == cs[k].val.val(),
            decreases n - i,
        {
            let (b, c) = source.inv_pair();
            bs.push(b);
            cs.push(c);
            i = i + 1;
        }
        let ghost xs0 = xs@;
        let ghost bs0 = bs@;
        let prods = Self::batch_mul(xs, bs, source, net);
        let opened = Self::batch_open(&prods, net);
        let ghost sl = net0.single_party() && local;
        let mut out: Vec<Self> = Vec::new();
        i = 0;
        while i < n
            invariant
                i <= n,
                n == xs0.len(),
                opened.len() == n,
                cs.len() == n,
                bs0.len() == n,
                out.len() == i,
                same_net(*net, net0),
                net0 == *old(net),
                local == old(source).local_ok(),
                xs0 == xs@,
                source.local_ok() == local,
                sl == (net0.single_party() && local),
                local ==> forall|k: int|
                    0 <= k < n ==> is_inverse(#[trigger] bs0[k].val.val(), cs[k].val.val())
                        && bs0[k].val.val() == cs[k].val.val(),
                sl ==> forall|k: int|
                    0 <= k < n ==> (#[trigger] opened[k]).val() == fmul(
                        xs0[k].val.val(),
                        bs0[k].val.val(),
                    ),
                sl ==> forall|k: int| 0 <= k < i ==> (#[trigger] xs0[k]).val.val() != 0,
                sl ==> forall|k: int|
                    0 <= k < i ==> (#[trigger] out[k]).val.val() == finv(xs0[k].val.val()),
            decreases n - i,
        {
            let ghost a = xs0[i as int].val.val();
            let ghost b = bs0[i as int].val.val();
            proof {
                if sl {
                    lemma_fmul_swap(a, b);
                }
            }
            match fe_inverse(&opened[i]) {
                Some(w) => {
                    let mut c = cs[i];
                    c.scale(&w);
                    proof {
                        if sl {
                            lemma_inverse_of_masked(b, cs[i as int].val.val(), a, w.val());
                            if a == 0 {
                                assert(a * b == 0);
                                assert(fmul(a, b) == 0);
                            }
                        }
                    }
                    let ghost prev = out@;
                    out.push(c);
                    proof {
                        if sl {
                            assert(a != 0);
                            assert forall|k: int| 0 <= k < i + 1 implies (#[trigger] out[k]).val.val()
                                == finv(xs0[k].val.val()) by {
                                if k < i {
                                    assert(out[k] == prev[k]);
                                }
                            }
                        }
                    }
                },
                None => {
                    proof {
                        if sl {
                            lemma_zero_product(b, cs[i as int].val.val(), a);
                            assert(xs0[i as int].val.val() == 0);
                        }
                    }
                    return None;
                },
            }
            i = i + 1;
        }
        Some(out)
    }

    /// Prefix products x_0, x_0 x_1, ... of shared values with n + 1 inverse
    /// pairs (m_i, m_i⁻¹): the values m_i x_i m_(i+1)⁻¹ are opened in one
    /// batch, their public prefix products telescope to
    /// m_0 (x_0 ... x_i) m_(i+1)⁻¹, and each is unmasked by the shared
    /// inverse of m_0 m_(i+1)⁻¹. `None` where such an inverse does not exist
    /// (never for a lone party with consistent preprocessing).
    pub fn partial_products<S: BeaverSource, N: MpcNet>(
        x: Vec<Self>,
        source: &mut S,
        net: &mut N,
    ) -> (r: Option<Vec<Self>>)
        requires
            x.len() < usize::MAX,
        ensures
            same_net(*final(net), *old(net)),
            final(source).local_ok() == old(source).local_ok(),
            r matches Some(v) ==> v.len() == x.len(),
            old(net).single_party() && old(source).local_ok() ==> r is Some && forall|i: int|
                0 <= i < x.len() ==> #[trigger] r->0[i].val.val() == prefix_product(
                    share_values(x@),
                    i + 1,
                ),
    {
        let n = x.len();
        let ghost net0 = *old(net);
        let ghost local = old(source).local_ok();
        let ghost xv = share_values(x@);
        let mut ms: Vec<Self> = Vec::new();
        let mut m_invs: Vec<Self> = Vec::new();
        let mut i: usize = 0;
        while i <= n
            invariant
                i <= n + 1,
                n == x.len(),
                n < usize::MAX,
                ms.len() == i,
                m_invs.len() == i,
                source.local_ok() == local,
                local ==> forall|k: int|
                    0 <= k < i ==> is_inverse(#[trigger] ms[k].val.val(), m_invs[k].val.val())
                        && ms[k].val.val() == m_invs[k].val.val(),
            decreases n + 1 - i,
        {
            let (m, m_inv) = source.inv_pair();
            ms.push(m);
            m_invs.push(m_inv);
            i = i + 1;
        }
        let mut head: Vec<Self> = Vec::new();
        let mut tail_a: Vec<Self> = Vec::new();
        let mut tail_b: Vec<Self> = Vec::new();
        let mut m0s: Vec<Self> = Vec::new();
        i = 0;
        while i < n
            invariant
                i <= n,
                n == x.len(),
                ms.len() == n + 1,
                m_invs.len() == n + 1,
                head.len() == i,
                tail_a.len() == i,
                tail_b.len() == i,
                m0s.len() == i,
                forall|k: int| 0 <= k < i ==> #[trigger] head[k] == ms[k],
                forall|k: int| 0 <= k < i ==> #[trigger] tail_a[k] == m_invs[k + 1],
                forall|k: int| 0 <= k < i ==> #[trigger] tail_b[k] == m_invs[k + 1],
                forall|k: int| 0 <= k < i ==> #[trigger] m0s[k] == ms[0],
            decreases n - i,
        {
            head.push(ms[i]);
            tail_a.push(m_invs[i + 1]);
            tail_b.push(m_invs[i + 1]);
            m0s.push(ms[0]);
            i = i + 1;
        }
        let ghost head0 = head@;
        let ghost tail0 = tail_a@;
        let mx = Self::batch_mul(head, x, source, net);
        let ghost mx0 = mx@;
        let mxm = Self::batch_mul(mx, tail_a, source, net);
        let mut prefix = Self::batch_open(&mxm, net);
        let ghost sl = net0.single_party() && local;
        let ghost mv = Seq::new((n + 1) as nat, |k: int| ms[k].val.val());
        proof {
            if sl {
                assert forall|k: int| 0 <= k <= n implies #[trigger] fmul(mv[k], mv[k]) == 1 by {
                    assert(is_inverse(ms[k].val.val(), m_invs[k].val.val()));
                }
                if n > 0 {
                    assert(prefix[0].val() == fmul(fmul(mv[0], xv[0]), mv[1]));
                    lemma_fmul_one(xv[0]);
                    assert(prefix_product(xv, 1) == fmul(prefix_product(xv, 0), xv[0]));
                }
            }
        }
        i = 1;
        while i < n
            invariant
                1 <= i,
                i <= n || n == 0,
                n == x.len(),
                prefix.len() == n,
                mv.len() == n + 1,
                xv == share_values(x@),
                sl ==> forall|k: int| 0 <= k <= n ==> #[trigger] fmul(mv[k], mv[k]) == 1,
                sl ==> forall|k: int|
                    0 <= k <= n ==> #[trigger] mv[k] < modulus(),
                sl ==> forall|k: int|
                    0 <= k < i && k < n ==> (#[trigger] prefix[k]).val() == fmul(
                        fmul(mv[0], prefix_product(xv, k + 1)),
                        mv[k + 1],
                    ),
                sl ==> forall|k: int|
                    i <= k < n ==> (#[trigger] prefix[k]).val() == fmul(
                        fmul(mv[k], xv[k]),
                        mv[k + 1],
                    ),
            decreases n - i,
        {
            let last = prefix[i - 1];
            let cur = fe_mul(&prefix[i], &last);
            proof {
                if sl {
                    lemma_prefix_product_bound(xv, i as int);
                    lemma_telescope_step(
                        mv[0],
                        prefix_product(xv, i as int),
                        mv[i as int],
                        xv[i as int],
                        mv[i + 1],
                    );
                }
            }
            prefix.set(i, cur);
            i = i + 1;
        }
        let mms = Self::batch_mul(m0s, tail_b, source, net);
        let ghost mms0 = mms@;
        match Self::batch_inv(mms, source, net) {
            Some(mut unmask) => {
                i = 0;
                while i < n
                    invariant
                        i <= n,
                        n == x.len(),
                        prefix.len() == n,
                        unmask.len() == n,
                        mms0.len() == n,
                        mv.len() == n + 1,
                        xv == share_values(x@),
                        sl ==> forall|k: int| 0 <= k <= n ==> #[trigger] fmul(mv[k], mv[k]) == 1,
                        sl ==> forall|k: int| 0 <= k <= n ==> #[trigger] mv[k] < modulus(),
                        sl ==> forall|k: int|
                            0 <= k < n ==> (#[trigger] prefix[k]).val() == fmul(
                                fmul(mv[0], prefix_product(xv, k + 1)),
                                mv[k + 1],
                            ),
                        sl ==> forall|k: int|
                            0 <= k < n ==> #[trigger] mms0[k].val.val() == fmul(mv[0], mv[k + 1]),
                        sl ==> forall|k: int|
                            i <= k < n ==> #[trigger] unmask[k].val.val() == finv(mms0[k].val.val()),
                        sl ==> forall|k: int|
                            0 <= k < i ==> #[trigger] unmask[k].val.val() == prefix_product(xv, k + 1),
                    decreases n - i,
                {
                    let mut u = unmask[i];
                    u.scale(&prefix[i]);
                    proof {
                        if sl {
                            lemma_prefix_product_bound(xv, i + 1);
                            lemma_unmask(mv[0], mv[i + 1], prefix_product(xv, i + 1));
                            lemma_finv_is(fmul(mv[0], mv[i + 1]), fmul(mv[0], mv[i + 1]));
                        }
                    }
                    unmask.set(i, u);
                    i = i + 1;
                }
                Some(unmask)
            },
            None => {
                proof {
                    if sl {
                        assert forall|k: int| 0 <= k < n implies #[trigger] mms0[k].val.val() != 0 by {
                            lemma_unmask(mv[0], mv[k + 1], 0);
                            assert(fmul(0nat, 0nat) == 0);
                        }
                    }
                }
                None
            },
        }
    }
}

proof fn lemma_prefix_product_bound(s: Seq<nat>, k: int)
    ensures
        prefix_product(s, k) < modulus(),
    decreases k,
{
    if k > 0 {
        lemma_prefix_product_bound(s, k - 1);
    }
}

} // verus!
