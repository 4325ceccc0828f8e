//! The prover's polynomials: the interpolated columns, the constraint
//! polynomial and its quotient by the domain's vanishing polynomial, and
//! their values at the challenge point.
//!
//! The constraint polynomial gathers the lookup argument's constraints:
//! with sel = 1 - (q_last + q_blind),
//! sel (Z(ωX)(A'+β)(S'+γ) - Z(A+β)(S+γ)) + sel (A'-S')(A' - A'(ω⁻¹X))
//! + ℓ0 (A'-S') + ℓ0 (1 - Z) + q_last (Z² - Z).
//! Where the constraints hold on the domain it is a multiple of X^n - 1.
use vstd::prelude::*;
use vstd::arithmetic::div_mod::{lemma_small_mod, lemma_sub_mod_noop};
use crate::bit_ops::same_net;
use crate::field::{
    Fe, domain_generator, fe_inverse, fe_mul, fe_sub, finv, fmul, fpow, fsub, lemma_val_lt_modulus,
    max_domain_size, modulus,
};
use crate::types::LookupOpenings;
use crate::utils::{compute_lagrange_basis_l0, lagrange_l0};
use crate::mpc_field::MpcField;
use crate::net::MpcNet;
use crate::poly::{ipow, peval};
use crate::series::poly_divmod;
use crate::vanishing::{lemma_domain_points, lemma_peval_mod_point, lemma_remainder_vanishes};
use crate::routing::no_zero_divisors;
use crate::poly_ops::{
    compute_lagrange_l0_polynomial, ev, interpolate, own_summand, own_summands, lemma_add_cong,
    lemma_mul_cong, lemma_sub_cong,
    pm, poly_add, poly_constant, poly_evaluate, poly_product, poly_scaled_argument, poly_sub,
};
use crate::prover::{LookupProver, grand_product, step_denominator};
use crate::share::round_value;
use crate::sorting::{all_public, values_of};
use crate::types::is_pow2;

verus! {

broadcast use lemma_val_lt_modulus;

/// `c` takes the value of evals[i] at ω^i on the size-n domain.
pub open spec fn interpolates(c: Seq<MpcField>, evals: Seq<MpcField>, n: nat) -> bool {
    forall|i: int|
        0 <= i < n ==> ev(c, fpow(domain_generator(n), i as nat) as int) == (#[trigger] evals[i]).value()
}

/// The coefficients take, at the domain points, this party's own summands of
/// the values (where the values are shared).
pub open spec fn interpolates_own(c: Seq<MpcField>, evals: Seq<MpcField>, n: nat, king: bool) -> bool {
    forall|i: int|
        0 <= i < n ==> ev(c, fpow(domain_generator(n), i as nat) as int) == own_summand(
            #[trigger] evals[i],
            king,
        )
}

/// The constraints at one point, from the values there of A, S, A', S', Z,
/// Z(ω·), A'(ω⁻¹·), the selectors and ℓ0.
pub open spec fn constraint_value(
    a: int,
    s: int,
    ap: int,
    sp: int,
    z: int,
    z_next: int,
    ap_prev: int,
    qb: int,
    ql: int,
    l0: int,
    beta: int,
    gamma: int,
) -> int {
    (1 - (ql + qb)) * ((z_next * (ap + beta)) * (sp + gamma) - (z * (a + beta)) * (s + gamma)) + (1
        - (ql + qb)) * ((ap - sp) * (ap - ap_prev)) + l0 * (ap - sp) + l0 * (1 - z) + ql * (z * z
        - z)
}

/// The constraints at x of the prover's interpolated polynomials.
pub open spec fn constraint_at(p: LookupProver, beta: int, gamma: int, x: int) -> int {
    let w = p.omega.val() as int;
    let winv = finv(p.omega.val()) as int;
    constraint_value(
        ev(p.a_poly->0@, x),
        ev(p.s_poly->0@, x),
        ev(p.a_prime_poly->0@, x),
        ev(p.s_prime_poly->0@, x),
        ev(p.z_poly->0@, x),
        ev(p.z_poly->0@, w * x),
        ev(p.a_prime_poly->0@, winv * x),
        ev(p.q_blind_poly->0@, x),
        ev(p.q_last_poly->0@, x),
        ev(p.l0_poly->0@, x),
        beta,
        gamma,
    )
}

/// The combined constraint at the i-th point ω^i of the domain: the stored
/// polynomials evaluated there, with the selectors and ℓ0 of row i (the
/// values that their interpolations take at ω^i).
pub open spec fn domain_constraint(p: LookupProver, beta: int, gamma: int, i: nat) -> int {
    let w = p.omega.val() as int;
    let winv = finv(p.omega.val()) as int;
    let x = fpow(p.omega.val(), i) as int;
    constraint_value(
        ev(p.a_poly->0@, x),
        ev(p.s_poly->0@, x),
        ev(p.a_prime_poly->0@, x),
        ev(p.s_prime_poly->0@, x),
        ev(p.z_poly->0@, x),
        ev(p.z_poly->0@, w * x),
        ev(p.a_prime_poly->0@, winv * x),
        p.q_blind_values@[i as int].val() as int,
        p.q_last_values@[i as int].val() as int,
        if i == 0 {
            1
        } else {
            0
        },
        beta,
        gamma,
    )
}

/// The prover's columns, selectors and domain are unchanged.
pub open spec fn same_columns(p: LookupProver, q: LookupProver) -> bool {
    &&& p.config == q.config
    &&& p.a_values == q.a_values
    &&& p.s_values == q.s_values
    &&& p.a_prime_values == q.a_prime_values
    &&& p.s_prime_values == q.s_prime_values
    &&& p.z_values == q.z_values
    &&& p.q_blind_values == q.q_blind_values
    &&& p.q_last_values == q.q_last_values
    &&& p.omega == q.omega
    &&& p.debug == q.debug
}

/// r = (u + v) mod p stands for U + V where u, v stand for U, V.
proof fn lemma_step_add(r: int, u: int, v: int, cu: int, cv: int)
    requires
        r == (u + v) % pm(),
        u % pm() == cu % pm(),
        v % pm() == cv % pm(),
    ensures
        r % pm() == (cu + cv) % pm(),
{
    lemma_add_cong(u, v, cu, cv);
    lemma_small_mod(r as nat, modulus());
}

/// r = (u - v) mod p stands for U - V where u, v stand for U, V.
proof fn lemma_step_sub(r: int, u: int, v: int, cu: int, cv: int)
    requires
        r == (u - v) % pm(),
        u % pm() == cu % pm(),
        v % pm() == cv % pm(),
    ensures
        r % pm() == (cu - cv) % pm(),
{
    lemma_sub_cong(u, v, cu, cv);
    lemma_small_mod(r as nat, modulus());
}

/// r = (u v) mod p stands for U V where u, v stand for U, V.
proof fn lemma_step_mul(r: int, u: int, v: int, cu: int, cv: int)
    requires
        r == (u * v) % pm(),
        u % pm() == cu % pm(),
        v % pm() == cv % pm(),
    ensures
        r % pm() == (cu * cv) % pm(),
{
    lemma_mul_cong(u, v, cu, cv);
    lemma_small_mod(r as nat, modulus());
}

/// A reduced value stands for itself.
proof fn lemma_reduced(v: int)
    requires
        0 <= v < pm(),
    ensures
        v % pm() == v,
{
    lemma_small_mod(v as nat, modulus());
}

/// Coefficients all zero evaluate to zero.
proof fn lemma_peval_zeros(c: Seq<int>, x: int)
    requires
        forall|k: int| 0 <= k < c.len() ==> #[trigger] c[k] == 0,
    ensures
        peval(c, x) == 0,
    decreases c.len(),
{
    if c.len() > 0 {
        lemma_peval_zeros(c.drop_first(), x);
        assert(x * 0 == 0);
    }
}

/// k zero coefficients then a one evaluate to x^k.
proof fn lemma_peval_monomial(c: Seq<int>, k: nat, x: int)
    requires
        c.len() == k + 1,
        forall|j: int| 0 <= j < k ==> #[trigger] c[j] == 0,
        c[k as int] == 1,
    ensures
        peval(c, x) == ipow(x, k),
    decreases k,
{
    if k > 0 {
        let rest = c.drop_first();
        assert forall|j: int| 0 <= j < k - 1 implies #[trigger] rest[j] == 0 by {
            assert(rest[j] == c[j + 1]);
        }
        assert(rest[k - 1] == c[k as int]);
        lemma_peval_monomial(rest, (k - 1) as nat, x);
        assert(c[0] == 0);
        assert(peval(c, x) == c[0] + x * peval(rest, x));
    } else {
        assert(c.drop_first() =~= Seq::<int>::empty());
        assert(peval(c.drop_first(), x) == 0);
        assert(x * 0 == 0);
    }
}

/// X^n - 1 with the constant -1 as the field's p - 1.
proof fn lemma_peval_vanishing(c: Seq<int>, n: nat, x: int)
    requires
        n >= 1,
        c.len() == n + 1,
        c[0] == pm() - 1,
        forall|j: int| 1 <= j < n ==> #[trigger] c[j] == 0,
        c[n as int] == 1,
    ensures
        peval(c, x) % pm() == (ipow(x, n) - 1) % pm(),
{
    let rest = c.drop_first();
    lemma_peval_monomial(rest, (n - 1) as nat, x);
    assert(x * ipow(x, (n - 1) as nat) == ipow(x, n));
    assert(peval(c, x) == (ipow(x, n) - 1) + pm());
    vstd::arithmetic::div_mod::lemma_mod_add_multiples_vanish(ipow(x, n) - 1, pm());
}

/// Public field elements as values.
fn public_column(v: &Vec<Fe>) -> (r: Vec<MpcField>)
    ensures
        r.len() == v.len(),
        all_public(r@),
        forall|i: int| 0 <= i < v.len() ==> #[trigger] r[i] == MpcField::Public(v[i]),
{
    let mut out: Vec<MpcField> = Vec::new();
    let mut i: usize = 0;
    while i < v.len()
        invariant
            i <= v.len(),
            out.len() == i,
            forall|k: int| 0 <= k < i ==> #[trigger] out[k] == MpcField::Public(v[k]),
        decreases v.len() - i,
    {
        out.push(MpcField::Public(v[i]));
        i = i + 1;
    }
    out
}

/// X^n - 1.
fn vanishing_polynomial(n: usize) -> (r: Vec<MpcField>)
    requires
        1 <= n < usize::MAX,
    ensures
        r.len() == n + 1,
        all_public(r@),
        r[n as int].value() == 1,
        forall|x: int| #[trigger] peval(values_of(r@), x) % pm() == (ipow(x, n as nat) - 1) % pm(),
{
    let mut out: Vec<MpcField> = Vec::new();
    out.push(MpcField::Public(fe_sub(&Fe::zero(), &Fe::one())));
    let mut i: usize = 1;
    while i < n
        invariant
            1 <= i <= n,
            out.len() == i,
            all_public(out@),
            out[0].value() == pm() - 1,
            forall|j: int| 1 <= j < i ==> (#[trigger] out[j]).value() == 0,
        decreases n - i,
    {
        out.push(MpcField::Public(Fe::zero()));
        i = i + 1;
    }
    out.push(MpcField::Public(Fe::one()));
    proof {
        assert forall|x: int| #[trigger] peval(values_of(out@), x) % pm() == (ipow(x, n as nat) - 1)
            % pm() by {
            let c = values_of(out@);
            assert forall|j: int| 1 <= j < n implies #[trigger] c[j] == 0 by {
                assert(out[j].value() == 0);
            }
            lemma_peval_vanishing(c, n as nat, x);
        }
    }
    out
}

impl LookupProver {
    /// Interpolate the columns A, S, A' and S' over the domain.
    pub fn interpolate_columns<N: MpcNet>(&mut self, net: &N)
        requires
            old(self).well_formed(),
            is_pow2(old(self).config.domain_size as nat),
            old(self).config.domain_size <= max_domain_size(),
        ensures
            same_columns(*final(self), *old(self)),
            final(self).z_poly == old(self).z_poly,
            final(self).q_blind_poly == old(self).q_blind_poly,
            final(self).q_last_poly == old(self).q_last_poly,
            final(self).l0_poly == old(self).l0_poly,
            final(self).quotient_poly == old(self).quotient_poly,
            final(self).a_poly is Some && final(self).s_poly is Some,
            final(self).a_prime_poly is Some && final(self).s_prime_poly is Some,
            final(self).a_poly->0.len() == old(self).config.domain_size,
            final(self).s_poly->0.len() == old(self).config.domain_size,
            final(self).a_prime_poly->0.len() == old(self).config.domain_size,
            final(self).s_prime_poly->0.len() == old(self).config.domain_size,
            all_public(old(self).a_values@) || net.single_party() ==> interpolates(
                final(self).a_poly->0@,
                old(self).a_values@,
                old(self).config.domain_size as nat,
            ),
            all_public(old(self).s_values@) || net.single_party() ==> interpolates(
                final(self).s_poly->0@,
                old(self).s_values@,
                old(self).config.domain_size as nat,
            ),
            all_public(old(self).a_prime_values@) || net.single_party() ==> interpolates(
                final(self).a_prime_poly->0@,
                old(self).a_prime_values@,
                old(self).config.domain_size as nat,
            ),
            all_public(old(self).s_prime_values@) || net.single_party() ==> interpolates(
                final(self).s_prime_poly->0@,
                old(self).s_prime_values@,
                old(self).config.domain_size as nat,
            ),
            !all_public(old(self).a_values@) ==> interpolates_own(
                final(self).a_poly->0@,
                old(self).a_values@,
                old(self).config.domain_size as nat,
                net.king(),
            ),
            !all_public(old(self).s_values@) ==> interpolates_own(
                final(self).s_poly->0@,
                old(self).s_values@,
                old(self).config.domain_size as nat,
                net.king(),
            ),
            !all_public(old(self).a_prime_values@) ==> interpolates_own(
                final(self).a_prime_poly->0@,
                old(self).a_prime_values@,
                old(self).config.domain_size as nat,
                net.king(),
            ),
            !all_public(old(self).s_prime_values@) ==> interpolates_own(
                final(self).s_prime_poly->0@,
                old(self).s_prime_values@,
                old(self).config.domain_size as nat,
                net.king(),
            ),
    {
        let a = interpolate(&self.a_values, net);
        let s = interpolate(&self.s_values, net);
        let ap = interpolate(&self.a_prime_values, net);
        let sp = interpolate(&self.s_prime_values, net);
        self.a_poly = Some(a);
        self.s_poly = Some(s);
        self.a_prime_poly = Some(ap);
        self.s_prime_poly = Some(sp);
    }

    /// Interpolate the grand product Z over the domain.
    pub fn interpolate_grand_product<N: MpcNet>(&mut self, net: &N)
        requires
            old(self).z_values is Some,
            old(self).z_values->0.len() == old(self).config.domain_size,
            is_pow2(old(self).config.domain_size as nat),
            old(self).config.domain_size <= max_domain_size(),
        ensures
            same_columns(*final(self), *old(self)),
            final(self).a_poly == old(self).a_poly,
            final(self).s_poly == old(self).s_poly,
            final(self).a_prime_poly == old(self).a_prime_poly,
            final(self).s_prime_poly == old(self).s_prime_poly,
            final(self).q_blind_poly == old(self).q_blind_poly,
            final(self).q_last_poly == old(self).q_last_poly,
            final(self).l0_poly == old(self).l0_poly,
            final(self).quotient_poly == old(self).quotient_poly,
            final(self).z_poly is Some,
            final(self).z_poly->0.len() == old(self).config.domain_size,
            all_public(old(self).z_values->0@) || net.single_party() ==> interpolates(
                final(self).z_poly->0@,
                old(self).z_values->0@,
                old(self).config.domain_size as nat,
            ),
            !all_public(old(self).z_values->0@) ==> interpolates_own(
                final(self).z_poly->0@,
                old(self).z_values->0@,
                old(self).config.domain_size as nat,
                net.king(),
            ),
    {
        let z = match &self.z_values {
            Some(values) => interpolate(values, net),
            None => Vec::new(),
        };
        self.z_poly = Some(z);
    }
}


/// A copy of a column.
fn copy_column(v: &Vec<MpcField>) -> (r: Vec<MpcField>)
    ensures
        r@ == v@,
{
    let mut out: Vec<MpcField> = Vec::new();
    let mut i: usize = 0;
    while i < v.len()
        invariant
            i <= v.len(),
            out@ == v@.take(i as int),
        decreases v.len() - i,
    {
        out.push(v[i]);
        i = i + 1;
        proof {
            assert(out@ =~= v@.take(i as int));
        }
    }
    proof {
        assert(v@.take(v.len() as int) =~= v@);
    }
    out
}

/// The polynomial stored in `p`, or nothing.
fn stored(p: &Option<Vec<MpcField>>) -> (r: Vec<MpcField>)
    ensures
        p is Some ==> r@ == p->0@,
{
    match p {
        Some(v) => copy_column(v),
        None => Vec::new(),
    }
}

/// The constraints at row i of the columns: A, S, A', S' and Z of the row,
/// Z of the next row and A' of the previous one (cyclically), the row's
/// selectors, and ℓ0 one at row 0 only. At ω^i the constraint polynomial of
/// interpolated columns takes this value.
pub open spec fn row_constraint(p: LookupProver, beta: int, gamma: int, i: int) -> int {
    let n = p.config.domain_size as int;
    let z = values_of(p.z_values->0@);
    let ap = values_of(p.a_prime_values@);
    constraint_value(
        values_of(p.a_values@)[i],
        values_of(p.s_values@)[i],
        ap[i],
        values_of(p.s_prime_values@)[i],
        z[i],
        z[(i + 1) % n],
        ap[(i + n - 1) % n],
        p.q_blind_values@[i].val() as int,
        p.q_last_values@[i].val() as int,
        if i == 0 {
            1
        } else {
            0
        },
        beta,
        gamma,
    )
}

/// The constraints of row i with Z the grand product of the columns (as
/// `compute_grand_product` fills it).
pub open spec fn product_row_constraint(p: LookupProver, beta: int, gamma: int, i: int) -> int {
    let n = p.config.domain_size as int;
    let u = p.config.num_usable_rows as nat;
    let a = values_of(p.a_values@);
    let s = values_of(p.s_values@);
    let ap = values_of(p.a_prime_values@);
    let sp = values_of(p.s_prime_values@);
    constraint_value(
        a[i],
        s[i],
        ap[i],
        sp[i],
        grand_product(a, s, ap, sp, beta, gamma, u, i as nat) as int,
        grand_product(a, s, ap, sp, beta, gamma, u, ((i + 1) % n) as nat) as int,
        ap[(i + n - 1) % n],
        p.q_blind_values@[i].val() as int,
        p.q_last_values@[i].val() as int,
        if i == 0 {
            1
        } else {
            0
        },
        beta,
        gamma,
    )
}

/// The interpolated polynomials take the columns' values on the domain.
pub open spec fn columns_interpolated(p: LookupProver) -> bool {
    let n = p.config.domain_size as nat;
    &&& p.z_values is Some
    &&& p.z_values->0.len() == n
    &&& p.a_values.len() == n
    &&& p.s_values.len() == n
    &&& p.a_prime_values.len() == n
    &&& p.s_prime_values.len() == n
    &&& interpolates(p.a_poly->0@, p.a_values@, n)
    &&& interpolates(p.s_poly->0@, p.s_values@, n)
    &&& interpolates(p.a_prime_poly->0@, p.a_prime_values@, n)
    &&& interpolates(p.s_prime_poly->0@, p.s_prime_values@, n)
    &&& interpolates(p.z_poly->0@, p.z_values->0@, n)
}

/// ω has order n: no positive power below the n-th is one.
pub open spec fn full_order(p: LookupProver) -> bool {
    forall|e: nat| 0 < e < p.config.domain_size ==> #[trigger] fpow(p.omega.val(), e) != 1
}

/// At ω^i the constraints of the interpolated columns are those of row i.
pub proof fn lemma_row_on_domain(p: LookupProver, bv: int, gv: int, i: nat)
    requires
        quotient_ready(p),
        full_order(p),
        columns_interpolated(p),
        i < p.config.domain_size,
    ensures
        domain_constraint(p, bv, gv, i) == row_constraint(p, bv, gv, i as int),
{
    let n = p.config.domain_size as nat;
    let w = p.omega.val();
    let x = fpow(w, i) as int;
    lemma_domain_points(w, n);
    let ii = i as int;
    let next = (i + 1) % n;
    let prev = ((i + n - 1) % (n as int)) as nat;
    // Z at ω x is Z at the next point.
    lemma_peval_mod_point(values_of(p.z_poly->0@), w * x);
    assert((w * x) % pm() == fmul(w, fpow(w, i)) as int);
    assert(ev(p.z_poly->0@, w * x) == ev(p.z_poly->0@, fpow(w, next) as int));
    assert(ev(p.z_poly->0@, fpow(w, next) as int) == p.z_values->0@[next as int].value());
    // A' at ω⁻¹ x is A' at the previous point.
    let winv = finv(w) as int;
    lemma_peval_mod_point(values_of(p.a_prime_poly->0@), winv * x);
    assert((winv * x) % pm() == fmul(finv(w), fpow(w, i)) as int);
    assert(ev(p.a_prime_poly->0@, winv * x) == ev(p.a_prime_poly->0@, fpow(w, prev) as int));
    assert(ev(p.a_prime_poly->0@, fpow(w, prev) as int) == p.a_prime_values@[prev as int].value());
    assert(ev(p.a_poly->0@, x) == p.a_values@[ii].value());
    assert(ev(p.s_poly->0@, x) == p.s_values@[ii].value());
    assert(ev(p.a_prime_poly->0@, x) == p.a_prime_values@[ii].value());
    assert(ev(p.s_prime_poly->0@, x) == p.s_prime_values@[ii].value());
    assert(ev(p.z_poly->0@, x) == p.z_values->0@[ii].value());
    assert((ii + 1) % (n as int) == next);
    assert((ii + n - 1) % (n as int) == prev as int);
    assert(values_of(p.z_values->0@)[next as int] == p.z_values->0@[next as int].value());
    assert(values_of(p.a_prime_values@)[prev as int] == p.a_prime_values@[prev as int].value());
}

/// What the quotient needs: the domain, its generator, the selectors and
/// the five interpolated columns.
pub open spec fn quotient_ready(p: LookupProver) -> bool {
    let n = p.config.domain_size;
    &&& 1 <= n
    &&& is_pow2(n as nat)
    &&& n <= max_domain_size()
    &&& 16 * n + 16 <= usize::MAX
    &&& p.omega.val() == domain_generator(n as nat)
    &&& fpow(p.omega.val(), n as nat) == 1
    &&& p.q_blind_values.len() == n
    &&& p.q_last_values.len() == n
    &&& p.a_poly is Some && p.a_poly->0.len() == n
    &&& p.s_poly is Some && p.s_poly->0.len() == n
    &&& p.a_prime_poly is Some && p.a_prime_poly->0.len() == n
    &&& p.s_prime_poly is Some && p.s_prime_poly->0.len() == n
    &&& p.z_poly is Some && p.z_poly->0.len() == n
}

/// A power of zero is zero.
proof fn lemma_zero_pow(n: nat)
    requires
        n >= 1,
    ensures
        fpow(0, n) == 0,
{
    assert(crate::field::fmul(fpow(0, (n - 1) as nat), 0) == 0) by {
        assert(fpow(0, (n - 1) as nat) * 0 == 0);
    }
}

/// What a party learns when it opens the coefficients of `rem` in order,
/// the shared ones in consecutive rounds from `base` on, and stops at the
/// first whose opened value is not zero: whether every one opened to zero,
/// and how many rounds it took (a public coefficient is read as it is).
pub open spec fn opened_verdict<N: MpcNet>(rem: Seq<MpcField>, net: N, base: nat) -> (bool, nat)
    decreases rem.len(),
{
    if rem.len() == 0 {
        (true, 0)
    } else {
        let c = rem[0];
        let used: nat = if c is Shared {
            1
        } else {
            0
        };
        let v = if c is Shared {
            round_value(net, base, c.value())
        } else {
            c.value()
        };
        if v != 0 {
            (false, used)
        } else {
            let rest = opened_verdict(rem.drop_first(), net, base + used);
            (rest.0, used + rest.1)
        }
    }
}

/// How many of the first j coefficients are shared, that is, how many
/// rounds their openings take.
pub open spec fn shared_before(rem: Seq<MpcField>, j: int) -> nat
    decreases j,
{
    if j <= 0 || rem.len() == 0 {
        0
    } else {
        (if rem[0] is Shared {
            1nat
        } else {
            0nat
        }) + shared_before(rem.drop_first(), j - 1)
    }
}

/// The opened value of coefficient j when the shared coefficients are
/// opened in consecutive rounds from `base` on.
pub open spec fn opened_coefficient<N: MpcNet>(rem: Seq<MpcField>, net: N, base: nat, j: int) -> nat {
    if rem[j] is Shared {
        round_value(net, base + shared_before(rem, j), rem[j].value())
    } else {
        rem[j].value()
    }
}

/// The verdict of the openings is true exactly when every coefficient opens
/// to zero.
pub proof fn lemma_opened_verdict_all_zero<N: MpcNet>(rem: Seq<MpcField>, net: N, base: nat)
    ensures
        opened_verdict(rem, net, base).0 == (forall|j: int|
            0 <= j < rem.len() ==> #[trigger] opened_coefficient(rem, net, base, j) == 0),
    decreases rem.len(),
{
    if rem.len() > 0 {
        let c = rem[0];
        let used: nat = if c is Shared {
            1
        } else {
            0
        };
        let tail = rem.drop_first();
        lemma_opened_verdict_all_zero(tail, net, base + used);
        assert(opened_coefficient(rem, net, base, 0) == (if c is Shared {
            round_value(net, base, c.value())
        } else {
            c.value()
        }));
        assert forall|j: int| 1 <= j < rem.len() implies #[trigger] opened_coefficient(
            rem,
            net,
            base,
            j,
        ) == opened_coefficient(tail, net, base + used, j - 1) by {
            assert(tail[j - 1] == rem[j]);
            assert(shared_before(rem, j) == used + shared_before(tail, j - 1));
        }
        if (forall|j: int| 0 <= j < rem.len() ==> #[trigger] opened_coefficient(rem, net, base, j) == 0) {
            assert forall|j: int| 0 <= j < tail.len() implies #[trigger] opened_coefficient(
                tail,
                net,
                base + used,
                j,
            ) == 0 by {
                assert(opened_coefficient(rem, net, base, j + 1) == 0);
            }
        }
        if opened_verdict(rem, net, base).0 {
            assert forall|j: int| 0 <= j < rem.len() implies #[trigger] opened_coefficient(
                rem,
                net,
                base,
                j,
            ) == 0 by {
                if j > 0 {
                    assert(opened_coefficient(tail, net, base + used, j - 1) == 0);
                }
            }
        }
    }
}

impl LookupProver {
    /// The quotient of the constraint polynomial by X^n - 1, stored with the
    /// interpolated selectors and ℓ0. The remainder's coefficients are
    /// opened; where one of them is not zero (the constraints fail somewhere
    /// on the domain, which among several parties only the opened values
    /// show) nothing is stored and the result is false. A lone party must
    /// bring constraints that vanish at every point of the domain.
    #[verifier::rlimit(60)]
    pub fn compute_quotient<N: MpcNet>(
        &mut self,
        beta: &MpcField,
        gamma: &MpcField,
        net: &mut N,
    ) -> (ok: bool)
        requires
            quotient_ready(*old(self)),
            old(net).single_party() ==> forall|i: nat|
                i < old(self).config.domain_size ==> #[trigger] domain_constraint(
                    *old(self),
                    beta.value() as int,
                    gamma.value() as int,
                    i,
                ) % pm() == 0,
        ensures
            same_net(*final(net), *old(net)),
            same_columns(*final(self), *old(self)),
            final(self).a_poly == old(self).a_poly,
            final(self).s_poly == old(self).s_poly,
            final(self).a_prime_poly == old(self).a_prime_poly,
            final(self).s_prime_poly == old(self).s_prime_poly,
            final(self).z_poly == old(self).z_poly,
            !ok ==> final(self).quotient_poly == old(self).quotient_poly,
            ok ==> final(self).quotient_poly is Some && final(self).q_blind_poly is Some
                && final(self).q_last_poly is Some && final(self).l0_poly is Some,
            ok && old(net).single_party() ==> forall|x: int|
                #[trigger] constraint_at(*final(self), beta.value() as int, gamma.value() as int, x)
                    % pm() == (ev(final(self).quotient_poly->0@, x) * (ipow(
                    x,
                    old(self).config.domain_size as nat,
                ) - 1)) % pm(),
            old(net).single_party() && no_zero_divisors() && full_order(*old(self)) ==> ok,
            final(self).remainder_poly is Some,
            !old(net).single_party() ==> exists|b: nat|
                b <= final(net).rounds() && #[trigger] opened_verdict(
                    final(self).remainder_poly->0@,
                    *old(net),
                    b,
                ) == (ok, (final(net).rounds() - b) as nat),
    {
        let n = self.config.domain_size;
        let ghost sp = old(net).single_party();
        let ghost net0 = *old(net);
        let ghost bv = beta.value() as int;
        let ghost gv = gamma.value() as int;
        proof {
            if self.omega.val() == 0 {
                lemma_zero_pow(n as nat);
            }
        }
        let w = MpcField::Public(self.omega);
        let w_inv = match fe_inverse(&self.omega) {
            Some(x) => MpcField::Public(x),
            None => MpcField::Public(Fe::zero()),
        };
        let qb_column = public_column(&self.q_blind_values);
        let ql_column = public_column(&self.q_last_values);
        let qbp = interpolate(&qb_column, &*net);
        let qlp = interpolate(&ql_column, &*net);
        let l0_values = compute_lagrange_l0_polynomial(n);
        let l0p = public_column(&l0_values);
        let a = stored(&self.a_poly);
        let s = stored(&self.s_poly);
        let ap = stored(&self.a_prime_poly);
        let spp = stored(&self.s_prime_poly);
        let z = stored(&self.z_poly);
        let one = poly_constant(MpcField::Public(Fe::one()));
        let bp = poly_constant(*beta);
        let gp = poly_constant(*gamma);
        // Shifted columns Z(ωX) and A'(ω⁻¹X).
        let zs = poly_scaled_argument(stored(&self.z_poly), w, net);
        let aps = poly_scaled_argument(stored(&self.a_prime_poly), w_inv, net);
        // Selector 1 - (q_last + q_blind).
        let t1 = poly_add(&qlp, &qbp, &*net);
        let sel = poly_sub(&one, &t1, &*net);
        // Permutation constraint.
        let ab = poly_add(&a, &bp, &*net);
        let sg = poly_add(&s, &gp, &*net);
        let apb = poly_add(&ap, &bp, &*net);
        let spg = poly_add(&spp, &gp, &*net);
        let l1 = poly_product(&zs, &apb, net);
        let lhs = poly_product(&l1, &spg, net);
        let r1 = poly_product(&z, &ab, net);
        let rhs = poly_product(&r1, &sg, net);
        let perm = poly_sub(&lhs, &rhs, &*net);
        let c1 = poly_product(&sel, &perm, net);
        // Subset constraint.
        let d1 = poly_sub(&ap, &spp, &*net);
        let d2 = poly_sub(&ap, &aps, &*net);
        let sub = poly_product(&d1, &d2, net);
        let c2 = poly_product(&sel, &sub, net);
        // Initial constraints.
        let c3 = poly_product(&l0p, &d1, net);
        let omz = poly_sub(&one, &z, &*net);
        let c4 = poly_product(&l0p, &omz, net);
        // Boundary constraint.
        let zz = poly_product(&z, &z, net);
        let zzm = poly_sub(&zz, &z, &*net);
        let c5 = poly_product(&qlp, &zzm, net);
        let s1 = poly_add(&c1, &c2, &*net);
        let s2 = poly_add(&s1, &c3, &*net);
        let s3 = poly_add(&s2, &c4, &*net);
        let cpoly = poly_add(&s3, &c5, &*net);
        let ghost w_val = self.omega.val() as int;
        let ghost winv_val = finv(self.omega.val()) as int;
        proof {
            if sp {
                assert forall|x: int| ev(cpoly@, x) == #[trigger] constraint_value(
                    ev(a@, x),
                    ev(s@, x),
                    ev(ap@, x),
                    ev(spp@, x),
                    ev(z@, x),
                    ev(z@, w_val * x),
                    ev(ap@, winv_val * x),
                    ev(qbp@, x),
                    ev(qlp@, x),
                    ev(l0p@, x),
                    bv,
                    gv,
                ) % pm() by {
                    let av = ev(a@, x);
                    let sv = ev(s@, x);
                    let apv = ev(ap@, x);
                    let spv = ev(spp@, x);
                    let zv = ev(z@, x);
                    let znv = ev(z@, w_val * x);
                    let appv = ev(ap@, winv_val * x);
                    let qbv = ev(qbp@, x);
                    let qlv = ev(qlp@, x);
                    let l0v = ev(l0p@, x);
                    lemma_reduced(av);
                    lemma_reduced(sv);
                    lemma_reduced(apv);
                    lemma_reduced(spv);
                    lemma_reduced(zv);
                    lemma_reduced(znv);
                    lemma_reduced(appv);
                    lemma_reduced(qbv);
                    lemma_reduced(qlv);
                    lemma_reduced(l0v);
                    lemma_reduced(bv);
                    lemma_reduced(gv);
                    lemma_reduced(1);
                    assert(ev(zs@, x) == znv);
                    assert(ev(aps@, x) == appv);
                    assert(ev(one@, x) == 1);
                    assert(ev(bp@, x) == bv);
                    assert(ev(gp@, x) == gv);
                    let selm = 1 - (qlv + qbv);
                    lemma_step_add(ev(t1@, x), qlv, qbv, qlv, qbv);
                    lemma_step_sub(ev(sel@, x), 1, ev(t1@, x), 1, qlv + qbv);
                    lemma_step_add(ev(ab@, x), av, bv, av, bv);
                    lemma_step_add(ev(sg@, x), sv, gv, sv, gv);
                    lemma_step_add(ev(apb@, x), apv, bv, apv, bv);
                    lemma_step_add(ev(spg@, x), spv, gv, spv, gv);
                    lemma_step_mul(ev(l1@, x), znv, ev(apb@, x), znv, apv + bv);
                    lemma_step_mul(ev(lhs@, x), ev(l1@, x), ev(spg@, x), znv * (apv + bv), spv + gv);
                    lemma_step_mul(ev(r1@, x), zv, ev(ab@, x), zv, av + bv);
                    lemma_step_mul(ev(rhs@, x), ev(r1@, x), ev(sg@, x), zv * (av + bv), sv + gv);
                    lemma_step_sub(
                        ev(perm@, x),
                        ev(lhs@, x),
                        ev(rhs@, x),
                        (znv * (apv + bv)) * (spv + gv),
                        (zv * (av + bv)) * (sv + gv),
                    );
                    lemma_step_mul(
                        ev(c1@, x),
                        ev(sel@, x),
                        ev(perm@, x),
                        selm,
                        (znv * (apv + bv)) * (spv + gv) - (zv * (av + bv)) * (sv + gv),
                    );
                    lemma_step_sub(ev(d1@, x), apv, spv, apv, spv);
                    lemma_step_sub(ev(d2@, x), apv, appv, apv, appv);
                    lemma_step_mul(ev(sub@, x), ev(d1@, x), ev(d2@, x), apv - spv, apv - appv);
                    lemma_step_mul(
                        ev(c2@, x),
                        ev(sel@, x),
                        ev(sub@, x),
                        selm,
                        (apv - spv) * (apv - appv),
                    );
                    lemma_step_mul(ev(c3@, x), l0v, ev(d1@, x), l0v, apv - spv);
                    lemma_step_sub(ev(omz@, x), 1, zv, 1, zv);
                    lemma_step_mul(ev(c4@, x), l0v, ev(omz@, x), l0v, 1 - zv);
                    lemma_step_mul(ev(zz@, x), zv, zv, zv, zv);
                    lemma_step_sub(ev(zzm@, x), ev(zz@, x), zv, zv * zv, zv);
                    lemma_step_mul(ev(c5@, x), qlv, ev(zzm@, x), qlv, zv * zv - zv);
                    let c1m = selm * ((znv * (apv + bv)) * (spv + gv) - (zv * (av + bv)) * (sv + gv));
                    let c2m = selm * ((apv - spv) * (apv - appv));
                    let c3m = l0v * (apv - spv);
                    let c4m = l0v * (1 - zv);
                    let c5m = qlv * (zv * zv - zv);
                    lemma_step_add(ev(s1@, x), ev(c1@, x), ev(c2@, x), c1m, c2m);
                    lemma_step_add(ev(s2@, x), ev(s1@, x), ev(c3@, x), c1m + c2m, c3m);
                    lemma_step_add(ev(s3@, x), ev(s2@, x), ev(c4@, x), c1m + c2m + c3m, c4m);
                    lemma_step_add(
                        ev(cpoly@, x),
                        ev(s3@, x),
                        ev(c5@, x),
                        c1m + c2m + c3m + c4m,
                        c5m,
                    );
                    lemma_reduced(ev(cpoly@, x));
                }
            }
        }
        let zh = vanishing_polynomial(n);
        proof {
            assert(zh[n as int] is Public);
            assert(cpoly.len() <= 5 * n + 5);
        }
        let (q, rem) = poly_divmod(&cpoly, &zh, net);
        let ghost settled = sp && no_zero_divisors() && full_order(*old(self));
        proof {
            if settled {
                let w = self.omega.val();
                assert forall|j: int| 0 <= j < n implies ev(
                    qbp@,
                    fpow(domain_generator(n as nat), j as nat) as int,
                ) == (#[trigger] self.q_blind_values@[j]).val() by {
                    assert(qb_column@[j] == MpcField::Public(self.q_blind_values@[j]));
                }
                assert forall|j: int| 0 <= j < n implies ev(
                    qlp@,
                    fpow(domain_generator(n as nat), j as nat) as int,
                ) == (#[trigger] self.q_last_values@[j]).val() by {
                    assert(ql_column@[j] == MpcField::Public(self.q_last_values@[j]));
                }
                assert(values_of(l0p@) =~= crate::permutation::fe_values(l0_values@));
                assert forall|i: nat| i < n implies #[trigger] peval(
                    values_of(cpoly@),
                    fpow(w, i) as int,
                ) % pm() == 0 by {
                    let x = fpow(w, i) as int;
                    assert(ev(qbp@, x) == self.q_blind_values@[i as int].val());
                    assert(ev(qlp@, x) == self.q_last_values@[i as int].val());
                    assert(ev(l0p@, x) == if i == 0 {
                        1int
                    } else {
                        0int
                    });
                    assert(ev(cpoly@, x) == constraint_value(
                        ev(a@, x),
                        ev(s@, x),
                        ev(ap@, x),
                        ev(spp@, x),
                        ev(z@, x),
                        ev(z@, w_val * x),
                        ev(ap@, winv_val * x),
                        ev(qbp@, x),
                        ev(qlp@, x),
                        ev(l0p@, x),
                        bv,
                        gv,
                    ) % pm());
                    assert(domain_constraint(*self, bv, gv, i) % pm() == 0);
                }
                lemma_remainder_vanishes(
                    values_of(cpoly@),
                    values_of(q@),
                    values_of(zh@),
                    values_of(rem@),
                    w,
                    n as nat,
                );
                assert forall|j: int| 0 <= j < rem.len() implies #[trigger] rem[j].value() == 0 by {
                    assert(values_of(rem@)[j] == 0);
                }
            }
        }
        let ghost base = net.rounds();
        let ghost mut used: nat = 0;
        let mut all_zero = true;
        let mut k: usize = 0;
        proof {
            assert(rem@.skip(0) =~= rem@);
        }
        while k < rem.len() && all_zero
            invariant
                k <= rem.len(),
                same_net(*net, net0),
                net0 == *old(net),
                sp == net0.single_party(),
                sp ==> forall|j: int| 0 <= j < k ==> (#[trigger] rem[j]).value() == 0,
                settled == (sp && no_zero_divisors() && full_order(*old(self))),
                settled ==> forall|j: int| 0 <= j < rem.len() ==> (#[trigger] rem[j]).value() == 0,
                settled ==> all_zero,
                bv == beta.value() as int,
                gv == gamma.value() as int,
                !sp ==> net.rounds() == base + used,
                !sp && all_zero ==> opened_verdict(rem@, net0, base) == ({
                    let rest = opened_verdict(rem@.skip(k as int), net0, base + used);
                    (rest.0, used + rest.1)
                }),
                !sp && !all_zero ==> opened_verdict(rem@, net0, base) == (false, used),
            decreases rem.len() - k + (if all_zero {
                1int
            } else {
                0int
            }),
        {
            let ghost net1 = *net;
            proof {
                let rest = rem@.skip(k as int);
                assert(rest[0] == rem[k as int]);
                assert(rest.drop_first() =~= rem@.skip(k + 1));
                if !sp {
                    assert(round_value(net1, net1.rounds(), rem[k as int].value()) == round_value(
                        net0,
                        base + used,
                        rem[k as int].value(),
                    ));
                }
            }
            let v = rem[k].revealed(net);
            if !v.is_zero() {
                proof {
                    if !sp && rem[k as int] is Shared {
                        used = used + 1;
                    }
                }
                all_zero = false;
            } else {
                proof {
                    if !sp && rem[k as int] is Shared {
                        used = used + 1;
                    }
                }
                k = k + 1;
            }
        }
        if !all_zero {
            let ghost rv = rem@;
            self.remainder_poly = Some(rem);
            proof {
                if !sp {
                    assert(self.remainder_poly->0@ == rv);
                    assert(opened_verdict(self.remainder_poly->0@, *old(net), base) == (
                        false,
                        (net.rounds() - base) as nat,
                    ));
                }
            }
            return false;
        }
        proof {
            if !sp {
                assert(rem@.skip(rem.len() as int) =~= Seq::<MpcField>::empty());
            }
        }
        let ghost rem_view = rem@;
        self.remainder_poly = Some(rem);
        proof {
            if !sp {
                assert(self.remainder_poly->0@ == rem_view);
                assert(opened_verdict(self.remainder_poly->0@, *old(net), base) == (
                    true,
                    (net.rounds() - base) as nat,
                ));
            }
        }
        proof {
            if sp {
                assert forall|x: int| #[trigger] ev(cpoly@, x) == (ev(q@, x) * (ipow(x, n as nat) - 1))
                    % pm() by {
                    let vr = values_of(rem_view);
                    assert forall|j: int| 0 <= j < vr.len() implies #[trigger] vr[j] == 0 by {
                        assert(rem_view[j].value() == 0);
                    }
                    lemma_peval_zeros(vr, x);
                    let pq = peval(values_of(q@), x);
                    let pz = peval(values_of(zh@), x);
                    assert(peval(values_of(cpoly@), x) % pm() == (pq * pz + 0) % pm());
                    vstd::arithmetic::div_mod::lemma_mod_twice(pq, pm());
                    lemma_mul_cong(pq, pz, ev(q@, x), ipow(x, n as nat) - 1);
                }
            }
        }
        self.q_blind_poly = Some(qbp);
        self.q_last_poly = Some(qlp);
        self.l0_poly = Some(l0p);
        self.quotient_poly = Some(q);
        proof {
            if sp {
                assert forall|x: int| #[trigger] constraint_at(*self, bv, gv, x) % pm() == (ev(
                    self.quotient_poly->0@,
                    x,
                ) * (ipow(x, n as nat) - 1)) % pm() by {
                    assert(ev(cpoly@, x) == constraint_value(
                        ev(a@, x),
                        ev(s@, x),
                        ev(ap@, x),
                        ev(spp@, x),
                        ev(z@, x),
                        ev(z@, w_val * x),
                        ev(ap@, winv_val * x),
                        ev(qbp@, x),
                        ev(qlp@, x),
                        ev(l0p@, x),
                        bv,
                        gv,
                    ) % pm());
                    vstd::arithmetic::div_mod::lemma_mod_twice(
                        constraint_at(*self, bv, gv, x),
                        pm(),
                    );
                }
            }
        }
        true
    }
}


/// A party's opened value of the polynomial c at x in round k after the
/// start: the value itself for public coefficients; else what the network
/// opens of the party's evaluation of its own summands.
pub open spec fn eval_opened<N: MpcNet>(c: Seq<MpcField>, x: nat, net: N, k: nat) -> nat {
    if all_public(c) {
        ev(c, x as int) as nat
    } else {
        round_value(
            net,
            net.rounds() + k,
            (peval(own_summands(c, net.king()), x as int) % pm()) as nat,
        )
    }
}

/// The rounds of one opening among several parties: one for shared
/// coefficients, none for public ones.
pub open spec fn eval_rounds(c: Seq<MpcField>) -> nat {
    if all_public(c) {
        0
    } else {
        1
    }
}

/// The opened value at `x` of a stored polynomial (zero where none is).
fn opened_value<N: MpcNet>(p: &Option<Vec<MpcField>>, x: &Fe, net: &mut N) -> (r: Fe)
    ensures
        same_net(*final(net), *old(net)),
        p is Some && old(net).single_party() ==> r.val() == ev(p->0@, x.val() as int),
        p is Some ==> r.val() == eval_opened(p->0@, x.val(), *old(net), 0),
        p is Some && !old(net).single_party() ==> final(net).rounds() == old(net).rounds()
            + eval_rounds(p->0@),
{
    let c = stored(p);
    let ghost net0 = *net;
    let v = poly_evaluate(&c, &MpcField::Public(*x), net);
    proof {
        crate::field::lemma_residue(x.val());
    }
    v.revealed(net)
}

/// The polynomials the evaluations read.
pub open spec fn evaluations_ready(p: LookupProver) -> bool {
    &&& p.a_poly is Some && p.s_poly is Some && p.a_prime_poly is Some && p.s_prime_poly is Some
    &&& p.z_poly is Some && p.q_blind_poly is Some && p.q_last_poly is Some
    &&& p.quotient_poly is Some
    &&& p.omega.val() != 0
}

impl LookupProver {
    /// The opened values at ζ of A, S, A', S', Z, the selectors and the
    /// quotient, of Z at ωζ and of A' at ω⁻¹ζ, and ℓ0(ζ) by its formula,
    /// as the proof's evaluations (with no opening proofs). `None` where
    /// ℓ0(ζ) is undefined: ζ ≠ 1 with n (ζ - 1) zero.
    pub fn compute_evaluations<N: MpcNet>(&self, zeta: &Fe, net: &mut N) -> (r: Option<
        LookupOpenings<()>,
    >)
        requires
            evaluations_ready(*self),
        ensures
            same_net(*final(net), *old(net)),
            r is None <==> (zeta.val() != 1 && fmul(
                self.config.domain_size as nat,
                fsub(zeta.val(), 1),
            ) == 0),
            old(net).single_party() && r is Some ==> {
                let o = r->0;
                let z = zeta.val() as int;
                let wz = fmul(self.omega.val(), zeta.val()) as int;
                let wiz = fmul(zeta.val(), finv(self.omega.val())) as int;
                &&& o.a_zeta.val() == ev(self.a_poly->0@, z)
                &&& o.s_zeta.val() == ev(self.s_poly->0@, z)
                &&& o.a_prime_zeta.val() == ev(self.a_prime_poly->0@, z)
                &&& o.s_prime_zeta.val() == ev(self.s_prime_poly->0@, z)
                &&& o.z_zeta.val() == ev(self.z_poly->0@, z)
                &&& o.z_omega_zeta.val() == ev(self.z_poly->0@, wz)
                &&& o.a_prime_omega_inv_zeta.val() == ev(self.a_prime_poly->0@, wiz)
                &&& o.q_blind_zeta.val() == ev(self.q_blind_poly->0@, z)
                &&& o.q_last_zeta.val() == ev(self.q_last_poly->0@, z)
                &&& o.q_zeta.val() == ev(self.quotient_poly->0@, z)
            },
            r matches Some(o) ==> o.l_0_zeta.val() == lagrange_l0(
                zeta.val(),
                self.config.domain_size as nat,
            ),
            !old(net).single_party() && r is Some ==> {
                let o = r->0;
                let z = zeta.val();
                let wz = fmul(self.omega.val(), zeta.val());
                let wiz = fmul(zeta.val(), finv(self.omega.val()));
                let k1 = eval_rounds(self.a_poly->0@);
                let k2 = k1 + eval_rounds(self.s_poly->0@);
                let k3 = k2 + eval_rounds(self.a_prime_poly->0@);
                let k4 = k3 + eval_rounds(self.s_prime_poly->0@);
                let k5 = k4 + eval_rounds(self.z_poly->0@);
                let k6 = k5 + eval_rounds(self.z_poly->0@);
                let k7 = k6 + eval_rounds(self.a_prime_poly->0@);
                let k8 = k7 + eval_rounds(self.q_blind_poly->0@);
                let k9 = k8 + eval_rounds(self.q_last_poly->0@);
                &&& o.a_zeta.val() == eval_opened(self.a_poly->0@, z, *old(net), 0)
                &&& o.s_zeta.val() == eval_opened(self.s_poly->0@, z, *old(net), k1)
                &&& o.a_prime_zeta.val() == eval_opened(self.a_prime_poly->0@, z, *old(net), k2)
                &&& o.s_prime_zeta.val() == eval_opened(self.s_prime_poly->0@, z, *old(net), k3)
                &&& o.z_zeta.val() == eval_opened(self.z_poly->0@, z, *old(net), k4)
                &&& o.z_omega_zeta.val() == eval_opened(self.z_poly->0@, wz, *old(net), k5)
                &&& o.a_prime_omega_inv_zeta.val() == eval_opened(
                    self.a_prime_poly->0@,
                    wiz,
                    *old(net),
                    k6,
                )
                &&& o.q_blind_zeta.val() == eval_opened(self.q_blind_poly->0@, z, *old(net), k7)
                &&& o.q_last_zeta.val() == eval_opened(self.q_last_poly->0@, z, *old(net), k8)
                &&& o.q_zeta.val() == eval_opened(self.quotient_poly->0@, z, *old(net), k9)
            },
    {
        let n = self.config.domain_size;
        let one = Fe::one();
        let denominator = fe_mul(&Fe::from_u64(n as u64), &fe_sub(zeta, &one));
        if !zeta.eq(&one) && denominator.is_zero() {
            return None;
        }
        let omega_inv = match fe_inverse(&self.omega) {
            Some(w) => w,
            None => Fe::zero(),
        };
        let omega_zeta = fe_mul(&self.omega, zeta);
        let omega_inv_zeta = fe_mul(zeta, &omega_inv);
        let ghost net0 = *old(net);
        let ghost m0 = *net;
        let a_zeta = opened_value(&self.a_poly, zeta, net);
        let ghost m1 = *net;
        let s_zeta = opened_value(&self.s_poly, zeta, net);
        let ghost m2 = *net;
        let a_prime_zeta = opened_value(&self.a_prime_poly, zeta, net);
        let ghost m3 = *net;
        let s_prime_zeta = opened_value(&self.s_prime_poly, zeta, net);
        let ghost m4 = *net;
        let z_zeta = opened_value(&self.z_poly, zeta, net);
        let ghost m5 = *net;
        let z_omega_zeta = opened_value(&self.z_poly, &omega_zeta, net);
        let ghost m6 = *net;
        let a_prime_omega_inv_zeta = opened_value(&self.a_prime_poly, &omega_inv_zeta, net);
        let ghost m7 = *net;
        let q_blind_zeta = opened_value(&self.q_blind_poly, zeta, net);
        let ghost m8 = *net;
        let q_last_zeta = opened_value(&self.q_last_poly, zeta, net);
        let ghost m9 = *net;
        let q_zeta = opened_value(&self.quotient_poly, zeta, net);
        proof {
            if !net0.single_party() {
                let z = zeta.val();
                assert(eval_opened(self.s_poly->0@, z, m1, 0) == eval_opened(self.s_poly->0@, z, net0, (m1.rounds() - net0.rounds()) as nat));
                assert(eval_opened(self.a_prime_poly->0@, z, m2, 0) == eval_opened(self.a_prime_poly->0@, z, net0, (m2.rounds() - net0.rounds()) as nat));
                assert(eval_opened(self.s_prime_poly->0@, z, m3, 0) == eval_opened(self.s_prime_poly->0@, z, net0, (m3.rounds() - net0.rounds()) as nat));
                assert(eval_opened(self.z_poly->0@, z, m4, 0) == eval_opened(self.z_poly->0@, z, net0, (m4.rounds() - net0.rounds()) as nat));
                assert(eval_opened(self.z_poly->0@, omega_zeta.val(), m5, 0) == eval_opened(self.z_poly->0@, omega_zeta.val(), net0, (m5.rounds() - net0.rounds()) as nat));
                assert(eval_opened(self.a_prime_poly->0@, omega_inv_zeta.val(), m6, 0) == eval_opened(self.a_prime_poly->0@, omega_inv_zeta.val(), net0, (m6.rounds() - net0.rounds()) as nat));
                assert(eval_opened(self.q_blind_poly->0@, z, m7, 0) == eval_opened(self.q_blind_poly->0@, z, net0, (m7.rounds() - net0.rounds()) as nat));
                assert(eval_opened(self.q_last_poly->0@, z, m8, 0) == eval_opened(self.q_last_poly->0@, z, net0, (m8.rounds() - net0.rounds()) as nat));
                assert(eval_opened(self.quotient_poly->0@, z, m9, 0) == eval_opened(self.quotient_poly->0@, z, net0, (m9.rounds() - net0.rounds()) as nat));
            }
        }
        let l_0_zeta = compute_lagrange_basis_l0(*zeta, n, self.omega);
        Some(
            LookupOpenings {
                a_zeta,
                s_zeta,
                a_prime_zeta,
                s_prime_zeta,
                z_zeta,
                z_omega_zeta,
                a_prime_omega_inv_zeta,
                q_blind_zeta,
                q_last_zeta,
                l_0_zeta,
                q_zeta,
                proof_zeta: (),
                proof_omega_zeta: (),
                proof_omega_inv_zeta: (),
            },
        )
    }
}


/// What the proof steps need: well-formed columns, the domain, its
/// generator and the selectors.
pub open spec fn prover_ready(p: LookupProver) -> bool {
    let n = p.config.domain_size;
    &&& p.well_formed()
    &&& is_pow2(n as nat)
    &&& n <= max_domain_size()
    &&& 16 * n + 16 <= usize::MAX
    &&& p.omega.val() == domain_generator(n as nat)
    &&& fpow(p.omega.val(), n as nat) == 1
    &&& full_order(p)
    &&& p.q_blind_values.len() == n
    &&& p.q_last_values.len() == n
}

impl LookupProver {
    /// The proof's evaluations for challenges β, γ and ζ: interpolate the
    /// columns, compute and interpolate the grand product, compute the
    /// quotient and evaluate (commitments and the transcript that draws the
    /// challenges from them are not part of this library). `None` where the
    /// grand product or the quotient cannot be formed (which among several
    /// parties only the opened values show) or ℓ0(ζ) is undefined. Public
    /// columns and a lone party's columns must keep the grand product's
    /// denominators from zero, and a lone party's rows must satisfy the
    /// constraints; a lone party over a field without zero divisors, at ζ
    /// where ℓ0 is defined, then gets the evaluations.
    pub fn prove_with_challenges<N: MpcNet>(
        &mut self,
        beta: &Fe,
        gamma: &Fe,
        zeta: &Fe,
        net: &mut N,
    ) -> (r: Option<LookupOpenings<()>>)
        requires
            prover_ready(*old(self)),
            (all_public(old(self).a_values@) && all_public(old(self).s_values@) && all_public(
                old(self).a_prime_values@,
            ) && all_public(old(self).s_prime_values@)) || old(net).single_party() ==> forall|
                k: int,
            |
                0 <= k < old(self).config.domain_size - 1 ==> #[trigger] step_denominator(
                    values_of(old(self).a_values@),
                    values_of(old(self).s_values@),
                    values_of(old(self).a_prime_values@),
                    values_of(old(self).s_prime_values@),
                    beta.val() as int,
                    gamma.val() as int,
                    old(self).config.num_usable_rows as nat,
                    k,
                ) != 0,
            old(net).single_party() ==> forall|i: int|
                0 <= i < old(self).config.domain_size ==> #[trigger] product_row_constraint(
                    *old(self),
                    beta.val() as int,
                    gamma.val() as int,
                    i,
                ) % pm() == 0,
        ensures
            same_net(*final(net), *old(net)),
            final(self).config == old(self).config,
            final(self).a_values == old(self).a_values,
            final(self).s_values == old(self).s_values,
            final(self).a_prime_values == old(self).a_prime_values,
            final(self).s_prime_values == old(self).s_prime_values,
            final(self).omega == old(self).omega,
            r is Some ==> final(self).z_values is Some && evaluations_ready(*final(self)),
            zeta.val() != 1 && fmul(old(self).config.domain_size as nat, fsub(zeta.val(), 1)) == 0
                ==> r is None,
            old(net).single_party() && no_zero_divisors() && !(zeta.val() != 1 && fmul(
                old(self).config.domain_size as nat,
                fsub(zeta.val(), 1),
            ) == 0) ==> r is Some,
            r is Some && old(net).single_party() ==> forall|x: int|
                #[trigger] constraint_at(*final(self), beta.val() as int, gamma.val() as int, x)
                    % pm() == (ev(final(self).quotient_poly->0@, x) * (ipow(
                    x,
                    old(self).config.domain_size as nat,
                ) - 1)) % pm(),
            r is Some && old(net).single_party() ==> {
                let o = r->0;
                let p = *final(self);
                let z = zeta.val() as int;
                &&& o.a_zeta.val() == ev(p.a_poly->0@, z)
                &&& o.s_zeta.val() == ev(p.s_poly->0@, z)
                &&& o.a_prime_zeta.val() == ev(p.a_prime_poly->0@, z)
                &&& o.s_prime_zeta.val() == ev(p.s_prime_poly->0@, z)
                &&& o.z_zeta.val() == ev(p.z_poly->0@, z)
                &&& o.z_omega_zeta.val() == ev(p.z_poly->0@, fmul(p.omega.val(), zeta.val()) as int)
                &&& o.a_prime_omega_inv_zeta.val() == ev(
                    p.a_prime_poly->0@,
                    fmul(zeta.val(), finv(p.omega.val())) as int,
                )
                &&& o.q_blind_zeta.val() == ev(p.q_blind_poly->0@, z)
                &&& o.q_last_zeta.val() == ev(p.q_last_poly->0@, z)
                &&& o.q_zeta.val() == ev(p.quotient_poly->0@, z)
                &&& o.l_0_zeta.val() == lagrange_l0(zeta.val(), p.config.domain_size as nat)
            },
    {
        let beta_m = MpcField::Public(*beta);
        let gamma_m = MpcField::Public(*gamma);
        let ghost p0 = *old(self);
        let ghost bv = beta.val() as int;
        let ghost gv = gamma.val() as int;
        let ghost sp = old(net).single_party();
        self.interpolate_columns(&*net);
        if !self.compute_grand_product(beta_m, gamma_m, net) {
            return None;
        }
        self.interpolate_grand_product(&*net);
        proof {
            if sp {
                let n = p0.config.domain_size as int;
                let u = p0.config.num_usable_rows as nat;
                let a = values_of(p0.a_values@);
                let s = values_of(p0.s_values@);
                let ap = values_of(p0.a_prime_values@);
                let spv = values_of(p0.s_prime_values@);
                let z = values_of(self.z_values->0@);
                assert(beta_m.value() as int == bv && gamma_m.value() as int == gv);
                assert(columns_interpolated(*self));
                assert(full_order(*self));
                assert forall|i: nat| i < self.config.domain_size implies #[trigger] domain_constraint(
                    *self,
                    bv,
                    gv,
                    i,
                ) % pm() == 0 by {
                    lemma_row_on_domain(*self, bv, gv, i);
                    let ii = i as int;
                    let next = (ii + 1) % n;
                    assert(0 <= next < n);
                    assert(z[ii] == self.z_values->0@[ii].value());
                    assert(z[next] == self.z_values->0@[next].value());
                    assert(z[ii] == grand_product(a, s, ap, spv, bv, gv, u, i) as int);
                    assert(z[next] == grand_product(a, s, ap, spv, bv, gv, u, next as nat) as int);
                    assert(row_constraint(*self, bv, gv, ii) == product_row_constraint(p0, bv, gv, ii));
                }
            }
        }
        if !self.compute_quotient(&beta_m, &gamma_m, net) {
            return None;
        }
        let ghost bq = beta_m.value() as int;
        let ghost gq = gamma_m.value() as int;
        proof {
            if self.omega.val() == 0 {
                lemma_zero_pow(self.config.domain_size as nat);
            }
            if old(net).single_party() {
                assert forall|x: int| #[trigger] constraint_at(
                    *self,
                    beta.val() as int,
                    gamma.val() as int,
                    x,
                ) % pm() == (ev(self.quotient_poly->0@, x) * (ipow(
                    x,
                    self.config.domain_size as nat,
                ) - 1)) % pm() by {
                    assert(bq == beta.val() as int);
                    assert(gq == gamma.val() as int);
                    assert(constraint_at(*self, bq, gq, x) % pm() == (ev(self.quotient_poly->0@, x)
                        * (ipow(x, self.config.domain_size as nat) - 1)) % pm());
                }
            }
        }
        self.compute_evaluations(zeta, net)
    }
}

} // verus!
