//! The prover's columns and its grand product.
//!
//! The prover holds the query column A, the table column S and their
//! permutations A' and S', each padded with public zeros to the domain size,
//! and the public selector columns. The grand product Z starts at one and
//! steps, on the usable rows, by (A + β)(S + γ) / ((A' + β)(S' + γ)), and on
//! the rows after them by the inverse ratio, up to the last row.
use vstd::prelude::*;
use crate::bit_ops::same_net;
use crate::field::{
    Fe, domain_generator, fadd, fe_domain_generator, finv, fmul, is_inverse, lemma_val_lt_modulus,
    max_domain_size,
};
use crate::mpc_field::MpcField;
use crate::net::MpcNet;
use crate::permutation::is_resized;
use crate::poly::{ipow, peval};
use crate::sorting::{all_public, values_of};
use crate::telescope::{lemma_grand_product_returns_to_one, lemma_grand_product_stays};
use crate::types::{LookupConfig, is_pow2};
use crate::utils::{boundary_row, compute_selector_polynomials};

verus! {

broadcast use lemma_val_lt_modulus;

/// The prover's state: configuration, columns, grand product and selectors.
pub struct LookupProver {
    /// The argument's configuration.
    pub config: LookupConfig,
    /// Query column A, padded to the domain size.
    pub a_values: Vec<MpcField>,
    /// Table column S, padded to the domain size.
    pub s_values: Vec<MpcField>,
    /// Permuted query column A'.
    pub a_prime_values: Vec<MpcField>,
    /// Permuted table column S'.
    pub s_prime_values: Vec<MpcField>,
    /// Grand product Z, once computed.
    pub z_values: Option<Vec<MpcField>>,
    /// Selector of the blinding rows.
    pub q_blind_values: Vec<Fe>,
    /// Selector of the boundary row.
    pub q_last_values: Vec<Fe>,
    /// Generator ω of the evaluation domain.
    pub omega: Fe,
    /// Coefficients of the interpolated query column A.
    pub a_poly: Option<Vec<MpcField>>,
    /// Coefficients of the interpolated table column S.
    pub s_poly: Option<Vec<MpcField>>,
    /// Coefficients of the interpolated permuted query column A'.
    pub a_prime_poly: Option<Vec<MpcField>>,
    /// Coefficients of the interpolated permuted table column S'.
    pub s_prime_poly: Option<Vec<MpcField>>,
    /// Coefficients of the interpolated grand product Z.
    pub z_poly: Option<Vec<MpcField>>,
    /// Coefficients of the interpolated blinding selector.
    pub q_blind_poly: Option<Vec<MpcField>>,
    /// Coefficients of the interpolated boundary selector.
    pub q_last_poly: Option<Vec<MpcField>>,
    /// Coefficients of the first Lagrange basis polynomial ℓ0.
    pub l0_poly: Option<Vec<MpcField>>,
    /// Coefficients of the quotient polynomial.
    pub quotient_poly: Option<Vec<MpcField>>,
    /// Coefficients of the remainder of the constraint polynomial by
    /// X^n - 1, as the last quotient computation left them (an honest run
    /// opens every one of them to zero).
    pub remainder_poly: Option<Vec<MpcField>>,
    /// Whether to report intermediate values.
    pub debug: bool,
}

/// The prover's domain generator and polynomials are those of `q`.
pub open spec fn same_polys(p: LookupProver, q: LookupProver) -> bool {
    &&& p.omega == q.omega
    &&& p.a_poly == q.a_poly
    &&& p.s_poly == q.s_poly
    &&& p.a_prime_poly == q.a_prime_poly
    &&& p.s_prime_poly == q.s_prime_poly
    &&& p.z_poly == q.z_poly
    &&& p.q_blind_poly == q.q_blind_poly
    &&& p.q_last_poly == q.q_last_poly
    &&& p.l0_poly == q.l0_poly
    &&& p.quotient_poly == q.quotient_poly
}

/// (a + β)(s + γ) in the field.
pub open spec fn row_factor(a: int, s: int, beta: int, gamma: int) -> nat {
    fmul(fadd(a as nat, beta as nat), fadd(s as nat, gamma as nat))
}

/// The grand product's entry i: one at row 0, then each row k multiplies by
/// the ratio of row k (A and S over A' and S' on the usable rows, the inverse
/// after them).
pub open spec fn grand_product(
    a: Seq<int>,
    s: Seq<int>,
    ap: Seq<int>,
    sp: Seq<int>,
    beta: int,
    gamma: int,
    usable: nat,
    i: nat,
) -> nat
    decreases i,
{
    if i == 0 {
        1
    } else {
        let k = (i - 1) as nat;
        let plain = row_factor(a[k as int], s[k as int], beta, gamma);
        let permuted = row_factor(ap[k as int], sp[k as int], beta, gamma);
        let (num, den) = if k < usable {
            (plain, permuted)
        } else {
            (permuted, plain)
        };
        fmul(grand_product(a, s, ap, sp, beta, gamma, usable, k), fmul(num, finv(den)))
    }
}

/// The denominator of row k of the grand product.
pub open spec fn step_denominator(
    a: Seq<int>,
    s: Seq<int>,
    ap: Seq<int>,
    sp: Seq<int>,
    beta: int,
    gamma: int,
    usable: nat,
    k: int,
) -> nat {
    if k < usable {
        row_factor(ap[k], sp[k], beta, gamma)
    } else {
        row_factor(a[k], s[k], beta, gamma)
    }
}

impl LookupProver {
    /// The columns have the domain's size, which has room for the usable rows.
    pub open spec fn well_formed(&self) -> bool {
        &&& self.config.domain_size >= 1
        &&& self.config.num_usable_rows < self.config.domain_size
        &&& self.a_values.len() == self.config.domain_size
        &&& self.s_values.len() == self.config.domain_size
        &&& self.a_prime_values.len() == self.config.domain_size
        &&& self.s_prime_values.len() == self.config.domain_size
    }

    /// A prover for query column `a_values` and table column `s_values`,
    /// each cut or padded with public zeros to the domain size, with the
    /// selector columns of the configuration, the domain's generator, and no
    /// permuted columns or polynomials yet.
    pub fn new(config: LookupConfig, a_values: Vec<MpcField>, s_values: Vec<MpcField>, debug: bool) -> (p:
        Self)
        requires
            is_pow2(config.domain_size as nat),
            config.domain_size <= max_domain_size(),
        ensures
            p.omega.val() == domain_generator(config.domain_size as nat),
            crate::field::fpow(p.omega.val(), config.domain_size as nat) == 1,
            forall|e: nat|
                0 < e < config.domain_size ==> #[trigger] crate::field::fpow(p.omega.val(), e) != 1,
            p.a_poly is None && p.s_poly is None && p.a_prime_poly is None && p.s_prime_poly is None,
            p.z_poly is None && p.quotient_poly is None,
            p.q_blind_poly is None && p.q_last_poly is None && p.l0_poly is None,
            p.config == config,
            is_resized(a_values@, p.a_values@, config.domain_size as nat),
            is_resized(s_values@, p.s_values@, config.domain_size as nat),
            p.a_prime_values.len() == 0,
            p.s_prime_values.len() == 0,
            p.z_values is None,
            p.q_blind_values.len() == config.domain_size,
            p.q_last_values.len() == config.domain_size,
            forall|i: int|
                0 <= i < config.domain_size ==> #[trigger] p.q_blind_values[i].val() == (if i
                    > boundary_row(config.domain_size as nat, config.num_blinding_rows as nat) {
                    1nat
                } else {
                    0nat
                }),
            forall|i: int|
                0 <= i < config.domain_size ==> #[trigger] p.q_last_values[i].val() == (if i
                    == boundary_row(config.domain_size as nat, config.num_blinding_rows as nat) {
                    1nat
                } else {
                    0nat
                }),
            p.debug == debug,
    {
        let size = config.domain_size;
        let padded_a = pad_column(a_values, size);
        let padded_s = pad_column(s_values, size);
        let (q_blind_values, q_last_values) = compute_selector_polynomials(
            size,
            config.num_blinding_rows,
        );
        let omega = fe_domain_generator(size);
        LookupProver {
            config,
            a_values: padded_a,
            s_values: padded_s,
            a_prime_values: Vec::new(),
            s_prime_values: Vec::new(),
            z_values: None,
            q_blind_values,
            q_last_values,
            omega,
            a_poly: None,
            s_poly: None,
            a_prime_poly: None,
            s_prime_poly: None,
            z_poly: None,
            q_blind_poly: None,
            q_last_poly: None,
            l0_poly: None,
            quotient_poly: None,
            remainder_poly: None,
            debug,
        }
    }

    /// Sets the permuted columns S' and A', each cut or padded with public
    /// zeros to the domain size.
    pub fn set_permuted_values(&mut self, s_prime: Vec<MpcField>, a_prime: Vec<MpcField>)
        ensures
            final(self).config == old(self).config,
            final(self).a_values == old(self).a_values,
            final(self).s_values == old(self).s_values,
            final(self).z_values == old(self).z_values,
            final(self).q_blind_values == old(self).q_blind_values,
            final(self).q_last_values == old(self).q_last_values,
            final(self).debug == old(self).debug,
            same_polys(*final(self), *old(self)),
            is_resized(s_prime@, final(self).s_prime_values@, old(self).config.domain_size as nat),
            is_resized(a_prime@, final(self).a_prime_values@, old(self).config.domain_size as nat),
    {
        let size = self.config.domain_size;
        self.s_prime_values = pad_column(s_prime, size);
        self.a_prime_values = pad_column(a_prime, size);
    }
}

/// A column cut or padded with public zeros to `len` entries.
fn pad_column(v: Vec<MpcField>, len: usize) -> (r: Vec<MpcField>)
    ensures
        is_resized(v@, r@, len as nat),
{
    let mut out: Vec<MpcField> = Vec::new();
    let mut i: usize = 0;
    while i < len
        invariant
            i <= len,
            out.len() == i,
            forall|k: int|
                0 <= k < i ==> if k < v.len() {
                    #[trigger] out[k] == v[k]
                } else {
                    out[k] is Public && out[k].value() == 0
                },
        decreases len - i,
    {
        if i < v.len() {
            out.push(v[i]);
        } else {
            out.push(MpcField::Public(Fe::zero()));
        }
        i = i + 1;
    }
    out
}

/// (a + β)(s + γ).
fn row_product<N: MpcNet>(
    a: &MpcField,
    s: &MpcField,
    beta: &MpcField,
    gamma: &MpcField,
    net: &mut N,
) -> (r: MpcField)
    ensures
        same_net(*final(net), *old(net)),
        *a is Public && *s is Public && *beta is Public && *gamma is Public ==> r is Public,
        (*a is Public && *s is Public && *beta is Public && *gamma is Public)
            || old(net).single_party() ==> r.value() == row_factor(
            a.value() as int,
            s.value() as int,
            beta.value() as int,
            gamma.value() as int,
        ),
{
    let left = a.add(beta, net);
    let right = s.add(gamma, net);
    left.mul(&right, net)
}

/// Where the rows after the usable ones repeat the columns in the permuted
/// columns, a grand product that is one after the usable rows stays one.
proof fn lemma_padding_keeps_one(
    z: Seq<MpcField>,
    a: Seq<int>,
    s: Seq<int>,
    ap: Seq<int>,
    sp: Seq<int>,
    bv: int,
    gv: int,
    usable: nat,
    n: nat,
)
    requires
        usable < n,
        z.len() == n,
        forall|k: int|
            0 <= k < n ==> (#[trigger] z[k]).value() == grand_product(a, s, ap, sp, bv, gv, usable, k as nat),
        grand_product(a, s, ap, sp, bv, gv, usable, usable) == 1,
        forall|k: int|
            0 <= k < n - 1 ==> #[trigger] is_inverse(
                step_denominator(a, s, ap, sp, bv, gv, usable, k),
                finv(step_denominator(a, s, ap, sp, bv, gv, usable, k)),
            ),
    ensures
        (forall|k: int| usable <= k < n - 1 ==> #[trigger] ap[k] == a[k] && sp[k] == s[k])
            ==> forall|i: int| usable <= i < n ==> (#[trigger] z[i]).value() == 1,
{
    if forall|k: int| usable <= k < n - 1 ==> #[trigger] ap[k] == a[k] && sp[k] == s[k] {
        assert forall|i: int| usable <= i < n implies (#[trigger] z[i]).value() == 1 by {
            lemma_grand_product_stays(a, s, ap, sp, bv, gv, usable, i as nat);
        }
    }
}

impl LookupProver {
    /// The grand product Z over the whole domain (see the module's
    /// description), stored in `z_values`. Every row's denominator is
    /// inverted; where one cannot be (a zero denominator, which among several
    /// parties with shared columns only the opened values show), nothing is
    /// stored and the result is false. Public columns and a lone party's
    /// columns must keep the denominators from zero.
    pub fn compute_grand_product<N: MpcNet>(
        &mut self,
        beta: MpcField,
        gamma: MpcField,
        net: &mut N,
    ) -> (ok: bool)
        requires
            old(self).well_formed(),
            (all_public(old(self).a_values@) && all_public(old(self).s_values@) && all_public(
                old(self).a_prime_values@,
            ) && all_public(old(self).s_prime_values@) && beta is Public && gamma is Public)
                || old(net).single_party() ==> forall|k: int|
                0 <= k < old(self).config.domain_size - 1 ==> #[trigger] step_denominator(
                    values_of(old(self).a_values@),
                    values_of(old(self).s_values@),
                    values_of(old(self).a_prime_values@),
                    values_of(old(self).s_prime_values@),
                    beta.value() as int,
                    gamma.value() as int,
                    old(self).config.num_usable_rows as nat,
                    k,
                ) != 0,
        ensures
            same_net(*final(net), *old(net)),
            final(self).config == old(self).config,
            final(self).a_values == old(self).a_values,
            final(self).s_values == old(self).s_values,
            final(self).a_prime_values == old(self).a_prime_values,
            final(self).s_prime_values == old(self).s_prime_values,
            final(self).q_blind_values == old(self).q_blind_values,
            final(self).q_last_values == old(self).q_last_values,
            final(self).debug == old(self).debug,
            same_polys(*final(self), *old(self)),
            !ok ==> final(self).z_values == old(self).z_values,
            ok ==> final(self).z_values is Some,
            ok ==> final(self).z_values->0.len() == old(self).config.domain_size,
            ({
                let a = values_of(old(self).a_values@);
                let s = values_of(old(self).s_values@);
                let ap = values_of(old(self).a_prime_values@);
                let sp = values_of(old(self).s_prime_values@);
                let usable = old(self).config.num_usable_rows as nat;
                let n = old(self).config.domain_size;
                (all_public(old(self).a_values@) && all_public(old(self).s_values@) && all_public(
                    old(self).a_prime_values@,
                ) && all_public(old(self).s_prime_values@) && beta is Public && gamma is Public)
                    || old(net).single_party() ==> {
                    &&& ok <==> forall|k: int|
                        0 <= k < n - 1 ==> #[trigger] step_denominator(
                            a,
                            s,
                            ap,
                            sp,
                            beta.value() as int,
                            gamma.value() as int,
                            usable,
                            k,
                        ) != 0
                    &&& ok ==> forall|i: int|
                        0 <= i < n ==> (#[trigger] final(self).z_values->0[i]).value()
                            == grand_product(
                            a,
                            s,
                            ap,
                            sp,
                            beta.value() as int,
                            gamma.value() as int,
                            usable,
                            i as nat,
                        )
                    &&& ok ==> forall|k: int|
                        0 <= k < n - 1 ==> #[trigger] is_inverse(
                            step_denominator(
                                a,
                                s,
                                ap,
                                sp,
                                beta.value() as int,
                                gamma.value() as int,
                                usable,
                                k,
                            ),
                            finv(
                                step_denominator(
                                    a,
                                    s,
                                    ap,
                                    sp,
                                    beta.value() as int,
                                    gamma.value() as int,
                                    usable,
                                    k,
                                ),
                            ),
                        )
                    &&& ok && a.subrange(0, usable as int).to_multiset() == ap.subrange(
                        0,
                        usable as int,
                    ).to_multiset() && s.subrange(0, usable as int).to_multiset() == sp.subrange(
                        0,
                        usable as int,
                    ).to_multiset() ==> final(self).z_values->0[usable as int].value() == 1
                    &&& ok && a.subrange(0, usable as int).to_multiset() == ap.subrange(
                        0,
                        usable as int,
                    ).to_multiset() && s.subrange(0, usable as int).to_multiset() == sp.subrange(
                        0,
                        usable as int,
                    ).to_multiset() && (forall|k: int|
                        usable <= k < n - 1 ==> #[trigger] ap[k] == a[k] && sp[k] == s[k])
                        ==> forall|i: int|
                        usable <= i < n ==> (#[trigger] final(self).z_values->0[i]).value() == 1
                }
            }),
    {
        let n = self.config.domain_size;
        let usable = self.config.num_usable_rows;
        let ghost net0 = *old(net);
        let ghost a = values_of(self.a_values@);
        let ghost s = values_of(self.s_values@);
        let ghost ap = values_of(self.a_prime_values@);
        let ghost sp = values_of(self.s_prime_values@);
        let ghost exact = (all_public(self.a_values@) && all_public(self.s_values@) && all_public(
            self.a_prime_values@,
        ) && all_public(self.s_prime_values@) && beta is Public && gamma is Public)
            || net0.single_party();
        let ghost pubs = exact && !net0.single_party();
        let ghost bv = beta.value() as int;
        let ghost gv = gamma.value() as int;
        let mut z: Vec<MpcField> = Vec::new();
        z.push(MpcField::Public(Fe::one()));
        let mut i: usize = 0;
        while i < n - 1
            invariant
                *self == *old(self),
                net0 == *old(net),
                n == self.config.domain_size,
                usable == self.config.num_usable_rows,
                self.well_formed(),
                i <= n - 1,
                z.len() == i + 1,
                same_net(*net, net0),
                a == values_of(self.a_values@),
                s == values_of(self.s_values@),
                ap == values_of(self.a_prime_values@),
                sp == values_of(self.s_prime_values@),
                bv == beta.value() as int,
                gv == gamma.value() as int,
                exact == ((all_public(self.a_values@) && all_public(self.s_values@) && all_public(
                    self.a_prime_values@,
                ) && all_public(self.s_prime_values@) && beta is Public && gamma is Public)
                    || net0.single_party()),
                exact && !net0.single_party() ==> all_public(z@),
                exact ==> forall|k: int|
                    0 <= k < i ==> #[trigger] step_denominator(a, s, ap, sp, bv, gv, usable as nat, k)
                        != 0,
                exact ==> forall|k: int|
                    0 <= k < i ==> #[trigger] is_inverse(
                        step_denominator(a, s, ap, sp, bv, gv, usable as nat, k),
                        finv(step_denominator(a, s, ap, sp, bv, gv, usable as nat, k)),
                    ),
                exact ==> forall|k: int|
                    0 <= k <= i ==> (#[trigger] z[k]).value() == grand_product(
                        a,
                        s,
                        ap,
                        sp,
                        bv,
                        gv,
                        usable as nat,
                        k as nat,
                    ),
            decreases n - 1 - i,
        {
            proof {
                if exact && !net0.single_party() {
                    assert(self.a_values[i as int] is Public);
                    assert(self.s_values[i as int] is Public);
                    assert(self.a_prime_values[i as int] is Public);
                    assert(self.s_prime_values[i as int] is Public);
                    assert(z[i as int] is Public);
                }
            }
            let plain = row_product(
                &self.a_values[i],
                &self.s_values[i],
                &beta,
                &gamma,
                net,
            );
            let permuted = row_product(
                &self.a_prime_values[i],
                &self.s_prime_values[i],
                &beta,
                &gamma,
                net,
            );
            let (numerator, denominator) = if i < usable {
                (plain, permuted)
            } else {
                (permuted, plain)
            };
            let inverse = denominator.inv(net);
            match inverse {
                Some(w) => {
                    let ratio = numerator.mul(&w, net);
                    let next = z[i].mul(&ratio, net);
                    proof {
                        if exact {
                            assert(step_denominator(a, s, ap, sp, bv, gv, usable as nat, i as int)
                                == denominator.value());
                            assert(denominator.value() != 0);
                            assert(is_inverse(denominator.value(), finv(denominator.value())));
                            assert(next.value() == grand_product(
                                a,
                                s,
                                ap,
                                sp,
                                bv,
                                gv,
                                usable as nat,
                                (i + 1) as nat,
                            ));
                        }
                    }
                    z.push(next);
                },
                None => {
                    proof {
                        if exact {
                            assert(step_denominator(a, s, ap, sp, bv, gv, usable as nat, i as int)
                                == 0);
                        }
                    }
                    return false;
                },
            }
            i = i + 1;
        }
        proof {
            if exact && a.subrange(0, usable as int).to_multiset() == ap.subrange(
                0,
                usable as int,
            ).to_multiset() && s.subrange(0, usable as int).to_multiset() == sp.subrange(
                0,
                usable as int,
            ).to_multiset() {
                lemma_grand_product_returns_to_one(a, s, ap, sp, bv, gv, usable as nat);
                lemma_padding_keeps_one(z@, a, s, ap, sp, bv, gv, usable as nat, n as nat);
            }
        }
        self.z_values = Some(z);
        true
    }
}

} // verus!
