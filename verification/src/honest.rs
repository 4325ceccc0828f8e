//! An honest prover's rows satisfy every constraint.
//!
//! On a usable row the grand product's step cancels the permutation term,
//! and the permuted query either repeats the table entry beside it or the
//! query above it; at row 0 both start at one and agree; at the boundary row
//! the grand product is one again; the blinding rows are switched off by the
//! selectors.
use vstd::prelude::*;
use vstd::arithmetic::div_mod::{lemma_mod_twice, lemma_small_mod};
use crate::field::{fadd, finv, fmul, is_inverse, modulus};
use crate::poly_ops::{lemma_mul_cong, lemma_sub_cong, pm};
use crate::prover::{LookupProver, grand_product, row_factor, step_denominator};
use crate::prover_polys::{constraint_value, product_row_constraint, row_constraint};
use crate::sorting::values_of;
use crate::telescope::lemma_grand_product_returns_to_one;

verus! {

/// x stands for (x mod p).
proof fn lemma_mod_stands(x: int)
    ensures
        (x % pm()) % pm() == x % pm(),
{
    lemma_mod_twice(x, pm());
}

/// The row factor stands for its integer product.
proof fn lemma_row_factor_stands(a: int, s: int, beta: int, gamma: int)
    requires
        0 <= a,
        0 <= s,
        0 <= beta,
        0 <= gamma,
    ensures
        row_factor(a, s, beta, gamma) as int % pm() == ((a + beta) * (s + gamma)) % pm(),
{
    let fa = fadd(a as nat, beta as nat) as int;
    let fs = fadd(s as nat, gamma as nat) as int;
    lemma_mod_stands(a + beta);
    lemma_mod_stands(s + gamma);
    lemma_mul_cong(fa, fs, a + beta, s + gamma);
    lemma_mod_stands(fa * fs);
}

/// One step of the grand product cancels the permutation constraint:
/// Z(i+1)(A'+β)(S'+γ) = Z(i)(A+β)(S+γ) in the field.
proof fn lemma_grand_step(zi: nat, zn: nat, a: int, s: int, ap: int, sp: int, beta: int, gamma: int)
    requires
        0 <= a,
        0 <= s,
        0 <= ap,
        0 <= sp,
        0 <= beta,
        0 <= gamma,
        zn == fmul(
            zi,
            fmul(row_factor(a, s, beta, gamma), finv(row_factor(ap, sp, beta, gamma))),
        ),
        is_inverse(row_factor(ap, sp, beta, gamma), finv(row_factor(ap, sp, beta, gamma))),
    ensures
        ((zn * (ap + beta)) * (sp + gamma) - (zi * (a + beta)) * (s + gamma)) % pm() == 0,
{
    let num = row_factor(a, s, beta, gamma) as int;
    let den = row_factor(ap, sp, beta, gamma) as int;
    let inv = finv(row_factor(ap, sp, beta, gamma)) as int;
    let big_n = (a + beta) * (s + gamma);
    let big_d = (ap + beta) * (sp + gamma);
    let r = (num * inv) % pm();
    lemma_row_factor_stands(a, s, beta, gamma);
    lemma_row_factor_stands(ap, sp, beta, gamma);
    assert((zn * (ap + beta)) * (sp + gamma) == zn * big_d) by (nonlinear_arith)
        requires
            big_d == (ap + beta) * (sp + gamma),
    ;
    assert((zi * (a + beta)) * (s + gamma) == zi * big_n) by (nonlinear_arith)
        requires
            big_n == (a + beta) * (s + gamma),
    ;
    // zn D = zn den = (zi r) den = zi (num inv den) = zi num = zi N.
    lemma_mod_stands(den);
    lemma_mul_cong(zn as int, big_d, zn as int, den);
    assert(zn as int == (zi * r) % pm());
    lemma_mod_stands(zi * r);
    lemma_mul_cong(zn as int, den, zi * r, den);
    lemma_mod_stands(num * inv);
    lemma_mul_cong(zi as int, r, zi as int, num * inv);
    lemma_mul_cong(zi * r, den, zi * (num * inv), den);
    assert((zi * (num * inv)) * den == (zi * num) * (inv * den)) by (nonlinear_arith);
    assert((den * inv) % pm() == 1);
    assert(inv * den == den * inv) by (nonlinear_arith);
    lemma_small_mod(1, modulus());
    lemma_mul_cong(zi * num, inv * den, zi * num, 1);
    lemma_mul_cong(zi as int, num, zi as int, big_n);
    lemma_sub_cong(zn * big_d, zi * big_n, zi * big_n, zi * big_n);
}

/// The columns of an honest prover for challenges β and γ: the selectors
/// switch on the boundary row u (q_last) and the rows after it (q_blind);
/// the permuted query column starts with the permuted table's first entry
/// and on every later usable row repeats the permuted table entry beside it
/// or the query above it; the permuted columns rearrange the columns on the
/// usable rows; and Z is the grand product, whose denominators on the usable
/// rows have their inverses.
pub open spec fn honest_columns(p: LookupProver, beta: int, gamma: int) -> bool {
    let n = p.config.domain_size as int;
    let u = p.config.num_usable_rows as int;
    let a = values_of(p.a_values@);
    let s = values_of(p.s_values@);
    let ap = values_of(p.a_prime_values@);
    let sp = values_of(p.s_prime_values@);
    let z = values_of(p.z_values->0@);
    &&& p.well_formed()
    &&& 1 <= u
    &&& p.z_values is Some
    &&& p.z_values->0.len() == n
    &&& p.q_last_values.len() == n
    &&& p.q_blind_values.len() == n
    &&& forall|i: int| 0 <= i < n ==> #[trigger] p.q_last_values@[i].val() == (if i == u {
        1nat
    } else {
        0nat
    })
    &&& forall|i: int| 0 <= i < n ==> #[trigger] p.q_blind_values@[i].val() == (if i > u {
        1nat
    } else {
        0nat
    })
    &&& ap[0] == sp[0]
    &&& forall|i: int| 1 <= i < u ==> #[trigger] ap[i] == sp[i] || ap[i] == ap[i - 1]
    &&& forall|i: int|
        0 <= i < n ==> #[trigger] z[i] == grand_product(a, s, ap, sp, beta, gamma, u as nat, i as nat)
    &&& a.subrange(0, u).to_multiset() == ap.subrange(0, u).to_multiset()
    &&& s.subrange(0, u).to_multiset() == sp.subrange(0, u).to_multiset()
    &&& forall|k: int|
        0 <= k < u ==> #[trigger] is_inverse(
            step_denominator(a, s, ap, sp, beta, gamma, u as nat, k),
            finv(step_denominator(a, s, ap, sp, beta, gamma, u as nat, k)),
        )
}

/// The columns of an honest prover for challenges β and γ before its grand
/// product is formed: the selectors of `honest_columns`, the permuted query
/// column that starts with the permuted table's first entry and on every
/// later usable row repeats the permuted table entry beside it or the query
/// above it, permuted columns that rearrange the columns on the usable rows,
/// and no zero among the grand product's denominators.
pub open spec fn honest_permuted_columns(p: LookupProver, beta: int, gamma: int) -> bool {
    let n = p.config.domain_size as int;
    let u = p.config.num_usable_rows as int;
    let a = values_of(p.a_values@);
    let s = values_of(p.s_values@);
    let ap = values_of(p.a_prime_values@);
    let sp = values_of(p.s_prime_values@);
    &&& p.well_formed()
    &&& 1 <= u
    &&& p.q_last_values.len() == n
    &&& p.q_blind_values.len() == n
    &&& forall|i: int| 0 <= i < n ==> #[trigger] p.q_last_values@[i].val() == (if i == u {
        1nat
    } else {
        0nat
    })
    &&& forall|i: int| 0 <= i < n ==> #[trigger] p.q_blind_values@[i].val() == (if i > u {
        1nat
    } else {
        0nat
    })
    &&& ap[0] == sp[0]
    &&& forall|i: int| 1 <= i < u ==> #[trigger] ap[i] == sp[i] || ap[i] == ap[i - 1]
    &&& a.subrange(0, u).to_multiset() == ap.subrange(0, u).to_multiset()
    &&& s.subrange(0, u).to_multiset() == sp.subrange(0, u).to_multiset()
    &&& forall|k: int|
        0 <= k < n - 1 ==> #[trigger] step_denominator(a, s, ap, sp, beta, gamma, u as nat, k) != 0
}

/// The constraints of a usable row: the grand product's step cancels the
/// permutation term, the permuted query repeats the table entry beside it or
/// the query above it, and at row 0 (ℓ0 one) it equals the table entry and Z
/// is one.
proof fn lemma_usable_row(
    zi: nat,
    zn: nat,
    a: int,
    s: int,
    ap: int,
    sp: int,
    above: int,
    l0: int,
    beta: int,
    gamma: int,
)
    requires
        0 <= a,
        0 <= s,
        0 <= ap,
        0 <= sp,
        0 <= beta,
        0 <= gamma,
        zn == fmul(
            zi,
            fmul(row_factor(a, s, beta, gamma), finv(row_factor(ap, sp, beta, gamma))),
        ),
        is_inverse(row_factor(ap, sp, beta, gamma), finv(row_factor(ap, sp, beta, gamma))),
        ap == sp || ap == above,
        l0 == 0 || (l0 == 1 && ap == sp && zi == 1),
    ensures
        constraint_value(a, s, ap, sp, zi as int, zn as int, above, 0, 0, l0, beta, gamma) % pm() == 0,
{
    lemma_grand_step(zi, zn, a, s, ap, sp, beta, gamma);
    let t1 = (zn * (ap + beta)) * (sp + gamma) - (zi * (a + beta)) * (s + gamma);
    let t2 = (ap - sp) * (ap - above);
    assert(t2 == 0) by (nonlinear_arith)
        requires
            t2 == (ap - sp) * (ap - above),
            ap == sp || ap == above,
    ;
    let t3 = l0 * (ap - sp);
    let t4 = l0 * (1 - zi);
    assert(t3 == 0 && t4 == 0) by (nonlinear_arith)
        requires
            t3 == l0 * (ap - sp),
            t4 == l0 * (1 - zi),
            l0 == 0 || (l0 == 1 && ap == sp && zi == 1),
    ;
    let z = zi as int;
    let cv = constraint_value(a, s, ap, sp, z, zn as int, above, 0, 0, l0, beta, gamma);
    assert(cv == (1 - (0 + 0)) * t1 + (1 - (0 + 0)) * t2 + t3 + t4 + 0 * (z * z - z));
    assert(cv == t1 + t2 + t3 + t4) by (nonlinear_arith)
        requires
            cv == (1 - (0 + 0)) * t1 + (1 - (0 + 0)) * t2 + t3 + t4 + 0 * (z * z - z),
    ;
}

/// The constraints of the boundary row (q_last one, Z one) and of the
/// blinding rows (q_blind one): the selectors switch off all but
/// q_last (Z² - Z).
proof fn lemma_closing_row(
    a: int,
    s: int,
    ap: int,
    sp: int,
    z: int,
    zn: int,
    above: int,
    qb: int,
    ql: int,
    beta: int,
    gamma: int,
)
    requires
        (ql == 1 && qb == 0 && z == 1) || (ql == 0 && qb == 1),
    ensures
        constraint_value(a, s, ap, sp, z, zn, above, qb, ql, 0, beta, gamma) == 0,
{
    let t1 = (zn * (ap + beta)) * (sp + gamma) - (z * (a + beta)) * (s + gamma);
    let t2 = (ap - sp) * (ap - above);
    let cv = constraint_value(a, s, ap, sp, z, zn, above, qb, ql, 0, beta, gamma);
    assert(cv == (1 - (ql + qb)) * t1 + (1 - (ql + qb)) * t2 + 0 * (ap - sp) + 0 * (1 - z) + ql * (
    z * z - z));
    assert(cv == 0) by (nonlinear_arith)
        requires
            cv == (1 - (ql + qb)) * t1 + (1 - (ql + qb)) * t2 + 0 * (ap - sp) + 0 * (1 - z) + ql * (z
                * z - z),
            (ql == 1 && qb == 0 && z == 1) || (ql == 0 && qb == 1),
    ;
}

/// Every row of an honest prover satisfies the constraints: the constraint
/// polynomial of its interpolated columns vanishes on the whole domain.
pub proof fn lemma_honest_rows_vanish(p: LookupProver, beta: int, gamma: int)
    requires
        honest_columns(p, beta, gamma),
        0 <= beta,
        0 <= gamma,
    ensures
        forall|i: int|
            0 <= i < p.config.domain_size ==> #[trigger] row_constraint(p, beta, gamma, i) % pm() == 0,
{
    let n = p.config.domain_size as int;
    let u = p.config.num_usable_rows as int;
    let a = values_of(p.a_values@);
    let s = values_of(p.s_values@);
    let ap = values_of(p.a_prime_values@);
    let sp = values_of(p.s_prime_values@);
    let z = values_of(p.z_values->0@);
    lemma_grand_product_returns_to_one(a, s, ap, sp, beta, gamma, u as nat);
    assert forall|i: int| 0 <= i < n implies #[trigger] row_constraint(p, beta, gamma, i) % pm() == 0 by {
        let ql = p.q_last_values@[i].val() as int;
        let qb = p.q_blind_values@[i].val() as int;
        let prev = (i + n - 1) % n;
        let next = (i + 1) % n;
        let l0: int = if i == 0 {
            1
        } else {
            0
        };
        assert(row_constraint(p, beta, gamma, i) == constraint_value(
            a[i],
            s[i],
            ap[i],
            sp[i],
            z[i],
            z[next],
            ap[prev],
            qb,
            ql,
            l0,
            beta,
            gamma,
        ));
        assert(z[i] == grand_product(a, s, ap, sp, beta, gamma, u as nat, i as nat));
        if i < u {
            assert(ql == 0 && qb == 0);
            vstd::arithmetic::div_mod::lemma_fundamental_div_mod_converse(i + 1, n, 0, i + 1);
            assert(next == i + 1);
            if i == 0 {
                assert(z[0] == 1);
                assert(ap[0] == sp[0]);
            }
            assert(z[i + 1] == grand_product(a, s, ap, sp, beta, gamma, u as nat, (i + 1) as nat));
            assert(step_denominator(a, s, ap, sp, beta, gamma, u as nat, i) == row_factor(
                ap[i],
                sp[i],
                beta,
                gamma,
            ));
            assert(is_inverse(
                step_denominator(a, s, ap, sp, beta, gamma, u as nat, i),
                finv(step_denominator(a, s, ap, sp, beta, gamma, u as nat, i)),
            ));
            if i > 0 {
                vstd::arithmetic::div_mod::lemma_fundamental_div_mod_converse(i + n - 1, n, 1, i - 1);
                assert(ap[i] == sp[i] || ap[i] == ap[i - 1]);
            }
            lemma_usable_row(
                z[i] as nat,
                z[i + 1] as nat,
                a[i],
                s[i],
                ap[i],
                sp[i],
                ap[prev],
                l0,
                beta,
                gamma,
            );
            assert((z[i] as nat) as int == z[i] && (z[i + 1] as nat) as int == z[i + 1]);
            assert(constraint_value(a[i], s[i], ap[i], sp[i], z[i], z[i + 1], ap[prev], 0, 0, l0, beta, gamma) % pm() == 0);
            assert(row_constraint(p, beta, gamma, i) % pm() == 0);
        } else {
            if i == u {
                assert(z[i] == 1);
                assert(ql == 1 && qb == 0);
            } else {
                assert(ql == 0 && qb == 1);
            }
            assert(l0 == 0);
            lemma_closing_row(
                a[i],
                s[i],
                ap[i],
                sp[i],
                z[i],
                z[next],
                ap[prev],
                qb,
                ql,
                beta,
                gamma,
            );
            assert(constraint_value(a[i], s[i], ap[i], sp[i], z[i], z[next], ap[prev], qb, ql, 0, beta, gamma) == 0);
            assert(row_constraint(p, beta, gamma, i) == 0);
            assert(0int % pm() == 0);
        }
    }
}

/// Every row of an honest prover's permuted columns satisfies the
/// constraints once Z is their grand product, its denominators on the usable
/// rows having their inverses.
pub proof fn lemma_honest_product_rows_vanish(p: LookupProver, beta: int, gamma: int)
    requires
        honest_permuted_columns(p, beta, gamma),
        forall|k: int|
            0 <= k < p.config.num_usable_rows ==> #[trigger] is_inverse(
                step_denominator(
                    values_of(p.a_values@),
                    values_of(p.s_values@),
                    values_of(p.a_prime_values@),
                    values_of(p.s_prime_values@),
                    beta,
                    gamma,
                    p.config.num_usable_rows as nat,
                    k,
                ),
                finv(
                    step_denominator(
                        values_of(p.a_values@),
                        values_of(p.s_values@),
                        values_of(p.a_prime_values@),
                        values_of(p.s_prime_values@),
                        beta,
                        gamma,
                        p.config.num_usable_rows as nat,
                        k,
                    ),
                ),
            ),
        0 <= beta,
        0 <= gamma,
    ensures
        forall|i: int|
            0 <= i < p.config.domain_size ==> #[trigger] product_row_constraint(p, beta, gamma, i) % pm() == 0,
{
    let n = p.config.domain_size as int;
    let u = p.config.num_usable_rows as int;
    let a = values_of(p.a_values@);
    let s = values_of(p.s_values@);
    let ap = values_of(p.a_prime_values@);
    let sp = values_of(p.s_prime_values@);
    let z = Seq::new(
        n as nat,
        |j: int| grand_product(a, s, ap, sp, beta, gamma, u as nat, j as nat) as int,
    );
    lemma_grand_product_returns_to_one(a, s, ap, sp, beta, gamma, u as nat);
    assert forall|i: int| 0 <= i < n implies #[trigger] product_row_constraint(p, beta, gamma, i) % pm() == 0 by {
        let ql = p.q_last_values@[i].val() as int;
        let qb = p.q_blind_values@[i].val() as int;
        let prev = (i + n - 1) % n;
        let next = (i + 1) % n;
        let l0: int = if i == 0 {
            1
        } else {
            0
        };
        assert(product_row_constraint(p, beta, gamma, i) == constraint_value(
            a[i],
            s[i],
            ap[i],
            sp[i],
            z[i],
            z[next],
            ap[prev],
            qb,
            ql,
            l0,
            beta,
            gamma,
        ));
        assert(z[i] == grand_product(a, s, ap, sp, beta, gamma, u as nat, i as nat));
        if i < u {
            assert(ql == 0 && qb == 0);
            vstd::arithmetic::div_mod::lemma_fundamental_div_mod_converse(i + 1, n, 0, i + 1);
            assert(next == i + 1);
            if i == 0 {
                assert(z[0] == 1);
                assert(ap[0] == sp[0]);
            }
            assert(z[i + 1] == grand_product(a, s, ap, sp, beta, gamma, u as nat, (i + 1) as nat));
            assert(step_denominator(a, s, ap, sp, beta, gamma, u as nat, i) == row_factor(
                ap[i],
                sp[i],
                beta,
                gamma,
            ));
            assert(is_inverse(
                step_denominator(a, s, ap, sp, beta, gamma, u as nat, i),
                finv(step_denominator(a, s, ap, sp, beta, gamma, u as nat, i)),
            ));
            if i > 0 {
                vstd::arithmetic::div_mod::lemma_fundamental_div_mod_converse(i + n - 1, n, 1, i - 1);
                assert(ap[i] == sp[i] || ap[i] == ap[i - 1]);
            }
            lemma_usable_row(
                z[i] as nat,
                z[i + 1] as nat,
                a[i],
                s[i],
                ap[i],
                sp[i],
                ap[prev],
                l0,
                beta,
                gamma,
            );
            assert((z[i] as nat) as int == z[i] && (z[i + 1] as nat) as int == z[i + 1]);
            assert(constraint_value(a[i], s[i], ap[i], sp[i], z[i], z[i + 1], ap[prev], 0, 0, l0, beta, gamma) % pm() == 0);
            assert(product_row_constraint(p, beta, gamma, i) % pm() == 0);
        } else {
            if i == u {
                assert(z[i] == 1);
                assert(ql == 1 && qb == 0);
            } else {
                assert(ql == 0 && qb == 1);
            }
            assert(l0 == 0);
            lemma_closing_row(
                a[i],
                s[i],
                ap[i],
                sp[i],
                z[i],
                z[next],
                ap[prev],
                qb,
                ql,
                beta,
                gamma,
            );
            assert(constraint_value(a[i], s[i], ap[i], sp[i], z[i], z[next], ap[prev], qb, ql, 0, beta, gamma) == 0);
            assert(product_row_constraint(p, beta, gamma, i) == 0);
            assert(0int % pm() == 0);
        }
    }
}
} // verus!
