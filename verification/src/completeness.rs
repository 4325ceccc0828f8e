//! An honest prover's evaluations pass the verifier's quotient check.
use vstd::prelude::*;
use vstd::arithmetic::div_mod::{lemma_mod_twice, lemma_small_mod};
use crate::field::{fadd, finv, fmul, fpow, fsub, lemma_val_lt_modulus, modulus};
use crate::lookup_verifier::{
    active_selector, grand_product_term, idempotence_term, initial_a_term, initial_z_term,
    quotient_side, subset_term, total_constraint,
};
use crate::poly::{ipow, peval};
use crate::poly_ops::{ev, lemma_add_cong, lemma_mul_cong, lemma_sub_cong, pm};
use crate::prover::LookupProver;
use crate::prover_polys::{constraint_at, constraint_value};
use crate::types::{LookupChallenges, LookupOpenings};

verus! {

broadcast use lemma_val_lt_modulus;

/// A polynomial takes congruent values at congruent points.
proof fn lemma_peval_reduced_point(c: Seq<int>, x: int)
    ensures
        peval(c, x % pm()) % pm() == peval(c, x) % pm(),
    decreases c.len(),
{
    if c.len() > 0 {
        let rest = c.drop_first();
        lemma_peval_reduced_point(rest, x);
        lemma_mod_twice(x, pm());
        lemma_mul_cong(x % pm(), peval(rest, x % pm()), x, peval(rest, x));
        lemma_add_cong(c[0], (x % pm()) * peval(rest, x % pm()), c[0], x * peval(rest, x));
    }
}

/// The field's power is the integer power, reduced.
proof fn lemma_fpow_is_ipow(a: nat, e: nat)
    ensures
        fpow(a, e) as int == ipow(a as int, e) % pm(),
    decreases e,
{
    if e == 0 {
        lemma_small_mod(1, modulus());
    } else {
        lemma_fpow_is_ipow(a, (e - 1) as nat);
        let prev = ipow(a as int, (e - 1) as nat);
        lemma_mod_twice(prev, pm());
        lemma_mul_cong(fpow(a, (e - 1) as nat) as int, a as int, prev, a as int);
        assert(prev * (a as int) == (a as int) * prev) by (nonlinear_arith);
    }
}

/// A field sum stands for the sum of what its operands stand for.
proof fn lemma_fadd_stands(u: nat, v: nat, cu: int, cv: int)
    requires
        u as int % pm() == cu % pm(),
        v as int % pm() == cv % pm(),
    ensures
        fadd(u, v) as int % pm() == (cu + cv) % pm(),
{
    lemma_add_cong(u as int, v as int, cu, cv);
    lemma_mod_twice((u + v) as int, pm());
}

/// A field difference stands for the difference.
proof fn lemma_fsub_stands(u: nat, v: nat, cu: int, cv: int)
    requires
        u as int % pm() == cu % pm(),
        v as int % pm() == cv % pm(),
    ensures
        fsub(u, v) as int % pm() == (cu - cv) % pm(),
{
    lemma_sub_cong(u as int, v as int, cu, cv);
    lemma_mod_twice(u - v, pm());
}

/// A field product stands for the product.
proof fn lemma_fmul_stands(u: nat, v: nat, cu: int, cv: int)
    requires
        u as int % pm() == cu % pm(),
        v as int % pm() == cv % pm(),
    ensures
        fmul(u, v) as int % pm() == (cu * cv) % pm(),
{
    lemma_mul_cong(u as int, v as int, cu, cv);
    lemma_mod_twice((u * v) as int, pm());
}

/// A value below the modulus stands for itself.
proof fn lemma_stands_for_itself(v: nat)
    requires
        v < modulus(),
    ensures
        v as int % pm() == v as int,
{
    lemma_small_mod(v, modulus());
}

/// The verifier's sum of constraints over the claimed values stands for the
/// constraints at those values.
proof fn lemma_total_constraint_value<P>(o: LookupOpenings<P>, c: LookupChallenges)
    ensures
        total_constraint(o, c) as int == constraint_value(
            o.a_zeta.val() as int,
            o.s_zeta.val() as int,
            o.a_prime_zeta.val() as int,
            o.s_prime_zeta.val() as int,
            o.z_zeta.val() as int,
            o.z_omega_zeta.val() as int,
            o.a_prime_omega_inv_zeta.val() as int,
            o.q_blind_zeta.val() as int,
            o.q_last_zeta.val() as int,
            o.l_0_zeta.val() as int,
            c.beta.val() as int,
            c.gamma.val() as int,
        ) % pm(),
{
    let a = o.a_zeta.val();
    let s = o.s_zeta.val();
    let ap = o.a_prime_zeta.val();
    let sp = o.s_prime_zeta.val();
    let z = o.z_zeta.val();
    let zn = o.z_omega_zeta.val();
    let app = o.a_prime_omega_inv_zeta.val();
    let qb = o.q_blind_zeta.val();
    let ql = o.q_last_zeta.val();
    let l0 = o.l_0_zeta.val();
    let b = c.beta.val();
    let g = c.gamma.val();
    lemma_stands_for_itself(a);
    lemma_stands_for_itself(s);
    lemma_stands_for_itself(ap);
    lemma_stands_for_itself(sp);
    lemma_stands_for_itself(z);
    lemma_stands_for_itself(zn);
    lemma_stands_for_itself(app);
    lemma_stands_for_itself(qb);
    lemma_stands_for_itself(ql);
    lemma_stands_for_itself(l0);
    lemma_stands_for_itself(b);
    lemma_stands_for_itself(g);
    lemma_stands_for_itself(1);
    let (ai, si, api, spi, zi, zni, appi, qbi, qli, l0i, bi, gi) = (
        a as int,
        s as int,
        ap as int,
        sp as int,
        z as int,
        zn as int,
        app as int,
        qb as int,
        ql as int,
        l0 as int,
        b as int,
        g as int,
    );
    // The selector.
    lemma_fadd_stands(ql, qb, qli, qbi);
    lemma_fsub_stands(1, fadd(ql, qb), 1, qli + qbi);
    let selm = 1 - (qli + qbi);
    assert(active_selector(o) == fsub(1, fadd(ql, qb)));
    // The grand product term.
    lemma_fadd_stands(ap, b, api, bi);
    lemma_fadd_stands(sp, g, spi, gi);
    lemma_fmul_stands(zn, fadd(ap, b), zni, api + bi);
    lemma_fmul_stands(fmul(zn, fadd(ap, b)), fadd(sp, g), zni * (api + bi), spi + gi);
    lemma_fadd_stands(a, b, ai, bi);
    lemma_fadd_stands(s, g, si, gi);
    lemma_fmul_stands(z, fadd(a, b), zi, ai + bi);
    lemma_fmul_stands(fmul(z, fadd(a, b)), fadd(s, g), zi * (ai + bi), si + gi);
    let lhsm = (zni * (api + bi)) * (spi + gi);
    let rhsm = (zi * (ai + bi)) * (si + gi);
    let lhs = fmul(fmul(zn, fadd(ap, b)), fadd(sp, g));
    let rhs = fmul(fmul(z, fadd(a, b)), fadd(s, g));
    lemma_fsub_stands(lhs, rhs, lhsm, rhsm);
    assert(grand_product_term(o, c) == fsub(lhs, rhs));
    lemma_fmul_stands(active_selector(o), grand_product_term(o, c), selm, lhsm - rhsm);
    // The subset term.
    lemma_fsub_stands(ap, sp, api, spi);
    lemma_fsub_stands(ap, app, api, appi);
    lemma_fmul_stands(fsub(ap, sp), fsub(ap, app), api - spi, api - appi);
    assert(subset_term(o) == fmul(fsub(ap, sp), fsub(ap, app)));
    lemma_fmul_stands(active_selector(o), subset_term(o), selm, (api - spi) * (api - appi));
    // The initial terms.
    lemma_fmul_stands(l0, fsub(ap, sp), l0i, api - spi);
    assert(initial_a_term(o) == fmul(l0, fsub(ap, sp)));
    lemma_fsub_stands(1, z, 1, zi);
    lemma_fmul_stands(l0, fsub(1, z), l0i, 1 - zi);
    assert(initial_z_term(o) == fmul(l0, fsub(1, z)));
    // The boundary term.
    lemma_fmul_stands(z, z, zi, zi);
    lemma_fsub_stands(fmul(z, z), z, zi * zi, zi);
    lemma_fmul_stands(ql, fsub(fmul(z, z), z), qli, zi * zi - zi);
    assert(idempotence_term(o) == fmul(ql, fsub(fmul(z, z), z)));
    // The sum.
    let c1 = fmul(active_selector(o), grand_product_term(o, c));
    let c2 = fmul(active_selector(o), subset_term(o));
    let c1m = selm * (lhsm - rhsm);
    let c2m = selm * ((api - spi) * (api - appi));
    let c3m = l0i * (api - spi);
    let c4m = l0i * (1 - zi);
    let c5m = qli * (zi * zi - zi);
    lemma_fadd_stands(c1, c2, c1m, c2m);
    lemma_fadd_stands(fadd(c1, c2), initial_a_term(o), c1m + c2m, c3m);
    lemma_fadd_stands(fadd(fadd(c1, c2), initial_a_term(o)), initial_z_term(o), c1m + c2m + c3m, c4m);
    lemma_fadd_stands(
        fadd(fadd(fadd(c1, c2), initial_a_term(o)), initial_z_term(o)),
        idempotence_term(o),
        c1m + c2m + c3m + c4m,
        c5m,
    );
    lemma_stands_for_itself(total_constraint(o, c));
}

/// Completeness of the quotient check. Let a prover's quotient satisfy the
/// quotient identity (as `compute_quotient` ensures) for β and γ, and let
/// the openings hold its polynomials' values at ζ, at ωζ (Z) and at ω⁻¹ζ
/// (A'), with ℓ0(ζ) the value of its interpolated ℓ0. Then the verifier's
/// sum of constraints equals Q(ζ)(ζ^n - 1): `check_permutation_constraint`
/// accepts.
pub proof fn lemma_honest_openings_pass<P>(p: LookupProver, o: LookupOpenings<P>, c: LookupChallenges)
    requires
        p.quotient_poly is Some,
        forall|x: int|
            #[trigger] constraint_at(p, c.beta.val() as int, c.gamma.val() as int, x) % pm() == (ev(
                p.quotient_poly->0@,
                x,
            ) * (ipow(x, p.config.domain_size as nat) - 1)) % pm(),
        o.a_zeta.val() == ev(p.a_poly->0@, c.zeta.val() as int),
        o.s_zeta.val() == ev(p.s_poly->0@, c.zeta.val() as int),
        o.a_prime_zeta.val() == ev(p.a_prime_poly->0@, c.zeta.val() as int),
        o.s_prime_zeta.val() == ev(p.s_prime_poly->0@, c.zeta.val() as int),
        o.z_zeta.val() == ev(p.z_poly->0@, c.zeta.val() as int),
        o.z_omega_zeta.val() == ev(p.z_poly->0@, fmul(p.omega.val(), c.zeta.val()) as int),
        o.a_prime_omega_inv_zeta.val() == ev(
            p.a_prime_poly->0@,
            fmul(c.zeta.val(), finv(p.omega.val())) as int,
        ),
        o.q_blind_zeta.val() == ev(p.q_blind_poly->0@, c.zeta.val() as int),
        o.q_last_zeta.val() == ev(p.q_last_poly->0@, c.zeta.val() as int),
        o.l_0_zeta.val() == ev(p.l0_poly->0@, c.zeta.val() as int),
        o.q_zeta.val() == ev(p.quotient_poly->0@, c.zeta.val() as int),
    ensures
        total_constraint(o, c) == quotient_side(o, c, p.config.domain_size as nat),
{
    let zeta = c.zeta.val() as int;
    let w = p.omega.val() as int;
    let winv = finv(p.omega.val()) as int;
    let n = p.config.domain_size as nat;
    // The shifted points, reduced or not, give the same values.
    lemma_peval_reduced_point(crate::sorting::values_of(p.z_poly->0@), w * zeta);
    lemma_peval_reduced_point(crate::sorting::values_of(p.a_prime_poly->0@), winv * zeta);
    assert(fmul(p.omega.val(), c.zeta.val()) as int == (w * zeta) % pm());
    assert(fmul(c.zeta.val(), finv(p.omega.val())) as int == (winv * zeta) % pm()) by {
        assert(zeta * winv == winv * zeta) by (nonlinear_arith);
    }
    assert(o.z_omega_zeta.val() == ev(p.z_poly->0@, w * zeta));
    assert(o.a_prime_omega_inv_zeta.val() == ev(p.a_prime_poly->0@, winv * zeta));
    lemma_total_constraint_value(o, c);
    assert(total_constraint(o, c) as int == constraint_at(
        p,
        c.beta.val() as int,
        c.gamma.val() as int,
        zeta,
    ) % pm());
    // Q(ζ)(ζ^n - 1).
    let qz = ev(p.quotient_poly->0@, zeta);
    lemma_fpow_is_ipow(c.zeta.val(), n);
    lemma_mod_twice(ipow(zeta, n), pm());
    lemma_stands_for_itself(1);
    lemma_fsub_stands(fpow(c.zeta.val(), n), 1, ipow(zeta, n), 1);
    lemma_stands_for_itself(o.q_zeta.val());
    lemma_fmul_stands(o.q_zeta.val(), fsub(fpow(c.zeta.val(), n), 1), qz, ipow(zeta, n) - 1);
    lemma_stands_for_itself(quotient_side(o, c, n));
}

} // verus!
