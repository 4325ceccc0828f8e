//! Checks of the lookup verifier on the claimed evaluations.
use vstd::prelude::*;
use crate::field::{
    Fe, fadd, fe_add, fe_inverse, fe_mul, fe_pow, fe_sub, finv, fmul, fpow, fsub,
    lemma_val_lt_modulus,
};
use crate::types::{LookupChallenges, LookupOpenings, LookupProof, LookupVerificationKey};

verus! {

broadcast use lemma_val_lt_modulus;

/// 1 - (q_last(ζ) + q_blind(ζ)): one on the usable rows.
pub open spec fn active_selector<P>(o: LookupOpenings<P>) -> nat {
    fsub(1, fadd(o.q_last_zeta.val(), o.q_blind_zeta.val()))
}

/// Z(ωζ)(A'(ζ)+β)(S'(ζ)+γ) - Z(ζ)(A(ζ)+β)(S(ζ)+γ).
pub open spec fn grand_product_term<P>(o: LookupOpenings<P>, c: LookupChallenges) -> nat {
    let lhs = fmul(
        fmul(o.z_omega_zeta.val(), fadd(o.a_prime_zeta.val(), c.beta.val())),
        fadd(o.s_prime_zeta.val(), c.gamma.val()),
    );
    let rhs = fmul(
        fmul(o.z_zeta.val(), fadd(o.a_zeta.val(), c.beta.val())),
        fadd(o.s_zeta.val(), c.gamma.val()),
    );
    fsub(lhs, rhs)
}

/// (A'(ζ) - S'(ζ)) (A'(ζ) - A'(ω⁻¹ζ)).
pub open spec fn subset_term<P>(o: LookupOpenings<P>) -> nat {
    fmul(
        fsub(o.a_prime_zeta.val(), o.s_prime_zeta.val()),
        fsub(o.a_prime_zeta.val(), o.a_prime_omega_inv_zeta.val()),
    )
}

/// ℓ_0(ζ)(A'(ζ) - S'(ζ)).
pub open spec fn initial_a_term<P>(o: LookupOpenings<P>) -> nat {
    fmul(o.l_0_zeta.val(), fsub(o.a_prime_zeta.val(), o.s_prime_zeta.val()))
}

/// ℓ_0(ζ)(1 - Z(ζ)).
pub open spec fn initial_z_term<P>(o: LookupOpenings<P>) -> nat {
    fmul(o.l_0_zeta.val(), fsub(1, o.z_zeta.val()))
}

/// q_last(ζ)(Z(ζ)² - Z(ζ)).
pub open spec fn idempotence_term<P>(o: LookupOpenings<P>) -> nat {
    fmul(o.q_last_zeta.val(), fsub(fmul(o.z_zeta.val(), o.z_zeta.val()), o.z_zeta.val()))
}

/// Sum of the five constraints at ζ.
pub open spec fn total_constraint<P>(o: LookupOpenings<P>, c: LookupChallenges) -> nat {
    let c1 = fmul(active_selector(o), grand_product_term(o, c));
    let c2 = fmul(active_selector(o), subset_term(o));
    fadd(fadd(fadd(fadd(c1, c2), initial_a_term(o)), initial_z_term(o)), idempotence_term(o))
}

/// Q(ζ) Z_H(ζ), with Z_H(X) = X^n - 1.
pub open spec fn quotient_side<P>(o: LookupOpenings<P>, c: LookupChallenges, n: nat) -> nat {
    fmul(o.q_zeta.val(), fsub(fpow(c.zeta.val(), n), 1))
}

/// Verifier of the lookup argument, for commitments of type `G` and a
/// commitment-scheme verifier key of type `VK`.
pub struct LookupVerifier<G, VK> {
    pub vk: LookupVerificationKey<G>,
    pub pcs_params: VK,
    pub debug: bool,
}

impl<G, VK> LookupVerifier<G, VK> {
    pub fn new(vk: LookupVerificationKey<G>, pcs_params: VK, debug: bool) -> (v: Self)
        ensures
            v.vk == vk,
            v.pcs_params == pcs_params,
            v.debug == debug,
    {
        LookupVerifier { vk, pcs_params, debug }
    }

    /// All five constraints at ζ, summed, against the quotient: holds iff the
    /// sum equals Q(ζ)(ζ^n - 1) for the domain size n of the key.
    pub fn check_permutation_constraint<P>(
        &self,
        openings: &LookupOpenings<P>,
        challenges: &LookupChallenges,
    ) -> (r: bool)
        ensures
            r == (total_constraint(*openings, *challenges) == quotient_side(
                *openings,
                *challenges,
                self.vk.config.domain_size as nat,
            )),
    {
        let one = Fe::one();
        let selector = fe_sub(&one, &fe_add(&openings.q_last_zeta, &openings.q_blind_zeta));

        let a_plus_beta = fe_add(&openings.a_zeta, &challenges.beta);
        let s_plus_gamma = fe_add(&openings.s_zeta, &challenges.gamma);
        let a_prime_plus_beta = fe_add(&openings.a_prime_zeta, &challenges.beta);
        let s_prime_plus_gamma = fe_add(&openings.s_prime_zeta, &challenges.gamma);
        let perm_lhs = fe_mul(
            &fe_mul(&openings.z_omega_zeta, &a_prime_plus_beta),
            &s_prime_plus_gamma,
        );
        let perm_rhs = fe_mul(&fe_mul(&openings.z_zeta, &a_plus_beta), &s_plus_gamma);
        let constraint_1 = fe_mul(&selector, &fe_sub(&perm_lhs, &perm_rhs));

        let a_prime_minus_s_prime = fe_sub(&openings.a_prime_zeta, &openings.s_prime_zeta);
        let a_prime_minus_shifted = fe_sub(
            &openings.a_prime_zeta,
            &openings.a_prime_omega_inv_zeta,
        );
        let constraint_2 = fe_mul(
            &selector,
            &fe_mul(&a_prime_minus_s_prime, &a_prime_minus_shifted),
        );

        let constraint_3 = fe_mul(&openings.l_0_zeta, &a_prime_minus_s_prime);
        let constraint_4 = fe_mul(&openings.l_0_zeta, &fe_sub(&one, &openings.z_zeta));
        let z_squared = fe_mul(&openings.z_zeta, &openings.z_zeta);
        let constraint_5 = fe_mul(&openings.q_last_zeta, &fe_sub(&z_squared, &openings.z_zeta));

        let total = fe_add(
            &fe_add(
                &fe_add(&fe_add(&constraint_1, &constraint_2), &constraint_3),
                &constraint_4,
            ),
            &constraint_5,
        );
        let zeta_to_n = fe_pow(&challenges.zeta, self.vk.config.domain_size as u64);
        let z_h_zeta = fe_sub(&zeta_to_n, &one);
        let expected = fe_mul(&openings.q_zeta, &z_h_zeta);
        total.eq(&expected)
    }

    /// The subset constraint alone: (1 - q_last - q_blind)(A' - S')(A' - A'ω⁻¹) = 0 at ζ.
    pub fn check_subset_constraint<P>(&self, openings: &LookupOpenings<P>) -> (r: bool)
        ensures
            r == (fmul(active_selector(*openings), subset_term(*openings)) == 0),
    {
        let one = Fe::one();
        let selector = fe_sub(&one, &fe_add(&openings.q_last_zeta, &openings.q_blind_zeta));
        let diff1 = fe_sub(&openings.a_prime_zeta, &openings.s_prime_zeta);
        let diff2 = fe_sub(&openings.a_prime_zeta, &openings.a_prime_omega_inv_zeta);
        let constraint_value = fe_mul(&diff1, &diff2);
        let result = fe_mul(&selector, &constraint_value);
        result.is_zero()
    }

    /// The initial constraints: ℓ_0(A' - S') = 0 and ℓ_0(1 - Z) = 0 at ζ.
    pub fn check_initial_constraints<P>(&self, openings: &LookupOpenings<P>) -> (r: bool)
        ensures
            r == (initial_a_term(*openings) == 0 && initial_z_term(*openings) == 0),
    {
        let one = Fe::one();
        let init_subset = fe_mul(
            &openings.l_0_zeta,
            &fe_sub(&openings.a_prime_zeta, &openings.s_prime_zeta),
        );
        let init_z = fe_mul(&openings.l_0_zeta, &fe_sub(&one, &openings.z_zeta));
        init_subset.is_zero() && init_z.is_zero()
    }

    /// The idempotence constraint: q_last(Z² - Z) = 0 at ζ.
    pub fn check_idempotence_constraint<P>(&self, openings: &LookupOpenings<P>) -> (r: bool)
        ensures
            r == (idempotence_term(*openings) == 0),
    {
        let z_squared = fe_mul(&openings.z_zeta, &openings.z_zeta);
        let constraint_value = fe_mul(&openings.q_last_zeta, &fe_sub(&z_squared, &openings.z_zeta));
        constraint_value.is_zero()
    }

    /// The points ωζ and ω⁻¹ζ at which Z and A' are opened.
    pub fn opening_points(&self, challenges: &LookupChallenges) -> (r: (Fe, Fe))
        requires
            self.vk.omega.val() != 0,
        ensures
            r.0.val() == fmul(self.vk.omega.val(), challenges.zeta.val()),
            r.1.val() == fmul(challenges.zeta.val(), finv(self.vk.omega.val())),
    {
        let omega_zeta = fe_mul(&self.vk.omega, &challenges.zeta);
        match fe_inverse(&self.vk.omega) {
            Some(omega_inv) => (omega_zeta, fe_mul(&challenges.zeta, &omega_inv)),
            None => {
                proof {
                    assert(false);
                }
                (omega_zeta, omega_zeta)
            },
        }
    }

    /// The verdict on a proof, given the challenges re-derived from its
    /// commitments and whether its three opening proofs were accepted by the
    /// commitment scheme: accepted iff the openings were and the constraints hold.
    pub fn verify<P>(
        &self,
        proof: &LookupProof<G, P>,
        challenges: &LookupChallenges,
        openings_accepted: bool,
    ) -> (r: bool)
        ensures
            r == (openings_accepted && total_constraint(proof.openings, *challenges)
                == quotient_side(proof.openings, *challenges, self.vk.config.domain_size as nat)),
    {
        if !openings_accepted {
            return false;
        }
        self.check_permutation_constraint(&proof.openings, challenges)
    }
}

} // verus!
