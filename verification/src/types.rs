//! Data carried through the lookup argument: its configuration, the
//! Fiat-Shamir challenges, the commitments, the openings and the proof.
use vstd::prelude::*;
use crate::field::Fe;

verus! {

/// 2^k.
pub open spec fn two_pow(k: nat) -> nat
    decreases k,
{
    if k == 0 {
        1
    } else {
        2 * two_pow((k - 1) as nat)
    }
}

/// `d` is a power of two.
pub open spec fn is_pow2(d: nat) -> bool {
    exists|k: nat| two_pow(k) == d
}

/// `d` is the least power of two that is at least `n`.
pub open spec fn is_next_pow2(n: nat, d: nat) -> bool {
    &&& is_pow2(d)
    &&& n <= d
    &&& (d == 1 || d < 2 * n)
}

/// The least power of two that is at least `n`, for `n` that fits.
pub fn next_power_of_two(n: usize) -> (d: usize)
    requires
        2 * n <= usize::MAX + 1,
    ensures
        is_next_pow2(n as nat, d as nat),
{
    let mut d: usize = 1;
    let ghost mut k: nat = 0;
    while d < n
        invariant
            2 * n <= usize::MAX + 1,
            two_pow(k) == d,
            d >= 1,
            d == 1 || d < 2 * n,
        decreases 2 * n - d,
    {
        d = d * 2;
        proof {
            k = k + 1;
        }
    }
    d
}

/// Configuration of the lookup argument.
///
/// The domain holds `num_usable_rows` data rows, one boundary row at index
/// `num_usable_rows`, and `num_blinding_rows` blinding rows after it.
#[derive(Debug, Clone)]
pub struct LookupConfig {
    /// Size of the evaluation domain, a power of two.
    pub domain_size: usize,
    /// Number of rows filled with random values for zero knowledge.
    pub num_blinding_rows: usize,
    /// `domain_size - num_blinding_rows - 1`.
    pub num_usable_rows: usize,
}

/// The larger of two sizes.
pub open spec fn max_nat(a: nat, b: nat) -> nat {
    if a >= b {
        a
    } else {
        b
    }
}

impl LookupConfig {
    /// The configuration whose domain is the least power of two that holds
    /// the larger of the table and the query vector, one boundary row and
    /// the blinding rows.
    pub fn new(table_size: usize, query_size: usize, num_blinding_rows: usize) -> (c: Self)
        requires
            2 * (max_nat(table_size as nat, query_size as nat) + num_blinding_rows + 1)
                <= usize::MAX + 1,
        ensures
            is_next_pow2(
                max_nat(table_size as nat, query_size as nat) + num_blinding_rows as nat + 1,
                c.domain_size as nat,
            ),
            c.num_blinding_rows == num_blinding_rows,
            c.num_usable_rows == c.domain_size - num_blinding_rows - 1,
    {
        let min_data_size = if table_size >= query_size {
            table_size
        } else {
            query_size
        };
        let min_domain_size = min_data_size + num_blinding_rows + 1;
        let domain_size = next_power_of_two(min_domain_size);
        let num_usable_rows = domain_size - num_blinding_rows - 1;
        LookupConfig { domain_size, num_blinding_rows, num_usable_rows }
    }
}

/// Fiat-Shamir challenges of the lookup argument.
#[derive(Debug, Clone)]
pub struct LookupChallenges {
    /// Challenge for the query column in the grand product.
    pub beta: Fe,
    /// Challenge for the table column in the grand product.
    pub gamma: Fe,
    /// Evaluation point of the openings.
    pub zeta: Fe,
}

impl LookupChallenges {
    /// Challenges with the given values.
    pub fn new(beta: Fe, gamma: Fe, zeta: Fe) -> (c: Self)
        ensures
            c.beta == beta,
            c.gamma == gamma,
            c.zeta == zeta,
    {
        LookupChallenges { beta, gamma, zeta }
    }
}

/// Commitments of the prover, for a commitment type `G`.
#[derive(Debug, Clone)]
pub struct LookupCommitments<G> {
    /// Commitment to the query polynomial A(X).
    pub com_a: G,
    /// Commitment to the table polynomial S(X).
    pub com_s: G,
    /// Commitment to the permuted query polynomial A'(X).
    pub com_a_prime: G,
    /// Commitment to the permuted table polynomial S'(X).
    pub com_s_prime: G,
    /// Commitment to the grand product Z(X).
    pub com_z: G,
    /// Commitment to the quotient Q(X).
    pub com_q: G,
    /// Commitment to the blinding selector, where it is not fixed.
    pub com_q_blind: Option<G>,
    /// Commitment to the last-row selector, where it is not fixed.
    pub com_q_last: Option<G>,
}

/// Claimed evaluations at the challenge points, with opening proofs of type `P`.
#[derive(Debug, Clone)]
pub struct LookupOpenings<P> {
    /// A(ζ).
    pub a_zeta: Fe,
    /// S(ζ).
    pub s_zeta: Fe,
    /// A'(ζ).
    pub a_prime_zeta: Fe,
    /// S'(ζ).
    pub s_prime_zeta: Fe,
    /// Z(ζ).
    pub z_zeta: Fe,
    /// Z(ωζ).
    pub z_omega_zeta: Fe,
    /// A'(ω⁻¹ζ).
    pub a_prime_omega_inv_zeta: Fe,
    /// q_blind(ζ).
    pub q_blind_zeta: Fe,
    /// q_last(ζ).
    pub q_last_zeta: Fe,
    /// ℓ_0(ζ).
    pub l_0_zeta: Fe,
    /// Q(ζ).
    pub q_zeta: Fe,
    /// Opening proof at ζ.
    pub proof_zeta: P,
    /// Opening proof at ωζ.
    pub proof_omega_zeta: P,
    /// Opening proof at ω⁻¹ζ.
    pub proof_omega_inv_zeta: P,
}

/// A complete lookup proof.
#[derive(Debug, Clone)]
pub struct LookupProof<G, P> {
    /// Polynomial commitments.
    pub commitments: LookupCommitments<G>,
    /// Evaluations and opening proofs.
    pub openings: LookupOpenings<P>,
}

/// Verification key of the lookup argument.
#[derive(Debug, Clone)]
pub struct LookupVerificationKey<G> {
    /// Generator ω of the evaluation domain.
    pub omega: Fe,
    /// Size of the evaluation domain.
    pub domain_size: usize,
    /// Commitment to q_blind, where fixed.
    pub com_q_blind: Option<G>,
    /// Commitment to q_last, where fixed.
    pub com_q_last: Option<G>,
    /// Configuration of the argument.
    pub config: LookupConfig,
}

} // verus!
