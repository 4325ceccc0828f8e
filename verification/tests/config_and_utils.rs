use ark_bls12_377::Fr;
use ark_ff::{Field, PrimeField};
use ark_poly::domain::radix2::Radix2EvaluationDomain;
use ark_poly::EvaluationDomain;
use mpc_lookup::field::Fe;
use mpc_lookup::types::{LookupChallenges, LookupConfig};
use mpc_lookup::utils::{compute_lagrange_basis_l0, compute_selector_polynomials};

fn from_fr(x: &Fr) -> Fe {
    Fe::from_limbs(x.into_repr().0).unwrap()
}

#[test]
fn test_lookup_config_creation() {
    let config = LookupConfig::new(100, 50, 5);
    assert_eq!(config.domain_size, 128);
    assert_eq!(config.num_blinding_rows, 5);
    assert_eq!(config.num_usable_rows, 122);
}

#[test]
fn test_lookup_config_edge_cases() {
    let config1 = LookupConfig::new(64, 32, 3);
    assert_eq!(config1.domain_size, 128);
    assert_eq!(config1.num_usable_rows, 124);

    let config2 = LookupConfig::new(1, 1, 2);
    assert_eq!(config2.domain_size, 4);
    assert_eq!(config2.num_usable_rows, 1);

    let config3 = LookupConfig::new(16, 8, 10);
    assert_eq!(config3.domain_size, 32);
    assert_eq!(config3.num_usable_rows, 21);
}

#[test]
fn test_challenges_creation() {
    let beta = Fe::from_u64(42);
    let gamma = Fe::from_u64(123);
    let zeta = Fe::from_u64(456);
    let challenges = LookupChallenges::new(beta, gamma, zeta);
    assert_eq!(challenges.beta, Fe::from_u64(42));
    assert_eq!(challenges.gamma, Fe::from_u64(123));
    assert_eq!(challenges.zeta, Fe::from_u64(456));
}

#[test]
fn test_lagrange_basis_at_first_element() {
    let domain_size = 8;
    let domain = Radix2EvaluationDomain::<Fr>::new(domain_size).unwrap();
    let omega = from_fr(&domain.group_gen);
    let l0_at_first = compute_lagrange_basis_l0(Fe::one(), domain_size, omega);
    assert_eq!(l0_at_first, Fe::one());
}

#[test]
fn test_lagrange_basis_at_other_elements() {
    let domain_size = 8;
    let domain = Radix2EvaluationDomain::<Fr>::new(domain_size).unwrap();
    let omega = from_fr(&domain.group_gen);
    let l0_at_omega = compute_lagrange_basis_l0(omega, domain_size, omega);
    assert_eq!(l0_at_omega, Fe::zero());
}

#[test]
fn lagrange_basis_off_the_domain() {
    // l0(x) = (x^n - 1) / (n (x - 1)); at x = 2 with n = 8: 255 / 8.
    let l0 = compute_lagrange_basis_l0(Fe::from_u64(2), 8, Fe::one());
    let expected = Fr::from(255u64) * Fr::from(8u64).inverse().unwrap();
    assert_eq!(l0, from_fr(&expected));
}

#[test]
fn test_selector_polynomials() {
    let domain_size = 8;
    let num_blinding_rows = 2;
    let (q_blind, q_last) = compute_selector_polynomials(domain_size, num_blinding_rows);
    assert_eq!(q_blind[0], Fe::zero());
    assert_eq!(q_blind[5], Fe::zero());
    assert_eq!(q_blind[6], Fe::one());
    assert_eq!(q_blind[7], Fe::one());
    assert_eq!(q_last[5], Fe::one());
    for i in 0..domain_size {
        if i != 5 {
            assert_eq!(q_last[i], Fe::zero());
        }
    }
}
