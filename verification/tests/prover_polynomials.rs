use mpc_lookup::client::{pad_f_prime_to_match_t_prime, pad_f_to_match_t};
use mpc_lookup::field::Fe;
use mpc_lookup::lookup_verifier::LookupVerifier;
use mpc_lookup::mpc_field::MpcField;
use mpc_lookup::net::LocalNet;
use mpc_lookup::permutation::secure_oblivious_lookup_permutation;
use mpc_lookup::poly_ops::{compute_lagrange_l0_polynomial, interpolate, poly_evaluate};
use mpc_lookup::prover::LookupProver;
use mpc_lookup::types::{LookupChallenges, LookupConfig, LookupVerificationKey};

fn fe(x: u64) -> Fe {
    Fe::from_u64(x)
}

fn public(v: &[u64]) -> Vec<MpcField> {
    v.iter().map(|&x| MpcField::Public(fe(x))).collect()
}

fn power(w: &MpcField, k: usize, net: &mut LocalNet) -> MpcField {
    let mut r = MpcField::Public(Fe::one());
    for _ in 0..k {
        r = r.mul(w, net);
    }
    r
}

/// A prover for table t and queries f with the permuted columns set as the
/// client sets them.
fn honest_prover(t: &[u64], f: &[u64], net: &mut LocalNet) -> LookupProver {
    let (n, m) = (t.len(), f.len());
    let tv = public(t);
    let fv = public(f);
    let (t_prime, f_prime) = secure_oblivious_lookup_permutation(n, m, &tv, &fv, net);
    let f_prime = pad_f_prime_to_match_t_prime(f_prime, &t_prime);
    let a_values = pad_f_to_match_t(fv.clone(), &tv, &t_prime);
    let config = LookupConfig::new(n, m, 1);
    let mut prover = LookupProver::new(config, a_values, tv, false);
    prover.set_permuted_values(t_prime, f_prime);
    prover
}

#[test]
fn interpolation_takes_the_column_values_on_the_domain() {
    let mut net = LocalNet;
    let config = LookupConfig::new(4, 2, 1);
    let prover = LookupProver::new(config, public(&[1]), public(&[1]), false);
    let omega = MpcField::Public(prover.omega);
    let column = public(&[5, 7, 11, 13, 17, 19, 23, 29]);
    let coeffs = interpolate(&column, &net);
    assert_eq!(coeffs.len(), 8);
    for i in 0..8 {
        let point = power(&omega, i, &mut net);
        let v = poly_evaluate(&coeffs, &point, &mut net);
        assert_eq!(v.revealed(&mut net), column[i].revealed(&mut net));
    }
    let l0: Vec<MpcField> = compute_lagrange_l0_polynomial(8).into_iter().map(MpcField::Public).collect();
    for i in 0..8 {
        let point = power(&omega, i, &mut net);
        let v = poly_evaluate(&l0, &point, &mut net).revealed(&mut net);
        assert_eq!(v, if i == 0 { Fe::one() } else { Fe::zero() });
    }
}

#[test]
fn honest_evaluations_pass_the_verifier_check() {
    let mut net = LocalNet;
    let mut prover = honest_prover(&[10, 20, 30, 40], &[30, 10], &mut net);
    let (beta, gamma, zeta) = (fe(11), fe(13), fe(123456789));
    let openings = prover.prove_with_challenges(&beta, &gamma, &zeta, &mut net).unwrap();
    let vk = LookupVerificationKey::<()> {
        omega: prover.omega,
        domain_size: prover.config.domain_size,
        com_q_blind: None,
        com_q_last: None,
        config: prover.config.clone(),
    };
    let verifier = LookupVerifier::new(vk, (), false);
    let challenges = LookupChallenges::new(beta, gamma, zeta);
    assert!(verifier.check_permutation_constraint(&openings, &challenges));
    assert!(verifier.verify(&openings_proof(openings), &challenges, true));
}

fn openings_proof(
    openings: mpc_lookup::types::LookupOpenings<()>,
) -> mpc_lookup::types::LookupProof<(), ()> {
    mpc_lookup::types::LookupProof {
        commitments: mpc_lookup::types::LookupCommitments {
            com_a: (),
            com_s: (),
            com_a_prime: (),
            com_s_prime: (),
            com_z: (),
            com_q: (),
            com_q_blind: None,
            com_q_last: None,
        },
        openings,
    }
}

#[test]
fn opening_points_are_omega_zeta_and_zeta_over_omega() {
    let mut net = LocalNet;
    let config = LookupConfig::new(4, 2, 1);
    let prover = LookupProver::new(config.clone(), public(&[1]), public(&[1]), false);
    let vk = LookupVerificationKey::<()> {
        omega: prover.omega,
        domain_size: config.domain_size,
        com_q_blind: None,
        com_q_last: None,
        config,
    };
    let verifier = LookupVerifier::new(vk, (), false);
    let zeta = fe(1234567);
    let (wz, zw) = verifier.opening_points(&LookupChallenges::new(fe(1), fe(2), zeta));
    let w = MpcField::Public(prover.omega);
    assert_eq!(wz, w.mul(&MpcField::Public(zeta), &mut net).revealed(&mut net));
    assert_eq!(MpcField::Public(zw).mul(&w, &mut net).revealed(&mut net), zeta);
    assert!(wz != zeta);
}

#[test]
fn interpolation_of_a_mixed_column_matches_the_public_one() {
    let net = LocalNet;
    let plain = public(&[3, 5, 0, 1]);
    let mut mixed = plain.clone();
    mixed[1] = MpcField::from_add_shared(fe(5));
    mixed[3] = MpcField::from_add_shared(fe(1));
    let a = interpolate(&plain, &net);
    let b = interpolate(&mixed, &net);
    assert_eq!(a.len(), 4);
    assert!(b.iter().all(|c| c.is_shared()));
    let av: Vec<Fe> = a.iter().map(|c| c.unwrap_as_public()).collect();
    let bv: Vec<Fe> = b.iter().map(|c| c.unwrap_as_public()).collect();
    assert_eq!(av, bv);
}
