use mpc_lookup::field::Fe;
use mpc_lookup::mpc_field::MpcField;
use mpc_lookup::net::LocalNet;
use mpc_lookup::poly::shift_polynomial;
use mpc_lookup::prover::LookupProver;
use mpc_lookup::share::AdditiveFieldShare;
use mpc_lookup::types::LookupConfig;

fn public(v: &[u64]) -> Vec<MpcField> {
    v.iter().map(|&x| MpcField::Public(Fe::from_u64(x))).collect()
}

#[test]
fn grand_product_telescopes_to_one() {
    let mut net = LocalNet;
    let config = LookupConfig::new(4, 2, 1);
    assert_eq!(config.domain_size, 8);
    let usable = config.num_usable_rows;
    let mut prover = LookupProver::new(config, public(&[3, 3]), public(&[1, 2, 3, 4]), false);
    assert_eq!(prover.a_values.len(), 8);
    assert_eq!(prover.s_values[4], MpcField::Public(Fe::zero()));
    // A' = sorted queries padded with table values, S' = table rearranged.
    prover.set_permuted_values(public(&[3, 1, 2, 4]), public(&[3, 3]));
    let beta = MpcField::Public(Fe::from_u64(11));
    let gamma = MpcField::Public(Fe::from_u64(13));
    assert!(prover.compute_grand_product(beta, gamma, &mut net));
    let z = prover.z_values.clone().unwrap();
    assert_eq!(z.len(), 8);
    assert_eq!(z[0], MpcField::Public(Fe::one()));
    assert_eq!(z[usable].revealed(&mut net), Fe::one());
    assert_eq!(z[7].revealed(&mut net), Fe::one());
}

#[test]
fn grand_product_of_shared_columns() {
    let mut net = LocalNet;
    let config = LookupConfig::new(2, 2, 1);
    let share = |v: &[u64]| -> Vec<MpcField> {
        v.iter().map(|&x| MpcField::Shared(AdditiveFieldShare::from_add_shared(Fe::from_u64(x)))).collect()
    };
    let mut prover = LookupProver::new(config, share(&[5, 5]), share(&[5, 6]), false);
    prover.set_permuted_values(share(&[5, 6]), share(&[5, 5]));
    let beta = MpcField::Public(Fe::from_u64(2));
    let gamma = MpcField::Public(Fe::from_u64(3));
    assert!(prover.compute_grand_product(beta, gamma, &mut net));
    let z = prover.z_values.clone().unwrap();
    // Row 0: (5+2)(5+3) / ((5+2)(5+3)) = 1; row 1: (5+2)(6+3) / ((5+2)(6+3)) = 1.
    assert_eq!(z[2].revealed(&mut net), Fe::one());
}

#[test]
fn shift_scales_by_powers() {
    let mut net = LocalNet;
    let shifted = shift_polynomial(public(&[1, 2, 3]), MpcField::Public(Fe::from_u64(2)), &mut net);
    assert_eq!(shifted, public(&[1, 4, 12]));
}

#[test]
fn grand_product_stays_off_one_when_the_permuted_queries_differ() {
    let mut net = LocalNet;
    let config = LookupConfig::new(4, 2, 1);
    let usable = config.num_usable_rows;
    let mut prover = LookupProver::new(config, public(&[3, 3]), public(&[1, 2, 3, 4]), false);
    // A' holds 5 where A holds 3: not a rearrangement of A.
    prover.set_permuted_values(public(&[3, 1, 2, 4]), public(&[3, 5]));
    let beta = MpcField::Public(Fe::from_u64(11));
    let gamma = MpcField::Public(Fe::from_u64(13));
    assert!(prover.compute_grand_product(beta, gamma, &mut net));
    let z = prover.z_values.clone().unwrap();
    assert_ne!(z[usable].revealed(&mut net), Fe::one());
}
