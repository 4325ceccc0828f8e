use ark_bls12_377::Fr;
use ark_ff::{PrimeField, UniformRand};
use ark_std::rand::RngCore;
use ark_std::test_rng;
use mpc_lookup::client::{pad_f_prime_to_match_t_prime, pad_f_to_match_t, prepare_queries};
use mpc_lookup::field::Fe;
use mpc_lookup::mpc_field::MpcField;
use mpc_lookup::net::LocalNet;
use mpc_lookup::permutation::{
    naive_secure_oblivious_lookup_permutation, secure_oblivious_lookup_permutation,
    lookup_outputs_hold, verify_lookup_permutation_outputs_in_plaintext,
};
use mpc_lookup::share::AdditiveFieldShare;

fn fe(x: u64) -> Fe {
    Fe::from_u64(x)
}

fn from_fr(x: &Fr) -> Fe {
    Fe::from_limbs(x.into_repr().0).unwrap()
}

fn public(v: &[Fe]) -> Vec<MpcField> {
    v.iter().map(|&x| MpcField::Public(x)).collect()
}

fn reveal_all(v: &[MpcField], net: &mut LocalNet) -> Vec<Fe> {
    v.iter().map(|x| x.revealed(net)).collect()
}

fn small_case() -> (Vec<Fe>, Vec<Fe>) {
    let t: Vec<Fe> = [10u64, 20, 30, 0, 40, 50, 60, 70].iter().map(|&x| fe(x)).collect();
    let f: Vec<Fe> = [30u64, 0, 30, 0].iter().map(|&x| fe(x)).collect();
    (t, f)
}

fn random_case(n: usize, m: usize, rng: &mut impl RngCore) -> (Vec<Fe>, Vec<Fe>) {
    let mut t_plain: Vec<Fe> = Vec::with_capacity(n);
    while t_plain.len() < n {
        let x = from_fr(&Fr::rand(rng));
        if !t_plain.iter().any(|y| *y == x) {
            t_plain.push(x);
        }
    }
    let draws: Vec<u64> = (0..m).map(|_| rng.next_u64()).collect();
    let f_plain = prepare_queries(&t_plain, &draws);
    (t_plain, f_plain)
}

#[test]
fn test_secure_oblivious_lookup_permutation_local() {
    let mut net = LocalNet;
    let (n, m) = (8, 4);
    let (t_plain, f_plain) = small_case();
    let (t_prime, f_prime) = secure_oblivious_lookup_permutation(n, m, &public(&t_plain), &public(&f_plain), &mut net);
    let t_prime_plain = reveal_all(&t_prime, &mut net);
    let f_prime_plain = reveal_all(&f_prime, &mut net);
    assert!(lookup_outputs_hold(n, m, &t_plain, &f_plain, &t_prime_plain, &f_prime_plain));
}

#[test]
fn test_secure_oblivious_lookup_permutation_large_local() {
    let mut rng = test_rng();
    let mut net = LocalNet;
    for &n in [8usize, 16, 32].iter() {
        let m = n / 2;
        let (t_plain, f_plain) = random_case(n, m, &mut rng);
        let (t_prime, f_prime) = secure_oblivious_lookup_permutation(n, m, &public(&t_plain), &public(&f_plain), &mut net);
        let t_prime_plain = reveal_all(&t_prime, &mut net);
        let f_prime_plain = reveal_all(&f_prime, &mut net);
        assert!(lookup_outputs_hold(n, m, &t_plain, &f_plain, &t_prime_plain, &f_prime_plain));
    }
}

#[test]
fn test_naive_secure_oblivious_lookup_permutation_local() {
    let mut net = LocalNet;
    let (n, m) = (8, 4);
    let (t_plain, f_plain) = small_case();
    let (t_prime, f_prime) = naive_secure_oblivious_lookup_permutation(n, m, &public(&t_plain), &public(&f_plain), &mut net);
    let t_prime_plain = reveal_all(&t_prime, &mut net);
    let f_prime_plain = reveal_all(&f_prime, &mut net);
    let f_prime_plain_m = f_prime_plain[0..m].to_vec();
    assert!(lookup_outputs_hold(n, m, &t_plain, &f_plain, &t_prime_plain, &f_prime_plain_m));
}

#[test]
fn test_naive_secure_oblivious_lookup_permutation_large_local() {
    let mut rng = test_rng();
    let mut net = LocalNet;
    for &n in [8usize, 16, 32].iter() {
        let m = n / 2;
        let (t_plain, f_plain) = random_case(n, m, &mut rng);
        let (t_prime, f_prime) = naive_secure_oblivious_lookup_permutation(n, m, &public(&t_plain), &public(&f_plain), &mut net);
        let t_prime_plain = reveal_all(&t_prime, &mut net);
        let f_prime_plain = reveal_all(&f_prime, &mut net);
        let f_prime_plain_m = f_prime_plain[0..m].to_vec();
        assert!(lookup_outputs_hold(n, m, &t_plain, &f_plain, &t_prime_plain, &f_prime_plain_m));
    }
}

#[test]
fn test_batch_secure_cmp_public_values() {
    let mut net = LocalNet;
    let pairs = vec![
        (MpcField::Public(fe(1)), MpcField::Public(fe(2))),
        (MpcField::Public(fe(5)), MpcField::Public(fe(3))),
        (MpcField::Public(fe(7)), MpcField::Public(fe(7))),
        (MpcField::Public(fe(10)), MpcField::Public(fe(20))),
    ];
    let results = MpcField::batch_secure_cmp(&pairs, &mut net);
    assert_eq!(results.len(), 4);
    assert_eq!(results[0].revealed(&mut net), fe(1));
    assert_eq!(results[1].revealed(&mut net), fe(0));
    assert_eq!(results[2].revealed(&mut net), fe(0));
    assert_eq!(results[3].revealed(&mut net), fe(1));
}

#[test]
fn shared_lookup_permutation_for_a_lone_party() {
    let mut net = LocalNet;
    let (n, m) = (8, 4);
    let (t_plain, f_plain) = small_case();
    let share = |v: &[Fe]| -> Vec<MpcField> {
        v.iter().map(|&x| MpcField::Shared(AdditiveFieldShare::from_add_shared(x))).collect()
    };
    let (t_prime, f_prime) = secure_oblivious_lookup_permutation(n, m, &share(&t_plain), &share(&f_plain), &mut net);
    let t_prime_plain = reveal_all(&t_prime, &mut net);
    let f_prime_plain = reveal_all(&f_prime, &mut net);
    assert!(lookup_outputs_hold(n, m, &t_plain, &f_plain, &t_prime_plain, &f_prime_plain));
    let (t2, f2) = naive_secure_oblivious_lookup_permutation(n, m, &share(&t_plain), &share(&f_plain), &mut net);
    assert_eq!(reveal_all(&t2, &mut net), t_prime_plain);
    assert_eq!(reveal_all(&f2, &mut net), f_prime_plain);
}

#[test]
fn small_case_outputs_exactly() {
    let mut net = LocalNet;
    let (t_plain, f_plain) = small_case();
    let (t_prime, f_prime) = secure_oblivious_lookup_permutation(8, 4, &public(&t_plain), &public(&f_plain), &mut net);
    assert_eq!(reveal_all(&f_prime, &mut net), vec![fe(0), fe(0), fe(30), fe(30)]);
    // Positions 0 and 2 start runs; the unused entries fill the rest in order.
    assert_eq!(
        reveal_all(&t_prime, &mut net),
        vec![fe(0), fe(10), fe(30), fe(20), fe(40), fe(50), fe(60), fe(70)]
    );
}

#[test]
fn checker_rejects_bad_outputs() {
    let (t_plain, f_plain) = small_case();
    let f_sorted = vec![fe(0), fe(0), fe(30), fe(30)];
    let good = vec![fe(0), fe(10), fe(30), fe(20), fe(40), fe(50), fe(60), fe(70)];
    assert!(lookup_outputs_hold(8, 4, &t_plain, &f_plain, &good, &f_sorted));
    verify_lookup_permutation_outputs_in_plaintext(8, 4, &t_plain, &f_plain, &good, &f_sorted);
    let mut swapped = good.clone();
    swapped.swap(0, 1);
    assert!(!lookup_outputs_hold(8, 4, &t_plain, &f_plain, &swapped, &f_sorted));
    let mut altered = good.clone();
    altered[7] = fe(71);
    assert!(!lookup_outputs_hold(8, 4, &t_plain, &f_plain, &altered, &f_sorted));
    assert!(!lookup_outputs_hold(8, 4, &t_plain, &f_plain, &good[0..7].to_vec(), &f_sorted));
}

#[test]
fn padding_uses_permuted_table_entries() {
    let t_prime = public(&[fe(1), fe(2), fe(3), fe(4)]);
    let f_prime = public(&[fe(9), fe(8)]);
    let padded = pad_f_prime_to_match_t_prime(f_prime, &t_prime);
    assert_eq!(padded, public(&[fe(9), fe(8), fe(3), fe(4)]));
    let t = public(&[fe(5), fe(6), fe(7), fe(8)]);
    let f = public(&[fe(7)]);
    assert_eq!(pad_f_to_match_t(f, &t, &t_prime), public(&[fe(7), fe(2), fe(3), fe(4)]));
}

#[test]
fn prepared_queries_repeat_a_value() {
    let t: Vec<Fe> = (0..8u64).map(fe).collect();
    let f = prepare_queries(&t, &vec![1, 2, 3, 4]);
    assert_eq!(f, vec![fe(1), fe(2), fe(3), fe(1)]);
    let g = prepare_queries(&t, &vec![9, 1, 5, 2]);
    assert_eq!(g, vec![fe(1), fe(1), fe(5), fe(2)]);
}

#[test]
fn naive_small_case_outputs_exactly() {
    let mut net = LocalNet;
    let (t_plain, f_plain) = small_case();
    let (t_prime, f_prime) = naive_secure_oblivious_lookup_permutation(8, 4, &public(&t_plain), &public(&f_plain), &mut net);
    assert_eq!(reveal_all(&f_prime, &mut net), vec![fe(0), fe(0), fe(30), fe(30)]);
    let expected: Vec<Fe> = [0u64, 10, 30, 20, 40, 50, 60, 70].iter().map(|&x| fe(x)).collect();
    assert_eq!(reveal_all(&t_prime, &mut net), expected);
}

#[test]
fn naive_permutation_handles_a_repeated_table_entry() {
    let mut net = LocalNet;
    let t_plain = vec![fe(5), fe(5), fe(7), fe(9)];
    let f_plain = vec![fe(7), fe(5)];
    let (t_prime, f_prime) = naive_secure_oblivious_lookup_permutation(4, 2, &public(&t_plain), &public(&f_plain), &mut net);
    let t_prime_plain = reveal_all(&t_prime, &mut net);
    let f_prime_plain = reveal_all(&f_prime, &mut net);
    assert_eq!(f_prime_plain, vec![fe(5), fe(7)]);
    assert_eq!(t_prime_plain, vec![fe(5), fe(7), fe(5), fe(9)]);
    assert!(lookup_outputs_hold(4, 2, &t_plain, &f_plain, &t_prime_plain, &f_prime_plain));
}

#[test]
fn secure_permutation_routes_unused_entries_in_table_order() {
    let mut net = LocalNet;
    let t_plain = vec![fe(4), fe(3), fe(2), fe(1)];
    let f_plain = vec![fe(3), fe(3)];
    let (t_prime, f_prime) = secure_oblivious_lookup_permutation(4, 2, &public(&t_plain), &public(&f_plain), &mut net);
    assert_eq!(reveal_all(&f_prime, &mut net), vec![fe(3), fe(3)]);
    assert_eq!(reveal_all(&t_prime, &mut net), vec![fe(3), fe(4), fe(2), fe(1)]);
}
