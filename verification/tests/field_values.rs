use ark_bls12_377::Fr;
use ark_ff::{Field, PrimeField};
use mpc_lookup::field::Fe;
use mpc_lookup::mpc_field::MpcField;
use mpc_lookup::net::LocalNet;
use mpc_lookup::share::AdditiveFieldShare;

fn fe(x: u64) -> Fe {
    Fe::from_u64(x)
}

fn to_fr(x: &Fe) -> Fr {
    Fr::from_repr(ark_ff::BigInteger256(x.to_limbs())).unwrap()
}

fn from_fr(x: &Fr) -> Fe {
    Fe::from_limbs(x.into_repr().0).unwrap()
}

#[test]
fn test_secure_neq_public_values() {
    let mut net = LocalNet;
    let a = MpcField::Public(fe(42));
    let b = MpcField::Public(fe(42));
    let c = MpcField::Public(fe(10));
    let eq_result = a.secure_neq(&b, &mut net);
    let neq_result = a.secure_neq(&c, &mut net);
    assert!(matches!(eq_result, MpcField::Public(x) if x == Fe::zero()), "Same public values should return 0");
    assert!(matches!(neq_result, MpcField::Public(x) if x == Fe::one()), "Different public values should return 1");
}

#[test]
fn test_secure_eq_public_values() {
    let mut net = LocalNet;
    let a = MpcField::Public(fe(42));
    let b = MpcField::Public(fe(42));
    let c = MpcField::Public(fe(10));
    let eq_result = a.secure_eq(&b, &mut net);
    let neq_result = a.secure_eq(&c, &mut net);
    assert!(matches!(eq_result, MpcField::Public(x) if x == Fe::one()), "Same public values should return 1");
    assert!(matches!(neq_result, MpcField::Public(x) if x == Fe::zero()), "Different public values should return 0");
}

#[test]
fn test_secure_cmp_public_values() {
    let mut net = LocalNet;
    let a = MpcField::Public(fe(10));
    let b = MpcField::Public(fe(42));
    let c = MpcField::Public(fe(10));
    let result_ab = a.secure_cmp(&b, &mut net);
    assert!(matches!(result_ab, MpcField::Public(x) if x == Fe::one()), "10 < 42 should return 1");
    let result_ba = b.secure_cmp(&a, &mut net);
    assert!(matches!(result_ba, MpcField::Public(x) if x == Fe::zero()), "42 >= 10 should return 0");
    let result_ac = a.secure_cmp(&c, &mut net);
    assert!(matches!(result_ac, MpcField::Public(x) if x == Fe::zero()), "10 >= 10 should return 0");
}

#[test]
fn test_secure_neq_shared_values() {
    let mut net = LocalNet;
    let a = MpcField::Shared(AdditiveFieldShare::from_add_shared(fe(42)));
    let b = MpcField::Shared(AdditiveFieldShare::from_add_shared(fe(42)));
    let result = a.secure_neq(&b, &mut net);
    assert!(matches!(result, MpcField::Shared(_)), "secure_neq on shared values should return Shared");
    assert_eq!(result.revealed(&mut net), Fe::zero());
}

#[test]
fn test_secure_cmp_shared_values() {
    let mut net = LocalNet;
    let a = MpcField::Shared(AdditiveFieldShare::from_add_shared(fe(10)));
    let b = MpcField::Shared(AdditiveFieldShare::from_add_shared(fe(42)));
    let result = a.secure_cmp(&b, &mut net);
    assert!(matches!(result, MpcField::Shared(_)), "secure_cmp on shared values should return Shared");
    assert_eq!(result.revealed(&mut net), Fe::one());
}

#[test]
fn test_secure_neq_heterogeneous() {
    let mut net = LocalNet;
    let a = MpcField::Public(fe(42));
    let b = MpcField::Shared(AdditiveFieldShare::from_add_shared(fe(42)));
    let result = a.secure_neq(&b, &mut net);
    assert!(matches!(result, MpcField::Shared(_)), "secure_neq on heterogeneous values (Public, Shared) should return Shared");
}

#[test]
fn test_secure_cmp_heterogeneous() {
    let mut net = LocalNet;
    let a = MpcField::Public(fe(10));
    let b = MpcField::Shared(AdditiveFieldShare::from_add_shared(fe(42)));
    let result = a.secure_cmp(&b, &mut net);
    assert!(matches!(result, MpcField::Shared(_)), "secure_cmp on heterogeneous values (Public, Shared) should return Shared");
    assert_eq!(result.revealed(&mut net), Fe::one());
}

#[test]
fn test_reveal_works_in_single_party_mode_after_fix() {
    let mut net = LocalNet;
    let test_value = fe(42);
    let shared = AdditiveFieldShare::from_add_shared(test_value);
    let revealed = shared.open(&mut net);
    assert_eq!(revealed, test_value, "After fix, reveal() returns the actual value in single-party mode");
}

#[test]
fn test_reveal_works_for_public_after_fix() {
    let mut net = LocalNet;
    let test_value = fe(100);
    let public_share = AdditiveFieldShare::from_public(test_value, &net);
    let revealed = public_share.open(&mut net);
    assert_eq!(revealed, test_value, "Public values also reveal correctly");
}

#[test]
fn test_both_shared_and_public_work() {
    let mut net = LocalNet;
    let test_value = fe(999);
    let shared = AdditiveFieldShare::from_add_shared(test_value);
    assert_eq!(shared.open(&mut net), test_value);
    let public_share = AdditiveFieldShare::from_public(test_value, &net);
    assert_eq!(public_share.open(&mut net), test_value);
}

#[test]
fn field_operations_agree_with_arkworks() {
    let mut net = LocalNet;
    let x = Fr::from(123456789u64).pow([7u64]);
    let y = Fr::from(987654321u64).pow([5u64]);
    let (a, b) = (from_fr(&x), from_fr(&y));
    let sum = MpcField::Public(a).add(&MpcField::Public(b), &net);
    let diff = MpcField::Public(a).sub(&MpcField::Public(b), &net);
    let prod = MpcField::Public(a).mul(&MpcField::Public(b), &mut net);
    assert_eq!(to_fr(&sum.revealed(&mut net)), x + y);
    assert_eq!(to_fr(&diff.revealed(&mut net)), x - y);
    assert_eq!(to_fr(&prod.revealed(&mut net)), x * y);
    let inv = MpcField::Public(a).inv(&mut net).unwrap();
    assert_eq!(to_fr(&inv.revealed(&mut net)), x.inverse().unwrap());
    assert!(MpcField::Public(Fe::zero()).inv(&mut net).is_none());
}

#[test]
fn shared_arithmetic_matches_public_for_a_lone_party() {
    let mut net = LocalNet;
    let x = MpcField::Shared(AdditiveFieldShare::from_add_shared(fe(6)));
    let y = MpcField::Shared(AdditiveFieldShare::from_add_shared(fe(7)));
    assert_eq!(x.mul(&y, &mut net).revealed(&mut net), fe(42));
    assert_eq!(x.add(&MpcField::Public(fe(4)), &net).revealed(&mut net), fe(10));
    let q = fe(42);
    let quotient = MpcField::Shared(AdditiveFieldShare::from_add_shared(q)).div(&y, &mut net).unwrap();
    assert_eq!(quotient.revealed(&mut net), fe(6));
}

#[test]
fn secure_neq_of_shared_uses_fermat() {
    let mut net = LocalNet;
    let a = MpcField::Shared(AdditiveFieldShare::from_add_shared(fe(42)));
    let c = MpcField::Shared(AdditiveFieldShare::from_add_shared(fe(10)));
    assert_eq!(a.secure_neq(&c, &mut net).revealed(&mut net), Fe::one());
    assert_eq!(a.secure_eq(&c, &mut net).revealed(&mut net), Fe::zero());
}

#[test]
fn secure_cmp_on_large_values() {
    let mut net = LocalNet;
    let big = from_fr(&(Fr::from(0u64) - Fr::from(1u64)));
    let small = fe(5);
    let a = MpcField::Shared(AdditiveFieldShare::from_add_shared(small));
    let b = MpcField::Shared(AdditiveFieldShare::from_add_shared(big));
    assert_eq!(a.secure_cmp(&b, &mut net).revealed(&mut net), Fe::one());
    assert_eq!(b.secure_cmp(&a, &mut net).revealed(&mut net), Fe::zero());
}

#[test]
fn bit_decomposition_of_shared_values() {
    let mut net = LocalNet;
    let values = vec![
        MpcField::Shared(AdditiveFieldShare::from_add_shared(fe(5))),
        MpcField::Public(fe(12)),
    ];
    let bits = MpcField::batch_bit_decompose_bool(&values, &mut net);
    assert_eq!(bits.len(), 2);
    assert_eq!(bits[0].len(), 253);
    assert_eq!(&bits[0][0..4], &[true, false, true, false]);
    assert_eq!(&bits[1][0..4], &[false, false, true, true]);
    assert!(bits[0][4..].iter().all(|b| !b));
}

#[test]
fn fe_rejects_non_canonical_limbs() {
    let p = mpc_lookup::field::modulus_limbs_exec();
    assert!(Fe::from_limbs(p).is_none());
    assert!(Fe::from_limbs([1, 0, 0, 0]).is_some());
}

#[test]
fn summands_of_a_sum_add_up_among_two_parties() {
    // Secrets 7 = 3 + 4 and 11 = 5 + 6; each party adds its own summands.
    let mut p0 = AdditiveFieldShare { val: fe(3) };
    p0.add(&AdditiveFieldShare { val: fe(5) });
    let mut p1 = AdditiveFieldShare { val: fe(4) };
    p1.add(&AdditiveFieldShare { val: fe(6) });
    let mut total = p0;
    total.add(&p1);
    assert_eq!(total.val, fe(18));
    // Differences: 7 - 11 = (3 - 5) + (4 - 6) = -4.
    let mut d0 = AdditiveFieldShare { val: fe(3) };
    d0.sub(&AdditiveFieldShare { val: fe(5) });
    let mut d1 = AdditiveFieldShare { val: fe(4) };
    d1.sub(&AdditiveFieldShare { val: fe(6) });
    let mut diff = d0;
    diff.add(&d1);
    let mut back = diff;
    back.add(&AdditiveFieldShare { val: fe(4) });
    assert_eq!(back.val, Fe::zero());
}
