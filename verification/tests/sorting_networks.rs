use mpc_lookup::field::Fe;
use mpc_lookup::mpc_field::MpcField;
use mpc_lookup::net::LocalNet;
use mpc_lookup::share::AdditiveFieldShare;
use mpc_lookup::sorting::{bitonic_sort, bitonic_sort_by_key, radix_sort, radix_sort_by_key};

fn public(v: &[u64]) -> Vec<MpcField> {
    v.iter().map(|&x| MpcField::Public(Fe::from_u64(x))).collect()
}

fn shared(v: &[u64]) -> Vec<MpcField> {
    v.iter()
        .map(|&x| MpcField::Shared(AdditiveFieldShare::from_add_shared(Fe::from_u64(x))))
        .collect()
}

fn reveal_all(v: &[MpcField], net: &mut LocalNet) -> Vec<Fe> {
    v.iter().map(|x| x.revealed(net)).collect()
}

fn cases() -> Vec<Vec<u64>> {
    vec![vec![3, 1], vec![4, 2, 3, 1], vec![8, 3, 6, 1, 7, 5, 2, 4]]
}

fn sorted_fe(v: &[u64]) -> Vec<Fe> {
    let mut s = v.to_vec();
    s.sort();
    s.iter().map(|&x| Fe::from_u64(x)).collect()
}

#[test]
fn test_bitonic_sort_public_values() {
    let mut net = LocalNet;
    for input in cases() {
        let n = input.len();
        let sorted = bitonic_sort(public(&input), &mut net);
        assert_eq!(reveal_all(&sorted, &mut net), sorted_fe(&input), "Bitonic sort failed for input size {}", n);
    }
}

#[test]
fn test_radix_sort_public_values() {
    let mut net = LocalNet;
    for input in cases() {
        let n = input.len();
        let sorted = radix_sort(public(&input), 64, &mut net);
        assert_eq!(reveal_all(&sorted, &mut net), sorted_fe(&input), "Radix sort failed for input size {}", n);
    }
}

#[test]
fn test_radix_sort_by_key_public_values() {
    let mut net = LocalNet;
    let keys: Vec<u64> = vec![4, 2, 3, 1];
    let vals: Vec<(u64, u64)> = (0..keys.len()).map(|i| (i as u64 * 10, i as u64 * 100)).collect();
    let input: Vec<(MpcField, MpcField, MpcField)> = keys
        .iter()
        .zip(vals.iter())
        .map(|(&k, &(v1, v2))| {
            (
                MpcField::Public(Fe::from_u64(k)),
                MpcField::Public(Fe::from_u64(v1)),
                MpcField::Public(Fe::from_u64(v2)),
            )
        })
        .collect();
    let sorted = radix_sort_by_key(input, 64, &mut net);
    let sorted_keys: Vec<Fe> = sorted.iter().map(|(k, _, _)| k.revealed(&mut net)).collect();
    assert_eq!(sorted_keys, sorted_fe(&keys), "Keys not sorted correctly");
    for (i, &(_, v1, v2)) in sorted.iter().enumerate() {
        let key = sorted_keys[i];
        let orig_idx = keys.iter().position(|&k| Fe::from_u64(k) == key).unwrap();
        assert_eq!(v1.revealed(&mut net), Fe::from_u64(vals[orig_idx].0), "val1 not correctly moved with key");
        assert_eq!(v2.revealed(&mut net), Fe::from_u64(vals[orig_idx].1), "val2 not correctly moved with key");
    }
}

#[test]
fn shared_values_sort_by_both_networks() {
    let mut net = LocalNet;
    for input in cases() {
        let b = bitonic_sort(shared(&input), &mut net);
        assert!(b.iter().all(|x| matches!(x, MpcField::Shared(_))));
        assert_eq!(reveal_all(&b, &mut net), sorted_fe(&input));
        let r = radix_sort(shared(&input), 8, &mut net);
        assert!(r.iter().all(|x| matches!(x, MpcField::Shared(_))));
        assert_eq!(reveal_all(&r, &mut net), sorted_fe(&input));
    }
}

#[test]
fn radix_sort_compares_low_bits_only() {
    // With two key bits, 5 (0b101) and 2 (0b10) compare as 1 and 2.
    let mut net = LocalNet;
    let r = radix_sort(shared(&[5, 2]), 2, &mut net);
    assert_eq!(reveal_all(&r, &mut net), vec![Fe::from_u64(5), Fe::from_u64(2)]);
}

#[test]
fn sorts_by_key_keep_rows_together() {
    let mut net = LocalNet;
    let rows: Vec<(MpcField, MpcField, MpcField)> = [(3u64, 30u64, 300u64), (1, 10, 100), (2, 20, 200), (0, 0, 0)]
        .iter()
        .map(|&(k, a, b)| {
            (
                MpcField::Shared(AdditiveFieldShare::from_add_shared(Fe::from_u64(k))),
                MpcField::Shared(AdditiveFieldShare::from_add_shared(Fe::from_u64(a))),
                MpcField::Public(Fe::from_u64(b)),
            )
        })
        .collect();
    let by_bitonic = bitonic_sort_by_key(rows.clone(), &mut net);
    let by_radix = radix_sort_by_key(rows, 8, &mut net);
    for sorted in [by_bitonic, by_radix] {
        for (i, (k, a, b)) in sorted.iter().enumerate() {
            let i = i as u64;
            assert_eq!(k.revealed(&mut net), Fe::from_u64(i));
            assert_eq!(a.revealed(&mut net), Fe::from_u64(10 * i));
            assert_eq!(b.revealed(&mut net), Fe::from_u64(100 * i));
        }
    }
}

#[test]
fn public_radix_sort_by_key_is_stable() {
    let mut net = LocalNet;
    let rows: Vec<(MpcField, MpcField, MpcField)> = [(2u64, 1u64), (1, 2), (2, 3), (1, 4)]
        .iter()
        .map(|&(k, v)| (MpcField::Public(Fe::from_u64(k)), MpcField::Public(Fe::from_u64(v)), MpcField::Public(Fe::zero())))
        .collect();
    let sorted = radix_sort_by_key(rows, 64, &mut net);
    let order: Vec<Fe> = sorted.iter().map(|(_, v, _)| v.revealed(&mut net)).collect();
    assert_eq!(order, vec![Fe::from_u64(2), Fe::from_u64(4), Fe::from_u64(1), Fe::from_u64(3)]);
}
