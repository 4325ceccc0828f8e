use mpc_lookup::field::Fe;
use mpc_lookup::mpc_field::MpcField;
use mpc_lookup::net::LocalNet;
use mpc_lookup::share::{AdditiveFieldShare, DummyFieldTripleSource};

fn fe(x: u64) -> Fe {
    Fe::from_u64(x)
}

fn shared(v: &[u64]) -> Vec<MpcField> {
    v.iter().map(|&x| MpcField::from_add_shared(fe(x))).collect()
}

fn public(v: &[u64]) -> Vec<MpcField> {
    v.iter().map(|&x| MpcField::Public(fe(x))).collect()
}

fn reveal_all(v: &[MpcField], net: &mut LocalNet) -> Vec<Fe> {
    v.iter().map(|x| x.revealed(net)).collect()
}

#[test]
fn batch_inverse_of_shares() {
    let mut net = LocalNet;
    let mut source = DummyFieldTripleSource::new(true);
    let xs = vec![AdditiveFieldShare::from_add_shared(fe(2)), AdditiveFieldShare::from_add_shared(fe(5))];
    let inv = AdditiveFieldShare::batch_inv(xs, &mut source, &mut net).unwrap();
    let two = MpcField::Public(fe(2)).mul(&MpcField::Public(inv[0].val), &mut net);
    let five = MpcField::Public(fe(5)).mul(&MpcField::Public(inv[1].val), &mut net);
    assert_eq!(two.revealed(&mut net), Fe::one());
    assert_eq!(five.revealed(&mut net), Fe::one());
}

#[test]
fn batch_inverse_refuses_zero() {
    let mut net = LocalNet;
    let mut source = DummyFieldTripleSource::new(true);
    let xs = vec![AdditiveFieldShare::from_add_shared(fe(3)), AdditiveFieldShare::from_add_shared(fe(0))];
    assert!(AdditiveFieldShare::batch_inv(xs, &mut source, &mut net).is_none());
}

#[test]
fn partial_products_of_shares() {
    let mut net = LocalNet;
    let mut source = DummyFieldTripleSource::new(true);
    let xs: Vec<AdditiveFieldShare> = [2u64, 3, 4, 5].iter().map(|&x| AdditiveFieldShare::from_add_shared(fe(x))).collect();
    let prods = AdditiveFieldShare::partial_products(xs, &mut source, &mut net).unwrap();
    let vals: Vec<Fe> = prods.iter().map(|s| s.val).collect();
    assert_eq!(vals, vec![fe(2), fe(6), fe(24), fe(120)]);
}

#[test]
fn batch_product_in_place_public_and_shared() {
    let mut net = LocalNet;
    let mut a = public(&[2, 3, 4]);
    MpcField::batch_product_in_place(&mut a, &public(&[5, 6, 7]), &mut net);
    assert_eq!(reveal_all(&a, &mut net), vec![fe(10), fe(18), fe(28)]);
    let mut b = shared(&[2, 3, 4]);
    MpcField::batch_product_in_place(&mut b, &shared(&[5, 6, 7]), &mut net);
    assert!(b.iter().all(|x| x.is_shared()));
    assert_eq!(reveal_all(&b, &mut net), vec![fe(10), fe(18), fe(28)]);
    let mut c = public(&[2, 3, 4]);
    MpcField::batch_product_in_place(&mut c, &public(&[5]), &mut net);
    assert_eq!(reveal_all(&c, &mut net), vec![fe(10), fe(3), fe(4)]);
}

#[test]
fn batch_division_in_place_of_shares() {
    let mut net = LocalNet;
    let mut a = shared(&[10, 18, 28]);
    assert!(MpcField::batch_division_in_place(&mut a, &shared(&[5, 6, 7]), &mut net));
    assert_eq!(reveal_all(&a, &mut net), vec![fe(2), fe(3), fe(4)]);
    let mut b = shared(&[10, 18]);
    assert!(!MpcField::batch_division_in_place(&mut b, &shared(&[5, 0]), &mut net));
    assert_eq!(reveal_all(&b, &mut net), vec![fe(10), fe(18)]);
    let mut c = public(&[10, 18]);
    assert!(MpcField::batch_division_in_place(&mut c, &public(&[5, 6]), &mut net));
    assert_eq!(reveal_all(&c, &mut net), vec![fe(50), fe(108)]);
}

#[test]
fn partial_products_in_place_public_and_shared() {
    let mut net = LocalNet;
    let mut a = public(&[2, 3, 4, 5]);
    assert!(MpcField::partial_products_in_place(&mut a, &mut net));
    assert_eq!(reveal_all(&a, &mut net), vec![fe(2), fe(6), fe(24), fe(120)]);
    let mut b = shared(&[2, 3, 4, 5]);
    assert!(MpcField::partial_products_in_place(&mut b, &mut net));
    assert!(b.iter().all(|x| x.is_shared()));
    assert_eq!(reveal_all(&b, &mut net), vec![fe(2), fe(6), fe(24), fe(120)]);
}
