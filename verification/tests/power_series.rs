use mpc_lookup::field::Fe;
use mpc_lookup::mpc_field::MpcField;
use mpc_lookup::net::LocalNet;
use mpc_lookup::series::{poly_divmod, poly_inv};

fn fe(x: u64) -> Fe {
    Fe::from_u64(x)
}

fn public(v: &[u64]) -> Vec<MpcField> {
    v.iter().map(|&x| MpcField::Public(fe(x))).collect()
}

fn reveal_all(v: &[MpcField], net: &mut LocalNet) -> Vec<Fe> {
    v.iter().map(|x| x.revealed(net)).collect()
}

/// Coefficients of the product a b, in the field.
fn product(a: &[MpcField], b: &[MpcField], net: &mut LocalNet) -> Vec<Fe> {
    let mut out = vec![MpcField::Public(Fe::zero()); a.len() + b.len() - 1];
    for i in 0..a.len() {
        for j in 0..b.len() {
            let t = a[i].mul(&b[j], net);
            out[i + j] = out[i + j].add(&t, net);
        }
    }
    reveal_all(&out, net)
}

#[test]
fn series_inverse_times_series_is_one() {
    let mut net = LocalNet;
    let f = public(&[2, 3, 5, 7, 11]);
    for deg in 1..=6 {
        let g = poly_inv(&f, deg, &mut net).unwrap();
        assert_eq!(g.len(), deg);
        let fg = product(&f, &g, &mut net);
        assert_eq!(fg[0], Fe::one());
        for i in 1..deg {
            assert_eq!(fg[i], Fe::zero());
        }
    }
}

#[test]
fn series_inverse_of_one_minus_x_is_all_ones() {
    let mut net = LocalNet;
    // 1 / (1 - x) = 1 + x + x^2 + ...
    let minus_one = MpcField::Public(Fe::zero()).sub(&MpcField::Public(Fe::one()), &net);
    let f = vec![MpcField::Public(Fe::one()), minus_one];
    let g = poly_inv(&f, 5, &mut net).unwrap();
    assert_eq!(reveal_all(&g, &mut net), vec![Fe::one(); 5]);
}

#[test]
fn series_inverse_needs_an_invertible_constant() {
    let mut net = LocalNet;
    assert!(poly_inv(&public(&[0, 1, 2]), 3, &mut net).is_none());
    assert_eq!(poly_inv(&public(&[0, 1, 2]), 0, &mut net).unwrap().len(), 0);
}

#[test]
fn division_by_x_plus_one() {
    let mut net = LocalNet;
    // x^3 + 2x^2 + 3x + 4 = (x^2 + x + 2)(x + 1) + 2
    let (q, r) = poly_divmod(&public(&[4, 3, 2, 1]), &public(&[1, 1]), &mut net);
    assert_eq!(reveal_all(&q, &mut net), vec![fe(2), fe(1), fe(1)]);
    assert_eq!(reveal_all(&r, &mut net), vec![fe(2), fe(0), fe(0), fe(0)]);
}

#[test]
fn division_by_a_divisor_that_is_not_monic() {
    let mut net = LocalNet;
    let num = public(&[2, 3, 4, 5]);
    let den = public(&[1, 2]);
    let (q, r) = poly_divmod(&num, &den, &mut net);
    assert_eq!(q.len(), 3);
    assert_eq!(r.len(), 4);
    let rv = reveal_all(&r, &mut net);
    for k in 1..4 {
        assert_eq!(rv[k], Fe::zero());
    }
    // q den + r reproduces num.
    let qd = product(&q, &den, &mut net);
    for k in 0..4 {
        let sum = MpcField::Public(qd[k]).add(&MpcField::Public(rv[k]), &net);
        assert_eq!(sum.revealed(&mut net), num[k].revealed(&mut net));
    }
}

#[test]
fn division_of_a_shorter_numerator_leaves_it_as_remainder() {
    let mut net = LocalNet;
    let num = public(&[7, 9]);
    let (q, r) = poly_divmod(&num, &public(&[1, 0, 1]), &mut net);
    assert_eq!(reveal_all(&q, &mut net), vec![Fe::zero()]);
    assert_eq!(r, num);
}
