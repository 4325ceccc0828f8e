use mpc_lookup::bit_ops::{BooleanOps, DummyBooleanBeaverSource};
use mpc_lookup::net::LocalNet;

#[test]
fn test_bitwise_not() {
    // A lone party is the king, so it flips its share.
    let net = LocalNet;
    let share = true;
    let result = BooleanOps::bitwise_not(share, &net);
    assert_eq!(result, false);
}

#[test]
fn test_bitwise_xor() {
    assert_eq!(BooleanOps::bitwise_xor(true, true), false);
    assert_eq!(BooleanOps::bitwise_xor(true, false), true);
    assert_eq!(BooleanOps::bitwise_xor(false, true), true);
    assert_eq!(BooleanOps::bitwise_xor(false, false), false);
}

#[test]
fn beaver_and_or_on_every_input() {
    let mut net = LocalNet;
    let mut source = DummyBooleanBeaverSource::new(true);
    for a in [false, true] {
        for b in [false, true] {
            assert_eq!(BooleanOps::beaver_bitwise_and(a, b, &mut source, &mut net), a && b);
            assert_eq!(BooleanOps::beaver_bitwise_or(a, b, &mut source, &mut net), a || b);
        }
    }
}

#[test]
fn batch_and_or_match_single() {
    let mut net = LocalNet;
    let mut source = DummyBooleanBeaverSource::new(true);
    let left = vec![false, false, true, true];
    let right = vec![false, true, false, true];
    let ands = BooleanOps::batch_beaver_bitwise_and(&left, &right, &mut source, &mut net);
    let ors = BooleanOps::batch_beaver_bitwise_or(&left, &right, &mut source, &mut net);
    assert_eq!(ands, vec![false, false, false, true]);
    assert_eq!(ors, vec![false, true, true, true]);
}

#[test]
fn bits_add_adds_little_endian_values() {
    let mut net = LocalNet;
    let mut source = DummyBooleanBeaverSource::new(true);
    // 5 + 3 = 8 with four bits and the carry kept.
    let five = vec![true, false, true, false];
    let three = vec![true, true, false, false];
    let sum = BooleanOps::bits_add(&five, &three, true, &mut source, &mut net);
    assert_eq!(sum, vec![false, false, false, true, false]);
    // 13 + 6 = 19 wraps to 3 without the carry.
    let thirteen = vec![true, false, true, true];
    let six = vec![false, true, true, false];
    let wrapped = BooleanOps::bits_add(&thirteen, &six, false, &mut source, &mut net);
    assert_eq!(wrapped, vec![true, true, false, false]);
}

#[test]
fn batch_open_bool_returns_own_shares_alone() {
    let mut net = LocalNet;
    let shares = vec![true, false, true];
    assert_eq!(BooleanOps::batch_open_bool(&shares, &mut net), shares);
}

#[test]
fn xor_shares_reconstruct_the_xor_of_the_secrets() {
    // Three parties' shares of two secrets: l = 1 ^ 0 ^ 1 = 0, r = 0 ^ 0 ^ 1 = 1.
    let l = [true, false, true];
    let r = [false, false, true];
    let outputs: Vec<bool> = (0..3).map(|p| BooleanOps::bitwise_xor(l[p], r[p])).collect();
    let secret = outputs.iter().fold(false, |acc, &b| acc ^ b);
    let l_secret = l.iter().fold(false, |acc, &b| acc ^ b);
    let r_secret = r.iter().fold(false, |acc, &b| acc ^ b);
    assert_eq!(secret, l_secret ^ r_secret);
    assert!(secret);
}
