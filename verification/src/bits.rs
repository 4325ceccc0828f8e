//! Little-endian bit vectors of public integers.
use vstd::prelude::*;
use vstd::arithmetic::div_mod::lemma_fundamental_div_mod_converse;
use crate::bit_ops::{bits_val, lemma_bits_val_bound, lemma_bits_val_push, lemma_bits_val_take_step};
use crate::field::{Fe, base, limbs_val, lv2, lv3, lv4};
use crate::types::two_pow;

verus! {

/// Every power of two is positive.
pub proof fn lemma_two_pow_positive(k: nat)
    ensures
        two_pow(k) > 0,
    decreases k,
{
    if k > 0 {
        lemma_two_pow_positive((k - 1) as nat);
    }
}

/// 2^(a+b) = 2^a 2^b.
pub proof fn lemma_two_pow_add(a: nat, b: nat)
    ensures
        two_pow(a + b) == two_pow(a) * two_pow(b),
    decreases b,
{
    if b > 0 {
        let b1 = (b - 1) as nat;
        lemma_two_pow_add(a, b1);
        assert(a + b == (a + b1) + 1);
        assert(two_pow(a + b) == 2 * two_pow(a + b1));
        assert(two_pow(b) == 2 * two_pow(b1));
        assert(two_pow(a) * (2 * two_pow(b1)) == 2 * (two_pow(a) * two_pow(b1))) by (nonlinear_arith);
    } else {
        assert(two_pow(0) == 1);
        assert(a + b == a);
    }
}

/// The mask of the j lowest bits.
pub open spec fn low_mask(j: u128) -> u128 {
    ((1u128 << j) - 1) as u128
}

proof fn lemma_word_bit_step(w: u128, j: u128)
    requires
        j < 64,
        w < 0x1_0000_0000_0000_0000u128,
    ensures
        w & low_mask((j + 1) as u128) == (w & low_mask(j)) + (if (w >> j) & 1 == 1 {
            1u128 << j
        } else {
            0
        }),
{
    assert(w & low_mask((j + 1) as u128) == (w & low_mask(j)) + (((w >> j) & 1) << j))
        by (bit_vector)
        requires
            j < 64,
            w < 0x1_0000_0000_0000_0000u128,
    ;
    assert((w >> j) & 1 == 1 || (w >> j) & 1 == 0) by (bit_vector);
    assert(((w >> j) & 1 == 1) ==> (((w >> j) & 1) << j) == (1u128 << j)) by (bit_vector);
    assert(((w >> j) & 1 == 0) ==> (((w >> j) & 1) << j) == 0) by (bit_vector);
}

proof fn lemma_word_mask_full(w: u128)
    requires
        w < 0x1_0000_0000_0000_0000u128,
    ensures
        w & low_mask(64u128) == w,
        w & low_mask(0u128) == 0,
{
    assert(w & low_mask(64u128) == w) by (bit_vector)
        requires
            w < 0x1_0000_0000_0000_0000u128,
    ;
    assert(w & low_mask(0u128) == 0) by (bit_vector);
}

proof fn lemma_shift_is_two_pow128(j: u128)
    requires
        j < 128,
    ensures
        (1u128 << j) as nat == two_pow(j as nat),
    decreases j,
{
    if j > 0 {
        lemma_shift_is_two_pow128((j - 1) as u128);
        let k = (j - 1) as u128;
        assert((1u128 << (k + 1)) == 2 * (1u128 << k)) by (bit_vector)
            requires
                k < 127,
        ;
    } else {
        assert((1u128 << 0u128) == 1) by (bit_vector);
    }
}

/// The 64 bits of a word, least significant first, appended to `out`.
fn push_word_bits(out: &mut Vec<bool>, w: u64)
    ensures
        final(out).len() == old(out).len() + 64,
        bits_val(final(out)@) == bits_val(old(out)@) + two_pow(old(out).len() as nat) * w,
{
    let ghost start = old(out)@;
    let ghost s = start.len();
    let wl: u128 = w as u128;
    let mut j: u128 = 0;
    proof {
        lemma_word_mask_full(wl);
    }
    while j < 64
        invariant
            j <= 64,
            wl == w as u128,
            wl < 0x1_0000_0000_0000_0000u128,
            out.len() == s + j,
            bits_val(out@) == bits_val(start) + two_pow(s as nat) * (wl & low_mask(j)),
        decreases 64 - j,
    {
        let bit = (wl >> j) & 1 == 1;
        let ghost before = out@;
        out.push(bit);
        proof {
            lemma_bits_val_push(before, bit);
            lemma_word_bit_step(wl, j);
            lemma_shift_is_two_pow128(j);
            lemma_two_pow_add(s as nat, j as nat);
            let m0 = wl & low_mask(j);
            let m1 = wl & low_mask((j + 1) as u128);
            let tj = two_pow(j as nat);
            let ts = two_pow(s as nat);
            if bit {
                assert(m1 as int == m0 as int + tj);
                assert(ts * (m0 as int + tj) == ts * m0 + ts * tj) by (nonlinear_arith);
            } else {
                assert(m1 == m0);
            }
        }
        j = j + 1;
    }
    proof {
        lemma_word_mask_full(wl);
    }
}

/// The 256 bits of four little-endian limbs, least significant first.
pub fn limbs_to_bits_le(limbs: [u64; 4]) -> (r: Vec<bool>)
    ensures
        r.len() == 256,
        bits_val(r@) == limbs_val(limbs),
{
    let mut out: Vec<bool> = Vec::new();
    proof {
        assert(out@ =~= Seq::<bool>::empty());
        assert(bits_val(out@) == 0);
        assert(two_pow(0) == 1);
    }
    push_word_bits(&mut out, limbs[0]);
    let ghost v0 = bits_val(out@);
    proof {
        assert(v0 == 1 * limbs[0]);
    }
    push_word_bits(&mut out, limbs[1]);
    let ghost v1 = bits_val(out@);
    push_word_bits(&mut out, limbs[2]);
    let ghost v2 = bits_val(out@);
    push_word_bits(&mut out, limbs[3]);
    proof {
        assert(bits_val(Seq::<bool>::empty()) == 0);
        assert(two_pow(0) == 1);
        lemma_two_pow_add(64, 64);
        lemma_two_pow_add(128, 64);
        lemma_base_is_two_pow();
        let b = base();
        let (l0, l1, l2, l3) = (limbs[0] as int, limbs[1] as int, limbs[2] as int, limbs[3] as int);
        assert(two_pow(128) == b * b);
        assert(two_pow(192) == (b * b) * b);
        assert(v0 == l0);
        assert(v1 == l0 + b * l1);
        assert(v2 == l0 + b * l1 + (b * b) * l2);
        assert(bits_val(out@) == l0 + b * l1 + (b * b) * l2 + ((b * b) * b) * l3);
        assert(b * l1 == l1 * b) by (nonlinear_arith);
        assert((b * b) * l2 == l2 * (b * b)) by (nonlinear_arith);
        assert(((b * b) * b) * l3 == l3 * (b * (b * b))) by (nonlinear_arith);
    }
    out
}

proof fn lemma_base_is_two_pow()
    ensures
        two_pow(64) == base(),
{
    lemma_shift_is_two_pow128(64);
    assert((1u128 << 64u128) == 0x1_0000_0000_0000_0000u128) by (bit_vector);
}

/// The 256 bits of a field element's canonical value, least significant first.
pub fn fe_to_bits_le(x: &Fe) -> (r: Vec<bool>)
    ensures
        r.len() == 256,
        bits_val(r@) == x.val(),
{
    limbs_to_bits_le(x.to_limbs())
}

/// A prefix of a bit vector denotes the value modulo 2^length.
pub proof fn lemma_bits_val_take(s: Seq<bool>, n: int)
    requires
        0 <= n <= s.len(),
    ensures
        bits_val(s.take(n)) == bits_val(s) % two_pow(n as nat),
    decreases s.len() - n,
{
    lemma_two_pow_positive(n as nat);
    if n == s.len() {
        assert(s.take(n) =~= s);
        lemma_bits_val_bound(s);
        vstd::arithmetic::div_mod::lemma_small_mod(bits_val(s), two_pow(n as nat));
    } else {
        // bits_val(s.take(n + 1)) = bits_val(s.take(n)) + [s[n]] 2^n, and by
        // induction bits_val(s.take(n + 1)) = bits_val(s) mod 2^(n+1)
        lemma_bits_val_take(s, n + 1);
        lemma_bits_val_take_step(s, n);
        lemma_bits_val_bound(s.take(n));
        let v = bits_val(s) as int;
        let t = two_pow(n as nat) as int;
        let low = bits_val(s.take(n)) as int;
        let high = bits_val(s.take(n + 1)) as int;
        assert(two_pow((n + 1) as nat) == 2 * two_pow(n as nat));
        // v = q (2t) + high, high = low + [s[n]] t
        let q = v / (2 * t);
        vstd::arithmetic::div_mod::lemma_fundamental_div_mod(v, 2 * t);
        let b: int = if s[n] {
            1
        } else {
            0
        };
        assert(high == low + b * t);
        assert(v == (2 * q + b) * t + low) by (nonlinear_arith)
            requires
                v == (2 * t) * q + high,
                high == low + b * t,
        ;
        lemma_fundamental_div_mod_converse(v, t, 2 * q + b, low);
    }
}

/// Ripple-carry addition of two public bit vectors of equal length; the
/// result has one more bit.
pub fn add_public_bits(a: &Vec<bool>, b: &Vec<bool>) -> (r: Vec<bool>)
    requires
        a.len() == b.len(),
    ensures
        r.len() == a.len() + 1,
        bits_val(r@) == bits_val(a@) + bits_val(b@),
{
    let n = a.len();
    let mut out: Vec<bool> = Vec::new();
    let mut carry = false;
    let mut i: usize = 0;
    while i < n
        invariant
            n == a.len(),
            n == b.len(),
            i <= n,
            out.len() == i,
            bits_val(out@) + (if carry {
                two_pow(i as nat)
            } else {
                0
            }) == bits_val(a@.take(i as int)) + bits_val(b@.take(i as int)),
        decreases n - i,
    {
        let x = a[i];
        let y = b[i];
        let ghost before = out@;
        let ghost c = carry;
        out.push(x ^ y ^ carry);
        carry = (x && y) || (x && carry) || (y && carry);
        proof {
            lemma_bits_val_push(before, (x != y) != c);
            lemma_bits_val_take_step(a@, i as int);
            lemma_bits_val_take_step(b@, i as int);
            assert(two_pow(i as nat + 1) == 2 * two_pow(i as nat));
        }
        i = i + 1;
    }
    proof {
        assert(a@.take(n as int) =~= a@);
        assert(b@.take(n as int) =~= b@);
    }
    let ghost before = out@;
    out.push(carry);
    proof {
        lemma_bits_val_push(before, carry);
    }
    out
}

} // verus!
