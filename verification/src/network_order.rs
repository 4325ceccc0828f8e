//! The bitonic network sorts.
//!
//! The proof first reads each level of the network on the keys alone: the
//! lower position of each pair gets the smaller key on an ascending pair and
//! the larger on a descending one (`level_vals`). A level on the keys then
//! commutes with every threshold map v ↦ [v ≥ t], so, by the 0-1 principle,
//! it is enough that the network sorts sequences of zeros and ones. There the
//! ones of each sub-block form one cyclic run, and each level splits every
//! sub-block into two halves that are again cyclic runs, one of them clean.
use vstd::prelude::*;
use vstd::arithmetic::power::lemma_pow0;
use vstd::arithmetic::power2::{pow2, lemma2_to64, lemma_pow2, lemma_pow2_strictly_increases, lemma_pow2_unfold};
use vstd::bits::{low_bits_mask, lemma_usize_low_bits_mask_is_mod, lemma_usize_pow2_no_overflow, lemma_usize_shl_is_mul, lemma_usize_shr_is_div};
use crate::sorting::{
    bitonic_network, exchange_swaps, network_from, network_level, network_stage, partner, sorted_by,
    valid_network_size,
};
use vstd::arithmetic::div_mod::{lemma_div_denominator, lemma_fundamental_div_mod, lemma_fundamental_div_mod_converse, lemma_mod_add_multiples_vanish, lemma_mod_bound};
use crate::bits::{lemma_two_pow_add, lemma_two_pow_positive};
use crate::types::two_pow;

verus! {

/// `d` has exactly one bit set.
pub open spec fn single_bit(d: usize) -> bool {
    d != 0 && d & ((d - 1) as usize) == 0
}

proof fn lemma_xor_single_bit(x: usize, j: usize)
    requires
        single_bit(j),
    ensures
        x & j == 0 ==> (x ^ j) as int == x + j,
        x & j != 0 ==> (x ^ j) as int == x - j,
{
    assert(j != 0 && j & ((j - 1) as usize) == 0 && x & j == 0 ==> (x ^ j) as int == x + j)
        by (bit_vector);
    assert(j != 0 && j & ((j - 1) as usize) == 0 && x & j != 0 ==> (x ^ j) as int == x - j)
        by (bit_vector);
}

/// 2^b as written here is vstd's 2^b.
proof fn lemma_two_pow_is_pow2(b: nat)
    ensures
        two_pow(b) == pow2(b),
    decreases b,
{
    if b == 0 {
        lemma_pow2(0);
        lemma_pow0(2);
    } else {
        lemma_two_pow_is_pow2((b - 1) as nat);
        lemma_pow2_unfold(b);
    }
}

/// Bit 2^b of x is clear exactly when x lies in the lower half of its block
/// of 2^(b+1).
proof fn lemma_bit_is_lower_half(x: usize, b: nat)
    requires
        b + 1 < usize::BITS,
    ensures
        ((x & (two_pow(b) as usize)) == 0) == ((x as int) % (2 * two_pow(b) as int) < two_pow(b)),
{
    lemma_two_pow_is_pow2(b);
    lemma_two_pow_is_pow2(b + 1);
    lemma_usize_pow2_no_overflow(b + 1);
    lemma_two_pow_single_bit(b);
    let j = two_pow(b) as usize;
    let m = (2 * two_pow(b) - 1) as usize;
    assert(low_bits_mask(b + 1) == 2 * two_pow(b) - 1);
    lemma_usize_low_bits_mask_is_mod(x, b + 1);
    assert(j != 0 && j & ((j - 1) as usize) == 0 && m as int == j + j - 1 ==> ((x & j == 0) == ((
    x & m) < j))) by (bit_vector);
}

/// Bit 2^b of x is clear exactly when x / 2^b is even.
proof fn lemma_bit_is_parity(x: usize, b: nat)
    requires
        b < usize::BITS,
    ensures
        ((x & (two_pow(b) as usize)) == 0) == (((x as int) / (two_pow(b) as int)) % 2 == 0),
{
    lemma_two_pow_is_pow2(b);
    lemma_usize_pow2_no_overflow(b);
    let sh = b as usize;
    lemma_usize_shr_is_div(x, sh);
    lemma_usize_shl_is_mul(1, sh);
    let k = two_pow(b) as usize;
    assert(k == 1usize << sh);
    assert(sh < usize::BITS ==> ((x & (1usize << sh)) == 0) == (((x >> sh) & 1) == 0))
        by (bit_vector);
    let y = x >> sh;
    assert(((y & 1) == 0) == (y % 2 == 0)) by (bit_vector);
}

proof fn lemma_xor_keeps_other_bit(x: usize, j: usize, k: usize)
    requires
        single_bit(j),
        single_bit(k),
        j != k,
    ensures
        (x ^ j) & k == x & k,
{
    assert(j != 0 && j & ((j - 1) as usize) == 0 && k != 0 && k & ((k - 1) as usize) == 0 && j
        != k ==> (x ^ j) & k == x & k) by (bit_vector);
}

/// Powers of two that fit have a single bit.
proof fn lemma_two_pow_single_bit(b: nat)
    requires
        two_pow(b) <= usize::MAX,
    ensures
        single_bit(two_pow(b) as usize),
    decreases b,
{
    if b == 0 {
        assert(1usize & 0usize == 0) by (bit_vector);
    } else {
        let jp = two_pow((b - 1) as nat) as usize;
        let j = two_pow(b) as usize;
        lemma_two_pow_single_bit((b - 1) as nat);
        assert(j as int == jp as int * 2);
        assert(jp != 0 && jp & ((jp - 1) as usize) == 0 && j as int == jp as int * 2 ==> j != 0
            && j & ((j - 1) as usize) == 0) by (bit_vector);
    }
}

/// Powers of two that fit in a usize have exponents below its width.
proof fn lemma_two_pow_fits(e: nat)
    requires
        two_pow(e) <= usize::MAX,
    ensures
        e < usize::BITS,
{
    if e >= usize::BITS {
        lemma_two_pow_is_pow2(e);
        lemma_two_pow_is_pow2(usize::BITS as nat);
        if e > usize::BITS {
            lemma_pow2_strictly_increases(usize::BITS as nat, e);
        }
        lemma2_to64();
        assert(usize::BITS == 32 || usize::BITS == 64);
        assert(pow2(usize::BITS as nat) > usize::MAX);
    }
}

/// 2^b < 2^a for b < a.
proof fn lemma_two_pow_lt(b: nat, a: nat)
    requires
        b < a,
    ensures
        two_pow(b) < two_pow(a),
{
    lemma_two_pow_is_pow2(b);
    lemma_two_pow_is_pow2(a);
    lemma_pow2_strictly_increases(b, a);
}

proof fn lemma_xor_below(x: usize, j: usize, n: usize)
    requires
        single_bit(n),
        x < n,
        j < n,
    ensures
        x ^ j < n,
{
    assert(n != 0 && n & ((n - 1) as usize) == 0 && x < n && j < n ==> x ^ j < n) by (bit_vector);
}

/// The keys of `s`.
pub open spec fn keys_by<A>(s: Seq<A>, key: spec_fn(A) -> int) -> Seq<int> {
    Seq::new(s.len(), |i: int| key(s[i]))
}

/// The smaller of two keys.
pub open spec fn imin(a: int, b: int) -> int {
    if a < b {
        a
    } else {
        b
    }
}

/// The larger of two keys.
pub open spec fn imax(a: int, b: int) -> int {
    if a < b {
        b
    } else {
        a
    }
}

/// Whether position x of stage k belongs to an ascending block.
pub open spec fn rising(x: int, k: nat) -> bool {
    (x / (k as int)) % 2 == 0
}

/// Whether position x is in the lower half of its block of 2j.
pub open spec fn lower_half(x: int, j: nat) -> bool {
    x % (2 * j as int) < j
}

/// The key at position x after level (k, j): the lower position of a pair
/// gets the smaller key on an ascending block and the larger one on a
/// descending block, the upper position the other.
pub open spec fn level_key(v: Seq<int>, k: nat, j: nat, x: int) -> int {
    if lower_half(x, j) {
        if rising(x, k) {
            imin(v[x], v[x + j])
        } else {
            imax(v[x], v[x + j])
        }
    } else {
        if rising(x, k) {
            imax(v[x - j], v[x])
        } else {
            imin(v[x - j], v[x])
        }
    }
}

/// Level (k, j) of the network on keys.
pub open spec fn level_vals(v: Seq<int>, k: nat, j: nat) -> Seq<int> {
    Seq::new(v.len(), |x: int| level_key(v, k, j, x))
}

/// A level of the network moves keys as `level_vals` does.
proof fn lemma_level_keys<A>(s: Seq<A>, key: spec_fn(A) -> int, m: nat, a: nat, b: nat)
    requires
        s.len() == two_pow(m),
        two_pow(m) <= usize::MAX,
        b < a <= m,
    ensures
        keys_by(network_level(s, key, two_pow(a), two_pow(b)), key) == level_vals(
            keys_by(s, key),
            two_pow(a),
            two_pow(b),
        ),
{
    let n = two_pow(m);
    let k = two_pow(a);
    let j = two_pow(b);
    lemma_two_pow_lt(b, a);
    if a < m {
        lemma_two_pow_lt(a, m);
    }
    lemma_two_pow_fits(m);
    lemma_two_pow_fits(a);
    if b + 1 < a {
        lemma_two_pow_lt(b + 1, a);
    }
    assert(two_pow(b + 1) == 2 * two_pow(b));
    lemma_two_pow_fits(b + 1);
    lemma_two_pow_single_bit(m);
    lemma_two_pow_single_bit(a);
    lemma_two_pow_single_bit(b);
    let v = keys_by(s, key);
    let r = network_level(s, key, k, j);
    assert forall|x: int| 0 <= x < n implies #[trigger] keys_by(r, key)[x] == level_key(v, k, j, x) by {
        let xu = x as usize;
        let ju = j as usize;
        let ku = k as usize;
        lemma_bit_is_lower_half(xu, b);
        lemma_bit_is_parity(xu, a);
        lemma_xor_single_bit(xu, ju);
        lemma_xor_below(xu, ju, n as usize);
        if xu & ju != 0 {
            lemma_xor_keeps_other_bit(xu, ju, ku);
        }
    }
    assert(keys_by(r, key) =~= level_vals(v, k, j));
}

/// Levels j, j/2, ..., 1 of stage k on keys.
pub open spec fn stage_vals(v: Seq<int>, k: nat, j: nat) -> Seq<int>
    decreases j,
{
    if j == 0 {
        v
    } else {
        stage_vals(level_vals(v, k, j), k, j / 2)
    }
}

/// Stages k, 2k, ... up to n on keys.
pub open spec fn from_vals(v: Seq<int>, k: nat, n: nat) -> Seq<int>
    decreases (if 1 <= k <= n {
        n - k + 1
    } else {
        0
    }),
{
    if k == 0 || k > n {
        v
    } else {
        from_vals(stage_vals(v, k, k / 2), 2 * k, n)
    }
}

proof fn lemma_stage_keys<A>(s: Seq<A>, key: spec_fn(A) -> int, m: nat, a: nat, b: nat)
    requires
        s.len() == two_pow(m),
        two_pow(m) <= usize::MAX,
        b < a <= m,
    ensures
        keys_by(network_stage(s, key, two_pow(a), two_pow(b)), key) == stage_vals(
            keys_by(s, key),
            two_pow(a),
            two_pow(b),
        ),
    decreases b,
{
    let k = two_pow(a);
    let j = two_pow(b);
    let s1 = network_level(s, key, k, j);
    lemma_level_keys(s, key, m, a, b);
    lemma_two_pow_positive(b);
    assert(network_stage(s, key, k, j) == network_stage(s1, key, k, j / 2));
    assert(stage_vals(keys_by(s, key), k, j) == stage_vals(level_vals(keys_by(s, key), k, j), k, j / 2));
    if b == 0 {
        assert(j / 2 == 0);
        assert(network_stage(s1, key, k, 0) == s1);
        assert(stage_vals(level_vals(keys_by(s, key), k, j), k, 0) == level_vals(keys_by(s, key), k, j));
    } else {
        assert(j / 2 == two_pow((b - 1) as nat));
        lemma_stage_keys(s1, key, m, a, (b - 1) as nat);
    }
}

proof fn lemma_from_keys<A>(s: Seq<A>, key: spec_fn(A) -> int, m: nat, a: nat)
    requires
        s.len() == two_pow(m),
        two_pow(m) <= usize::MAX,
        1 <= a,
    ensures
        keys_by(network_from(s, key, two_pow(a), two_pow(m)), key) == from_vals(
            keys_by(s, key),
            two_pow(a),
            two_pow(m),
        ),
    decreases m + 1 - a,
{
    let k = two_pow(a);
    let n = two_pow(m);
    if a > m {
        lemma_two_pow_lt(m, a);
    } else {
        if a < m {
            lemma_two_pow_lt(a, m);
        }
        assert(k / 2 == two_pow((a - 1) as nat));
        lemma_stage_keys(s, key, m, a, (a - 1) as nat);
        let s1 = network_stage(s, key, k, k / 2);
        lemma_network_stage_len(s, key, k, k / 2);
        lemma_from_keys(s1, key, m, a + 1);
        assert(2 * k == two_pow(a + 1));
    }
}

/// Each position's partner at level j lies inside the sequence.
proof fn lemma_partner_in_range(x: int, m: nat, b: nat)
    requires
        0 <= x < two_pow(m),
        two_pow(m) <= usize::MAX,
        b < m,
    ensures
        lower_half(x, two_pow(b)) ==> x + two_pow(b) < two_pow(m),
        !lower_half(x, two_pow(b)) ==> x >= two_pow(b),
{
    let n = two_pow(m);
    let j = two_pow(b);
    lemma_two_pow_lt(b, m);
    if b + 1 < m {
        lemma_two_pow_lt(b + 1, m);
    }
    assert(two_pow(b + 1) == 2 * two_pow(b));
    lemma_two_pow_fits(m);
    lemma_two_pow_fits(b + 1);
    lemma_two_pow_single_bit(m);
    lemma_two_pow_single_bit(b);
    let xu = x as usize;
    let ju = j as usize;
    lemma_bit_is_lower_half(xu, b);
    lemma_xor_single_bit(xu, ju);
    lemma_xor_below(xu, ju, n as usize);
}

/// Zero below the threshold t, one from it on.
pub open spec fn thr(v: Seq<int>, t: int) -> Seq<int> {
    Seq::new(v.len(), |i: int| if v[i] >= t { 1int } else { 0int })
}

proof fn lemma_level_thr(v: Seq<int>, m: nat, a: nat, b: nat, t: int)
    requires
        v.len() == two_pow(m),
        two_pow(m) <= usize::MAX,
        b < a <= m,
    ensures
        thr(level_vals(v, two_pow(a), two_pow(b)), t) == level_vals(thr(v, t), two_pow(a), two_pow(b)),
{
    let k = two_pow(a);
    let j = two_pow(b);
    assert forall|x: int| 0 <= x < v.len() implies #[trigger] thr(level_vals(v, k, j), t)[x]
        == level_vals(thr(v, t), k, j)[x] by {
        lemma_partner_in_range(x, m, b);
    }
    assert(thr(level_vals(v, k, j), t) =~= level_vals(thr(v, t), k, j));
}

proof fn lemma_stage_thr(v: Seq<int>, m: nat, a: nat, b: nat, t: int)
    requires
        v.len() == two_pow(m),
        two_pow(m) <= usize::MAX,
        b < a <= m,
    ensures
        thr(stage_vals(v, two_pow(a), two_pow(b)), t) == stage_vals(thr(v, t), two_pow(a), two_pow(b)),
    decreases b,
{
    let k = two_pow(a);
    let j = two_pow(b);
    lemma_level_thr(v, m, a, b, t);
    let v1 = level_vals(v, k, j);
    lemma_two_pow_positive(b);
    assert(stage_vals(v, k, j) == stage_vals(v1, k, j / 2));
    assert(stage_vals(thr(v, t), k, j) == stage_vals(level_vals(thr(v, t), k, j), k, j / 2));
    if b == 0 {
        assert(j / 2 == 0);
        assert(stage_vals(v1, k, 0) == v1);
        assert(stage_vals(level_vals(thr(v, t), k, j), k, 0) == level_vals(thr(v, t), k, j));
    } else {
        assert(j / 2 == two_pow((b - 1) as nat));
        lemma_stage_thr(v1, m, a, (b - 1) as nat, t);
    }
}

proof fn lemma_from_thr(v: Seq<int>, m: nat, a: nat, t: int)
    requires
        v.len() == two_pow(m),
        two_pow(m) <= usize::MAX,
        1 <= a,
    ensures
        thr(from_vals(v, two_pow(a), two_pow(m)), t) == from_vals(thr(v, t), two_pow(a), two_pow(m)),
    decreases m + 1 - a,
{
    let k = two_pow(a);
    if a > m {
        lemma_two_pow_lt(m, a);
    } else {
        if a < m {
            lemma_two_pow_lt(a, m);
        }
        assert(k / 2 == two_pow((a - 1) as nat));
        lemma_stage_thr(v, m, a, (a - 1) as nat, t);
        lemma_stage_len(v, k, k / 2);
        lemma_from_thr(stage_vals(v, k, k / 2), m, a + 1, t);
        assert(2 * k == two_pow(a + 1));
    }
}

proof fn lemma_network_stage_len<A>(s: Seq<A>, key: spec_fn(A) -> int, k: nat, j: nat)
    ensures
        network_stage(s, key, k, j).len() == s.len(),
    decreases j,
{
    if j > 0 {
        lemma_network_stage_len(network_level(s, key, k, j), key, k, j / 2);
    }
}

proof fn lemma_stage_len(v: Seq<int>, k: nat, j: nat)
    ensures
        stage_vals(v, k, j).len() == v.len(),
    decreases j,
{
    if j > 0 {
        lemma_stage_len(level_vals(v, k, j), k, j / 2);
    }
}

/// Every key is 0 or 1.
pub open spec fn zero_one(v: Seq<int>) -> bool {
    forall|i: int| 0 <= i < v.len() ==> #[trigger] v[i] == 0 || v[i] == 1
}

/// Every block of g keys is sorted, ascending for even blocks and
/// descending for odd ones.
pub open spec fn staged(v: Seq<int>, g: nat) -> bool {
    forall|x: int, y: int|
        0 <= x <= y < v.len() && x / (g as int) == y / (g as int) ==> if rising(x, g) {
            #[trigger] v[x] <= #[trigger] v[y]
        } else {
            v[y] <= v[x]
        }
}

/// On [base, base + len) the ones of v are exactly the cyclic run of c
/// positions that starts at st (modulo len).
pub open spec fn cyclic_run(v: Seq<int>, base: int, len: nat, st: int, c: int) -> bool {
    forall|p: int|
        base <= p < base + len ==> #[trigger] v[p] == (if (p - st) % (len as int) < c {
            1int
        } else {
            0int
        })
}

/// The block of g keys that holds x starts here.
pub open spec fn block_start(x: int, g: nat) -> int {
    (x / (g as int)) * (g as int)
}

/// The ones of x's block of g keys form one cyclic run.
pub open spec fn run_block(v: Seq<int>, g: nat, x: int) -> bool {
    exists|st: int, c: int| cyclic_run(v, block_start(x, g), g, st, c)
}

/// Partway through stage k, with sub-blocks of g keys: each sub-block is a
/// cyclic run of ones, and within a block of k keys every sub-block lies
/// below (above, for a descending block) every later one.
pub open spec fn merging(v: Seq<int>, k: nat, g: nat) -> bool {
    &&& forall|x: int| 0 <= x < v.len() ==> #[trigger] run_block(v, g, x)
    &&& forall|x: int, y: int|
        0 <= x < v.len() && 0 <= y < v.len() && x / (k as int) == y / (k as int) && x / (g as int)
            < y / (g as int) ==> if rising(x, k) {
            #[trigger] v[x] <= #[trigger] v[y]
        } else {
            v[y] <= v[x]
        }
}

/// Where x sits in its block of 2j and in which half.
proof fn lemma_split(x: int, j: int)
    requires
        0 <= x,
        0 < j,
    ensures
        0 <= x / (2 * j),
        0 <= x % (2 * j) < 2 * j,
        x == (x / (2 * j)) * (2 * j) + x % (2 * j),
        x / j == 2 * (x / (2 * j)) + (if x % (2 * j) >= j {
            1int
        } else {
            0int
        }),
        x % (2 * j) < j ==> x % j == x % (2 * j),
        x % (2 * j) >= j ==> x % j == x % (2 * j) - j,
        x % (2 * j) < j ==> (x + j) / (2 * j) == x / (2 * j) && (x + j) % (2 * j) == x % (2 * j)
            + j,
        x % (2 * j) >= j ==> (x - j) / (2 * j) == x / (2 * j) && (x - j) % (2 * j) == x % (2 * j)
            - j,
{
    let q = x / (2 * j);
    let i = x % (2 * j);
    lemma_fundamental_div_mod(x, 2 * j);
    lemma_mod_bound(x, 2 * j);
    assert(x == q * (2 * j) + i) by (nonlinear_arith)
        requires
            x == (2 * j) * q + i,
    ;
    assert(q * (2 * j) == (2 * q) * j) by (nonlinear_arith);
    assert(0 <= q) by (nonlinear_arith)
        requires
            x == q * (2 * j) + i,
            0 <= x,
            i < 2 * j,
            j > 0,
    ;
    if i < j {
        lemma_fundamental_div_mod_converse(x, j, 2 * q, i);
        lemma_fundamental_div_mod_converse(x + j, 2 * j, q, i + j);
    } else {
        assert((2 * q) * j + j == (2 * q + 1) * j) by (nonlinear_arith);
        lemma_fundamental_div_mod_converse(x, j, 2 * q + 1, i - j);
        lemma_fundamental_div_mod_converse(x - j, 2 * j, q, i - j);
    }
}

/// Positions of one block of g lie in one block of g * r.
proof fn lemma_same_block(x: int, y: int, g: int, r: int)
    requires
        0 <= x,
        0 <= y,
        0 < g,
        0 < r,
        x / g == y / g,
    ensures
        x / (g * r) == y / (g * r),
{
    lemma_div_denominator(x, g, r);
    lemma_div_denominator(y, g, r);
}

/// The block of g that holds x, and where x sits in it.
proof fn lemma_block_start(x: int, g: nat, n: nat, p: nat)
    requires
        0 <= x < n,
        g > 0,
        n == g * p,
    ensures
        block_start(x, g) <= x < block_start(x, g) + g,
        0 <= block_start(x, g),
        block_start(x, g) + g <= n,
        forall|y: int|
            block_start(x, g) <= y < block_start(x, g) + g ==> #[trigger] (y / (g as int)) == x / (
            g as int),
{
    let q = x / (g as int);
    let gi = g as int;
    lemma_fundamental_div_mod(x, gi);
    lemma_mod_bound(x, gi);
    assert(x == q * gi + x % gi) by (nonlinear_arith)
        requires
            x == gi * q + x % gi,
    ;
    assert(0 <= q) by (nonlinear_arith)
        requires
            x == q * gi + x % gi,
            0 <= x,
            x % gi < gi,
    ;
    assert(q < p) by (nonlinear_arith)
        requires
            x == q * gi + x % gi,
            0 <= x % gi,
            x < n,
            n == gi * p,
            gi > 0,
    ;
    assert(q * gi + gi <= n) by (nonlinear_arith)
        requires
            q < p,
            n == gi * p,
            gi > 0,
    ;
    assert(0 <= q * gi) by (nonlinear_arith)
        requires
            0 <= q,
            gi > 0,
    ;
    assert forall|y: int| q * gi <= y < q * gi + gi implies #[trigger] (y / gi) == q by {
        lemma_fundamental_div_mod_converse(y, gi, q, y - q * gi);
    }
}

/// A run of keys sorted upwards is zeros, then ones from some t on.
proof fn lemma_up_threshold(v: Seq<int>, lo: int, hi: int) -> (t: int)
    requires
        0 <= lo <= hi <= v.len(),
        forall|p: int| lo <= p < hi ==> #[trigger] v[p] == 0 || v[p] == 1,
        forall|p: int, q: int| lo <= p <= q < hi ==> #[trigger] v[p] <= #[trigger] v[q],
    ensures
        lo <= t <= hi,
        forall|p: int| lo <= p < hi ==> #[trigger] v[p] == (if p >= t {
            1int
        } else {
            0int
        }),
    decreases hi - lo,
{
    if lo == hi {
        lo
    } else {
        let t1 = lemma_up_threshold(v, lo, hi - 1);
        if v[hi - 1] == 0 {
            assert forall|p: int| lo <= p < hi implies #[trigger] v[p] == (if p >= hi {
                1int
            } else {
                0int
            }) by {
                assert(v[p] <= v[hi - 1]);
            }
            hi
        } else {
            t1
        }
    }
}

/// A run of keys sorted downwards is ones, then zeros from some t on.
proof fn lemma_down_threshold(v: Seq<int>, lo: int, hi: int) -> (t: int)
    requires
        0 <= lo <= hi <= v.len(),
        forall|p: int| lo <= p < hi ==> #[trigger] v[p] == 0 || v[p] == 1,
        forall|p: int, q: int| lo <= p <= q < hi ==> #[trigger] v[q] <= #[trigger] v[p],
    ensures
        lo <= t <= hi,
        forall|p: int| lo <= p < hi ==> #[trigger] v[p] == (if p < t {
            1int
        } else {
            0int
        }),
    decreases hi - lo,
{
    if lo == hi {
        lo
    } else {
        let t1 = lemma_down_threshold(v, lo + 1, hi);
        if v[lo] == 0 {
            assert forall|p: int| lo <= p < hi implies #[trigger] v[p] == (if p < lo {
                1int
            } else {
                0int
            }) by {
                assert(v[p] <= v[lo]);
            }
            lo
        } else {
            t1
        }
    }
}

/// Which half of its block of 2h a position is in.
proof fn lemma_half_index(p: int, bs: int, q: int, h: int)
    requires
        h > 0,
        q >= 0,
        bs == q * (2 * h),
        bs <= p < bs + 2 * h,
    ensures
        p / h == 2 * q + (if p < bs + h {
            0int
        } else {
            1int
        }),
{
    assert(q * (2 * h) == (2 * q) * h) by (nonlinear_arith);
    if p < bs + h {
        lemma_fundamental_div_mod_converse(p, h, 2 * q, p - bs);
    } else {
        assert((2 * q) * h + h == (2 * q + 1) * h) by (nonlinear_arith);
        lemma_fundamental_div_mod_converse(p, h, 2 * q + 1, p - bs - h);
    }
}

/// x mod d for x in [-d, d).
proof fn lemma_mod_near(x: int, d: int)
    requires
        d > 0,
        -d <= x < d,
    ensures
        x % d == (if x >= 0 {
            x
        } else {
            x + d
        }),
{
    if x >= 0 {
        lemma_fundamental_div_mod_converse(x, d, 0, x);
    } else {
        lemma_fundamental_div_mod_converse(x, d, -1, x + d);
    }
}

/// After stage k/2 each block of k keys is an ascending half followed by a
/// descending half, so its ones form one run.
proof fn lemma_stage_entry(v: Seq<int>, m: nat, a: nat)
    requires
        v.len() == two_pow(m),
        1 <= a <= m,
        zero_one(v),
        staged(v, two_pow((a - 1) as nat)),
    ensures
        merging(v, two_pow(a), two_pow(a)),
{
    let n = two_pow(m);
    let k = two_pow(a);
    let h = two_pow((a - 1) as nat);
    assert(k == 2 * h);
    lemma_two_pow_positive((a - 1) as nat);
    lemma_two_pow_add(a, (m - a) as nat);
    assert(a + (m - a) as nat == m);
    let pk = two_pow((m - a) as nat);
    assert forall|x: int| 0 <= x < n implies #[trigger] run_block(v, k, x) by {
        lemma_block_start(x, k, n, pk);
        let bs = block_start(x, k);
        let q = x / (k as int);
        assert(0 <= q) by (nonlinear_arith)
            requires
                bs == q * k,
                0 <= bs,
                k > 0,
        ;
        assert forall|p: int, r: int| bs <= p <= r < bs + h implies #[trigger] v[p] <= #[trigger] v[r] by {
            lemma_half_index(p, bs, q, h as int);
            lemma_half_index(r, bs, q, h as int);
        }
        assert forall|p: int, r: int| bs + h <= p <= r < bs + k implies #[trigger] v[r] <= #[trigger] v[p] by {
            lemma_half_index(p, bs, q, h as int);
            lemma_half_index(r, bs, q, h as int);
        }
        let t1 = lemma_up_threshold(v, bs, bs + h);
        let t2 = lemma_down_threshold(v, bs + h, bs + k);
        assert forall|p: int| bs <= p < bs + k implies #[trigger] v[p] == (if (p - t1) % (k as int) < t2 - t1 {
            1int
        } else {
            0int
        }) by {
            lemma_mod_near(p - t1, k as int);
        }
        assert(cyclic_run(v, bs, k, t1, t2 - t1));
    }
}

/// A and A + j fall on e and e + j modulo 2j, in one order or the other,
/// where e = A mod j.
proof fn lemma_pair_mod(x: int, j: int)
    requires
        j > 0,
    ensures
        0 <= x % j < j,
        (x % (2 * j) == x % j && (x + j) % (2 * j) == x % j + j) || (x % (2 * j) == x % j + j && (x
            + j) % (2 * j) == x % j),
{
    let q = x / (2 * j);
    let r = x % (2 * j);
    lemma_fundamental_div_mod(x, 2 * j);
    lemma_mod_bound(x, 2 * j);
    assert(x == q * (2 * j) + r) by (nonlinear_arith)
        requires
            x == (2 * j) * q + r,
    ;
    assert(q * (2 * j) == (2 * q) * j) by (nonlinear_arith);
    if r < j {
        lemma_fundamental_div_mod_converse(x, j, 2 * q, r);
        lemma_fundamental_div_mod_converse(x + j, 2 * j, q, r + j);
    } else {
        assert((2 * q) * j + j == (2 * q + 1) * j) by (nonlinear_arith);
        assert(q * (2 * j) + 2 * j == (q + 1) * (2 * j)) by (nonlinear_arith);
        lemma_fundamental_div_mod_converse(x, j, 2 * q + 1, r - j);
        lemma_fundamental_div_mod_converse(x + j, 2 * j, q + 1, r - j);
    }
}

/// The two halves of a sub-block after one level: on an ascending block the
/// lower half holds the pairwise minima, the upper half the maxima; on a
/// descending block the other way round.
pub open spec fn cleaned(w: Seq<int>, bs: int, j: nat, st: int, c: int, asc: bool) -> bool {
    if asc {
        cyclic_run(w, bs, j, st, c - j) && cyclic_run(w, bs + j, j, st, c)
    } else {
        cyclic_run(w, bs, j, st, c) && cyclic_run(w, bs + j, j, st, c - j)
    }
}

/// One level on a sub-block whose ones form a cyclic run leaves two halves
/// whose ones form cyclic runs: the half-cleaner.
proof fn lemma_half_clean(v: Seq<int>, w: Seq<int>, bs: int, j: nat, st: int, c: int, asc: bool)
    requires
        j > 0,
        cyclic_run(v, bs, 2 * j, st, c),
        forall|p: int|
            bs <= p < bs + j ==> #[trigger] w[p] == (if asc {
                imin(v[p], v[p + j])
            } else {
                imax(v[p], v[p + j])
            }) && w[p + j] == (if asc {
                imax(v[p], v[p + j])
            } else {
                imin(v[p], v[p + j])
            }),
    ensures
        cleaned(w, bs, j, st, c, asc),
{
    let ji = j as int;
    assert forall|p: int| bs <= p < bs + ji implies #[trigger] w[p] == (if (p - st) % ji < (if asc {
        c - ji
    } else {
        c
    }) {
        1int
    } else {
        0int
    }) by {
        lemma_pair_mod(p - st, ji);
        assert(v[p] == (if (p - st) % (2 * ji) < c {
            1int
        } else {
            0int
        }));
        assert(v[p + ji] == (if (p + ji - st) % (2 * ji) < c {
            1int
        } else {
            0int
        }));
    }
    assert forall|p: int| bs + ji <= p < bs + 2 * ji implies #[trigger] w[p] == (if (p - st) % ji < (
    if asc {
        c
    } else {
        c - ji
    }) {
        1int
    } else {
        0int
    }) by {
        let p0 = p - ji;
        assert(bs <= p0 < bs + ji);
        assert(w[p0] == (if asc {
            imin(v[p0], v[p0 + ji])
        } else {
            imax(v[p0], v[p0 + ji])
        }));
        assert(w[p0 + ji] == (if asc {
            imax(v[p0], v[p0 + ji])
        } else {
            imin(v[p0], v[p0 + ji])
        }));
        assert(p0 + ji == p);
        lemma_pair_mod(p0 - st, ji);
        lemma_mod_add_multiples_vanish(p0 - st, ji);
        assert(p - st == ji + (p0 - st));
        assert(v[p0] == (if (p0 - st) % (2 * ji) < c {
            1int
        } else {
            0int
        }));
        assert(v[p0 + ji] == (if (p0 + ji - st) % (2 * ji) < c {
            1int
        } else {
            0int
        }));
    }
    if asc {
        assert(cyclic_run(w, bs, j, st, c - j));
        assert(cyclic_run(w, bs + j, j, st, c));
    } else {
        assert(cyclic_run(w, bs, j, st, c));
        assert(cyclic_run(w, bs + j, j, st, c - j));
    }
}

/// Sizes of the blocks at level (k, j): k = 2j * 2^(a-b-1) and
/// n = 2j * 2^(m-b-1).
proof fn lemma_level_sizes(m: nat, a: nat, b: nat)
    requires
        b < a <= m,
    ensures
        two_pow(b + 1) == 2 * two_pow(b),
        two_pow(a) == two_pow(b + 1) * two_pow((a - b - 1) as nat),
        two_pow(m) == two_pow(b + 1) * two_pow((m - b - 1) as nat),
        two_pow((a - b - 1) as nat) > 0,
        two_pow(b) > 0,
{
    lemma_two_pow_add(b + 1, (a - b - 1) as nat);
    lemma_two_pow_add(b + 1, (m - b - 1) as nat);
    assert(b + 1 + (a - b - 1) as nat == a);
    assert(b + 1 + (m - b - 1) as nat == m);
    lemma_two_pow_positive((a - b - 1) as nat);
    lemma_two_pow_positive(b);
}

/// The sub-block of 2j that holds x: its cyclic run before level (k, j) and
/// its two cleaned halves after it.
proof fn lemma_sub_block(v: Seq<int>, m: nat, a: nat, b: nat, x: int) -> (sc: (int, int))
    requires
        v.len() == two_pow(m),
        b < a <= m,
        merging(v, two_pow(a), 2 * two_pow(b)),
        0 <= x < two_pow(m),
    ensures
        0 <= block_start(x, 2 * two_pow(b)) <= x < block_start(x, 2 * two_pow(b)) + 2 * two_pow(b)
            <= two_pow(m),
        block_start(x, 2 * two_pow(b)) == (x / (2 * two_pow(b) as int)) * (2 * two_pow(b) as int),
        cyclic_run(v, block_start(x, 2 * two_pow(b)), 2 * two_pow(b), sc.0, sc.1),
        cleaned(
            level_vals(v, two_pow(a), two_pow(b)),
            block_start(x, 2 * two_pow(b)),
            two_pow(b),
            sc.0,
            sc.1,
            rising(x, two_pow(a)),
        ),
{
    let n = two_pow(m);
    let k = two_pow(a);
    let j = two_pow(b);
    let g: nat = 2 * j;
    let ji = j as int;
    let gi = g as int;
    lemma_level_sizes(m, a, b);
    let r = two_pow((a - b - 1) as nat);
    let pg = two_pow((m - b - 1) as nat);
    lemma_block_start(x, g, n, pg);
    let bs = block_start(x, g);
    assert(run_block(v, g, x));
    let st = choose|st: int, c: int| cyclic_run(v, bs, g, st, c);
    let w = level_vals(v, k, j);
    let asc = rising(x, k);
    assert forall|p: int| bs <= p < bs + ji implies #[trigger] w[p] == (if asc {
        imin(v[p], v[p + ji])
    } else {
        imax(v[p], v[p + ji])
    }) && w[p + ji] == (if asc {
        imax(v[p], v[p + ji])
    } else {
        imin(v[p], v[p + ji])
    }) by {
        lemma_split(p, ji);
        assert(p / gi == x / gi);
        assert((p + ji) / gi == x / gi);
        lemma_same_block(p, x, gi, r as int);
        lemma_same_block(p + ji, x, gi, r as int);
        assert(p % gi == p - bs);
        assert(w[p] == level_key(v, k, j, p));
        assert(w[p + ji] == level_key(v, k, j, p + ji));
    }
    lemma_half_clean(v, w, bs, j, st.0, st.1, asc);
    st
}

/// One level keeps the merge going: from sub-blocks of 2j to sub-blocks of j.
proof fn lemma_level_merges(v: Seq<int>, m: nat, a: nat, b: nat)
    requires
        v.len() == two_pow(m),
        b < a <= m,
        merging(v, two_pow(a), 2 * two_pow(b)),
    ensures
        merging(level_vals(v, two_pow(a), two_pow(b)), two_pow(a), two_pow(b)),
{
    let n = two_pow(m);
    let k = two_pow(a);
    let j = two_pow(b);
    let g: nat = 2 * j;
    let ji = j as int;
    let gi = g as int;
    let ki = k as int;
    lemma_level_sizes(m, a, b);
    let r = two_pow((a - b - 1) as nat);
    let w = level_vals(v, k, j);
    assert forall|x: int| 0 <= x < w.len() implies #[trigger] run_block(w, j, x) by {
        let sc = lemma_sub_block(v, m, a, b, x);
        lemma_split(x, ji);
        let bs = block_start(x, g);
        let q = x / gi;
        let h: int = if x % gi >= ji {
            1
        } else {
            0
        };
        assert((2 * q + h) * ji == q * gi + h * ji) by (nonlinear_arith)
            requires
                gi == 2 * ji,
        ;
        assert(block_start(x, j) == bs + h * ji);
        if rising(x, k) {
            if h == 0 {
                assert(cyclic_run(w, block_start(x, j), j, sc.0, sc.1 - ji));
            } else {
                assert(cyclic_run(w, block_start(x, j), j, sc.0, sc.1));
            }
        } else {
            if h == 0 {
                assert(cyclic_run(w, block_start(x, j), j, sc.0, sc.1));
            } else {
                assert(cyclic_run(w, block_start(x, j), j, sc.0, sc.1 - ji));
            }
        }
    }
    assert forall|x: int, y: int|
        0 <= x < w.len() && 0 <= y < w.len() && x / ki == y / ki && x / ji < y / ji implies if rising(
        x,
        k,
    ) {
        #[trigger] w[x] <= #[trigger] w[y]
    } else {
        w[y] <= w[x]
    } by {
        lemma_split(x, ji);
        lemma_split(y, ji);
        let sx = lemma_sub_block(v, m, a, b, x);
        let sy = lemma_sub_block(v, m, a, b, y);
        let px = if x % gi < ji {
            x + ji
        } else {
            x - ji
        };
        let py = if y % gi < ji {
            y + ji
        } else {
            y - ji
        };
        assert(w[x] == level_key(v, k, j, x));
        assert(w[y] == level_key(v, k, j, y));
        if x / gi < y / gi {
            lemma_same_block(px, x, gi, r as int);
            lemma_same_block(py, y, gi, r as int);
            assert(v[x] == v[x] && v[y] == v[y] && v[px] == v[px] && v[py] == v[py]);
            if rising(x, k) {
                assert(v[x] <= v[y]);
                assert(v[x] <= v[py]);
                assert(v[px] <= v[y]);
                assert(v[px] <= v[py]);
            } else {
                assert(v[y] <= v[x]);
                assert(v[py] <= v[x]);
                assert(v[y] <= v[px]);
                assert(v[py] <= v[px]);
            }
        } else {
            let bs = block_start(x, g);
            assert(block_start(y, g) == bs);
            lemma_mod_bound(x - sx.0, ji);
            lemma_mod_bound(y - sx.0, ji);
            assert(x < bs + ji);
            assert(y >= bs + ji);
        }
    }
}

/// The levels of stage k, from sub-blocks of 2j down to single positions.
proof fn lemma_stage_merges(v: Seq<int>, m: nat, a: nat, b: nat)
    requires
        v.len() == two_pow(m),
        b < a <= m,
        merging(v, two_pow(a), 2 * two_pow(b)),
    ensures
        merging(stage_vals(v, two_pow(a), two_pow(b)), two_pow(a), 1),
    decreases b,
{
    let k = two_pow(a);
    let j = two_pow(b);
    lemma_level_merges(v, m, a, b);
    let v1 = level_vals(v, k, j);
    lemma_two_pow_positive(b);
    assert(stage_vals(v, k, j) == stage_vals(v1, k, j / 2));
    if b == 0 {
        assert(stage_vals(v1, k, 0) == v1);
    } else {
        assert(j == 2 * two_pow((b - 1) as nat));
        assert(j / 2 == two_pow((b - 1) as nat));
        lemma_stage_merges(v1, m, a, (b - 1) as nat);
    }
}

/// Once the sub-blocks are single positions, every block of k is sorted.
proof fn lemma_merged_staged(v: Seq<int>, k: nat)
    requires
        k > 0,
        merging(v, k, 1),
    ensures
        staged(v, k),
        zero_one(v),
{
    assert forall|x: int, y: int|
        0 <= x <= y < v.len() && x / (k as int) == y / (k as int) implies if rising(x, k) {
        #[trigger] v[x] <= #[trigger] v[y]
    } else {
        v[y] <= v[x]
    } by {
        assert(x / 1 == x && y / 1 == y);
    }
    assert forall|i: int| 0 <= i < v.len() implies #[trigger] v[i] == 0 || v[i] == 1 by {
        assert(run_block(v, 1, i));
        assert(block_start(i, 1) == i);
        let sc = choose|st: int, c: int| cyclic_run(v, block_start(i, 1), 1, st, c);
        assert(v[i] == (if (i - sc.0) % 1 < sc.1 {
            1int
        } else {
            0int
        }));
    }
}

/// Stage k sorts each block of k, given blocks of k/2 sorted in alternating
/// directions.
proof fn lemma_stage_sorts(v: Seq<int>, m: nat, a: nat)
    requires
        v.len() == two_pow(m),
        1 <= a <= m,
        zero_one(v),
        staged(v, two_pow((a - 1) as nat)),
    ensures
        stage_vals(v, two_pow(a), two_pow(a) / 2).len() == v.len(),
        zero_one(stage_vals(v, two_pow(a), two_pow(a) / 2)),
        staged(stage_vals(v, two_pow(a), two_pow(a) / 2), two_pow(a)),
{
    let k = two_pow(a);
    lemma_stage_entry(v, m, a);
    assert(k == 2 * two_pow((a - 1) as nat));
    assert(k / 2 == two_pow((a - 1) as nat));
    lemma_stage_merges(v, m, a, (a - 1) as nat);
    lemma_stage_len(v, k, k / 2);
    lemma_two_pow_positive(a);
    lemma_merged_staged(stage_vals(v, k, k / 2), k);
}

/// The stages from k on leave the whole sequence sorted.
proof fn lemma_from_sorts(v: Seq<int>, m: nat, a: nat)
    requires
        v.len() == two_pow(m),
        1 <= a <= m + 1,
        zero_one(v),
        staged(v, two_pow((a - 1) as nat)),
    ensures
        from_vals(v, two_pow(a), two_pow(m)).len() == v.len(),
        staged(from_vals(v, two_pow(a), two_pow(m)), two_pow(m)),
    decreases m + 1 - a,
{
    let k = two_pow(a);
    let n = two_pow(m);
    if a == m + 1 {
        lemma_two_pow_lt(m, a);
        assert(from_vals(v, k, n) == v);
    } else {
        if a < m {
            lemma_two_pow_lt(a, m);
        }
        lemma_stage_sorts(v, m, a);
        let v1 = stage_vals(v, k, k / 2);
        lemma_from_sorts(v1, m, a + 1);
        assert(2 * k == two_pow(a + 1));
        assert(from_vals(v, k, n) == from_vals(v1, 2 * k, n));
    }
}

/// The network sorts every sequence of zeros and ones.
proof fn lemma_zero_one_sorted(v: Seq<int>, m: nat)
    requires
        v.len() == two_pow(m),
        zero_one(v),
    ensures
        from_vals(v, 2, two_pow(m)).len() == v.len(),
        forall|x: int, y: int|
            0 <= x <= y < v.len() ==> #[trigger] from_vals(v, 2, two_pow(m))[x]
                <= #[trigger] from_vals(v, 2, two_pow(m))[y],
{
    let n = two_pow(m);
    assert(two_pow(0) == 1);
    assert(two_pow(1) == 2);
    assert forall|x: int, y: int| 0 <= x <= y < v.len() && x / 1 == y / 1 implies if rising(x, 1) {
        #[trigger] v[x] <= #[trigger] v[y]
    } else {
        v[y] <= v[x]
    } by {
        assert(x / 1 == x && y / 1 == y);
    }
    lemma_from_sorts(v, m, 1);
    let r = from_vals(v, 2, n);
    lemma_two_pow_positive(m);
    assert forall|x: int, y: int| 0 <= x <= y < v.len() implies #[trigger] r[x] <= #[trigger] r[y] by {
        lemma_fundamental_div_mod_converse(x, n as int, 0, x);
        lemma_fundamental_div_mod_converse(y, n as int, 0, y);
    }
}

/// The network sorts every sequence of keys: were a larger key before a
/// smaller one, the threshold at the larger key would leave a one before a
/// zero in the sorted zero-one sequence.
proof fn lemma_keys_sorted(v: Seq<int>, m: nat)
    requires
        v.len() == two_pow(m),
        two_pow(m) <= usize::MAX,
    ensures
        from_vals(v, 2, two_pow(m)).len() == v.len(),
        forall|x: int, y: int|
            0 <= x <= y < v.len() ==> #[trigger] from_vals(v, 2, two_pow(m))[x]
                <= #[trigger] from_vals(v, 2, two_pow(m))[y],
{
    let n = two_pow(m);
    let r = from_vals(v, 2, n);
    assert(two_pow(0) == 1);
    assert(two_pow(1) == 2);
    lemma_from_len(v, 2, n);
    assert forall|x: int, y: int| 0 <= x <= y < v.len() implies #[trigger] r[x] <= #[trigger] r[y] by {
        if r[x] > r[y] {
            let t = r[x];
            lemma_from_thr(v, m, 1, t);
            let z = thr(v, t);
            assert(zero_one(z));
            lemma_zero_one_sorted(z, m);
            assert(thr(r, t)[x] == 1);
            assert(thr(r, t)[y] == 0);
            assert(from_vals(z, 2, n)[x] <= from_vals(z, 2, n)[y]);
        }
    }
}

proof fn lemma_from_len(v: Seq<int>, k: nat, n: nat)
    ensures
        from_vals(v, k, n).len() == v.len(),
    decreases (if 1 <= k <= n {
        n - k + 1
    } else {
        0
    }),
{
    if !(k == 0 || k > n) {
        lemma_stage_len(v, k, k / 2);
        lemma_from_len(stage_vals(v, k, k / 2), 2 * k, n);
    }
}

proof fn lemma_network_from_len<A>(s: Seq<A>, key: spec_fn(A) -> int, k: nat, n: nat)
    ensures
        network_from(s, key, k, n).len() == s.len(),
    decreases (if 1 <= k <= n {
        n - k + 1
    } else {
        0
    }),
{
    if !(k == 0 || k > n) {
        lemma_network_stage_len(s, key, k, k / 2);
        lemma_network_from_len(network_stage(s, key, k, k / 2), key, 2 * k, n);
    }
}

/// A single-bit size is a power of two.
proof fn lemma_single_bit_exponent(n: usize) -> (m: nat)
    requires
        single_bit(n),
    ensures
        two_pow(m) == n,
    decreases n,
{
    if n == 1 {
        0
    } else {
        assert(n != 0 && n & ((n - 1) as usize) == 0 && n != 1 ==> n % 2 == 0 && (n / 2) != 0 && (n
            / 2) & (((n / 2) - 1) as usize) == 0) by (bit_vector);
        let m1 = lemma_single_bit_exponent(n / 2);
        m1 + 1
    }
}

/// The bitonic network sorts: on every input whose length is a power of two
/// (at least 2), the keys of its output never decrease.
pub proof fn lemma_network_sorts<A>(s: Seq<A>, key: spec_fn(A) -> int)
    requires
        s.len() <= usize::MAX,
        valid_network_size(s.len() as usize),
    ensures
        sorted_by(bitonic_network(s, key), key),
{
    let m = lemma_single_bit_exponent(s.len() as usize);
    let n = two_pow(m);
    assert(two_pow(0) == 1);
    assert(two_pow(1) == 2);
    lemma_from_keys(s, key, m, 1);
    let r = bitonic_network(s, key);
    lemma_network_from_len(s, key, 2, n);
    lemma_keys_sorted(keys_by(s, key), m);
    assert forall|x: int, y: int| 0 <= x <= y < r.len() implies key(#[trigger] r[x]) <= key(
        #[trigger] r[y],
    ) by {
        assert(keys_by(r, key)[x] == key(r[x]));
        assert(keys_by(r, key)[y] == key(r[y]));
    }
}

} // verus!
