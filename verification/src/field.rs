//! Elements of the BLS12-377 scalar field.
//!
//! A field element is held as its canonical value, four little-endian 64-bit
//! limbs below the modulus. Its mathematical meaning is `Fe::val`, a natural
//! number below `modulus()`. Arithmetic is delegated to `ark_bls12_377::Fr`
//! through the trusted items at the end of this file; comparison and equality
//! are computed here on the limbs.
use vstd::prelude::*;
use vstd::arithmetic::div_mod::lemma_small_mod;
use ark_bls12_377::Fr;
use ark_ff::{BigInteger256, Field, PrimeField};
use ark_poly::{EvaluationDomain, Radix2EvaluationDomain};

verus! {

/// The order of the BLS12-377 scalar field.
pub open spec fn modulus() -> nat {
    8444461749428370424248824938781546531375899335154063827935233455917409239041nat
}

/// Field addition on canonical values.
pub open spec fn fadd(a: nat, b: nat) -> nat {
    (a + b) % modulus()
}

/// Field subtraction on canonical values.
pub open spec fn fsub(a: nat, b: nat) -> nat {
    ((a - b) % (modulus() as int)) as nat
}

/// Field multiplication.
pub open spec fn fmul(a: nat, b: nat) -> nat {
    (a * b) % modulus()
}

/// `a` raised to the power `e` in the field.
pub open spec fn fpow(a: nat, e: nat) -> nat
    decreases e,
{
    if e == 0 {
        1
    } else {
        fmul(fpow(a, (e - 1) as nat), a)
    }
}

/// `w` is a multiplicative inverse of `a`.
pub open spec fn is_inverse(a: nat, w: nat) -> bool {
    (a * w) % modulus() == 1
}

/// The multiplicative inverse of `a`, unique where `a` is not zero.
pub open spec fn finv(a: nat) -> nat {
    choose|w: nat| w < modulus() && is_inverse(a, w)
}

/// 2^64.
pub open spec fn base() -> int {
    0x1_0000_0000_0000_0000int
}

pub open spec fn lv2(x0: int, x1: int) -> int {
    x0 + x1 * base()
}

pub open spec fn lv3(x0: int, x1: int, x2: int) -> int {
    lv2(x0, x1) + x2 * (base() * base())
}

pub open spec fn lv4(x0: int, x1: int, x2: int, x3: int) -> int {
    lv3(x0, x1, x2) + x3 * (base() * (base() * base()))
}

/// The integer that four little-endian limbs denote.
pub open spec fn limbs_val(l: [u64; 4]) -> nat {
    lv4(l[0] as int, l[1] as int, l[2] as int, l[3] as int) as nat
}

/// The modulus as little-endian limbs.
pub open spec fn modulus_limbs() -> [u64; 4] {
    [725501752471715841u64, 6461107452199829505u64, 6968279316240510977u64, 1345280370688173398u64]
}

proof fn lemma_lv2_bound(x0: int, x1: int)
    requires
        0 <= x0 < base(),
        0 <= x1 < base(),
    ensures
        0 <= lv2(x0, x1) < base() * base(),
{
    let b = base();
    assert(x1 * b <= (b - 1) * b) by (nonlinear_arith)
        requires
            0 <= x1 < b,
            b > 0,
    ;
    assert((b - 1) * b == b * b - b) by (nonlinear_arith);
    assert(x1 * b >= 0) by (nonlinear_arith)
        requires
            0 <= x1,
            b > 0,
    ;
}

proof fn lemma_lv3_bound(x0: int, x1: int, x2: int)
    requires
        0 <= x0 < base(),
        0 <= x1 < base(),
        0 <= x2 < base(),
    ensures
        0 <= lv3(x0, x1, x2) < base() * (base() * base()),
{
    lemma_lv2_bound(x0, x1);
    let b = base();
    assert(b * b > 0) by (nonlinear_arith)
        requires
            b > 0,
    ;
    assert(x2 * (b * b) <= (b - 1) * (b * b)) by (nonlinear_arith)
        requires
            0 <= x2 < b,
            b * b > 0,
    ;
    assert((b - 1) * (b * b) == b * (b * b) - b * b) by (nonlinear_arith);
    assert(x2 * (b * b) >= 0) by (nonlinear_arith)
        requires
            0 <= x2,
            b * b > 0,
    ;
}

/// A higher top limb decides the order of two values.
proof fn lemma_top_limb_decides(low_x: int, x_top: int, low_y: int, y_top: int, unit: int)
    requires
        0 <= low_x < unit,
        0 <= low_y,
        0 <= x_top < y_top,
    ensures
        low_x + x_top * unit < low_y + y_top * unit,
{
    assert(x_top * unit + unit <= y_top * unit) by (nonlinear_arith)
        requires
            x_top < y_top,
            unit > 0,
    ;
}

/// Comparison of limb vectors, most significant limb first.
fn limbs_lt(a: &[u64; 4], b: &[u64; 4]) -> (r: bool)
    ensures
        r == (limbs_val(*a) < limbs_val(*b)),
{
    let ghost b1 = base();
    let ghost b2 = base() * base();
    let ghost b3 = base() * (base() * base());
    proof {
        lemma_lv2_bound(a[0] as int, a[1] as int);
        lemma_lv2_bound(b[0] as int, b[1] as int);
        lemma_lv3_bound(a[0] as int, a[1] as int, a[2] as int);
        lemma_lv3_bound(b[0] as int, b[1] as int, b[2] as int);
    }
    if a[3] != b[3] {
        proof {
            let la = lv3(a[0] as int, a[1] as int, a[2] as int);
            let lb = lv3(b[0] as int, b[1] as int, b[2] as int);
            if a[3] < b[3] {
                lemma_top_limb_decides(la, a[3] as int, lb, b[3] as int, b3);
            } else {
                lemma_top_limb_decides(lb, b[3] as int, la, a[3] as int, b3);
            }
        }
        a[3] < b[3]
    } else if a[2] != b[2] {
        proof {
            let la = lv2(a[0] as int, a[1] as int);
            let lb = lv2(b[0] as int, b[1] as int);
            if a[2] < b[2] {
                lemma_top_limb_decides(la, a[2] as int, lb, b[2] as int, b2);
            } else {
                lemma_top_limb_decides(lb, b[2] as int, la, a[2] as int, b2);
            }
        }
        a[2] < b[2]
    } else if a[1] != b[1] {
        proof {
            if a[1] < b[1] {
                lemma_top_limb_decides(a[0] as int, a[1] as int, b[0] as int, b[1] as int, b1);
            } else {
                lemma_top_limb_decides(b[0] as int, b[1] as int, a[0] as int, a[1] as int, b1);
            }
        }
        a[1] < b[1]
    } else {
        a[0] < b[0]
    }
}

/// Addition of residues is congruent to addition of the integers.
pub proof fn lemma_fadd_cong(a: int, b: int, x: nat, y: nat)
    requires
        x == a % (modulus() as int),
        y == b % (modulus() as int),
    ensures
        fadd(x, y) == (a + b) % (modulus() as int),
{
    vstd::arithmetic::div_mod::lemma_add_mod_noop(a, b, modulus() as int);
}

/// Subtraction of residues is congruent to subtraction of the integers.
pub proof fn lemma_fsub_cong(a: int, b: int, x: nat, y: nat)
    requires
        x == a % (modulus() as int),
        y == b % (modulus() as int),
    ensures
        fsub(x, y) == (a - b) % (modulus() as int),
{
    vstd::arithmetic::div_mod::lemma_sub_mod_noop(a, b, modulus() as int);
}

/// Multiplication of residues is congruent to multiplication of the integers.
pub proof fn lemma_fmul_cong(a: int, b: int, x: nat, y: nat)
    requires
        x == a % (modulus() as int),
        y == b % (modulus() as int),
    ensures
        fmul(x, y) == (a * b) % (modulus() as int),
{
    let m = modulus() as int;
    vstd::arithmetic::div_mod::lemma_mul_mod_noop_left(a, y as int, m);
    vstd::arithmetic::div_mod::lemma_mul_mod_noop_right(a, b, m);
}

/// Inverses are unique.
pub proof fn lemma_inverse_unique(a: nat, w1: nat, w2: nat)
    requires
        w1 < modulus(),
        w2 < modulus(),
        is_inverse(a, w1),
        is_inverse(a, w2),
    ensures
        w1 == w2,
{
    let m = modulus() as int;
    let (ai, w1i, w2i) = (a as int, w1 as int, w2 as int);
    lemma_small_mod(w1, modulus());
    lemma_small_mod(w2, modulus());
    // w1 = w1 (a w2) = (w1 a) w2 = w2, modulo m
    vstd::arithmetic::div_mod::lemma_mul_mod_noop_right(w1i, ai * w2i, m);
    assert(w1i * ((ai * w2i) % m) == w1i);
    assert(w1i * (ai * w2i) == (w1i * ai) * w2i) by (nonlinear_arith);
    vstd::arithmetic::div_mod::lemma_mul_mod_noop_left(w1i * ai, w2i, m);
    assert(w1i * ai == ai * w1i) by (nonlinear_arith);
    assert(((w1i * ai) % m) * w2i == w2i);
}

/// Any inverse below the modulus is the inverse.
pub proof fn lemma_finv_is(a: nat, w: nat)
    requires
        w < modulus(),
        is_inverse(a, w),
    ensures
        finv(a) == w,
{
    assert(w < modulus() && is_inverse(a, w));
    let v = finv(a);
    assert(v < modulus() && is_inverse(a, v));
    lemma_inverse_unique(a, v, w);
}

/// Field multiplication is associative.
pub proof fn lemma_fmul_assoc(x: nat, y: nat, z: nat)
    requires
        x < modulus(),
        y < modulus(),
        z < modulus(),
    ensures
        fmul(fmul(x, y), z) == fmul(x, fmul(y, z)),
{
    lemma_residue(x);
    lemma_residue(y);
    lemma_residue(z);
    lemma_fmul_cong(x as int, y as int, x, y);
    lemma_fmul_cong(y as int, z as int, y, z);
    lemma_fmul_cong((x * y) as int, z as int, fmul(x, y), z);
    lemma_fmul_cong(x as int, (y * z) as int, x, fmul(y, z));
    assert((x * y) * z == x * (y * z)) by (nonlinear_arith);
}

/// Powers are field elements.
pub proof fn lemma_fpow_bound(a: nat, e: nat)
    ensures
        fpow(a, e) < modulus(),
{
}

/// a^(m+n) = a^m a^n.
pub proof fn lemma_fpow_add(a: nat, m: nat, n: nat)
    requires
        a < modulus(),
    ensures
        fpow(a, m + n) == fmul(fpow(a, m), fpow(a, n)),
    decreases n,
{
    lemma_fpow_bound(a, m);
    if n == 0 {
        assert(m + n == m);
        lemma_small_mod(fpow(a, m), modulus());
        assert(fpow(a, m) * 1 == fpow(a, m));
    } else {
        let n1 = (n - 1) as nat;
        lemma_fpow_add(a, m, n1);
        assert(m + n == (m + n1) + 1);
        assert(fpow(a, m + n) == fmul(fpow(a, m + n1), a));
        lemma_fpow_bound(a, n1);
        lemma_fmul_assoc(fpow(a, m), fpow(a, n1), a);
    }
}

/// The limbs of p - 2, the exponent of inversion by Fermat's little theorem.
pub fn modulus_minus_two_limbs() -> (r: [u64; 4])
    ensures
        limbs_val(r) == modulus() - 2,
{
    [725501752471715839u64, 6461107452199829505u64, 6968279316240510977u64, 1345280370688173398u64]
}

/// A value below the modulus is its own residue.
pub proof fn lemma_residue(x: nat)
    requires
        x < modulus(),
    ensures
        x == (x as int) % (modulus() as int),
{
    lemma_small_mod(x, modulus());
}

/// An element of the BLS12-377 scalar field, held canonically.
#[derive(Clone, Copy, Debug, PartialEq, Eq)]
pub struct Fe {
    limbs: [u64; 4],
}

pub broadcast proof fn lemma_val_lt_modulus(x: Fe)
    ensures
        #[trigger] x.val() < modulus(),
{
    x.lemma_val_bound();
}

impl Fe {
    #[verifier::type_invariant]
    spec fn canonical(&self) -> bool {
        limbs_val(self.limbs) < modulus()
    }

    /// The value of the element, a natural number below the modulus.
    pub closed spec fn val(&self) -> nat {
        limbs_val(self.limbs) % modulus()
    }

    pub proof fn lemma_val_bound(&self)
        ensures
            self.val() < modulus(),
    {
    }

    proof fn lemma_val_is_limbs(&self)
        requires
            limbs_val(self.limbs) < modulus(),
        ensures
            self.val() == limbs_val(self.limbs),
    {
        lemma_small_mod(limbs_val(self.limbs), modulus());
    }

    /// The element with value `x`.
    pub fn from_u64(x: u64) -> (r: Fe)
        ensures
            r.val() == x,
    {
        let limbs: [u64; 4] = [x, 0, 0, 0];
        proof {
            assert(limbs[1] == 0 && limbs[2] == 0 && limbs[3] == 0);
            assert(limbs_val(limbs) == x);
        }
        let r = Fe { limbs };
        proof {
            r.lemma_val_is_limbs();
        }
        r
    }

    /// The additive identity.
    pub fn zero() -> (r: Fe)
        ensures
            r.val() == 0,
    {
        Fe::from_u64(0)
    }

    /// The multiplicative identity.
    pub fn one() -> (r: Fe)
        ensures
            r.val() == 1,
    {
        Fe::from_u64(1)
    }

    /// The element whose canonical little-endian limbs are `limbs`, if they
    /// denote a value below the modulus.
    pub fn from_limbs(limbs: [u64; 4]) -> (r: Option<Fe>)
        ensures
            r is Some <==> limbs_val(limbs) < modulus(),
            r matches Some(x) ==> x.val() == limbs_val(limbs),
    {
        let m: [u64; 4] = [
            725501752471715841u64,
            6461107452199829505u64,
            6968279316240510977u64,
            1345280370688173398u64,
        ];
        proof {
            assert(m == modulus_limbs());
            assert(limbs_val(m) == modulus());
        }
        if limbs_lt(&limbs, &m) {
            let r = Fe { limbs };
            proof {
                r.lemma_val_is_limbs();
            }
            Some(r)
        } else {
            None
        }
    }

    /// The canonical little-endian limbs of the value.
    pub fn to_limbs(&self) -> (r: [u64; 4])
        ensures
            limbs_val(r) == self.val(),
    {
        proof {
            use_type_invariant(self);
            self.lemma_val_is_limbs();
        }
        self.limbs
    }

    /// Equality of values.
    pub fn eq(&self, other: &Fe) -> (r: bool)
        ensures
            r == (self.val() == other.val()),
    {
        proof {
            use_type_invariant(self);
            use_type_invariant(other);
            self.lemma_val_is_limbs();
            other.lemma_val_is_limbs();
        }
        let lt = limbs_lt(&self.limbs, &other.limbs);
        let gt = limbs_lt(&other.limbs, &self.limbs);
        !lt && !gt
    }

    /// Order of values, as integers below the modulus.
    pub fn lt(&self, other: &Fe) -> (r: bool)
        ensures
            r == (self.val() < other.val()),
    {
        proof {
            use_type_invariant(self);
            use_type_invariant(other);
            self.lemma_val_is_limbs();
            other.lemma_val_is_limbs();
        }
        limbs_lt(&self.limbs, &other.limbs)
    }

    /// Whether the value is zero.
    pub fn is_zero(&self) -> (r: bool)
        ensures
            r == (self.val() == 0),
    {
        self.eq(&Fe::zero())
    }
}

/// A uniformly random element, through `UniformRand::rand` of `Fr` with the
/// thread's random number generator. Nothing is promised of its value.
#[verifier::external_body]
pub(crate) fn fe_random() -> (r: Fe) {
    let x = <Fr as ark_ff::UniformRand>::rand(&mut rand::thread_rng());
    Fe { limbs: x.into_repr().0 }
}

/// The modulus as little-endian limbs.
pub fn modulus_limbs_exec() -> (r: [u64; 4])
    ensures
        r == modulus_limbs(),
        limbs_val(r) == modulus(),
{
    [725501752471715841u64, 6461107452199829505u64, 6968279316240510977u64, 1345280370688173398u64]
}

/// The modulus is below 2^253.
pub proof fn lemma_modulus_bound()
    ensures
        modulus() < 0x2000000000000000000000000000000000000000000000000000000000000000,
{
}

/// Addition, through `Fr`'s `Add`: the sum modulo the field order.
#[verifier::external_body]
pub(crate) fn fe_add(a: &Fe, b: &Fe) -> (r: Fe)
    ensures
        r.val() == fadd(a.val(), b.val()),
{
    let x = Fr::from_repr(BigInteger256(a.limbs)).unwrap();
    let y = Fr::from_repr(BigInteger256(b.limbs)).unwrap();
    Fe { limbs: (x + y).into_repr().0 }
}

/// Subtraction, through `Fr`'s `Sub`: the difference modulo the field order.
#[verifier::external_body]
pub(crate) fn fe_sub(a: &Fe, b: &Fe) -> (r: Fe)
    ensures
        r.val() == fsub(a.val(), b.val()),
{
    let x = Fr::from_repr(BigInteger256(a.limbs)).unwrap();
    let y = Fr::from_repr(BigInteger256(b.limbs)).unwrap();
    Fe { limbs: (x - y).into_repr().0 }
}

/// Multiplication, through `Fr`'s `Mul`: the product modulo the field order.
#[verifier::external_body]
pub(crate) fn fe_mul(a: &Fe, b: &Fe) -> (r: Fe)
    ensures
        r.val() == fmul(a.val(), b.val()),
{
    let x = Fr::from_repr(BigInteger256(a.limbs)).unwrap();
    let y = Fr::from_repr(BigInteger256(b.limbs)).unwrap();
    Fe { limbs: (x * y).into_repr().0 }
}

/// Inversion, through `Field::inverse` of `Fr`: `None` for zero, else the
/// element whose product with `a` is one (unique, the field being prime).
#[verifier::external_body]
pub(crate) fn fe_inverse(a: &Fe) -> (r: Option<Fe>)
    ensures
        r is None <==> a.val() == 0,
        r matches Some(w) ==> is_inverse(a.val(), w.val()) && w.val() == finv(a.val()),
{
    let x = Fr::from_repr(BigInteger256(a.limbs)).unwrap();
    match x.inverse() {
        Some(w) => Some(Fe { limbs: w.into_repr().0 }),
        None => None,
    }
}

/// Exponentiation by a 64-bit exponent, through `Field::pow` of `Fr`.
#[verifier::external_body]
pub(crate) fn fe_pow(a: &Fe, e: u64) -> (r: Fe)
    ensures
        r.val() == fpow(a.val(), e as nat),
{
    let x = Fr::from_repr(BigInteger256(a.limbs)).unwrap();
    Fe { limbs: x.pow(&[e]).into_repr().0 }
}


/// The largest size of a radix-2 evaluation domain of the field: 2^47.
pub open spec fn max_domain_size() -> nat {
    0x8000_0000_0000
}

/// The field's 2-adic root of unity, of order 2^47: the canonical value of
/// `TWO_ADIC_ROOT_OF_UNITY` of `Fr`.
pub open spec fn two_adic_root() -> nat {
    8065159656716812877374967518403273466521432693661810619979959746626482506078nat
}

/// The generator ω of the field's radix-2 evaluation domain of size n = 2^k:
/// the 2-adic root squared 47 - k times.
pub closed spec fn domain_generator(n: nat) -> nat {
    let k = choose|k: nat| crate::types::two_pow(k) == n;
    fpow(two_adic_root(), crate::types::two_pow((47 - k) as nat))
}

/// The generator of the size-n evaluation domain, `group_gen` of
/// `Radix2EvaluationDomain::<Fr>::new(n)`: `FftField::get_root_of_unity(n)`,
/// which squares the 2-adic root of unity 47 - log2(n) times, documented as
/// the root of unity of order n, so its n-th power is one and no smaller
/// positive power is. `new` returns a domain for every power of two up to
/// 2^47.
#[verifier::external_body]
pub(crate) fn fe_domain_generator(n: usize) -> (r: Fe)
    requires
        crate::types::is_pow2(n as nat),
        n <= max_domain_size(),
    ensures
        r.val() == domain_generator(n as nat),
        fpow(r.val(), n as nat) == 1,
        forall|e: nat| 0 < e < n ==> #[trigger] fpow(r.val(), e) != 1,
{
    let domain = Radix2EvaluationDomain::<Fr>::new(n).unwrap();
    Fe { limbs: domain.group_gen.into_repr().0 }
}

/// Interpolation over the size-n domain, `EvaluationDomain::ifft` of
/// `Radix2EvaluationDomain::<Fr>::new(n)`: the n coefficients of the
/// polynomial that takes the value evals[i] at ω^i, ω the domain's
/// generator.
#[verifier::external_body]
pub(crate) fn fe_ifft(evals: &Vec<Fe>) -> (r: Vec<Fe>)
    requires
        crate::types::is_pow2(evals.len() as nat),
        evals.len() <= max_domain_size(),
    ensures
        r.len() == evals.len(),
        forall|i: int|
            0 <= i < evals.len() ==> crate::poly::peval(
                crate::permutation::fe_values(r@),
                fpow(domain_generator(evals.len() as nat), i as nat) as int,
            ) % (modulus() as int) == (#[trigger] evals[i]).val(),
{
    let domain = Radix2EvaluationDomain::<Fr>::new(evals.len()).unwrap();
    let xs: Vec<Fr> = evals.iter().map(|e| Fr::from_repr(BigInteger256(e.limbs)).unwrap()).collect();
    domain.ifft(&xs).into_iter().map(|c| Fe { limbs: c.into_repr().0 }).collect()
}

} // verus!
