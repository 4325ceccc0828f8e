//! Lagrange basis and selector columns of the lookup argument.
use vstd::prelude::*;
use crate::field::{Fe, fe_inverse, fe_mul, fe_pow, fe_sub, finv, fmul, fpow, fsub, lemma_val_lt_modulus};

verus! {

broadcast use lemma_val_lt_modulus;

/// ℓ_0(x) = (x^n - 1) / (n (x - 1)) on a domain of size n, and 1 at x = 1.
pub open spec fn lagrange_l0(x: nat, n: nat) -> nat {
    if x == 1 {
        1
    } else {
        fmul(fsub(fpow(x, n), 1), finv(fmul(n, fsub(x, 1))))
    }
}

/// ℓ_0 evaluated at `x` on a domain of `domain_size` points.
pub fn compute_lagrange_basis_l0(x: Fe, domain_size: usize, _omega: Fe) -> (r: Fe)
    requires
        x.val() != 1 ==> fmul(domain_size as nat, fsub(x.val(), 1)) != 0,
    ensures
        r.val() == lagrange_l0(x.val(), domain_size as nat),
{
    let one = Fe::one();
    if x.eq(&one) {
        return one;
    }
    let x_to_n = fe_pow(&x, domain_size as u64);
    let numerator = fe_sub(&x_to_n, &one);
    let n = Fe::from_u64(domain_size as u64);
    let x_minus_one = fe_sub(&x, &one);
    let denominator = fe_mul(&n, &x_minus_one);
    match fe_inverse(&denominator) {
        Some(inv) => fe_mul(&numerator, &inv),
        None => {
            proof {
                assert(false);
            }
            one
        },
    }
}

/// Index of the boundary row: `domain_size - num_blinding_rows - 1`,
/// saturating at zero.
pub open spec fn boundary_row(domain_size: nat, num_blinding_rows: nat) -> nat {
    if domain_size > num_blinding_rows {
        (domain_size - num_blinding_rows - 1) as nat
    } else {
        0
    }
}

/// The selector columns (q_blind, q_last): q_blind is one on the rows after
/// the boundary row, q_last is one on the boundary row; both are zero elsewhere.
pub fn compute_selector_polynomials(domain_size: usize, num_blinding_rows: usize) -> (r: (
    Vec<Fe>,
    Vec<Fe>,
))
    ensures
        r.0.len() == domain_size,
        r.1.len() == domain_size,
        forall|i: int|
            0 <= i < domain_size ==> #[trigger] r.0[i].val() == (if i > boundary_row(
                domain_size as nat,
                num_blinding_rows as nat,
            ) {
                1nat
            } else {
                0nat
            }),
        forall|i: int|
            0 <= i < domain_size ==> #[trigger] r.1[i].val() == (if i == boundary_row(
                domain_size as nat,
                num_blinding_rows as nat,
            ) {
                1nat
            } else {
                0nat
            }),
{
    let num_usable_rows = domain_size.saturating_sub(num_blinding_rows).saturating_sub(1);
    let ghost u = boundary_row(domain_size as nat, num_blinding_rows as nat);
    assert(num_usable_rows == u);
    let mut q_blind: Vec<Fe> = Vec::new();
    let mut q_last: Vec<Fe> = Vec::new();
    let mut i: usize = 0;
    while i < domain_size
        invariant
            i <= domain_size,
            num_usable_rows == u,
            q_blind.len() == i,
            q_last.len() == i,
            forall|j: int| 0 <= j < i ==> #[trigger] q_blind[j].val() == (if j > u { 1nat } else { 0nat }),
            forall|j: int| 0 <= j < i ==> #[trigger] q_last[j].val() == (if j == u { 1nat } else { 0nat }),
        decreases domain_size - i,
    {
        if i > num_usable_rows {
            q_blind.push(Fe::one());
        } else {
            q_blind.push(Fe::zero());
        }
        if i == num_usable_rows {
            q_last.push(Fe::one());
        } else {
            q_last.push(Fe::zero());
        }
        i = i + 1;
    }
    (q_blind, q_last)
}

} // verus!
