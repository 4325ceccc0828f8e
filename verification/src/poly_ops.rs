//! Polynomial arithmetic on coefficient vectors of public or shared values,
//! stated by what the results evaluate to, for a party that runs alone.
use vstd::prelude::*;
use vstd::arithmetic::div_mod::{
    lemma_add_mod_noop, lemma_mul_mod_noop_general, lemma_small_mod, lemma_sub_mod_noop,
};
use crate::bit_ops::same_net;
use crate::field::{
    domain_generator, fadd, fe_ifft, fmul, fpow, fsub, lemma_val_lt_modulus, max_domain_size,
    modulus, Fe,
};
use crate::mpc_field::MpcField;
use crate::net::MpcNet;
use crate::permutation::fe_values;
use crate::poly::{
    coef, ipow, lemma_peval_cong, lemma_peval_padd, lemma_peval_pmul, lemma_peval_pscale,
    lemma_shift_scale_evaluates, padd, pcong, peval, pmul, poly_mul, pscale, pshift_scale,
    shift_polynomial,
};
use crate::sorting::{all_public, all_shared, values_of};
use crate::types::is_pow2;

verus! {

broadcast use lemma_val_lt_modulus;

/// The modulus as an integer.
pub open spec fn pm() -> int {
    modulus() as int
}

/// Difference of two polynomials.
pub open spec fn psub(c: Seq<int>, d: Seq<int>) -> Seq<int> {
    padd(c, pscale(-1, d))
}

/// The value of a polynomial of field values at x, in the field.
pub open spec fn ev(c: Seq<MpcField>, x: int) -> int {
    peval(values_of(c), x) % pm()
}

/// Congruence of sums.
pub proof fn lemma_add_cong(a: int, b: int, c: int, d: int)
    requires
        a % pm() == c % pm(),
        b % pm() == d % pm(),
    ensures
        (a + b) % pm() == (c + d) % pm(),
{
    lemma_add_mod_noop(a, b, pm());
    lemma_add_mod_noop(c, d, pm());
}

/// Congruence of differences.
pub proof fn lemma_sub_cong(a: int, b: int, c: int, d: int)
    requires
        a % pm() == c % pm(),
        b % pm() == d % pm(),
    ensures
        (a - b) % pm() == (c - d) % pm(),
{
    lemma_sub_mod_noop(a, b, pm());
    lemma_sub_mod_noop(c, d, pm());
}

/// Congruence of products.
pub proof fn lemma_mul_cong(a: int, b: int, c: int, d: int)
    requires
        a % pm() == c % pm(),
        b % pm() == d % pm(),
    ensures
        (a * b) % pm() == (c * d) % pm(),
{
    lemma_mul_mod_noop_general(a, b, pm());
    lemma_mul_mod_noop_general(c, d, pm());
}

/// The coefficient at `k`, zero past the end.
fn coef_at(v: &Vec<MpcField>, k: usize) -> (r: MpcField)
    ensures
        k < v.len() ==> r == v[k as int],
        k >= v.len() ==> r is Public && r.value() == 0,
        r.value() as int == coef(values_of(v@), k as int),
{
    if k < v.len() {
        v[k]
    } else {
        MpcField::Public(Fe::zero())
    }
}

/// Sum of two polynomials, coefficient by coefficient.
pub fn poly_add<N: MpcNet>(a: &Vec<MpcField>, b: &Vec<MpcField>, net: &N) -> (r: Vec<MpcField>)
    ensures
        r.len() == if a.len() >= b.len() {
            a.len()
        } else {
            b.len()
        },
        all_public(a@) && all_public(b@) ==> all_public(r@),
        net.single_party() ==> forall|x: int| #[trigger] ev(r@, x) == (ev(a@, x) + ev(b@, x)) % pm(),
{
    let n = if a.len() >= b.len() {
        a.len()
    } else {
        b.len()
    };
    let ghost va = values_of(a@);
    let ghost vb = values_of(b@);
    let mut out: Vec<MpcField> = Vec::new();
    let mut k: usize = 0;
    while k < n
        invariant
            k <= n,
            n == if a.len() >= b.len() {
                a.len()
            } else {
                b.len()
            },
            va == values_of(a@),
            vb == values_of(b@),
            out.len() == k,
            all_public(a@) && all_public(b@) ==> all_public(out@),
            net.single_party() ==> forall|j: int|
                0 <= j < k ==> (#[trigger] out[j]).value() as int % pm() == padd(va, vb)[j] % pm(),
        decreases n - k,
    {
        let x = coef_at(a, k);
        let y = coef_at(b, k);
        let v = x.add(&y, net);
        proof {
            if net.single_party() {
                lemma_small_mod(v.value(), modulus());
            }
        }
        out.push(v);
        k = k + 1;
    }
    proof {
        if net.single_party() {
            assert(pcong(values_of(out@), padd(va, vb)));
            assert forall|x: int| #[trigger] ev(out@, x) == (ev(a@, x) + ev(b@, x)) % pm() by {
                lemma_peval_cong(values_of(out@), padd(va, vb), x);
                lemma_peval_padd(va, vb, x);
                lemma_add_mod_noop(peval(va, x), peval(vb, x), pm());
            }
        }
    }
    out
}

/// Difference of two polynomials, coefficient by coefficient.
pub fn poly_sub<N: MpcNet>(a: &Vec<MpcField>, b: &Vec<MpcField>, net: &N) -> (r: Vec<MpcField>)
    ensures
        r.len() == if a.len() >= b.len() {
            a.len()
        } else {
            b.len()
        },
        all_public(a@) && all_public(b@) ==> all_public(r@),
        net.single_party() ==> forall|x: int| #[trigger] ev(r@, x) == (ev(a@, x) - ev(b@, x)) % pm(),
{
    let n = if a.len() >= b.len() {
        a.len()
    } else {
        b.len()
    };
    let ghost va = values_of(a@);
    let ghost vb = values_of(b@);
    let mut out: Vec<MpcField> = Vec::new();
    let mut k: usize = 0;
    while k < n
        invariant
            k <= n,
            n == if a.len() >= b.len() {
                a.len()
            } else {
                b.len()
            },
            va == values_of(a@),
            vb == values_of(b@),
            out.len() == k,
            all_public(a@) && all_public(b@) ==> all_public(out@),
            net.single_party() ==> forall|j: int|
                0 <= j < k ==> (#[trigger] out[j]).value() as int % pm() == psub(va, vb)[j] % pm(),
        decreases n - k,
    {
        let x = coef_at(a, k);
        let y = coef_at(b, k);
        let v = x.sub(&y, net);
        proof {
            if net.single_party() {
                lemma_small_mod(v.value(), modulus());
                assert(coef(pscale(-1, vb), k as int) == -coef(vb, k as int));
            }
        }
        out.push(v);
        k = k + 1;
    }
    proof {
        if net.single_party() {
            assert(pcong(values_of(out@), psub(va, vb)));
            assert forall|x: int| #[trigger] ev(out@, x) == (ev(a@, x) - ev(b@, x)) % pm() by {
                lemma_peval_cong(values_of(out@), psub(va, vb), x);
                lemma_peval_padd(va, pscale(-1, vb), x);
                lemma_peval_pscale(-1, vb, x);
                lemma_sub_mod_noop(peval(va, x), peval(vb, x), pm());
            }
        }
    }
    out
}

/// Product of two polynomials.
pub fn poly_product<N: MpcNet>(a: &Vec<MpcField>, b: &Vec<MpcField>, net: &mut N) -> (r: Vec<
    MpcField,
>)
    requires
        a.len() + b.len() <= usize::MAX,
    ensures
        same_net(*final(net), *old(net)),
        r.len() <= a.len() + b.len(),
        all_public(a@) && all_public(b@) ==> all_public(r@),
        old(net).single_party() ==> forall|x: int| #[trigger] ev(r@, x) == (ev(a@, x) * ev(b@, x)) % pm(),
{
    let ghost sp = old(net).single_party();
    let r = poly_mul(a, b, net);
    proof {
        if sp {
            let va = values_of(a@);
            let vb = values_of(b@);
            assert forall|x: int| #[trigger] ev(r@, x) == (ev(a@, x) * ev(b@, x)) % pm() by {
                if a.len() > 0 && b.len() > 0 {
                    lemma_peval_cong(values_of(r@), pmul(va, vb), x);
                    lemma_peval_pmul(va, vb, x);
                    lemma_mul_mod_noop_general(peval(va, x), peval(vb, x), pm());
                } else {
                    assert(values_of(r@) =~= Seq::<int>::empty());
                    assert(peval(Seq::<int>::empty(), x) == 0);
                    if a.len() == 0 {
                        assert(values_of(a@) =~= Seq::<int>::empty());
                        assert(ev(a@, x) == 0);
                    } else {
                        assert(values_of(b@) =~= Seq::<int>::empty());
                        assert(ev(b@, x) == 0);
                    }
                    assert(ev(a@, x) * ev(b@, x) == 0) by (nonlinear_arith)
                        requires
                            ev(a@, x) == 0 || ev(b@, x) == 0,
                    ;
                }
            }
        }
    }
    r
}

/// The polynomial x -> f(a x).
pub fn poly_scaled_argument<N: MpcNet>(f: Vec<MpcField>, a: MpcField, net: &mut N) -> (r: Vec<
    MpcField,
>)
    ensures
        same_net(*final(net), *old(net)),
        r.len() == f.len(),
        all_public(f@) && a is Public ==> all_public(r@),
        old(net).single_party() ==> forall|x: int|
            #[trigger] ev(r@, x) == peval(values_of(f@), a.value() * x) % pm(),
{
    let ghost sp = old(net).single_party();
    let ghost vf = values_of(f@);
    let r = shift_polynomial(f, a, net);
    proof {
        if sp {
            assert forall|x: int| #[trigger] ev(r@, x) == peval(vf, a.value() * x) % pm() by {
                lemma_peval_cong(values_of(r@), pshift_scale(vf, a.value() as int), x);
                lemma_shift_scale_evaluates(vf, a.value() as int, x);
            }
        }
    }
    r
}

/// The constant polynomial c.
pub fn poly_constant(c: MpcField) -> (r: Vec<MpcField>)
    ensures
        r@ == seq![c],
        forall|x: int| #[trigger] ev(r@, x) == c.value(),
{
    let mut out: Vec<MpcField> = Vec::new();
    out.push(c);
    proof {
        assert forall|x: int| #[trigger] ev(out@, x) == c.value() by {
            let v = values_of(out@);
            assert(v.drop_first() =~= Seq::<int>::empty());
            assert(peval(v.drop_first(), x) == 0);
            assert(v[0] == c.value());
            assert(x * 0 == 0);
            lemma_small_mod(c.value(), modulus());
        }
    }
    out
}

/// The parties' own summands of a polynomial's coefficients.
pub open spec fn own_summands(c: Seq<MpcField>, king: bool) -> Seq<int> {
    Seq::new(c.len(), |i: int| own_summand(c[i], king) as int)
}

/// The value of a polynomial at x, by Horner's rule from the top
/// coefficient down. At a public point every party evaluates its own
/// summands of the coefficients, which takes no round: the parties'
/// results add up to the value of the secret polynomial (see
/// `lemma_interpolation_reconstructs`), and the result is shared exactly
/// where a coefficient is.
#[verifier::spinoff_prover]
#[verifier::rlimit(60)]
pub fn poly_evaluate<N: MpcNet>(c: &Vec<MpcField>, x: &MpcField, net: &mut N) -> (r: MpcField)
    ensures
        same_net(*final(net), *old(net)),
        all_public(c@) && *x is Public ==> r is Public,
        *x is Public && !all_public(c@) ==> r is Shared,
        old(net).single_party() || (all_public(c@) && *x is Public) ==> r.value() == ev(
            c@,
            x.value() as int,
        ),
        *x is Public ==> own_summand(r, old(net).king()) as int == peval(
            own_summands(c@, old(net).king()),
            x.value() as int,
        ) % pm(),
        *x is Public ==> final(net).rounds() == old(net).rounds(),
{
    let ghost sp = old(net).single_party();
    let ghost king = old(net).king();
    let ghost svc = own_summands(c@, king);
    let ghost net0 = *old(net);
    let ghost vc = values_of(c@);
    let ghost xv = x.value() as int;
    let mut acc = MpcField::Public(Fe::zero());
    let mut k: usize = c.len();
    proof {
        assert(vc.skip(c.len() as int) =~= Seq::<int>::empty());
        lemma_small_mod(0, modulus());
    }
    while k > 0
        invariant
            k <= c.len(),
            vc == values_of(c@),
            xv == x.value() as int,
            same_net(*net, net0),
            sp == net0.single_party(),
            all_public(c@) && *x is Public ==> acc is Public,
            sp || (all_public(c@) && *x is Public) ==> acc.value() as int == peval(
                vc.skip(k as int),
                xv,
            ) % pm(),
            king == net0.king(),
            svc == own_summands(c@, king),
            *x is Public && !all_public(c@.skip(k as int)) ==> acc is Shared,
            *x is Public ==> own_summand(acc, king) as int == peval(svc.skip(k as int), xv) % pm(),
            *x is Public ==> net.rounds() == net0.rounds(),
        decreases k,
    {
        k = k - 1;
        let ghost acc0 = acc;
        let prod = acc.mul(x, net);
        let next = prod.add(&c[k], net);
        proof {
            if *x is Public {
                let ki = k as int;
                let rest = svc.skip(ki + 1);
                assert(svc.skip(ki).drop_first() =~= rest);
                assert(svc.skip(ki)[0] == svc[ki]);
                let e = peval(rest, xv);
                let oa = own_summand(acc0, king);
                let ck = own_summand(c[ki], king);
                crate::field::lemma_residue(x.value());
                assert(own_summand(prod, king) == fmul(oa, x.value())) by {
                    if acc0 is Public && !king {
                        assert(fmul(0, x.value()) == 0) by {
                            assert(0 * x.value() == 0);
                        }
                    }
                }
                assert(own_summand(next, king) == fadd(own_summand(prod, king), ck));
                lemma_mul_cong(oa as int, xv, e, xv);
                lemma_add_cong((oa * xv) as int, svc[ki], e * xv, svc[ki]);
                lemma_mul_mod_noop_general(oa as int, xv, pm());
                lemma_add_mod_noop((oa * x.value()) as int, svc[ki], pm());
                assert(fmul(oa, x.value()) == (oa * x.value()) % modulus());
                lemma_add_mod_noop(fmul(oa, x.value()) as int, svc[ki], pm());
                assert(e * xv == xv * e) by (nonlinear_arith);
                if !all_public(c@.skip(ki)) {
                    if !all_public(c@.skip(ki + 1)) {
                        assert(c@.skip(ki).drop_first() =~= c@.skip(ki + 1));
                    } else {
                        assert(c@.skip(ki)[0] == c[ki]);
                        if c[ki] is Public {
                            assert forall|j: int| 0 <= j < c@.skip(ki).len() implies #[trigger] c@.skip(ki)[j] is Public by {
                                if j > 0 {
                                    assert(c@.skip(ki)[j] == c@.skip(ki + 1)[j - 1]);
                                }
                            }
                        }
                    }
                }
            }
        }
        proof {
            if sp || (all_public(c@) && *x is Public) {
                let rest = vc.skip(k + 1);
                assert(vc.skip(k as int).drop_first() =~= rest);
                assert(vc.skip(k as int)[0] == vc[k as int]);
                let e = peval(rest, xv);
                lemma_mul_cong(acc.value() as int, xv, e, xv);
                lemma_add_cong((acc.value() * xv) as int, vc[k as int], e * xv, vc[k as int]);
                lemma_mul_mod_noop_general(acc.value() as int, xv, pm());
                lemma_add_mod_noop((acc.value() * x.value()) as int, vc[k as int], pm());
                assert(fmul(acc.value(), x.value()) == (acc.value() * x.value()) % modulus());
                lemma_add_mod_noop(fmul(acc.value(), x.value()) as int, vc[k as int], pm());
                assert(e * xv == xv * e) by (nonlinear_arith);
            }
        }
        acc = next;
    }
    proof {
        assert(vc.skip(0) =~= vc);
        assert(svc.skip(0) =~= svc);
        assert(c@.skip(0) =~= c@);
    }
    acc
}

/// A party's own summand of a value: a shared value's share, or a public
/// value held by the king alone (zero at the other parties).
pub open spec fn own_summand(x: MpcField, king: bool) -> nat {
    match x {
        MpcField::Public(v) => if king {
            v.val()
        } else {
            0
        },
        MpcField::Shared(s) => s.val.val(),
    }
}

/// The coefficients of the polynomial of degree below n that takes the
/// value evals[i] at ω^i on the size-n domain: public values interpolated
/// directly; where a value is shared, each party interpolates its own
/// summands (interpolation is linear), the public values counted by the
/// king alone.
pub fn interpolate<N: MpcNet>(evals: &Vec<MpcField>, net: &N) -> (r: Vec<MpcField>)
    requires
        is_pow2(evals.len() as nat),
        evals.len() <= max_domain_size(),
    ensures
        r.len() == evals.len(),
        all_public(evals@) ==> all_public(r@),
        !all_public(evals@) ==> all_shared(r@),
        all_public(evals@) || net.single_party() ==> forall|i: int|
            0 <= i < evals.len() ==> ev(
                r@,
                fpow(domain_generator(evals.len() as nat), i as nat) as int,
            ) == (#[trigger] evals[i]).value(),
        !all_public(evals@) ==> forall|i: int|
            0 <= i < evals.len() ==> ev(
                r@,
                fpow(domain_generator(evals.len() as nat), i as nat) as int,
            ) == own_summand(#[trigger] evals[i], net.king()),
{
    let n = evals.len();
    let mut public = true;
    let mut i: usize = 0;
    while i < n
        invariant
            i <= n,
            n == evals.len(),
            public == forall|k: int| 0 <= k < i ==> #[trigger] evals[k] is Public,
        decreases n - i,
    {
        public = public && !evals[i].is_shared();
        i = i + 1;
    }
    proof {
        if net.single_party() {
            net.lemma_single_party_is_king();
        }
    }
    let mut plain: Vec<Fe> = Vec::new();
    i = 0;
    while i < n
        invariant
            i <= n,
            n == evals.len(),
            plain.len() == i,
            public == all_public(evals@),
            net.single_party() ==> net.king(),
            public ==> forall|k: int| 0 <= k < i ==> (#[trigger] plain[k]).val() == evals[k].value(),
            !public ==> forall|k: int|
                0 <= k < i ==> (#[trigger] plain[k]).val() == own_summand(evals[k], net.king()),
        decreases n - i,
    {
        if public {
            plain.push(evals[i].unwrap_as_public());
        } else {
            let s = evals[i].to_share(net);
            plain.push(s.val);
        }
        i = i + 1;
    }
    let coeffs = fe_ifft(&plain);
    let mut out: Vec<MpcField> = Vec::new();
    i = 0;
    while i < n
        invariant
            i <= n,
            n == evals.len(),
            coeffs.len() == n,
            out.len() == i,
            public ==> all_public(out@),
            !public ==> all_shared(out@),
            forall|k: int| 0 <= k < i ==> (#[trigger] out[k]).value() == coeffs[k].val(),
        decreases n - i,
    {
        if public {
            out.push(MpcField::Public(coeffs[i]));
        } else {
            out.push(MpcField::from_add_shared(coeffs[i]));
        }
        i = i + 1;
    }
    proof {
        assert(values_of(out@) =~= fe_values(coeffs@));
        if public || net.single_party() {
            assert forall|i: int| 0 <= i < evals.len() implies ev(
                out@,
                fpow(domain_generator(evals.len() as nat), i as nat) as int,
            ) == (#[trigger] evals[i]).value() by {
                if !public {
                    assert(plain[i].val() == own_summand(evals[i], net.king()));
                } else {
                    assert(plain[i].val() == evals[i].value());
                }
            }
        }
        if !public {
            assert forall|i: int| 0 <= i < evals.len() implies ev(
                out@,
                fpow(domain_generator(evals.len() as nat), i as nat) as int,
            ) == own_summand(#[trigger] evals[i], net.king()) by {
                assert(plain[i].val() == own_summand(evals[i], net.king()));
            }
        }
    }
    out
}

/// The parties' polynomials added coefficient by coefficient.
pub open spec fn psum(cs: Seq<Seq<int>>) -> Seq<int>
    decreases cs.len(),
{
    if cs.len() == 0 {
        Seq::empty()
    } else {
        padd(psum(cs.drop_last()), cs.last())
    }
}

/// The sum of the parties' summands.
pub open spec fn isum(vs: Seq<int>) -> int
    decreases vs.len(),
{
    if vs.len() == 0 {
        0
    } else {
        isum(vs.drop_last()) + vs.last()
    }
}

/// Interpolation reconstructs: where each party's coefficients take its
/// own summand at a point (as `interpolate` gives for shared values), the
/// sum of the parties' polynomials takes the sum of the summands there, the
/// secret value.
pub proof fn lemma_interpolation_reconstructs(cs: Seq<Seq<int>>, vs: Seq<int>, x: int)
    requires
        cs.len() == vs.len(),
        forall|p: int| 0 <= p < cs.len() ==> #[trigger] peval(cs[p], x) % pm() == vs[p] % pm(),
    ensures
        peval(psum(cs), x) % pm() == isum(vs) % pm(),
    decreases cs.len(),
{
    if cs.len() == 0 {
        assert(peval(Seq::<int>::empty(), x) == 0);
    } else {
        let k = cs.len() - 1;
        let rest = cs.drop_last();
        let vrest = vs.drop_last();
        assert forall|p: int| 0 <= p < rest.len() implies #[trigger] peval(rest[p], x) % pm()
            == vrest[p] % pm() by {
            assert(rest[p] == cs[p]);
            assert(peval(cs[p], x) % pm() == vs[p] % pm());
        }
        lemma_interpolation_reconstructs(rest, vrest, x);
        lemma_peval_padd(psum(rest), cs.last(), x);
        assert(peval(cs[k], x) % pm() == vs[k] % pm());
        lemma_add_cong(peval(psum(rest), x), peval(cs.last(), x), isum(vrest), vs.last());
    }
}

/// The Lagrange basis polynomial ℓ0 of the size-n domain: one at ω^0 = 1
/// and zero at the other ω^i, as the interpolation of (1, 0, ..., 0).
pub fn compute_lagrange_l0_polynomial(domain_size: usize) -> (r: Vec<Fe>)
    requires
        is_pow2(domain_size as nat),
        domain_size <= max_domain_size(),
    ensures
        r.len() == domain_size,
        forall|i: int|
            0 <= i < domain_size ==> #[trigger] (peval(
                fe_values(r@),
                fpow(domain_generator(domain_size as nat), i as nat) as int,
            ) % pm()) == if i == 0 {
                1int
            } else {
                0int
            },
{
    let mut evals: Vec<Fe> = Vec::new();
    let mut i: usize = 0;
    proof {
        assert(crate::types::two_pow(0) == 1);
    }
    while i < domain_size
        invariant
            i <= domain_size,
            evals.len() == i,
            forall|k: int|
                0 <= k < i ==> (#[trigger] evals[k]).val() == if k == 0 {
                    1nat
                } else {
                    0nat
                },
        decreases domain_size - i,
    {
        if i == 0 {
            evals.push(Fe::one());
        } else {
            evals.push(Fe::zero());
        }
        i = i + 1;
    }
    let r = fe_ifft(&evals);
    proof {
        assert forall|i: int| 0 <= i < domain_size implies #[trigger] (peval(
            fe_values(r@),
            fpow(domain_generator(domain_size as nat), i as nat) as int,
        ) % pm()) == if i == 0 {
            1int
        } else {
            0int
        } by {
            assert(evals[i].val() == if i == 0 {
                1nat
            } else {
                0nat
            });
        }
    }
    r
}

} // verus!
