//! What the lookup client computes around the permutation: padding the
//! query columns to the table's length and choosing queries from the table.
use vstd::prelude::*;
use crate::field::Fe;
use crate::mpc_field::MpcField;
use crate::permutation::fe_values;

verus! {

/// f' extended with the entries of t' from position len(f') on, up to the
/// length of t'; unchanged where it is not shorter.
pub fn pad_f_prime_to_match_t_prime(f_prime: Vec<MpcField>, t_prime: &[MpcField]) -> (r: Vec<
    MpcField,
>)
    ensures
        r@ == (if f_prime.len() < t_prime.len() {
            f_prime@ + t_prime@.subrange(f_prime.len() as int, t_prime.len() as int)
        } else {
            f_prime@
        }),
{
    let mut out = f_prime;
    let start = out.len();
    if start < t_prime.len() {
        let ghost base = out@;
        let mut i: usize = start;
        while i < t_prime.len()
            invariant
                start <= i <= t_prime.len(),
                out@ == base + t_prime@.subrange(start as int, i as int),
            decreases t_prime.len() - i,
        {
            out.push(t_prime[i]);
            i = i + 1;
            proof {
                assert(out@ =~= base + t_prime@.subrange(start as int, i as int));
            }
        }
    }
    out
}

/// The query column f extended with the entries of t' from position len(f)
/// on, up to the length of the table t; unchanged where it is not shorter.
pub fn pad_f_to_match_t(f: Vec<MpcField>, t: &[MpcField], t_prime: &[MpcField]) -> (r: Vec<
    MpcField,
>)
    requires
        f.len() < t.len() ==> t.len() <= t_prime.len(),
    ensures
        r@ == (if f.len() < t.len() {
            f@ + t_prime@.subrange(f.len() as int, t.len() as int)
        } else {
            f@
        }),
{
    let mut out = f;
    let start = out.len();
    if start < t.len() {
        let ghost base = out@;
        let mut i: usize = start;
        while i < t.len()
            invariant
                start <= i <= t.len(),
                t.len() <= t_prime.len(),
                out@ == base + t_prime@.subrange(start as int, i as int),
            decreases t.len() - i,
        {
            out.push(t_prime[i]);
            i = i + 1;
            proof {
                assert(out@ =~= base + t_prime@.subrange(start as int, i as int));
            }
        }
    }
    out
}

/// Two entries of `s` hold the same value.
pub open spec fn has_repeat(s: Seq<int>) -> bool {
    exists|i: int, j: int| 0 <= i < j < s.len() && s[i] == s[j]
}

/// The queries drawn from the table: entry i is the table entry at
/// draws[i] modulo the table's length.
pub open spec fn drawn_queries(t: Seq<Fe>, draws: Seq<u64>) -> Seq<Fe> {
    Seq::new(draws.len(), |i: int| t[(draws[i] as int) % (t.len() as int)])
}

/// Queries chosen from the table by the random draws, with the last one
/// made a repeat of the first where no two are equal and there are at least
/// two (so that the lookup has a repeated query).
pub fn prepare_queries(t: &Vec<Fe>, draws: &Vec<u64>) -> (r: Vec<Fe>)
    requires
        t.len() >= 1,
    ensures
        ({
            let base = drawn_queries(t@, draws@);
            r@ == (if !has_repeat(fe_values(base)) && draws.len() >= 2 {
                base.update(draws.len() - 1, base[0])
            } else {
                base
            })
        }),
{
    let n = t.len();
    let m = draws.len();
    let ghost base = drawn_queries(t@, draws@);
    let mut f: Vec<Fe> = Vec::new();
    let mut i: usize = 0;
    while i < m
        invariant
            n == t.len(),
            n >= 1,
            m == draws.len(),
            base == drawn_queries(t@, draws@),
            i <= m,
            f@ == base.take(i as int),
        decreases m - i,
    {
        let idx = (draws[i] % (n as u64)) as usize;
        proof {
            assert(idx as int == (draws[i as int] as int) % (n as int));
        }
        f.push(t[idx]);
        i = i + 1;
        proof {
            assert(f@ =~= base.take(i as int));
        }
    }
    proof {
        assert(base.take(m as int) =~= base);
    }
    let mut repeat = false;
    let mut a: usize = 0;
    while a < m
        invariant
            m == f.len(),
            f@ == base,
            a <= m,
            repeat == exists|i: int, j: int| 0 <= i < j < m && i < a && fe_values(base)[i] == fe_values(
                base,
            )[j],
        decreases m - a,
    {
        let mut b: usize = a + 1;
        let ghost before = repeat;
        while b < m
            invariant
                m == f.len(),
                f@ == base,
                a < m,
                a + 1 <= b <= m,
                before == exists|i: int, j: int|
                    0 <= i < j < m && i < a && fe_values(base)[i] == fe_values(base)[j],
                repeat == (before || exists|j: int|
                    a < j < b && fe_values(base)[a as int] == fe_values(base)[j]),
            decreases m - b,
        {
            let same = f[a].eq(&f[b]);
            proof {
                assert(fe_values(base)[a as int] == f[a as int].val());
                assert(fe_values(base)[b as int] == f[b as int].val());
                if same {
                    assert(a < b < b + 1 && fe_values(base)[a as int] == fe_values(base)[b as int]);
                }
            }
            if same {
                repeat = true;
            }
            b = b + 1;
        }
        proof {
            if repeat && !before {
                let j = choose|j: int| a < j < m && fe_values(base)[a as int] == fe_values(base)[j];
                assert(0 <= a < j < m && a < a + 1);
            }
            if repeat == false {
                assert forall|i: int, j: int|
                    0 <= i < j < m && i < a + 1 implies fe_values(base)[i] != fe_values(base)[j] by {
                    if i < a {
                    } else {
                        assert(i == a);
                    }
                }
            }
        }
        a = a + 1;
    }
    if !repeat && m >= 2 {
        let first = f[0];
        f.set(m - 1, first);
    }
    f
}

} // verus!
