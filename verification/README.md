# mpc_lookup

A verified core for a multi-party lookup argument in the style of Halo2:
the provers hold a table `t` and queries `f` as public values or additive
shares, compute the permuted columns `t'` and `f'` obliviously, and build the
polynomials of the lookup argument over the scalar field of BLS12-377.

The library is written in Verus. Every function states its result over a
mathematical model (field values as integers modulo the field order,
polynomials as coefficient sequences, sorts as arrangements of their input),
exactly for public inputs and for a party that runs alone.

Among several parties the statements are narrower. The network's rounds
(`MpcNet::rounds`, `bit_rounds`, `bits_rounds`, `fe_rounds`) and the
dealers' draws (`triple_at`, `triple_vals`) name what each party hears and
draws. In their terms a party's output is stated exactly for the single
protocol steps: openings (`open_bool`, `batch_open_bool`,
`AdditiveFieldShare::open`, `batch_open`, `MpcField::revealed`), sums and
differences of `MpcField`, Beaver AND and OR (single and batched), the Beaver
products `mul` and `batch_mul` and the mixed public-by-shared product of
`MpcField::mul`, the daBit conversion `b2a`, the interpolation of shared
columns, the evaluation of a shared polynomial at a public point
(`poly_evaluate`) and the prover's opened evaluations
(`compute_evaluations`); and for three composed circuits, the
ripple-carry adders `bits_add` and `bits_add_const` (`src/adder.rs`) and
the comparison `compare_bits_bool`, with the king's output of
`compare_bits` (`src/compare_run.rs`). Reconstruction lemmas
(`lemma_beaver_and_shares`, `lemma_beaver_or_shares`,
`lemma_beaver_mul_shares`, `lemma_add_shares`, `lemma_sub_shares`,
`lemma_b2a_shares`, `lemma_interpolation_reconstructs`,
`lemma_bits_add_shares`, `lemma_bits_add_const_shares`,
`lemma_less_shares`, `lemma_compare_bits_shares`) say what the parties'
outputs add up to, the last four for whole runs in which every opening is
the XOR of what the parties send. For the other
composed protocols (bit decomposition, `secure_cmp` on field shares, the
sorts, the lookup permutation, the grand product and the quotient) only
lengths, round and triple counts, which outputs are shared, and what the
dummy dealers imply (a party other than the king ends a comparison with a
zero share) are stated for several parties.

## Layout

- `src/field.rs`: field elements and the calls into `ark-ff`, `ark-bls12-377`
  and `ark-poly` that the library makes (arithmetic, inversion, the domain
  generator and the inverse FFT).
- `src/share.rs`, `src/mpc_field.rs`, `src/mpc_batch.rs`, `src/bit_ops.rs`,
  `src/adder.rs`, `src/bits.rs`, `src/edabits.rs`, `src/compare.rs`,
  `src/compare_run.rs`: additive shares, public or shared values, Boolean
  sharing, the adder and the comparison circuit as each party runs them,
  bit decomposition and secure comparison.
- `src/sorting.rs`, `src/network_order.rs`: the bitonic and radix sorts; the
  proof that the bitonic network sorts.
- `src/poly.rs`, `src/series.rs`, `src/poly_ops.rs`, `src/vanishing.rs`:
  polynomial products, power-series inversion by Newton's iteration,
  division with remainder, subproduct trees, multipoint evaluation,
  interpolation, and the count of roots (a polynomial with fewer
  coefficients than roots is zero).
- `src/routing.rs`, `src/claiming.rs`, `src/placement.rs`,
  `src/permutation.rs`: the oblivious lookup permutation and its laws.
- `src/types.rs`, `src/utils.rs`, `src/net.rs`, `src/client.rs`: the
  argument's configuration and proof data, the Lagrange and selector
  columns, the parties' network, and the client's padding and query choice.
- `src/prover.rs`, `src/prover_polys.rs`, `src/telescope.rs`,
  `src/honest.rs`, `src/lookup_verifier.rs`, `src/completeness.rs`: the
  prover's columns and polynomials, the grand product's return to one for
  permuted columns, the vanishing of every row's constraints for an honest
  prover, the verifier's checks on the claimed evaluations, and their
  agreement for honest provers.
- `src/fermat.rs`: Fermat's little theorem in a field without zero
  divisors, on which the comparison indicators of shared values rest.
- `app/main.rs`: the command-line client, which runs the lookup permutation
  on random public inputs and checks its outputs, and `verify_openings`, the
  opening-proof check with a polynomial commitment scheme for a caller that
  holds a proof (the client itself makes none: commitments among the parties
  are not part of this build).
