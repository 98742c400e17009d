# sumcheck

Sum-check protocols for products of multilinear polynomials over the scalar field of
BLS12-381, verified with Verus.

## Layout

- `src/` — the verified library.
  - `limbs`, `bigint_field`: four-limb field elements (`StdFr2`) with schoolbook
    multiplication and three Barrett reductions, each proved to return `x mod p`.
  - `arithmetic`: small-by-big multiply-accumulate with delayed reduction.
  - `engine`: the multi-product evaluation over the grid `U_d^v` (with the point at
    infinity), multivariate extrapolation, and the folding of the grid with a challenge.
  - `sc_prover`, `sc_verifier`, `bigint_sumcheck`: the linear-time prover and verifier
    (Lagrange interpolation with the point at infinity) and the drivers built on them.
  - `protocol`, `streaming`: the `SumcheckProtocol` trait, `LinearTimeSC`, the
    small-value protocol `EvalProductSV` (offline grid, online rounds), and the
    polynomial stream.
  - `small_value`, `naive`: the small-value protocol on one table, and the textbook
    protocol on sparse multivariate polynomials.
  - `field_math`, `poly`, `sumcheck_model`, `completeness`, `grid_values`,
    `window_values`, `extrapolation`: the mathematical model (sums, products, polynomials, folds,
    multilinear extensions) and the proofs of the protocols' completeness.
  - `ark_field`: the calls into arkworks and `rand`, behind trusted wrappers.
- `tests/` — tests on concrete values.
- `app/` — the benchmark program: timing, memory measurement, files, threads.

The completeness results assume `fermat_holds()` (that `p` is prime, stated as
Fermat's little theorem for `p`), which is not proved here.
