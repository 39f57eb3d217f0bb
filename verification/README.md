# mpc_primitives

Building blocks for multi-party computation, verified with Verus:

- `src/field.rs` — arithmetic in the prime field `Z/pZ`: construction with a
  primality check, `+ - * /`, binary exponentiation and inverses by Fermat's
  little theorem.
- `src/number_theory.rs` — divisibility, Euclid's lemma, binomial
  coefficients and the proof of Fermat's little theorem.
- `src/poly.rs` — polynomials as coefficient sequences, division by a linear
  factor and the root-counting argument behind interpolation.
- `src/shamir.rs` — Shamir's (k, n) threshold secret sharing, with the proof
  that any k shares at distinct points reconstruct the secret.
- `src/ot/` — 1-of-2 oblivious transfer (Chou–Orlandi) over the Ristretto
  group; `group.rs` holds the calls into `curve25519-dalek`, `sha2` and `rand`.
- `app/` — a demonstration program and the error types with their messages.
- `tests/` — the test suite.
