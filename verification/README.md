# flock_core

The projective form of the multilinear sum-check round over the binary field of
`2^128` elements, verified with Verus.

A prover keeps a multilinear polynomial as a table. Holding each adjacent pair in
the monomial basis of the variable that is bound next, `(c0, c1)` for
`c0 + X * c1`, makes binding at `r` one multiplication and one addition, and the
addition that restores the basis for the next variable is one that the round
message needs anyway.

- `src/poly.rs`, `src/bits.rs`: the model. Polynomials over the two-element
  field, congruence modulo `x^128 + x^7 + x^2 + x + 1`, bits of words.
- `src/field.rs`: `F128`, the unreduced `F256Unreduced`, and the laws of
  arithmetic.
- `src/sum.rs`: finite sums.
- `src/zerocheck/eq.rs`: the table of the equality polynomial.
- `src/zerocheck/multilinear.rs`: tables, the round on values, the round on
  twisted tables into buffers, evaluation.
- `src/zerocheck/projective.rs`: the twist, the round in place, the final
  binding, and the proofs that they agree with the round on values.
- `src/zerocheck/round.rs`: what a round message says of the round polynomial.
- `src/zerocheck/kernels.rs`: whole-table and one-row folds.

No outside crate is used and nothing is trusted beyond Verus and its library.
