# gaussian_integers

Exact Gaussian-integer arithmetic and finite experiments with the coprimality topology on
the nonzero Gaussian integers `Z[i]`, verified with Verus.

Every operation is specified over a mathematical model in which a Gaussian integer is a
pair of mathematical integers (`src/ring.rs`).

## Layout

- `src/ring.rs` – the model: ring operations, norm, units, divisibility, associates and
  the canonical associate, with their algebraic lemmas.
- `src/arithmetic.rs` – `GaussianInt` with checked `i64` arithmetic, Euclidean division,
  exact division and the normalized gcd.
- `src/division.rs`, `src/gcd.rs` – the Euclidean quotient and remainder, the Euclidean
  algorithm, Bezout's identity and the characterisation of the gcd.
- `src/primality.rs`, `src/two_squares.rs`, `src/classification.rs` – rational primes,
  Fermat's two-squares theorem, and the proof that the primality test accepts exactly
  the irreducible Gaussian integers.
- `src/divisors.rs`, `src/uniqueness.rs` – products of prime powers, prime supports, and
  unique factorization.
- `src/factor.rs` – primality, prime classes and the exact factorizer within the finite
  norm range.
- `src/topology.rs` – basic opens, indistinguishability, specialization and the
  Kolmogorov quotient.
- `src/window.rs` – the census of a square lattice window.
- `src/text.rs`, `src/command.rs` – text of values, factorizations and errors, reading of
  decimal numerals, and the command line of the experiment tool.
- `app/main.rs` – the command-line program: reads the arguments, calls the library and
  prints the report.
- `tests/` – example-based and exhaustive bounded tests.
