# honest_shamir

Shamir secret sharing over GF(2^8), on the `honest` field, verified with Verus.

A secret of any length is split into `n` shares so that any `k` of them
rebuild it and any `k − 1` reveal nothing. Each byte of the secret is the
constant term of its own random polynomial of degree `k − 1`; share `i`
holds every polynomial evaluated at `x = i`.

## Layout

- `src/field.rs`: GF(2^8) with the AES polynomial as mathematics, and the
  field laws (commutativity, associativity, distributivity, inverses),
  proved with the bit-vector solver.
- `src/poly.rs`: polynomials by Horner's rule, sums and products, divided
  differences, Lagrange interpolation at zero, division by `x − a`, and the
  construction of the polynomial through given points.
- `src/scheme.rs`: `split_with`, `split_with_coefficients`, `split`,
  `refresh_with_coefficients`,
  `reconstruct`, `refresh_with`, `refresh`, with contracts over the
  mathematical model.
- `src/laws.rs`: any `k` shares rebuild the secret, also after a refresh;
  fewer than `k` say nothing; refreshing keeps the secret; the order of the
  shares does not matter; old and refreshed shares do not mix; a tampered
  byte changes the secret at its position and only there.
- `src/share.rs`, `src/threshold.rs`, `src/error.rs`, `src/text.rs`: the
  types, their invariants and their messages.
- `src/outside.rs`: the calls into `honest`, `rand_core` and `zeroize`, with
  the contracts that are trusted.
- `app/lib.rs`: `Display`, `std::error::Error` and a redacting `Debug`, and
  the split example, which prints.
