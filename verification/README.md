# ni_number

Computes the Ni constant η_ν = Σ (n ≥ 1) πⁿ / (n! · 2^(n²)) to arbitrary
precision with `dashu`, with contracts proved by Verus.

- `src/bigint.rs` — integers as sign and words, arithmetic through `IBig`.
- `src/float_value.rs` — floats as numbers (significand, exponent, precision)
  and power-of-two bounds on their magnitude.
- `src/nearest_double.rs` — the digit/bit conversions' `log2(10)` arithmetic,
  done exactly in integers.
- `src/decimal.rs` — finding characters, reading and writing `u64`, cutting a
  decimal numeral to a fixed number of fractional digits.
- `src/backend/dashu_backend.rs` — π by Machin's formula, the float
  operations, `DashuFloat` and `DashuBackend`.
- `src/series.rs` — the series one step at a time (`NiSeries`, `NiStep`).
- `src/compute.rs` — the summation to the first term below the epsilon.
- `src/cache.rs` — values cached by precision rounded up to 64 bits.
- `src/lib.rs` — the interface: `ni_number_digits`, `ni_number`,
  `ni_series`, `clear_cache`.
- `app/lib.rs` — the process-wide cache behind a lock with the
  argument-only interface, the `f64` constants, and the native `f64` backend.

π is computed afresh for each request (by Machin's formula at the request's
precision rounded up to 64 bits); values of η are kept in the `NiCache`, and
a request is answered from the smallest cached precision at or above it.
With zero fractional digits the text is the value rounded to the nearest
integer, halves away from zero.

Accuracy is stated against exact rational quantities: π is within a
relative `2^-(key + 59)` of Machin's integer ratio, each series term within
`(18n − 8) · 2^-(p + 62)` of `Pⁿ / (n! · 2^(n²))`, and each partial sum within
`(18n − 6) · 2^-(p + 62)` of the exact partial sum, `P` being the computed π.
From these, each term after the first is proved smaller than the one
before it, and the computed π is at most 8.
