//! Step-by-step evaluation of the η_ν series.
//!
//! Each step gives the term index `n`, the term πⁿ / (n! · 2^(n²)) and the
//! partial sum up to and including it.

use vstd::prelude::*;
use vstd::arithmetic::power::pow;
use vstd::arithmetic::power2::{pow2, lemma_pow2_pos, lemma_pow2_adds};
use crate::bigint::abs_int;
use crate::float_value::{FloatValue, float_sane, le_p2, ge_p2, prec_limit, value_lt, value_eq, within, equals_int};
use crate::float_value::{lemma_mul_step, lemma_div_step, lemma_within_at};
use crate::float_value::{lemma_exp_range, lemma_sane_from_p2, lemma_le_p2_mono, lemma_ge_p2_mono, lemma_pow2_le};
use crate::backend::dashu_backend::{DashuFloat, DashuBackend, ctx_prec};
use crate::backend::dashu_backend::{mul_value, div_value, int_value, add_value, zero_value, pi_value};

verus! {

// ─── The series as numbers ────────────────────────────────────────────────────

/// The running products of a step: πⁿ, n! and 2^(n²), as floats.
pub struct Factors {
    pub pi_pow: FloatValue,
    pub fact: FloatValue,
    pub two_pow: FloatValue,
}

/// The running products after step `n` at `p` bits: π, 1 and 2 for the first
/// step, then each step multiplies in π, `n` and `2^(2n − 1)`.
pub open spec fn factors(p: nat, n: nat) -> Factors
    decreases n,
{
    if n <= 1 {
        Factors { pi_pow: pi_value(p), fact: int_value(1, p), two_pow: int_value(2, p) }
    } else {
        let prev = factors(p, (n - 1) as nat);
        Factors {
            pi_pow: mul_value(prev.pi_pow, pi_value(p), p),
            fact: mul_value(prev.fact, int_value(n as int, p), p),
            two_pow: mul_value(prev.two_pow, int_value(pow2((2 * n - 1) as nat) as int, p), p),
        }
    }
}

/// The `n`-th term at `p` bits: `πⁿ / (n! · 2^(n²))`, each operation rounded.
pub open spec fn term_value(p: nat, n: nat) -> FloatValue {
    let f = factors(p, n);
    div_value(f.pi_pow, mul_value(f.fact, f.two_pow, p), p)
}

/// The partial sum of the first `n` terms at `p` bits, added in order to zero.
pub open spec fn partial_sum(p: nat, n: nat) -> FloatValue
    decreases n,
{
    if n == 0 {
        zero_value()
    } else {
        add_value(partial_sum(p, (n - 1) as nat), term_value(p, n))
    }
}

/// Proof that the sum before the first step is zero and that each step's
/// partial sum is the previous one plus the step's term.
pub proof fn lemma_partial_sum_step(p: nat, n: nat)
    requires
        n >= 1,
    ensures
        partial_sum(p, 0) == zero_value(),
        partial_sum(p, n) == add_value(partial_sum(p, (n - 1) as nat), term_value(p, n)),
{
}

/// `n!`.
pub open spec fn factorial(n: nat) -> int
    decreases n,
{
    if n == 0 {
        1
    } else {
        n * factorial((n - 1) as nat)
    }
}

/// The relative accuracy, in bits, of the values of a series at `p` bits:
/// the working precision less two.
pub open spec fn accuracy_bits(p: nat) -> nat {
    (ctx_prec(p) - 2) as nat
}

/// The running products after step `n` lie within `3(m − 1)` units of
/// `2^-accuracy_bits(p)` of the exact `Pᵐ`, `m!` and `2^(m²)`, `P` the
/// series' π and `m = max(n, 1)`.
pub open spec fn factors_accurate(f: Factors, pi: FloatValue, n: nat, p: nat) -> bool {
    let m = at_least_one(n);
    let c = (3 * (m - 1)) as nat;
    let q = accuracy_bits(p);
    &&& within(f.pi_pow.sig, f.pi_pow.exp, pow(pi.sig, m as nat), m * pi.exp, c, q)
    &&& within(f.fact.sig, f.fact.exp, factorial(m as nat), 0, c, q)
    &&& within(f.two_pow.sig, f.two_pow.exp, 1, m * m, c, q)
}

/// Proof that an exact integer `s · 2^e` lies within zero units of itself.
proof fn lemma_within_of_int(v: FloatValue, s: int, e: int, q: nat)
    requires
        e >= 0,
        equals_int(v, s * pow2(e as nat)),
    ensures
        within(v.sig, v.exp, s, e, 0, q),
{
    assert(v.sig * pow2((v.exp - 0) as nat) - s * pow2((e - 0) as nat) == 0);
    assert(abs_int(0) * pow2(q) == 0) by (nonlinear_arith)
        requires abs_int(0) == 0;
    assert(0 * abs_int(s * pow2((e - 0) as nat)) == 0);
    lemma_within_at(v.sig, v.exp, s, e, 0, q, 0);
}

/// `n`, or one when `n` is zero.
pub open spec fn at_least_one(n: nat) -> int {
    if n == 0 {
        1
    } else {
        n as int
    }
}

/// The exponent below which the `n`-th term lies: `2^(−n² + 11n − 1)`.
pub open spec fn term_hi(n: int) -> int {
    -n * n + 11 * n - 1
}

/// The exponent above which the `n`-th term lies: `2^(−n² − 39n + 32)`.
pub open spec fn term_lo(n: int) -> int {
    -n * n - 39 * n + 32
}

/// The largest step count the series is taken to.
pub open spec fn step_limit() -> nat {
    0x8000_0000
}

// ─── Step ─────────────────────────────────────────────────────────────────────

/// One step of the η_ν series.
pub struct NiStep {
    /// Term index (1-based).
    pub n: u64,
    /// Value of the n-th term: `πⁿ / (n! · 2^(n²))`.
    pub term: DashuFloat,
    /// Partial sum up to and including term `n`.
    pub sum: DashuFloat,
}

// ─── Series ───────────────────────────────────────────────────────────────────

/// Step-by-step evaluation of the η_ν series at a fixed bit precision.
pub struct NiSeries {
    precision_bits: u32,
    n: u64,
    /// Accumulated π^n
    pi_pow: DashuFloat,
    /// Accumulated n!
    fact: DashuFloat,
    /// Accumulated 2^(n²)
    two_pow: DashuFloat,
    /// Running partial sum
    sum: DashuFloat,
    /// π (stored once)
    pi: DashuFloat,
}

/// The precisions the series can run at: π and the products need the
/// precision plus guard bits to fit the machine integers.
pub open spec fn series_precision_ok(p: nat) -> bool {
    &&& p + 63 <= u32::MAX
    &&& p + 127 <= usize::MAX
}

/// The magnitude bounds of the running products after step `n`, `m = max(n, 1)`.
pub open spec fn factor_bounds(f: Factors, n: nat) -> bool {
    let m = at_least_one(n);
    &&& float_sane(f.pi_pow) && f.pi_pow.sig > 0
    &&& float_sane(f.fact) && f.fact.sig > 0
    &&& float_sane(f.two_pow) && f.two_pow.sig > 0
    &&& ge_p2(f.pi_pow, -4 * m + 1) && le_p2(f.pi_pow, 7 * m - 1)
    &&& ge_p2(f.fact, -2 * m + 1) && le_p2(f.fact, 33 * m - 32)
    &&& ge_p2(f.two_pow, (m - 1) * (m - 1)) && le_p2(f.two_pow, m * m + 2 * m - 1)
}

/// The magnitude bounds of the partial sum after step `n`.
pub open spec fn sum_bounds(s: FloatValue, n: nat, p: nat) -> bool {
    &&& float_sane(s)
    &&& s.sig >= 0
    &&& n == 0 ==> s == zero_value()
    &&& n >= 1 ==> s.prec == ctx_prec(p) && ge_p2(s, -10 - n) && le_p2(s, 31 + 2 * n as int)
}

/// Proof that a step count below the limit squares to well below the
/// exponent limit.
proof fn lemma_square_bound(n: int)
    requires
        1 <= n < step_limit(),
    ensures
        0 <= n * n < 0x4000_0000_0000_0000,
{
    assert(0 <= n * n < 0x4000_0000_0000_0000) by (nonlinear_arith)
        requires 1 <= n < 0x8000_0000;
}

/// Proof that the bounds of the running products carry from step `n − 1` to `n`.
proof fn lemma_step_exponents(n: int)
    requires
        n >= 2,
    ensures
        (-4 * (n - 1) + 1) + -3 - 1 == -4 * n + 1,
        (7 * (n - 1) - 1) + 6 + 1 == 7 * n - 1,
        (-2 * (n - 1) + 1) + -1 - 1 == -2 * n + 1,
        (33 * (n - 1) - 32) + 32 + 1 == 33 * n - 32,
        (n - 2) * (n - 2) + (2 * n - 2) - 1 == (n - 1) * (n - 1),
        ((n - 1) * (n - 1) + 2 * (n - 1) - 1) + 2 * n + 1 == n * n + 2 * n - 1,
{
    assert((n - 2) * (n - 2) + (2 * n - 2) - 1 == (n - 1) * (n - 1)) by (nonlinear_arith);
    assert(((n - 1) * (n - 1) + 2 * (n - 1) - 1) + 2 * n + 1 == n * n + 2 * n - 1) by (nonlinear_arith);
}

/// Proof that the bounds of the products give the bounds of the term.
proof fn lemma_term_exponents(n: int)
    requires
        n >= 1,
    ensures
        (-2 * n + 1) + (n - 1) * (n - 1) - 1 == n * n - 4 * n + 1,
        (33 * n - 32) + (n * n + 2 * n - 1) + 1 == n * n + 35 * n - 32,
        (7 * n - 1) - (n * n - 4 * n + 1) + 1 == term_hi(n),
        (-4 * n + 1) - (n * n + 35 * n - 32) - 1 == term_lo(n),
        term_hi(n) <= 29 + 2 * n,
        term_lo(n) - 1 >= -10 - n || n != 1,
{
    assert((-2 * n + 1) + (n - 1) * (n - 1) - 1 == n * n - 4 * n + 1) by (nonlinear_arith);
    assert((7 * n - 1) - (n * n - 4 * n + 1) + 1 == -n * n + 11 * n - 1) by (nonlinear_arith);
    assert((-4 * n + 1) - (n * n + 35 * n - 32) - 1 == -n * n - 39 * n + 32) by (nonlinear_arith);
    assert(term_hi(n) <= 29 + 2 * n) by (nonlinear_arith)
        requires term_hi(n) == -n * n + 11 * n - 1;
}

/// Proof that multiplying `Pⁿ⁻¹` by `P` keeps the power within `3(n − 1)` units.
proof fn lemma_pi_pow_step(r: FloatValue, a: FloatValue, pi: FloatValue, n: int, p: nat)
    requires
        n >= 2,
        n < step_limit(),
        within(a.sig, a.exp, pow(pi.sig, (n - 1) as nat), (n - 1) * pi.exp, (3 * (n - 2)) as nat, accuracy_bits(p)),
        crate::float_value::rel_close(r.sig, r.exp, a.sig * pi.sig, a.exp + pi.exp, accuracy_bits(p)),
    ensures
        within(r.sig, r.exp, pow(pi.sig, n as nat), n * pi.exp, (3 * (n - 1)) as nat, accuracy_bits(p)),
{
    let q = accuracy_bits(p);
    assert(pi.sig * pow2((pi.exp - pi.exp) as nat) - pi.sig * pow2((pi.exp - pi.exp) as nat) == 0);
    assert(abs_int(0) * pow2(q) == 0) by (nonlinear_arith)
        requires abs_int(0) == 0;
    assert(0 * abs_int(pi.sig * pow2((pi.exp - pi.exp) as nat)) == 0);
    lemma_within_at(pi.sig, pi.exp, pi.sig, pi.exp, 0, q, pi.exp);
    lemma_accuracy_room(p);
    lemma_mul_step(r, a, pi, pow(pi.sig, (n - 1) as nat), (n - 1) * pi.exp, pi.sig, pi.exp, (3 * (n - 2)) as nat, 0, q);
    vstd::arithmetic::power::lemma_pow_adds(pi.sig, (n - 1) as nat, 1);
    vstd::arithmetic::power::lemma_pow1(pi.sig);
    assert((n - 1) as nat + 1 == n as nat);
    assert((n - 1) * pi.exp + pi.exp == n * pi.exp) by (nonlinear_arith);
}

/// Proof that multiplying `(n − 1)!` by `n` keeps the factorial within
/// `3(n − 1)` units.
proof fn lemma_fact_step(r: FloatValue, a: FloatValue, nf: FloatValue, n: int, p: nat)
    requires
        n >= 2,
        n < step_limit(),
        within(a.sig, a.exp, factorial((n - 1) as nat), 0, (3 * (n - 2)) as nat, accuracy_bits(p)),
        equals_int(nf, n),
        crate::float_value::rel_close(r.sig, r.exp, a.sig * nf.sig, a.exp + nf.exp, accuracy_bits(p)),
    ensures
        within(r.sig, r.exp, factorial(n as nat), 0, (3 * (n - 1)) as nat, accuracy_bits(p)),
{
    let q = accuracy_bits(p);
    assert(pow2(0) == 1) by {
        vstd::arithmetic::power2::lemma2_to64();
    }
    assert((0int) as nat == 0);
    assert(pow2((0int) as nat) == 1);
    assert(n * pow2((0int) as nat) == n);
    lemma_within_of_int(nf, n, 0, q);
    lemma_accuracy_room(p);
    lemma_mul_step(r, a, nf, factorial((n - 1) as nat), 0, n, 0, (3 * (n - 2)) as nat, 0, q);
    assert(factorial(n as nat) == n * factorial((n - 1) as nat));
    assert(factorial((n - 1) as nat) * n == n * factorial((n - 1) as nat)) by (nonlinear_arith);
}

/// Proof that multiplying `2^((n−1)²)` by `2^(2n−1)` keeps the power within
/// `3(n − 1)` units.
proof fn lemma_two_pow_step(r: FloatValue, a: FloatValue, st: FloatValue, n: int, p: nat)
    requires
        n >= 2,
        n < step_limit(),
        within(a.sig, a.exp, 1, (n - 1) * (n - 1), (3 * (n - 2)) as nat, accuracy_bits(p)),
        equals_int(st, pow2((2 * n - 1) as nat) as int),
        crate::float_value::rel_close(r.sig, r.exp, a.sig * st.sig, a.exp + st.exp, accuracy_bits(p)),
    ensures
        within(r.sig, r.exp, 1, n * n, (3 * (n - 1)) as nat, accuracy_bits(p)),
{
    let q = accuracy_bits(p);
    assert(1 * pow2((2 * n - 1) as nat) == pow2((2 * n - 1) as nat));
    lemma_within_of_int(st, 1, 2 * n - 1, q);
    lemma_accuracy_room(p);
    lemma_mul_step(r, a, st, 1, (n - 1) * (n - 1), 1, 2 * n - 1, (3 * (n - 2)) as nat, 0, q);
    assert((n - 1) * (n - 1) + (2 * n - 1) == n * n) by (nonlinear_arith);
}

/// The `n`-th term at `p` bits lies within `18n − 8` units of
/// `2^-accuracy_bits(p)` of the exact `Pⁿ / (n! · 2^(n²))`, `P` being `pi`:
/// stated without division as `term · n! · 2^(n²)` against `Pⁿ`.
pub open spec fn term_accurate(term: FloatValue, pi: FloatValue, n: nat, p: nat) -> bool {
    within(
        term.sig * factorial(n),
        term.exp + n * n,
        pow(pi.sig, n),
        n * pi.exp,
        (18 * n - 8) as nat,
        accuracy_bits(p),
    )
}

/// Proof that `n!` is positive.
proof fn lemma_factorial_pos(n: nat)
    ensures
        factorial(n) > 0,
    decreases n,
{
    if n > 0 {
        lemma_factorial_pos((n - 1) as nat);
        vstd::arithmetic::mul::lemma_mul_strictly_positive(n as int, factorial((n - 1) as nat));
    }
}

/// Proof that a term divided from accurate products is accurate.
proof fn lemma_term_accurate(
    term: FloatValue,
    denom: FloatValue,
    pi_pow: FloatValue,
    fact: FloatValue,
    two_pow: FloatValue,
    pi: FloatValue,
    n: int,
    p: nat,
)
    requires
        p >= 4,
        1 <= n < step_limit(),
        term.sig > 0,
        denom.sig > 0,
        pi_pow.sig > 0,
        pi.sig > 0,
        factors_accurate(Factors { pi_pow, fact, two_pow }, pi, n as nat, p),
        crate::float_value::rel_close(denom.sig, denom.exp, fact.sig * two_pow.sig, fact.exp + two_pow.exp, accuracy_bits(p)),
        crate::float_value::rel_close(term.sig * denom.sig, term.exp + denom.exp, pi_pow.sig, pi_pow.exp, accuracy_bits(p)),
    ensures
        term_accurate(term, pi, n as nat, p),
{
    let q = accuracy_bits(p);
    let c = (3 * (n - 1)) as nat;
    assert(at_least_one(n as nat) == n);
    lemma_pow2_le(66, q);
    vstd::arithmetic::power2::lemma2_to64();
    vstd::arithmetic::power2::lemma2_to64_rest();
    vstd::arithmetic::power2::lemma_pow2_adds(64, 2);
    assert(pow2(66) == 0x4_0000_0000_0000_0000) by {
        vstd::arithmetic::power2::lemma_pow2_adds(64, 2);
    }
    assert(c * c <= pow2(q)) by (nonlinear_arith)
        requires c == 3 * (n - 1), n < 0x8000_0000, pow2(q) >= 0x4_0000_0000_0000_0000, n >= 1;
    lemma_mul_step(denom, fact, two_pow, factorial(n as nat), 0, 1, n * n, c, c, q);
    assert(factorial(n as nat) * 1 == factorial(n as nat));
    assert(0 + n * n == n * n);
    lemma_factorial_pos(n as nat);
    vstd::arithmetic::power::lemma_pow_positive(pi.sig, n as nat);
    lemma_div_step(term, pi_pow, denom, pow(pi.sig, n as nat), n * pi.exp, factorial(n as nat), n * n, c, c + c + 3, q);
    assert(2 * (c + (c + c + 3) + 2) == 18 * n - 8);
}

/// Proof that a term read within `c/8` of `g / f`, followed by a term read
/// within `c2/8` of `g2 / (f · (n + 1))`, is the smaller one when
/// `g2 · 2^d ≤ g · 2^k` and `3 · 2^k ≤ 2 (n + 1) 2^d`: the scaled form of
/// `Tₙ₊₁ / Tₙ = P / ((n + 1) 2^(2n+1))` with `P ≤ 2^k`.
proof fn lemma_smaller_term(v: int, v2: int, f: int, g: int, g2: int, n: int, q2: int, c: int, c2: int, d2: int, k2: int)
    requires
        f > 0,
        g > 0,
        g2 > 0,
        n >= 1,
        q2 > 0,
        d2 > 0,
        c >= 0,
        c2 >= 0,
        abs_int(v * f - g) * q2 <= c * g,
        abs_int(v2 * (f * (n + 1)) - g2) * q2 <= c2 * g2,
        g2 * d2 <= g * k2,
        3 * k2 <= 2 * (n + 1) * d2,
        8 * c <= q2,
        8 * c2 <= q2,
    ensures
        v2 < v,
{
    let x = v * f;
    let y = v2 * (f * (n + 1));
    let ax = abs_int(x - g);
    let ay = abs_int(y - g2);
    assert((g - x) * q2 <= c * g) by (nonlinear_arith)
        requires g - x <= ax, ax * q2 <= c * g, q2 > 0;
    assert((y - g2) * q2 <= c2 * g2) by (nonlinear_arith)
        requires y - g2 <= ay, ay * q2 <= c2 * g2, q2 > 0;
    assert(8 * x * q2 >= 7 * g * q2) by (nonlinear_arith)
        requires
            (g - x) * q2 <= c * g,
            8 * c <= q2,
            g > 0;
    assert(8 * y * q2 <= 9 * g2 * q2) by (nonlinear_arith)
        requires
            (y - g2) * q2 <= c2 * g2,
            8 * c2 <= q2,
            g2 > 0;
    assert(8 * y * q2 * d2 <= 6 * (n + 1) * d2 * g * q2) by (nonlinear_arith)
        requires
            8 * y * q2 <= 9 * g2 * q2,
            g2 * d2 <= g * k2,
            3 * k2 <= 2 * (n + 1) * d2,
            q2 > 0,
            d2 > 0,
            g > 0;
    assert(8 * x * q2 * (n + 1) * d2 > 6 * (n + 1) * d2 * g * q2) by (nonlinear_arith)
        requires
            8 * x * q2 >= 7 * g * q2,
            q2 > 0,
            d2 > 0,
            g > 0,
            n >= 1;
    assert(v2 < v) by (nonlinear_arith)
        requires
            x == v * f,
            y == v2 * (f * (n + 1)),
            8 * y * q2 * d2 < 8 * x * q2 * (n + 1) * d2,
            f > 0,
            q2 > 0,
            d2 > 0,
            n >= 1;
}

/// Proof that `P · 2^d` read with `P = A · 2^pe ≤ 2^k`, scales a power read
/// at the exponent `en` to one at `en + pe`: `g2 · 2^d ≤ g · 2^k` for
/// `g = A^n 2^en` and `g2 · 2^d = A^(n+1) 2^(en + pe)`.
proof fn lemma_next_power_bound(pi: FloatValue, n: nat, en: int, d: nat, k: nat)
    requires
        pi.sig > 0,
        en >= 0,
        en + pi.exp >= 0,
        le_p2(pi, k as int),
    ensures
        pow(pi.sig, n + 1) * pow2((en + pi.exp) as nat) <= pow(pi.sig, n) * pow2(en as nat) * pow2(k),
{
    let a = pi.sig;
    let pe = pi.exp;
    let an = pow(a, n);
    vstd::arithmetic::power::lemma_pow_positive(a, n);
    assert(pow(a, n + 1) == a * an) by {
        reveal(pow);
    }
    lemma_pow2_pos(k);
    if pe >= 0 {
        let pen = pe as nat;
        lemma_pow2_adds(en as nat, pen);
        assert(a * pow2(pen) <= pow2(k)) by {
            if pe >= k {
                lemma_pow2_adds((pe - k) as nat, k);
                assert(a * pow2((pe - k) as nat) <= 1);
                assert(a * pow2(pen) == a * pow2((pe - k) as nat) * pow2(k)) by (nonlinear_arith)
                    requires pow2(pen) == pow2((pe - k) as nat) * pow2(k);
                assert(a * pow2((pe - k) as nat) * pow2(k) <= pow2(k)) by (nonlinear_arith)
                    requires a * pow2((pe - k) as nat) <= 1, pow2(k) > 0;
            } else {
                lemma_pow2_adds((k - pe) as nat, pen);
                assert(a <= pow2((k - pe) as nat));
                lemma_pow2_pos(pen);
                assert(a * pow2(pen) <= pow2((k - pe) as nat) * pow2(pen)) by (nonlinear_arith)
                    requires a <= pow2((k - pe) as nat), pow2(pen) > 0;
            }
        }
        lemma_pow2_pos(en as nat);
        assert(a * an * pow2((en + pe) as nat) <= an * pow2(en as nat) * pow2(k)) by (nonlinear_arith)
            requires
                pow2((en + pe) as nat) == pow2(en as nat) * pow2(pen),
                a * pow2(pen) <= pow2(k),
                an > 0,
                pow2(en as nat) > 0;
    } else {
        let npe = (-pe) as nat;
        lemma_pow2_adds((en + pe) as nat, npe);
        assert(a <= pow2((k - pe) as nat));
        lemma_pow2_adds(k, npe);
        lemma_pow2_pos((en + pe) as nat);
        assert(a * an * pow2((en + pe) as nat) <= an * pow2(en as nat) * pow2(k)) by (nonlinear_arith)
            requires
                pow2(en as nat) == pow2((en + pe) as nat) * pow2(npe),
                pow2((k - pe) as nat) == pow2(k) * pow2(npe),
                a <= pow2((k - pe) as nat),
                an > 0,
                pow2((en + pe) as nat) > 0;
    }
}

/// Proof that of two accurate consecutive terms the later one is smaller,
/// when the series' π is at most `2^k` and `3 · 2^k ≤ 2 (n + 1) 2^(2n+1)`
/// (the exact ratio `P / ((n + 1) 2^(2n+1))` is then at most two thirds).
proof fn lemma_terms_decrease(t1: FloatValue, t2: FloatValue, pi: FloatValue, n: nat, p: nat, k: nat)
    requires
        pi.sig > 0,
        n >= 1,
        le_p2(pi, k as int),
        3 * pow2(k) <= 2 * (n + 1) * pow2(2 * n + 1),
        8 * (18 * (n + 1) - 8) <= pow2(accuracy_bits(p)),
        term_accurate(t1, pi, n, p),
        term_accurate(t2, pi, n + 1, p),
    ensures
        value_lt(t2, t1),
{
    let a = pi.sig;
    let pe = pi.exp;
    let q = accuracy_bits(p);
    let n1 = n + 1;
    let sq = n * n;
    let sq1 = n1 * n1;
    assert(sq1 == sq + 2 * n + 1) by (nonlinear_arith)
        requires sq1 == n1 * n1, sq == n * n, n1 == n + 1;
    assert(n1 * pe == n * pe + pe) by (nonlinear_arith)
        requires n1 == n + 1;
    let b0 = if t1.exp <= t2.exp { t1.exp } else { t2.exp };
    let b1 = if n * pe - sq <= n1 * pe - sq1 { n * pe - sq } else { n1 * pe - sq1 };
    let b = if b0 <= b1 { b0 } else { b1 };
    let e1 = (t1.exp - b) as nat;
    let e2 = (t2.exp - b) as nat;
    let en = n * pe - sq - b;
    let en2 = n1 * pe - sq1 - b;
    let c1 = (18 * n - 8) as nat;
    let c2 = (18 * n1 - 8) as nat;
    lemma_within_at(t1.sig * factorial(n), t1.exp + sq, pow(a, n), n * pe, c1, q, b + sq);
    lemma_within_at(t2.sig * factorial(n1), t2.exp + sq1, pow(a, n1), n1 * pe, c2, q, b + sq1);
    assert((t1.exp + sq - (b + sq)) as nat == e1);
    assert((n * pe - (b + sq)) as nat == en as nat);
    assert((t2.exp + sq1 - (b + sq1)) as nat == e2);
    assert((n1 * pe - (b + sq1)) as nat == en2 as nat);
    let v = t1.sig * pow2(e1);
    let v2 = t2.sig * pow2(e2);
    let f = factorial(n) as int;
    let g = pow(a, n) * pow2(en as nat);
    let g2 = pow(a, n1) * pow2(en2 as nat);
    lemma_factorial_pos(n);
    vstd::arithmetic::power::lemma_pow_positive(a, n);
    vstd::arithmetic::power::lemma_pow_positive(a, n1);
    lemma_pow2_pos(en as nat);
    lemma_pow2_pos(en2 as nat);
    lemma_pow2_pos(q);
    assert(g > 0) by (nonlinear_arith)
        requires g == pow(a, n) * pow2(en as nat), pow(a, n) > 0, pow2(en as nat) > 0;
    assert(g2 > 0) by (nonlinear_arith)
        requires g2 == pow(a, n1) * pow2(en2 as nat), pow(a, n1) > 0, pow2(en2 as nat) > 0;
    assert(factorial(n1) == n1 * factorial(n));
    assert(t1.sig * factorial(n) * pow2(e1) == v * f) by (nonlinear_arith)
        requires v == t1.sig * pow2(e1), f == factorial(n);
    assert(t2.sig * factorial(n1) * pow2(e2) == v2 * (f * (n + 1))) by (nonlinear_arith)
        requires v2 == t2.sig * pow2(e2), f == factorial(n), factorial(n1) == n1 * factorial(n), n1 == n + 1;
    assert(abs_int(v * f - g) * pow2(q) <= c1 * g);
    assert(abs_int(v2 * (f * (n + 1)) - g2) * pow2(q) <= c2 * g2);
    let d = 2 * n + 1;
    assert(en2 + d == en + pe);
    lemma_pow2_adds(en2 as nat, d);
    lemma_next_power_bound(pi, n, en, d, k);
    assert(pow2((en + pe) as nat) == pow2(en2 as nat) * pow2(d));
    assert(g2 * pow2(d) <= g * pow2(k)) by (nonlinear_arith)
        requires
            g2 == pow(a, n1) * pow2(en2 as nat),
            g == pow(a, n) * pow2(en as nat),
            pow2((en + pe) as nat) == pow2(en2 as nat) * pow2(d),
            pow(a, n1) * pow2((en + pe) as nat) <= pow(a, n) * pow2(en as nat) * pow2(k);
    lemma_pow2_pos(d);
    lemma_smaller_term(v, v2, f, g, g2, n as int, pow2(q) as int, c1 as int, c2 as int, pow2(d) as int, pow2(k) as int);
    let m = b0;
    let dm = (m - b) as nat;
    lemma_pow2_adds((t1.exp - m) as nat, dm);
    lemma_pow2_adds((t2.exp - m) as nat, dm);
    lemma_pow2_pos(dm);
    assert(t2.sig * pow2((t2.exp - m) as nat) < t1.sig * pow2((t1.exp - m) as nat)) by (nonlinear_arith)
        requires
            v2 < v,
            v == t1.sig * pow2(e1),
            v2 == t2.sig * pow2(e2),
            pow2(e1) == pow2((t1.exp - m) as nat) * pow2(dm),
            pow2(e2) == pow2((t2.exp - m) as nat) * pow2(dm),
            pow2(dm) > 0;
}

/// Proof that each term after the first is below the one before, for a
/// series' π of at most `2^3`.
proof fn lemma_later_term_smaller(t1: FloatValue, t2: FloatValue, pi: FloatValue, m: nat, p: nat)
    requires
        pi.sig > 0,
        le_p2(pi, 3),
        1 <= m,
        m + 1 < step_limit(),
        term_accurate(t1, pi, m, p),
        term_accurate(t2, pi, m + 1, p),
    ensures
        value_lt(t2, t1),
{
    vstd::arithmetic::power2::lemma2_to64();
    vstd::arithmetic::power2::lemma2_to64_rest();
    lemma_pow2_le(3, 2 * m + 1);
    assert(3 * pow2(3) <= 2 * (m + 1) * pow2(2 * m + 1)) by (nonlinear_arith)
        requires pow2(3) == 8, pow2(3) <= pow2(2 * m + 1), m >= 1;
    lemma_pow2_le(39, accuracy_bits(p));
    assert(pow2(39) == 0x80_0000_0000);
    assert(m + 1 < 0x8000_0000);
    assert(8 * (18 * (m + 1) - 8) <= 0x80_0000_0000);
    lemma_terms_decrease(t1, t2, pi, m, p, 3);
}

/// The exponent of the exact `n`-th term `Pⁿ / (n! · 2^(n²))` once `Pⁿ` is
/// read as `P.sig^n · 2^(n · P.exp)`: `n · P.exp − n²`.
pub open spec fn term_exp(pi: FloatValue, n: nat) -> int {
    n * pi.exp - n * n
}

/// The smallest term exponent up to term `n`, the exponent the exact partial
/// sum is read at.
pub open spec fn sum_exp(pi: FloatValue, n: nat) -> int
    decreases n,
{
    if n <= 1 {
        term_exp(pi, 1)
    } else {
        let a = sum_exp(pi, (n - 1) as nat);
        let b = term_exp(pi, n);
        if a <= b {
            a
        } else {
            b
        }
    }
}

/// `n!` times the exact partial sum `Σ (k ≤ n) Pᵏ / (k! · 2^(k²))`, as an
/// integer at `2^sum_exp(pi, n)`.
pub open spec fn sum_num(pi: FloatValue, n: nat) -> int
    decreases n,
{
    if n <= 1 {
        pi.sig
    } else {
        sum_num(pi, (n - 1) as nat) * n * pow2((sum_exp(pi, (n - 1) as nat) - sum_exp(pi, n)) as nat)
            + pow(pi.sig, n) * pow2((term_exp(pi, n) - sum_exp(pi, n)) as nat)
    }
}

/// The partial sum of `n ≥ 1` terms at `p` bits lies within `18n − 6` units
/// of `2^-accuracy_bits(p)` of the exact `Σ (k ≤ n) Pᵏ / (k! · 2^(k²))`, `P`
/// being `pi`: stated without division as `sum · n!` against [`sum_num`].
pub open spec fn sum_accurate(sum: FloatValue, pi: FloatValue, n: nat, p: nat) -> bool {
    within(sum.sig * factorial(n), sum.exp, sum_num(pi, n), sum_exp(pi, n), (18 * n - 6) as nat, accuracy_bits(p))
}

/// Proof that the exact partial sums are positive.
proof fn lemma_sum_num_pos(pi: FloatValue, n: nat)
    requires
        pi.sig > 0,
        n >= 1,
    ensures
        sum_num(pi, n) > 0,
    decreases n,
{
    if n > 1 {
        lemma_sum_num_pos(pi, (n - 1) as nat);
        let d1 = (sum_exp(pi, (n - 1) as nat) - sum_exp(pi, n)) as nat;
        let d2 = (term_exp(pi, n) - sum_exp(pi, n)) as nat;
        lemma_pow2_pos(d1);
        lemma_pow2_pos(d2);
        vstd::arithmetic::power::lemma_pow_positive(pi.sig, n);
        let a = sum_num(pi, (n - 1) as nat);
        assert(a * n * pow2(d1) > 0) by (nonlinear_arith)
            requires a > 0, n > 0, pow2(d1) > 0;
        assert(pow(pi.sig, n) * pow2(d2) > 0) by (nonlinear_arith)
            requires pow(pi.sig, n) > 0, pow2(d2) > 0;
    }
}

/// Proof that the first partial sum, zero plus the first term, is accurate.
proof fn lemma_sum_first(r: FloatValue, z: FloatValue, t: FloatValue, pi: FloatValue, p: nat)
    requires
        z.sig == 0,
        z.exp == 0,
        t.sig > 0,
        pi.sig > 0,
        term_accurate(t, pi, 1, p),
        crate::float_value::rel_close(
            r.sig,
            r.exp,
            z.sig * pow2((z.exp - if z.exp <= t.exp { z.exp } else { t.exp }) as nat)
                + t.sig * pow2((t.exp - if z.exp <= t.exp { z.exp } else { t.exp }) as nat),
            if z.exp <= t.exp { z.exp } else { t.exp },
            accuracy_bits(p),
        ),
    ensures
        sum_accurate(r, pi, 1, p),
{
    let q = accuracy_bits(p);
    let e = pow2(q) as int;
    lemma_pow2_pos(q);
    lemma_accuracy_room(p);
    let m0 = if z.exp <= t.exp { z.exp } else { t.exp };
    let f = pi.exp - 1;
    let m1 = if m0 <= r.exp { m0 } else { r.exp };
    let m = if m1 <= f { m1 } else { f };
    assert(factorial(1) == 1) by {
        reveal_with_fuel(factorial, 2);
    }
    vstd::arithmetic::power::lemma_pow1(pi.sig);
    assert(term_exp(pi, 1) == f);
    assert(sum_exp(pi, 1) == f);
    assert(sum_num(pi, 1) == pi.sig);
    // the term at m
    lemma_within_at(t.sig * 1, t.exp + 1, pi.sig, 1 * pi.exp, 10, q, m + 1);
    assert((t.exp + 1 - (m + 1)) as nat == (t.exp - m) as nat);
    assert((1 * pi.exp - (m + 1)) as nat == (f - m) as nat);
    let ti = t.sig * pow2((t.exp - m) as nat);
    let y = pi.sig * pow2((f - m) as nat);
    lemma_pow2_pos((f - m) as nat);
    assert(y > 0) by (nonlinear_arith)
        requires y == pi.sig * pow2((f - m) as nat), pi.sig > 0, pow2((f - m) as nat) > 0;
    assert(abs_int(ti - y) * e <= 10 * abs_int(y));
    // the sum at m
    crate::float_value::lemma_rel_close_at(
        r.sig,
        r.exp,
        z.sig * pow2((z.exp - m0) as nat) + t.sig * pow2((t.exp - m0) as nat),
        m0,
        q,
        m,
    );
    lemma_pow2_adds((t.exp - m0) as nat, (m0 - m) as nat);
    assert((t.exp - m) as nat == (t.exp - m0) as nat + (m0 - m) as nat);
    assert((z.sig * pow2((z.exp - m0) as nat) + t.sig * pow2((t.exp - m0) as nat)) * pow2((m0 - m) as nat) == ti)
        by (nonlinear_arith)
        requires
            z.sig == 0,
            ti == t.sig * pow2((t.exp - m) as nat),
            pow2((t.exp - m) as nat) == pow2((t.exp - m0) as nat) * pow2((m0 - m) as nat);
    let ri = r.sig * pow2((r.exp - m) as nat);
    assert(abs_int(ri - ti) * e <= abs_int(ti));
    crate::float_value::lemma_round_within(ri, ti, y, 10, e);
    assert(r.sig * 1 == r.sig);
    lemma_within_at(r.sig * factorial(1), r.exp, sum_num(pi, 1), sum_exp(pi, 1), 12, q, m);
}

/// Proof that adding an accurate `n`-th term to an accurate partial sum of
/// `n − 1` terms gives an accurate partial sum of `n` terms.
proof fn lemma_sum_step(r: FloatValue, a: FloatValue, t: FloatValue, pi: FloatValue, n: nat, p: nat)
    requires
        n >= 2,
        n < step_limit(),
        a.sig >= 0,
        t.sig > 0,
        pi.sig > 0,
        sum_accurate(a, pi, (n - 1) as nat, p),
        term_accurate(t, pi, n, p),
        crate::float_value::rel_close(
            r.sig,
            r.exp,
            a.sig * pow2((a.exp - if a.exp <= t.exp { a.exp } else { t.exp }) as nat)
                + t.sig * pow2((t.exp - if a.exp <= t.exp { a.exp } else { t.exp }) as nat),
            if a.exp <= t.exp { a.exp } else { t.exp },
            accuracy_bits(p),
        ),
    ensures
        sum_accurate(r, pi, n, p),
{
    let q = accuracy_bits(p);
    let e = pow2(q) as int;
    lemma_pow2_pos(q);
    lemma_accuracy_room(p);
    let n1 = (n - 1) as nat;
    let m0 = if a.exp <= t.exp { a.exp } else { t.exp };
    let f1 = sum_exp(pi, n1);
    let fe = term_exp(pi, n);
    let fnn = sum_exp(pi, n);
    assert(fnn == if f1 <= fe { f1 } else { fe });
    let ma = if m0 <= r.exp { m0 } else { r.exp };
    let m = if ma <= fnn { ma } else { fnn };
    let k1 = factorial(n1);
    let kn = factorial(n);
    lemma_factorial_pos(n1);
    assert(kn == n * k1);
    // the old sum at m, times n
    lemma_within_at(a.sig * k1, a.exp, sum_num(pi, n1), f1, (18 * n1 - 6) as nat, q, m);
    let ai = a.sig * pow2((a.exp - m) as nat);
    let x1 = sum_num(pi, n1) * pow2((f1 - m) as nat);
    lemma_sum_num_pos(pi, n1);
    lemma_pow2_pos((f1 - m) as nat);
    lemma_pow2_pos((a.exp - m) as nat);
    assert(x1 > 0) by (nonlinear_arith)
        requires x1 == sum_num(pi, n1) * pow2((f1 - m) as nat), sum_num(pi, n1) > 0, pow2((f1 - m) as nat) > 0;
    assert(a.sig * k1 * pow2((a.exp - m) as nat) == ai * k1) by (nonlinear_arith)
        requires ai == a.sig * pow2((a.exp - m) as nat);
    assert(abs_int(ai * k1 - x1) * e <= (18 * n1 - 6) * x1);
    crate::float_value::lemma_scale_within(ai * k1, x1, (18 * n1 - 6) as int, e, n as int);
    assert(ai * k1 * n == ai * kn) by (nonlinear_arith)
        requires kn == n * k1;
    assert(abs_int(x1 * n) == x1 * n) by (nonlinear_arith)
        requires x1 > 0, n > 0;
    // the term at m
    lemma_within_at(t.sig * kn, t.exp + n * n, pow(pi.sig, n), n * pi.exp, (18 * n - 8) as nat, q, m + n * n);
    assert((t.exp + n * n - (m + n * n)) as nat == (t.exp - m) as nat);
    assert((n * pi.exp - (m + n * n)) as nat == (fe - m) as nat);
    let ti = t.sig * pow2((t.exp - m) as nat);
    let y = pow(pi.sig, n) * pow2((fe - m) as nat);
    vstd::arithmetic::power::lemma_pow_positive(pi.sig, n);
    lemma_pow2_pos((fe - m) as nat);
    assert(y > 0) by (nonlinear_arith)
        requires y == pow(pi.sig, n) * pow2((fe - m) as nat), pow(pi.sig, n) > 0, pow2((fe - m) as nat) > 0;
    assert(t.sig * kn * pow2((t.exp - m) as nat) == ti * kn) by (nonlinear_arith)
        requires ti == t.sig * pow2((t.exp - m) as nat);
    assert(abs_int(ti * kn - y) * e <= (18 * n - 8) * y);
    // the exact sum at m
    let d1 = (f1 - fnn) as nat;
    let d2 = (fe - fnn) as nat;
    let dm = (fnn - m) as nat;
    lemma_pow2_adds(d1, dm);
    lemma_pow2_adds(d2, dm);
    assert((f1 - m) as nat == d1 + dm);
    assert((fe - m) as nat == d2 + dm);
    let xn = sum_num(pi, n) * pow2(dm);
    assert(sum_num(pi, n) == sum_num(pi, n1) * n * pow2(d1) + pow(pi.sig, n) * pow2(d2));
    let s1 = sum_num(pi, n1);
    let pn = pow(pi.sig, n);
    let p1 = pow2(d1) as int;
    let p2 = pow2(d2) as int;
    let pm = pow2(dm) as int;
    vstd::arithmetic::mul::lemma_mul_is_distributive_add_other_way(pm, s1 * n * p1, pn * p2);
    assert(s1 * n * p1 * pm == s1 * (p1 * pm) * n) by (nonlinear_arith);
    assert(pn * p2 * pm == pn * (p2 * pm)) by (nonlinear_arith);
    assert(x1 == s1 * (p1 * pm));
    assert(y == pn * (p2 * pm));
    assert(xn == x1 * n + y);
    // their sum
    crate::float_value::lemma_sum_within(ai * kn, x1 * n, ti * kn, y, (18 * n1 - 6) as int, (18 * n - 8) as int, e);
    assert((if 18 * n1 - 6 >= 18 * n - 8 { 18 * n1 - 6 } else { 18 * n - 8 }) == 18 * n - 8);
    assert(ai * kn + ti * kn == (ai + ti) * kn) by (nonlinear_arith);
    // the rounded sum at m
    crate::float_value::lemma_rel_close_at(
        r.sig,
        r.exp,
        a.sig * pow2((a.exp - m0) as nat) + t.sig * pow2((t.exp - m0) as nat),
        m0,
        q,
        m,
    );
    lemma_pow2_adds((a.exp - m0) as nat, (m0 - m) as nat);
    lemma_pow2_adds((t.exp - m0) as nat, (m0 - m) as nat);
    assert((a.exp - m) as nat == (a.exp - m0) as nat + (m0 - m) as nat);
    assert((t.exp - m) as nat == (t.exp - m0) as nat + (m0 - m) as nat);
    assert((a.sig * pow2((a.exp - m0) as nat) + t.sig * pow2((t.exp - m0) as nat)) * pow2((m0 - m) as nat) == ai + ti)
        by (nonlinear_arith)
        requires
            ai == a.sig * pow2((a.exp - m) as nat),
            ti == t.sig * pow2((t.exp - m) as nat),
            pow2((a.exp - m) as nat) == pow2((a.exp - m0) as nat) * pow2((m0 - m) as nat),
            pow2((t.exp - m) as nat) == pow2((t.exp - m0) as nat) * pow2((m0 - m) as nat);
    let ri = r.sig * pow2((r.exp - m) as nat);
    assert(abs_int(ri - (ai + ti)) * e <= abs_int(ai + ti));
    lemma_factorial_pos(n);
    crate::float_value::lemma_scale_within(ri, ai + ti, 1, e, kn);
    assert(abs_int(ri * kn - (ai + ti) * kn) * e <= abs_int((ai + ti) * kn));
    assert(18 * n - 8 <= e);
    crate::float_value::lemma_round_within(ri * kn, (ai + ti) * kn, xn, (18 * n - 8) as int, e);
    assert(abs_int(xn) == xn);
    assert(r.sig * kn * pow2((r.exp - m) as nat) == ri * kn) by (nonlinear_arith)
        requires ri == r.sig * pow2((r.exp - m) as nat);
    assert(18 * n - 8 + 2 == 18 * n - 6);
    lemma_within_at(r.sig * kn, r.exp, sum_num(pi, n), fnn, (18 * n - 6) as nat, q, m);
}

/// Proof that the accuracy bits leave room for the error counts of the
/// series: `2^accuracy_bits(p) ≥ 2^62`.
proof fn lemma_accuracy_room(p: nat)
    ensures
        pow2(accuracy_bits(p)) >= 0x4000_0000_0000_0000,
{
    lemma_pow2_le(62, accuracy_bits(p));
    vstd::arithmetic::power2::lemma2_to64();
    vstd::arithmetic::power2::lemma2_to64_rest();
}

impl NiSeries {
    /// The bit precision of the series.
    pub closed spec fn precision(&self) -> nat {
        self.precision_bits as nat
    }

    /// The number of steps taken so far.
    pub closed spec fn count(&self) -> nat {
        self.n as nat
    }

    /// The state holds the running products and partial sum of step `count()`.
    pub closed spec fn wf(&self) -> bool {
        let p = self.precision_bits as nat;
        let n = self.n as nat;
        let f = Factors { pi_pow: self.pi_pow@, fact: self.fact@, two_pow: self.two_pow@ };
        &&& series_precision_ok(p)
        &&& n < step_limit()
        &&& self.pi@ == pi_value(p)
        &&& float_sane(self.pi@) && self.pi@.sig > 0 && ge_p2(self.pi@, -3) && le_p2(self.pi@, 6)
        &&& le_p2(self.pi@, 3)
        &&& f == factors(p, n)
        &&& factor_bounds(f, n)
        &&& factors_accurate(f, self.pi@, n, p)
        &&& (p >= 4 && n >= 1 ==> sum_accurate(self.sum@, self.pi@, n, p))
        &&& (p >= 4 && n >= 1 ==> term_accurate(term_value(p, n), self.pi@, n, p))
        &&& self.sum@ == partial_sum(p, n)
        &&& sum_bounds(self.sum@, n, p)
    }

    /// Create a new series at the given bit precision.
    pub fn new(precision_bits: u32) -> (r: NiSeries)
        requires
            series_precision_ok(precision_bits as nat),
        ensures
            r.wf(),
            r.precision() == precision_bits,
            r.count() == 0,
    {
        let p = precision_bits;
        let pi = DashuBackend::pi(p);
        let pi_pow = pi.copy();
        let fact = DashuBackend::from_u64(1, p);
        let two_pow = DashuBackend::from_u64(2, p);
        let sum = DashuBackend::zero(p);
        proof {
            vstd::arithmetic::power2::lemma2_to64();
            assert(ge_p2(fact@, -1));
            assert(le_p2(fact@, 1));
            assert(ge_p2(two_pow@, 0));
            assert(le_p2(two_pow@, 2));
            lemma_sane_from_p2(fact@, ctx_prec(p as nat), -1, 1);
            lemma_sane_from_p2(two_pow@, ctx_prec(p as nat), 0, 2);
            assert(float_sane(sum@) && sum@.sig >= 0);
            let q = accuracy_bits(p as nat);
            vstd::arithmetic::power::lemma_pow1(pi@.sig);
            lemma_within_at(pi_pow@.sig, pi_pow@.exp, pi@.sig, pi@.exp, 0, q, pi@.exp);
            assert(pow2(0) == 1);
            lemma_within_of_int(fact@, 1, 0, q);
            assert(pow2(1) == 2);
            lemma_within_of_int(two_pow@, 1, 1, q);
            assert(factorial(1) == 1) by {
                reveal_with_fuel(factorial, 2);
            }
        }
        NiSeries { precision_bits: p, n: 0, pi_pow, fact, two_pow, sum, pi }
    }

    /// Advance to the next term: multiply the running products forward (from
    /// the second step on), divide for the term and add it to the sum. From the
    /// second step on the new term is below the previous one.
    #[verifier::rlimit(40)]
    pub fn next(&mut self) -> (r: Option<NiStep>)
        requires
            old(self).wf(),
            old(self).count() + 1 < step_limit(),
        ensures
            final(self).wf(),
            final(self).precision() == old(self).precision(),
            final(self).count() == old(self).count() + 1,
            r matches Some(step) && step.n == final(self).count()
                && step.term@ == term_value(final(self).precision(), final(self).count())
                && step.sum@ == partial_sum(final(self).precision(), final(self).count())
                && float_sane(step.term@) && step.term@.sig > 0
                && le_p2(step.term@, term_hi(step.n as int))
                && ge_p2(step.term@, term_lo(step.n as int))
                && float_sane(step.sum@)
                && (step.n == 1 ==> value_eq(step.sum@, step.term@))
                && (step.n >= 2 ==> !value_lt(
                    step.sum@,
                    partial_sum(final(self).precision(), (final(self).count() - 1) as nat),
                ))
                && !value_lt(step.sum@, step.term@)
                && (final(self).precision() >= 4 ==> term_accurate(
                    step.term@,
                    pi_value(final(self).precision()),
                    final(self).count(),
                    final(self).precision(),
                ))
                && (final(self).precision() >= 4 ==> sum_accurate(
                    step.sum@,
                    pi_value(final(self).precision()),
                    final(self).count(),
                    final(self).precision(),
                ))
                && (final(self).precision() >= 4 && step.n >= 2 ==> value_lt(
                    step.term@,
                    term_value(final(self).precision(), (final(self).count() - 1) as nat),
                )),
    {
        let p = self.precision_bits;
        let ghost pn = p as nat;
        let ghost cp = ctx_prec(pn);
        self.n = self.n + 1;
        let ghost n: int = self.n as int;
        proof {
            vstd::arithmetic::power2::lemma2_to64();
            lemma_square_bound(n);
            let m = at_least_one((n - 1) as nat);
            lemma_exp_range(self.pi@, self.pi@.prec, -3, 6);
            lemma_exp_range(self.pi_pow@, self.pi_pow@.prec, -4 * m + 1, 7 * m - 1);
            lemma_exp_range(self.fact@, self.fact@.prec, -2 * m + 1, 33 * m - 32);
            lemma_exp_range(self.two_pow@, self.two_pow@.prec, (m - 1) * (m - 1), m * m + 2 * m - 1);
            if n >= 2 {
                lemma_exp_range(self.sum@, self.sum@.prec, -10 - (n - 1), 31 + 2 * (n - 1));
                assert((n - 1) * (n - 1) + 2 * (n - 1) - 1 < n * n) by (nonlinear_arith);
                assert((n - 2) * (n - 2) >= 0) by (nonlinear_arith);
            }
        }
        if self.n > 1 {
            proof {
                lemma_step_exponents(n);
            }
            let ghost old_pp = self.pi_pow@;
            self.pi_pow = DashuBackend::mul(&self.pi_pow, &self.pi, p);
            proof {
                lemma_pi_pow_step(self.pi_pow@, old_pp, self.pi@, n, pn);
                assert(ge_p2(self.pi_pow@, -4 * n + 1));
                assert(le_p2(self.pi_pow@, 7 * n - 1));
                lemma_sane_from_p2(self.pi_pow@, cp, -4 * n + 1, 7 * n - 1);
            }
            let n_f = DashuBackend::from_u64(self.n, p);
            proof {
                assert(ge_p2(n_f@, -1));
                assert(le_p2(n_f@, 32));
                lemma_sane_from_p2(n_f@, cp, -1, 32);
            }
            let ghost old_fact = self.fact@;
            self.fact = DashuBackend::mul(&self.fact, &n_f, p);
            proof {
                lemma_fact_step(self.fact@, old_fact, n_f@, n, pn);
                assert(ge_p2(self.fact@, -2 * n + 1));
                assert(le_p2(self.fact@, 33 * n - 32));
                lemma_sane_from_p2(self.fact@, cp, -2 * n + 1, 33 * n - 32);
            }
            let step = DashuBackend::two_pow(2 * self.n as u32 - 1, p);
            proof {
                lemma_sane_from_p2(step@, cp, 2 * n - 2, 2 * n);
            }
            let ghost old_tp = self.two_pow@;
            self.two_pow = DashuBackend::mul(&self.two_pow, &step, p);
            proof {
                lemma_two_pow_step(self.two_pow@, old_tp, step@, n, pn);
                assert(ge_p2(self.two_pow@, (n - 1) * (n - 1)));
                assert(le_p2(self.two_pow@, n * n + 2 * n - 1));
                lemma_sane_from_p2(self.two_pow@, cp, (n - 1) * (n - 1), n * n + 2 * n - 1);
            }
        }
        proof {
            lemma_term_exponents(n);
        }
        let denom = DashuBackend::mul(&self.fact, &self.two_pow, p);
        proof {
            assert(ge_p2(denom@, n * n - 4 * n + 1));
            assert(le_p2(denom@, n * n + 35 * n - 32));
            lemma_sane_from_p2(denom@, cp, n * n - 4 * n + 1, n * n + 35 * n - 32);
        }
        let term = DashuBackend::div(&self.pi_pow, &denom, p);
        proof {
            if pn >= 4 {
                lemma_term_accurate(term@, denom@, self.pi_pow@, self.fact@, self.two_pow@, self.pi@, n, pn);
            }
            assert(le_p2(term@, term_hi(n)));
            assert(ge_p2(term@, term_lo(n)));
            lemma_sane_from_p2(term@, cp, term_lo(n), term_hi(n));
            lemma_le_p2_mono(term@, term_hi(n), 29 + 2 * n);
            if n == 1 {
                lemma_pow2_pos(31);
                assert(le_p2(self.sum@, 29 + 2 * n));
            }
        }
        let ghost old_sum = self.sum@;
        self.sum.add_assign(&term);
        proof {
            if pn >= 4 {
                if n == 1 {
                    lemma_sum_first(self.sum@, old_sum, term@, self.pi@, pn);
                } else {
                    lemma_sum_step(self.sum@, old_sum, term@, self.pi@, n as nat, pn);
                }
            }
            assert(le_p2(self.sum@, 31 + 2 * n));
            if n == 1 {
                assert(ge_p2(self.sum@, term_lo(n) - 1));
                lemma_ge_p2_mono(self.sum@, term_lo(n) - 1, -10 - n);
            } else {
                assert(ge_p2(old_sum, -10 - (n - 1)));
                assert(ge_p2(self.sum@, -10 - (n - 1) - 1));
            }
            lemma_sane_from_p2(self.sum@, cp, -10 - n, 31 + 2 * n);
            if pn >= 4 && n >= 2 {
                lemma_later_term_smaller(term_value(pn, (n - 1) as nat), term@, self.pi@, (n - 1) as nat, pn);
            }
        }
        Some(NiStep { n: self.n, term: term.copy(), sum: self.sum.copy() })
    }
}

} // verus!
