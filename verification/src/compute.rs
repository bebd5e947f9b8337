//! Core algorithm for computing the Ni constant (η_ν).
//!
//! The Ni constant is defined as:
//!
//! ```text
//! η_ν = Σ (n=1..∞)  πⁿ / (n! · 2^(n²))
//! ```
//!
//! The series converges extremely fast due to the 2^(n²) denominator: the
//! summation stops at the first term below `2^-(bits + 128)`.

use vstd::prelude::*;
use crate::float_value::{FloatValue, float_sane, le_p2, ge_p2, value_lt, abs_value};
use crate::float_value::{lemma_lt_from_p2, lemma_exp_range, lemma_le_p2_from_lt};
use crate::nearest_double::{ceil_nearest_double, ceil_nearest_double_exec, LOG2_10_MANTISSA, TWO_POW_51};
use crate::backend::dashu_backend::{DashuFloat, DashuBackend, epsilon_value, zero_value, pi_value};
use crate::series::{NiSeries, partial_sum, term_value, term_hi, term_lo, sum_accurate};
use crate::series::{factorial, sum_num, sum_exp, accuracy_bits};
use crate::float_value::{rel_close, lemma_within_to_rel_close};
use vstd::arithmetic::power2::pow2;

verus! {

// ─── The value computed ───────────────────────────────────────────────────────

/// The precision the series runs at for a request of `p` bits: 64 guard bits
/// more.
pub open spec fn working_bits(p: nat) -> nat {
    p + 64
}

/// The precisions `compute` accepts: the working precision, and the epsilon
/// and π computed at it, fit the machine integers.
pub open spec fn compute_precision_ok(p: nat) -> bool {
    &&& p + 128 <= u32::MAX
    &&& p + 192 <= usize::MAX
}

/// The `n`-th term at working precision `w` is below the convergence epsilon.
pub open spec fn term_is_small(w: nat, n: nat) -> bool {
    value_lt(abs_value(term_value(w, n)), epsilon_value(w))
}

/// The summation at working precision `w` stops at term `n`: the first term
/// below the epsilon.
pub open spec fn stops_at(w: nat, n: nat) -> bool {
    &&& n >= 1
    &&& term_is_small(w, n)
    &&& forall|j: nat| 1 <= j < n ==> !term_is_small(w, j)
}

/// The index of the last term summed for a request of `p` bits.
pub open spec fn last_term(p: nat) -> nat {
    choose|n: nat| stops_at(working_bits(p), n)
}

/// η_ν as computed for a request of `p` bits: the partial sum at the working
/// precision up to and including the first term below the epsilon.
pub open spec fn ni_value(p: nat) -> FloatValue {
    partial_sum(working_bits(p), last_term(p))
}

/// `v` is within `18N − 6` units of `2^-(p + 126)` (relatively) of the exact
/// partial sum `Σ (n ≤ N) Pⁿ / (n! · 2^(n²))` the computation for `p` bits
/// stops at, `P` being the π it computes with; with `N ≤ 65600` that is a
/// relative error below `2^-(p + 105)`.
#[verifier::opaque]
pub open spec fn ni_accurate(v: FloatValue, p: nat) -> bool {
    sum_accurate(v, pi_value(working_bits(p)), last_term(p), working_bits(p))
}

/// The number of terms within which the summation always stops.
pub open spec fn term_bound() -> nat {
    65600
}

/// Term `n` at working precision `w` may still be above the epsilon: every
/// term with `n² > 11n + w + 66` lies below `2^-(w + 67)`, which is below it.
pub open spec fn may_be_large(w: nat, n: nat) -> bool {
    n * n <= 11 * n + w + 66
}

/// Proof that the summation stops at one term only.
pub proof fn lemma_stops_at_unique(w: nat, n1: nat, n2: nat)
    requires
        stops_at(w, n1),
        stops_at(w, n2),
    ensures
        n1 == n2,
{
    if n1 < n2 {
        assert(!term_is_small(w, n1));
    } else if n2 < n1 {
        assert(!term_is_small(w, n2));
    }
}

/// The value computed for a request of `p` bits, `v`, lies within a relative
/// `2^-(p + 100)` of the exact partial sum `Σ (n ≤ N) Pⁿ / (n! · 2^(n²))` up to
/// the last term `N`, `P` the π the series runs with: the 64 guard bits cover
/// the rounding of every step.
pub proof fn lemma_result_within_request(v: FloatValue, p: nat)
    requires
        ni_accurate(v, p),
        1 <= last_term(p) <= term_bound(),
    ensures
        rel_close(
            v.sig * factorial(last_term(p)),
            v.exp,
            sum_num(pi_value(working_bits(p)), last_term(p)),
            sum_exp(pi_value(working_bits(p)), last_term(p)),
            p + 100,
        ),
{
    reveal(ni_accurate);
    let n = last_term(p);
    let q = accuracy_bits(working_bits(p));
    assert(q == p + 126);
    vstd::arithmetic::power2::lemma2_to64();
    assert((q - (p + 100)) as nat == 26);
    assert(18 * n - 6 <= pow2(26));
    lemma_within_to_rel_close(
        v.sig * factorial(n),
        v.exp,
        sum_num(pi_value(working_bits(p)), n),
        sum_exp(pi_value(working_bits(p)), n),
        (18 * n - 6) as nat,
        q,
        p + 100,
    );
}

// ─── Algorithm ────────────────────────────────────────────────────────────────

/// Compute the Ni constant to the given precision in **bits**.
///
/// The series runs at `precision_bits + 64` bits and stops at the first term
/// whose magnitude is below the epsilon of that precision; the result is the
/// partial sum up to and including that term, which comes within
/// [`term_bound`] terms. In terms of the request: the last term summed is at
/// most `2^-(precision_bits + 125)`, and the result lies within a relative
/// `2^-(precision_bits + 100)` of the exact partial sum it stands for.
pub fn compute(precision_bits: u32) -> (r: DashuFloat)
    requires
        compute_precision_ok(precision_bits as nat),
    ensures
        stops_at(working_bits(precision_bits as nat), last_term(precision_bits as nat)),
        forall|n: nat| 1 <= n < last_term(precision_bits as nat)
            ==> #[trigger] may_be_large(working_bits(precision_bits as nat), n),
        last_term(precision_bits as nat) <= term_bound(),
        r@ == ni_value(precision_bits as nat),
        float_sane(r@),
        ni_accurate(r@, precision_bits as nat),
        rel_close(
            r@.sig * factorial(last_term(precision_bits as nat)),
            r@.exp,
            sum_num(pi_value(working_bits(precision_bits as nat)), last_term(precision_bits as nat)),
            sum_exp(pi_value(working_bits(precision_bits as nat)), last_term(precision_bits as nat)),
            precision_bits as nat + 100,
        ),
        le_p2(abs_value(term_value(working_bits(precision_bits as nat), last_term(precision_bits as nat))),
            -(precision_bits as nat + 125)),
{
    let working_bits = precision_bits + 64;
    let ghost w = working_bits as nat;
    let epsilon = DashuBackend::epsilon(working_bits);
    let mut final_sum = DashuBackend::zero(working_bits);
    let mut series = NiSeries::new(working_bits);
    loop
        invariant_except_break
            series.count() < term_bound(),
            forall|j: nat| 1 <= j <= series.count() ==> !#[trigger] term_is_small(w, j),
            forall|j: nat| 1 <= j <= series.count() ==> #[trigger] may_be_large(w, j),
        invariant
            w == working_bits as nat,
            w >= 64,
            w + 64 <= u32::MAX,
            series.wf(),
            series.precision() == w,
            epsilon@ == epsilon_value(w),
            float_sane(epsilon@),
            epsilon@.sig > 0,
            ge_p2(epsilon@, -(w + 64) - 3),
            le_p2(epsilon@, -(w + 64) + 3),
        ensures
            stops_at(w, series.count()),
            forall|j: nat| 1 <= j < series.count() ==> #[trigger] may_be_large(w, j),
            series.count() <= term_bound(),
            final_sum@ == partial_sum(w, series.count()),
            float_sane(final_sum@),
            sum_accurate(final_sum@, pi_value(w), series.count(), w),
            le_p2(abs_value(term_value(w, series.count())), -(w + 61)),
        decreases term_bound() - series.count(),
    {
        let next = series.next();
        match next {
            Some(step) => {
                let ghost n = step.n as nat;
                proof {
                    if !may_be_large(w, n) {
                        lemma_small_from_bound(w, n);
                        lemma_lt_from_p2(abs_value(step.term@), epsilon@, term_hi(n as int), -(w + 64) - 3);
                    }
                }
                final_sum = step.sum;
                let magnitude = step.term.abs();
                proof {
                    lemma_exp_range(epsilon@, epsilon@.prec, -(w + 64) - 3, -(w + 64) + 3);
                    lemma_exp_range(magnitude@, magnitude@.prec, term_lo(n as int), term_hi(n as int));
                    assert(n <= term_bound());
                    assert(term_lo(n as int) >= -0x2_0000_0000) by (nonlinear_arith)
                        requires n <= 65600, term_lo(n as int) == -(n as int) * (n as int) - 39 * n + 32;
                    assert(term_hi(n as int) <= 30) by (nonlinear_arith)
                        requires n >= 1, term_hi(n as int) == -(n as int) * (n as int) + 11 * n - 1;
                }
                if magnitude.lt(&epsilon) {
                    proof {
                        lemma_le_p2_from_lt(magnitude@, epsilon@, -(w + 64) + 3);
                    }
                    break;
                }
                proof {
                    lemma_bound_below_limit(w, n);
                }
            },
            None => {
                proof {
                    assert(false);
                }
                break;
            },
        }
    }
    proof {
        lemma_stops_at_unique(w, last_term(precision_bits as nat), series.count());
        reveal(ni_accurate);
        lemma_result_within_request(final_sum@, precision_bits as nat);
    }
    final_sum
}

/// Proof that a term past the convergence bound lies below the epsilon's
/// lower power of two.
proof fn lemma_small_from_bound(w: nat, n: nat)
    requires
        !may_be_large(w, n),
    ensures
        term_hi(n as int) < -(w + 64) - 3,
{
    assert(-(n as int) * (n as int) + 11 * n - 1 < -(w + 64) - 3) by (nonlinear_arith)
        requires n * n > 11 * n + w + 66;
}

/// Proof that a term within the convergence bound comes before the term bound.
proof fn lemma_bound_below_limit(w: nat, n: nat)
    requires
        may_be_large(w, n),
        w + 64 <= u32::MAX,
    ensures
        n < term_bound(),
{
    if n >= 65600 {
        assert(n * n > 11 * n + w + 66) by (nonlinear_arith)
            requires n >= 65600, w + 64 <= 0xffff_ffff;
    }
}

/// Compute term `n` of the series (1-based) at `precision_bits + 64` bits;
/// zero for `n = 0`.
pub fn compute_term(n: u32, precision_bits: u32) -> (r: DashuFloat)
    requires
        (n as nat) < crate::series::step_limit(),
        compute_precision_ok(precision_bits as nat),
    ensures
        n == 0 ==> r@ == zero_value(),
        n >= 1 ==> r@ == term_value(working_bits(precision_bits as nat), n as nat),
{
    let working_bits = precision_bits + 64;
    let mut series = NiSeries::new(working_bits);
    let mut final_term = DashuBackend::zero(working_bits);
    let mut i: u32 = 0;
    while i < n
        invariant
            i <= n,
            (n as nat) < crate::series::step_limit(),
            series.wf(),
            series.precision() == working_bits,
            series.count() == i,
            i == 0 ==> final_term@ == zero_value(),
            i >= 1 ==> final_term@ == term_value(working_bits as nat, i as nat),
        ensures
            i == n,
            i == 0 ==> final_term@ == zero_value(),
            i >= 1 ==> final_term@ == term_value(working_bits as nat, i as nat),
        decreases n - i,
    {
        match series.next() {
            Some(step) => {
                final_term = step.term;
            },
            None => {
                proof {
                    assert(false);
                }
                break;
            },
        }
        i = i + 1;
    }
    final_term
}

/// The bit precision for `d` decimal digits: `⌈d · log2(10)⌉ + 64`, with
/// `log2(10)` and the product as doubles.
pub open spec fn bits_for_digits_value(d: nat) -> nat {
    ceil_nearest_double(d * (LOG2_10_MANTISSA as nat), TWO_POW_51 as nat) + 64
}

/// Proof that the bit precision for `d` digits is `⌊d · log2(10)⌋ + 64` or
/// one more (with `log2(10)` as a double), so one decimal digit costs about
/// 3.32 bits.
pub proof fn lemma_bits_for_digits_bounds(d: nat)
    ensures
        (d * (LOG2_10_MANTISSA as nat)) / (TWO_POW_51 as nat) + 64 <= bits_for_digits_value(d),
        bits_for_digits_value(d) <= (d * (LOG2_10_MANTISSA as nat)) / (TWO_POW_51 as nat) + 65,
{
}

/// The bit precision for `d` decimal digits covers them with 63 bits to
/// spare: `bits ≥ d · 3.321928094 + 63`, with `log2(10)` read from below.
pub proof fn lemma_bits_cover_digits(d: nat)
    ensures
        bits_for_digits_value(d) * 1_000_000_000 >= d * 3_321_928_094 + 63_000_000_000,
{
    lemma_bits_for_digits_bounds(d);
    let num = d * (LOG2_10_MANTISSA as nat);
    let t = TWO_POW_51 as nat;
    let q = num / t;
    vstd::arithmetic::div_mod::lemma_fundamental_div_mod(num as int, t as int);
    vstd::arithmetic::div_mod::lemma_mod_bound(num as int, t as int);
    let r = num % t;
    assert(num == t * q + r);
    assert(bits_for_digits_value(d) >= q + 64);
    assert(bits_for_digits_value(d) * 1_000_000_000 >= d * 3_321_928_094 + 63_000_000_000) by (nonlinear_arith)
        requires
            num == t * q + r,
            r < t,
            num == d * 7480317065143153,
            t == 2251799813685248,
            bits_for_digits_value(d) >= q + 64,
            q >= 0;
}

/// Proof that more digits never need fewer bits: a further digit adds at
/// least two bits.
pub proof fn lemma_bits_for_digits_grow(d1: nat, d2: nat)
    requires
        d1 < d2,
    ensures
        bits_for_digits_value(d1) + 2 <= bits_for_digits_value(d2),
{
    lemma_bits_for_digits_bounds(d1);
    lemma_bits_for_digits_bounds(d2);
    let m = LOG2_10_MANTISSA as int;
    let t = TWO_POW_51 as int;
    assert(d2 * m >= d1 * m + m) by (nonlinear_arith)
        requires d1 < d2, m > 0;
    vstd::arithmetic::div_mod::lemma_div_is_ordered(d1 * m + m, d2 * m, t);
    vstd::arithmetic::div_mod::lemma_fundamental_div_mod(d1 * m, t);
    vstd::arithmetic::div_mod::lemma_fundamental_div_mod(d1 * m + m, t);
    vstd::arithmetic::div_mod::lemma_mod_bound(d1 * m, t);
    vstd::arithmetic::div_mod::lemma_mod_bound(d1 * m + m, t);
    assert((d1 * m + m) / t >= (d1 * m) / t + 3) by (nonlinear_arith)
        requires
            d1 * m == t * ((d1 * m) / t) + (d1 * m) % t,
            d1 * m + m == t * ((d1 * m + m) / t) + (d1 * m + m) % t,
            0 <= (d1 * m) % t < t,
            0 <= (d1 * m + m) % t < t,
            m == 7480317065143153,
            t == 2251799813685248;
}

/// Convert a desired number of decimal digits to the required bit precision:
/// `⌈digits · log2(10)⌉` plus 64 guard bits.
pub fn digits_to_bits(decimal_digits: u32) -> (r: u32)
    requires
        bits_for_digits_value(decimal_digits as nat) <= u32::MAX,
    ensures
        r as nat == bits_for_digits_value(decimal_digits as nat),
{
    let num = decimal_digits as u128 * LOG2_10_MANTISSA;
    proof {
        assert(num <= 0x1_0000_0000 * LOG2_10_MANTISSA) by (nonlinear_arith)
            requires num == decimal_digits * LOG2_10_MANTISSA, decimal_digits <= 0x1_0000_0000;
        assert(num / TWO_POW_51 < 0x20_0000_0000_0000);
    }
    let bits = ceil_nearest_double_exec(num, TWO_POW_51);
    bits as u32 + 64
}

} // verus!
