//! The `dashu` backend: π by Machin's formula in integer arithmetic, and
//! arbitrary-precision binary floats rounded half away from zero.

use vstd::prelude::*;
use vstd::arithmetic::power::{pow, lemma_pow_adds, lemma_pow1, lemma_pow0};
use vstd::arithmetic::power2::{pow2, lemma_pow2_strictly_increases, lemma_pow2_adds, lemma_pow2_pos};
use vstd::arithmetic::div_mod::{
    lemma_div_denominator, lemma_div_is_ordered, lemma_div_is_ordered_by_denominator,
    lemma_div_nonincreasing, lemma_div_pos_is_pos, lemma_fundamental_div_mod,
};
use vstd::arithmetic::mul::{lemma_mul_inequality, lemma_mul_strictly_positive};
use crate::float_value::{rel_close, value_eq, equals_int, is_power_of_two, exps_sum_ok, exps_diff_ok, lemma_exp_range};
use crate::float_value::{FloatValue, exp_limit, prec_limit, float_shape, float_sane, le_p2, ge_p2, value_lt, abs_value};
use crate::nearest_double::{ceil_nearest_double, ceil_nearest_double_exec, LOG2_10_MANTISSA, TWO_POW_51};
use crate::float_value::{lemma_sane_from_p2, lemma_ge_p2_nonzero, lemma_pow2_le};
use crate::decimal::{plain_decimal_chars, fixed_point_text, int_text, find_char};
use crate::decimal::{format_fixed, lemma_fixed_point_has_digits};
use crate::decimal::{is_numeral, below_ten_pow, numeral_within, numeral_frac, lemma_fixed_point_within};
use crate::decimal::{numeral_num, ten_pow, lemma_int_text_value};
use crate::bigint::{BigInt, abs_int, big_add, big_sub, big_mul, big_div, big_pow, big_shl, big_to_decimal};
use dashu::base::Sign;
use dashu::float::{Context, FBig, Repr};
use dashu::float::round::mode::HalfAway;
use dashu::integer::{IBig, UBig};

verus! {

// ─── Machin's formula in integers ─────────────────────────────────────────────

/// The bit size below which an arctangent scale keeps the loop counter in range.
pub const ARCTAN_SCALE_BITS: u64 = 0x4000_0000_0000_0000;

/// `v` with its sign flipped when `negative`.
pub open spec fn signed(negative: bool, v: int) -> int {
    if negative {
        -v
    } else {
        v
    }
}

/// `⌊scale / x^(2j+1)⌋`, the power part of the `j`-th arctangent term (for a
/// scale that is not negative).
pub open spec fn arctan_power_term(scale: int, x: int, j: nat) -> int {
    scale / pow(x, 2 * j + 1)
}

/// `⌊⌊scale / x^(2j+1)⌋ / (2j+1)⌋`, the `j`-th term of the Gregory series of
/// `scale · arctan(1/x)`, without its sign.
pub open spec fn arctan_term(scale: int, x: int, j: nat) -> int {
    arctan_power_term(scale, x, j) / ((2 * j + 1) as int)
}

/// `Σ (j < n) (-1)^j · arctan_term(scale, x, j)`.
pub open spec fn arctan_partial(scale: int, x: int, n: nat) -> int
    decreases n,
{
    if n == 0 {
        0
    } else {
        let j = (n - 1) as nat;
        arctan_partial(scale, x, j) + if j % 2 == 0 {
            arctan_term(scale, x, j)
        } else {
            -arctan_term(scale, x, j)
        }
    }
}

/// `n` is where the series stops: the first term after the leading one that
/// truncates to zero.
pub open spec fn arctan_stops_at(scale: int, x: int, n: nat) -> bool {
    &&& n >= 1
    &&& arctan_term(scale, x, n) == 0
    &&& forall|j: nat| 1 <= j < n ==> arctan_term(scale, x, j) != 0
}

/// `scale · arctan(1/x)` for a scale that is not negative, as the series sums
/// it: the partial sum up to the first term, after the leading one, that
/// truncates to zero.
pub open spec fn arctan_magnitude(scale: int, x: int) -> int {
    arctan_partial(scale, x, choose|n: nat| arctan_stops_at(scale, x, n))
}

/// `scale · arctan(1/x)` as the series sums it with every division truncated
/// toward zero: the value for `|scale|`, with the sign of `scale`.
pub open spec fn arctan_value(scale: int, x: int) -> int {
    signed(scale < 0, arctan_magnitude(abs_int(scale), x))
}

/// Proof that the arctangent terms do not grow: term `k` is at most term `j`
/// for `j ≤ k`, and not negative.
proof fn lemma_term_order(scale: int, x: int, j: nat, k: nat)
    requires
        scale >= 0,
        x >= 1,
        j <= k,
    ensures
        0 <= arctan_term(scale, x, k) <= arctan_term(scale, x, j),
    decreases k - j,
{
    if j < k {
        lemma_term_order(scale, x, j, (k - 1) as nat);
        lemma_term_nonincreasing(scale, x, (k - 1) as nat);
    } else {
        lemma_term_nonincreasing(scale, x, k);
        if k > 0 {
            lemma_term_nonincreasing(scale, x, (k - 1) as nat);
        } else {
            vstd::arithmetic::power::lemma_pow_positive(x, 1);
            vstd::arithmetic::div_mod::lemma_div_pos_is_pos(scale, pow(x, 1));
            vstd::arithmetic::div_mod::lemma_div_pos_is_pos(arctan_power_term(scale, x, 0), 1);
        }
    }
}

/// Proof that the first term after the leading one that truncates to zero
/// exists at or before any term that does.
proof fn lemma_first_zero_term(scale: int, x: int, n: nat) -> (n0: nat)
    requires
        scale >= 0,
        x >= 1,
        n >= 1,
        arctan_term(scale, x, n) == 0,
    ensures
        1 <= n0 <= n,
        arctan_term(scale, x, n0) == 0,
        forall|j: nat| 1 <= j < n0 ==> arctan_term(scale, x, j) != 0,
    decreases n,
{
    if n >= 2 && arctan_term(scale, x, (n - 1) as nat) == 0 {
        lemma_first_zero_term(scale, x, (n - 1) as nat)
    } else {
        assert forall|j: nat| 1 <= j < n implies arctan_term(scale, x, j) != 0 by {
            lemma_term_order(scale, x, j, (n - 1) as nat);
        }
        n
    }
}

/// Proof that the partial sums stop changing once a term truncates to zero.
proof fn lemma_partial_constant(scale: int, x: int, n0: nat, n: nat)
    requires
        scale >= 0,
        x >= 1,
        n0 <= n,
        arctan_term(scale, x, n0) == 0,
    ensures
        arctan_partial(scale, x, n) == arctan_partial(scale, x, n0),
    decreases n - n0,
{
    if n0 < n {
        lemma_partial_constant(scale, x, n0, (n - 1) as nat);
        lemma_term_order(scale, x, n0, (n - 1) as nat);
    }
}

/// `scale · arctan(1/x)` as the series sums it is the partial sum up to any
/// term, after the leading one, that truncates to zero: the series never
/// stops while a term still contributes.
pub proof fn lemma_arctan_value_at_zero_term(scale: int, x: int, n: nat)
    requires
        x >= 1,
        n >= 1,
        arctan_term(abs_int(scale), x, n) == 0,
    ensures
        arctan_value(scale, x) == signed(scale < 0, arctan_partial(abs_int(scale), x, n)),
{
    let s = abs_int(scale);
    let n0 = lemma_first_zero_term(s, x, n);
    assert(arctan_stops_at(s, x, n0));
    let n1 = choose|m: nat| arctan_stops_at(s, x, m);
    assert(arctan_stops_at(s, x, n1));
    if n1 < n0 {
        assert(arctan_term(s, x, n1) != 0);
    }
    if n0 < n1 {
        assert(arctan_term(s, x, n0) != 0);
    }
    assert(n1 == n0);
    lemma_partial_constant(s, x, n0, n);
}

/// Proof that truncating division of a signed magnitude divides the magnitude.
proof fn lemma_trunc_div_signed(negative: bool, t: int, d: int)
    requires
        t >= 0,
        d > 0,
    ensures
        crate::bigint::trunc_div(signed(negative, t), d) == signed(negative, t / d),
{
    if negative && t > 0 {
        assert(abs_int(-t) == t);
    }
}

/// Proof that the stopping point of the series is unique.
proof fn lemma_arctan_stops_unique(scale: int, x: int, n1: nat, n2: nat)
    requires
        arctan_stops_at(scale, x, n1),
        arctan_stops_at(scale, x, n2),
    ensures
        n1 == n2,
{
    if n1 < n2 {
        assert(arctan_term(scale, x, n1) != 0);
    } else if n2 < n1 {
        assert(arctan_term(scale, x, n2) != 0);
    }
}

/// Proof that each power term is the previous one divided by `x²`.
proof fn lemma_power_term_step(scale: int, x: int, j: nat)
    requires
        scale >= 0,
        x >= 1,
    ensures
        pow(x, 2 * j + 1) > 0,
        arctan_power_term(scale, x, j + 1) == arctan_power_term(scale, x, j) / (x * x),
        arctan_power_term(scale, x, j) >= 0,
        pow(x, 2 * (j + 1) + 1) == pow(x, 2 * j + 1) * (x * x),
{
    let p = pow(x, 2 * j + 1);
    vstd::arithmetic::power::lemma_pow_positive(x, 2 * j + 1);
    lemma_pow_adds(x, 2 * j + 1, 2);
    assert(pow(x, 2) == x * x) by {
        reveal(pow);
        assert(pow(x, 2) == x * pow(x, 1));
        lemma_pow1(x);
    }
    assert(2 * (j + 1) + 1 == (2 * j + 1) + 2);
    lemma_mul_strictly_positive(x, x);
    lemma_div_denominator(scale, p, x * x);
    lemma_div_pos_is_pos(scale, p);
}

/// Proof that the arctangent terms do not grow.
proof fn lemma_term_nonincreasing(scale: int, x: int, j: nat)
    requires
        scale >= 0,
        x >= 1,
    ensures
        0 <= arctan_term(scale, x, j + 1) <= arctan_term(scale, x, j),
{
    lemma_power_term_step(scale, x, j);
    let t = arctan_power_term(scale, x, j);
    let t1 = arctan_power_term(scale, x, j + 1);
    lemma_mul_strictly_positive(x, x);
    lemma_div_nonincreasing(t, x * x);
    lemma_div_pos_is_pos(t1, (2 * (j + 1) + 1) as int);
    lemma_div_is_ordered(t1, t, (2 * (j + 1) + 1) as int);
    lemma_div_is_ordered_by_denominator(t, (2 * j + 1) as int, (2 * (j + 1) + 1) as int);
}

/// Proof that a quotient of at least one means the dividend is at least the divisor.
proof fn lemma_div_ge_one(a: int, d: int)
    requires
        a >= 0,
        d > 0,
        a / d >= 1,
    ensures
        a >= d,
{
    lemma_fundamental_div_mod(a, d);
    lemma_mul_inequality(1, a / d, d);
    assert(d * (a / d) >= d) by (nonlinear_arith)
        requires a / d >= 1, d > 0;
}

/// Compute `scale · arctan(1/x)` with the alternating Gregory series on
/// truncated integer terms, stopping at the first term that truncates to zero.
///
/// The result is the partial sum up to that term, and it lies between the
/// first term minus the second and the first term.
///
/// A negative scale gives the negated value, since every division truncates
/// toward zero. The odd divisor `k` is a `u64` that grows by two per term
/// while the power part is at least `k`: for `x = 1` the power part is
/// `|scale|`, so `|scale|` below `u64::MAX` keeps `k + 2` in range; for
/// `x ≥ 2` the power part shrinks by `x²` per term, and a scale of fewer than
/// `2^62` bits (any integer that fits in memory) keeps `k` small.
fn arctan_series(scale: &BigInt, x: u64) -> (r: BigInt)
    requires
        x >= 1,
        x >= 2 || abs_int(scale@) < u64::MAX,
        abs_int(scale@) < pow2(ARCTAN_SCALE_BITS as nat),
    ensures
        r@ == arctan_value(scale@, x as int),
        exists|n: nat| arctan_stops_at(abs_int(scale@), x as int, n)
            && r@ == signed(scale@ < 0, arctan_partial(abs_int(scale@), x as int, n)),
        abs_int(scale@) / (x as int) - arctan_term(abs_int(scale@), x as int, 1)
            <= signed(scale@ < 0, r@) <= abs_int(scale@) / (x as int),
        forall|m: nat| m >= 1 && #[trigger] arctan_term(abs_int(scale@), x as int, m) == 0
            ==> r@ == signed(scale@ < 0, arctan_partial(abs_int(scale@), x as int, m)),
{
    let ghost neg = scale@ < 0;
    let ghost s = abs_int(scale@);
    let ghost xi = x as int;
    let ghost c0 = arctan_term(s, xi, 0);
    let ghost c1 = arctan_term(s, xi, 1);
    proof {
        lemma_pow1(xi);
        assert(arctan_power_term(s, xi, 0) == s / xi);
        assert(arctan_power_term(s, xi, 0) / 1 == arctan_power_term(s, xi, 0));
        assert(c0 == s / xi);
        lemma_term_nonincreasing(s, xi, 0);
        assert(scale@ == signed(neg, s));
    }
    let x_big = BigInt::from_u64(x);
    let x2 = big_mul(&x_big, &x_big);
    proof {
        lemma_trunc_div_signed(neg, s, xi);
    }
    let mut term = big_div(scale, &x_big);
    let mut sum = term.copy();
    let mut sign = true;
    let mut k: u64 = 3;
    let ghost mut i: nat = 0;
    proof {
        lemma_div_pos_is_pos(s, xi);
        assert(arctan_partial(s, xi, 1) == arctan_partial(s, xi, 0) + c0);
        reveal(pow);
        lemma_pow1(2);
        assert(pow2(1) == 2);
        assert(xi * xi >= 1) by (nonlinear_arith)
            requires xi >= 1;
    }
    loop
        invariant_except_break
            term@ == signed(neg, arctan_power_term(s, xi, i)),
            arctan_power_term(s, xi, i) >= 0,
            i >= 1 ==> arctan_power_term(s, xi, i) + 2 >= k,
        invariant
            neg == (scale@ < 0),
            s == abs_int(scale@),
            xi == x as int,
            s >= 0,
            x >= 1,
            x >= 2 || s < u64::MAX,
            s < pow2(ARCTAN_SCALE_BITS as nat),
            x_big@ == xi,
            x2@ == xi * xi,
            x2@ >= 1,
            k == 2 * i + 3,
            sum@ == signed(neg, arctan_partial(s, xi, i + 1)),
            sign == (i % 2 == 0),
            forall|j: nat| 1 <= j <= i ==> arctan_term(s, xi, j) != 0,
            c0 == arctan_term(s, xi, 0),
            c1 == arctan_term(s, xi, 1),
            c0 == s / xi,
            0 <= c1 <= c0,
            i % 2 == 0 ==> arctan_partial(s, xi, i + 1) <= c0
                && (i == 0 || arctan_partial(s, xi, i + 1) - arctan_term(s, xi, i) >= c0 - c1),
            i % 2 == 1 ==> arctan_partial(s, xi, i + 1) >= c0 - c1
                && arctan_partial(s, xi, i + 1) + arctan_term(s, xi, i) <= c0,
            i == 0 ==> arctan_partial(s, xi, i + 1) == c0,
            x >= 2 ==> pow2(2 * i + 1) <= pow(xi, 2 * i + 1),
        ensures
            arctan_stops_at(s, xi, i + 1),
            sum@ == signed(neg, arctan_partial(s, xi, i + 1)),
            c0 - c1 <= arctan_partial(s, xi, i + 1) <= c0,
        decreases arctan_power_term(s, xi, i) + 3 - k,
    {
        proof {
            lemma_power_term_step(s, xi, i);
            lemma_power_term_step(s, xi, i + 1);
            lemma_term_nonincreasing(s, xi, i);
        }
        let ghost old_term = arctan_power_term(s, xi, i);
        proof {
            lemma_div_nonincreasing(old_term, xi * xi);
            lemma_trunc_div_signed(neg, old_term, xi * xi);
        }
        term = big_div(&term, &x2);
        let kb = BigInt::from_u64(k);
        proof {
            lemma_trunc_div_signed(neg, arctan_power_term(s, xi, i + 1), k as int);
        }
        let contribution = big_div(&term, &kb);
        assert(contribution@ == signed(neg, arctan_term(s, xi, i + 1)));
        if contribution.is_zero() {
            proof {
                assert(arctan_term(s, xi, i + 1) == 0);
                assert forall|j: nat| 1 <= j < i + 1 implies arctan_term(s, xi, j) != 0 by {}
                if i % 2 == 1 {
                    assert(arctan_term(s, xi, i) >= 0) by {
                        if i >= 1 {
                            lemma_term_nonincreasing(s, xi, (i - 1) as nat);
                        }
                    }
                } else if i > 0 {
                    assert(arctan_term(s, xi, i) >= 0) by {
                        lemma_term_nonincreasing(s, xi, (i - 1) as nat);
                    }
                }
            }
            break;
        }
        let ghost c = arctan_term(s, xi, i + 1);
        let ghost t1 = arctan_power_term(s, xi, i + 1);
        proof {
            assert(c >= 1);
            lemma_div_ge_one(t1, k as int);
            assert(t1 >= k);
            // the counter stays in range
            if x >= 2 {
                let d = pow(xi, 2 * (i + 1) + 1);
                assert(d == pow(xi, 2 * i + 1) * (xi * xi));
                assert(xi * xi >= 4) by (nonlinear_arith)
                    requires xi >= 2;
                lemma_pow2_adds(2 * i + 1, 2);
                assert(pow2(2) == 4) by {
                    vstd::arithmetic::power2::lemma2_to64();
                }
                assert(pow2(2 * i + 1) * 4 <= pow(xi, 2 * i + 1) * (xi * xi)) by (nonlinear_arith)
                    requires
                        pow2(2 * i + 1) <= pow(xi, 2 * i + 1),
                        4 <= xi * xi,
                        pow2(2 * i + 1) >= 0;
                assert(2 * (i + 1) + 1 == (2 * i + 1) + 2);
                assert(pow2(2 * (i + 1) + 1) <= d);
                lemma_div_ge_one(s, d);
                crate::float_value::lemma_pow2_lt_inv(2 * (i + 1) + 1, ARCTAN_SCALE_BITS as nat);
            } else {
                lemma_div_nonincreasing(s, xi);
                lemma_div_nonincreasing(old_term, xi * xi);
                assert(old_term <= s) by {
                    if i == 0 {
                        lemma_div_nonincreasing(s, xi);
                    } else {
                        lemma_div_nonincreasing(s, pow(xi, 2 * i + 1));
                        vstd::arithmetic::power::lemma_pow_positive(xi, 2 * i + 1);
                    }
                }
                assert(t1 <= s);
                assert(k as int + 2 <= u64::MAX);
            }
        }
        if sign {
            sum = big_sub(&sum, &contribution);
        } else {
            sum = big_add(&sum, &contribution);
        }
        sign = !sign;
        k = k + 2;
        proof {
            assert(t1 <= old_term);
            assert(t1 + 2 >= k);
            assert(arctan_partial(s, xi, i + 2) == arctan_partial(s, xi, i + 1) + if (i + 1) % 2 == 0 {
                arctan_term(s, xi, i + 1)
            } else {
                -arctan_term(s, xi, i + 1)
            });
            if x >= 2 {
                assert(2 * (i + 1) + 1 == (2 * i + 1) + 2);
                lemma_pow2_adds(2 * i + 1, 2);
                assert(pow2(2) == 4) by {
                    vstd::arithmetic::power2::lemma2_to64();
                }
                assert(xi * xi >= 4) by (nonlinear_arith)
                    requires xi >= 2;
                assert(pow2(2 * i + 1) * 4 <= pow(xi, 2 * i + 1) * (xi * xi)) by (nonlinear_arith)
                    requires
                        pow2(2 * i + 1) <= pow(xi, 2 * i + 1),
                        4 <= xi * xi,
                        pow2(2 * i + 1) >= 0;
            }
            i = i + 1;
        }
    }
    proof {
        assert(arctan_stops_at(s, xi, i + 1));
        let n = choose|n: nat| arctan_stops_at(s, xi, n);
        lemma_arctan_stops_unique(s, xi, n, i + 1);
        assert forall|m: nat| m >= 1 && #[trigger] arctan_term(s, xi, m) == 0 implies sum@ == signed(
            neg,
            arctan_partial(s, xi, m),
        ) by {
            lemma_arctan_value_at_zero_term(scale@, xi, m);
        }
    }
    sum
}

} // verus!

verus! {

// ─── Binary floats ────────────────────────────────────────────────────────────

/// Significand and exponent that `Context::mul` gives for `a · b` rounded
/// half away from zero to `prec` bits.
pub uninterp spec fn fbig_mul(a_sig: int, a_exp: int, b_sig: int, b_exp: int, prec: nat) -> (int, int);

/// Significand and exponent that `Context::div` gives for `a / b` rounded
/// half away from zero to `prec` bits.
pub uninterp spec fn fbig_div(a_sig: int, a_exp: int, b_sig: int, b_exp: int, prec: nat) -> (int, int);

/// Significand and exponent that `Context::convert_int` gives for the integer
/// `v` rounded half away from zero to `prec` bits.
pub uninterp spec fn fbig_from_int(v: int, prec: nat) -> (int, int);

/// Significand and exponent that `FBig += FBig` gives for `a + b`, each operand
/// carrying its own precision.
pub uninterp spec fn fbig_add(a_sig: int, a_exp: int, a_prec: nat, b_sig: int, b_exp: int, b_prec: nat) -> (int, int);

/// The text `FBig::with_base_and_precision::<10>(digits)` followed by
/// `to_string` gives for `sig · 2^exp`.
pub uninterp spec fn fbig_decimal(sig: int, exp: int, digits: nat) -> Seq<char>;

/// An arbitrary-precision binary float: the significand, exponent and precision
/// of a `dashu` `FBig` that rounds half away from zero.
#[derive(Clone, Debug)]
pub struct DashuFloat {
    significand: BigInt,
    exponent: isize,
    precision: usize,
}

impl View for DashuFloat {
    type V = FloatValue;

    closed spec fn view(&self) -> FloatValue {
        FloatValue {
            sig: self.significand@,
            exp: self.exponent as int,
            prec: self.precision as nat,
        }
    }
}

/// `Context::mul` at `prec` bits. `dashu` documents every operation under a
/// context as precise to the full precision (error below one unit in the last
/// place) and keeps significands within `prec + 1` bits; the result is
/// therefore within a relative error `2^(2 - prec)` of the exact product
/// (this allows for the operands being first cut to `2 · prec` digits), so
/// with at least two bits of precision it lies within a factor of two of the
/// exact one and keeps its sign, which the power-of-two bounds state. The
/// product does not depend on the order of the operands. The exact
/// significand and exponent are named, not stated. The operands' exponents
/// add up within the limit, which keeps `dashu`'s exponent arithmetic (the
/// sum, shifted by at most a few precisions) inside `isize`.
#[verifier::external_body]
fn fbig_mul_at(a: &DashuFloat, b: &DashuFloat, prec: usize) -> (r: DashuFloat)
    requires
        float_sane(a@),
        float_sane(b@),
        2 <= prec <= prec_limit(),
        exps_sum_ok(a@, b@),
    ensures
        (r@.sig, r@.exp) == fbig_mul(a@.sig, a@.exp, b@.sig, b@.exp, prec as nat),
        float_shape(r@, prec as nat),
        a@.sig > 0 && b@.sig > 0 ==> r@.sig > 0,
        forall|ka: int, kb: int|
            #![trigger le_p2(a@, ka), le_p2(b@, kb)]
            le_p2(a@, ka) && le_p2(b@, kb) ==> le_p2(r@, ka + kb + 1),
        forall|ka: int, kb: int|
            #![trigger ge_p2(a@, ka), ge_p2(b@, kb)]
            ge_p2(a@, ka) && ge_p2(b@, kb) ==> ge_p2(r@, ka + kb - 1),
        rel_close(r@.sig, r@.exp, a@.sig * b@.sig, a@.exp + b@.exp, (prec - 2) as nat),
        (r@.sig, r@.exp) == fbig_mul(b@.sig, b@.exp, a@.sig, a@.exp, prec as nat),
{
    let x = Repr::<2>::new(IBig::from_parts(Sign::from(a.significand.negative), UBig::from_words(&a.significand.words)), a.exponent);
    let y = Repr::<2>::new(IBig::from_parts(Sign::from(b.significand.negative), UBig::from_words(&b.significand.words)), b.exponent);
    let r = Context::<HalfAway>::new(prec).mul(&x, &y).value();
    let (s, w) = r.repr().significand().as_sign_words();
    let significand = BigInt { negative: bool::from(s), words: w.to_vec() };
    DashuFloat { significand, exponent: r.repr().exponent(), precision: r.precision() }
}

/// `Context::div` at `prec` bits: within a relative error `2^(2 - prec)` of
/// the exact quotient, stated as `r · b` against `a`, and so within a factor
/// of two of it and of its sign (see [`fbig_mul_at`]). `dashu` panics on a zero divisor,
/// which `requires` rules out; the exponents differ by at most the limit,
/// which keeps the exponent arithmetic inside `isize`.
#[verifier::external_body]
fn fbig_div_at(a: &DashuFloat, b: &DashuFloat, prec: usize) -> (r: DashuFloat)
    requires
        float_sane(a@),
        float_sane(b@),
        b@.sig != 0,
        2 <= prec <= prec_limit(),
        exps_diff_ok(a@, b@),
    ensures
        (r@.sig, r@.exp) == fbig_div(a@.sig, a@.exp, b@.sig, b@.exp, prec as nat),
        float_shape(r@, prec as nat),
        a@.sig > 0 && b@.sig > 0 ==> r@.sig > 0,
        forall|ka: int, kb: int|
            #![trigger le_p2(a@, ka), ge_p2(b@, kb)]
            le_p2(a@, ka) && ge_p2(b@, kb) ==> le_p2(r@, ka - kb + 1),
        forall|ka: int, kb: int|
            #![trigger ge_p2(a@, ka), le_p2(b@, kb)]
            ge_p2(a@, ka) && le_p2(b@, kb) ==> ge_p2(r@, ka - kb - 1),
        rel_close(r@.sig * b@.sig, r@.exp + b@.exp, a@.sig, a@.exp, (prec - 2) as nat),
{
    let x = Repr::<2>::new(IBig::from_parts(Sign::from(a.significand.negative), UBig::from_words(&a.significand.words)), a.exponent);
    let y = Repr::<2>::new(IBig::from_parts(Sign::from(b.significand.negative), UBig::from_words(&b.significand.words)), b.exponent);
    let r = Context::<HalfAway>::new(prec).div(&x, &y).value();
    let (s, w) = r.repr().significand().as_sign_words();
    let significand = BigInt { negative: bool::from(s), words: w.to_vec() };
    DashuFloat { significand, exponent: r.repr().exponent(), precision: r.precision() }
}

/// `Context::convert_int` at `prec` bits: the integer `v` rounded, within a
/// relative error `2^(2 - prec)` and a factor of two of `v` and of its sign
/// (see [`fbig_mul_at`]); exact when `v`
/// has fewer than `prec` bits or is a power of two (its trailing zero bits
/// go to the exponent, leaving one significant bit).
#[verifier::external_body]
fn fbig_from_int_at(v: &BigInt, prec: usize) -> (r: DashuFloat)
    requires
        abs_int(v@) < pow2(prec_limit()),
        2 <= prec <= prec_limit(),
    ensures
        (r@.sig, r@.exp) == fbig_from_int(v@, prec as nat),
        float_shape(r@, prec as nat),
        v@ > 0 ==> r@.sig > 0,
        forall|k: int| #![trigger ge_p2(r@, k)] k >= -1 && abs_int(v@) >= pow2((k + 1) as nat) ==> ge_p2(r@, k),
        forall|k: int| #![trigger le_p2(r@, k)] k >= 1 && abs_int(v@) <= pow2((k - 1) as nat) ==> le_p2(r@, k),
        abs_int(v@) < pow2(prec as nat) || is_power_of_two(v@) ==> equals_int(r@, v@),
        rel_close(r@.sig, r@.exp, v@, 0, (prec - 2) as nat),
{
    let n = IBig::from_parts(Sign::from(v.negative), UBig::from_words(&v.words));
    let r = Context::<HalfAway>::new(prec).convert_int::<2>(n).value();
    let (s, w) = r.repr().significand().as_sign_words();
    let significand = BigInt { negative: bool::from(s), words: w.to_vec() };
    DashuFloat { significand, exponent: r.repr().exponent(), precision: r.precision() }
}

/// `FBig += FBig`, at the larger of the two precisions, on the operands as they
/// are (each is rebuilt with its own precision and no rounding: a value of
/// unlimited precision keeps its digits when given a precision). Adding to
/// zero gives the other operand's value. The sum is within a relative error
/// `2^(2 - p)` of the exact sum, `p` the larger precision (see
/// [`fbig_mul_at`]). For operands that are not negative
/// the sum is within a factor of two of the exact one (see [`fbig_mul_at`]),
/// is not negative, and is not below either operand (rounding half away from
/// zero never moves a sum below an operand carrying at most one bit more
/// than the precision). The exponents differ by at most the limit, which
/// keeps the alignment shift inside `isize`.
#[verifier::external_body]
fn fbig_add_to(a: &DashuFloat, b: &DashuFloat) -> (r: DashuFloat)
    requires
        float_sane(a@),
        float_sane(b@),
        a@.prec >= 2 || b@.prec >= 2,
        exps_diff_ok(a@, b@),
    ensures
        (r@.sig, r@.exp) == fbig_add(a@.sig, a@.exp, a@.prec, b@.sig, b@.exp, b@.prec),
        float_shape(r@, if a@.prec >= b@.prec { a@.prec } else { b@.prec }),
        a@.sig >= 0 && b@.sig >= 0 ==> r@.sig >= 0,
        forall|k: int|
            #![trigger ge_p2(a@, k), ge_p2(r@, k - 1)]
            a@.sig >= 0 && b@.sig >= 0 && ge_p2(a@, k) ==> ge_p2(r@, k - 1),
        forall|k: int|
            #![trigger ge_p2(b@, k), ge_p2(r@, k - 1)]
            a@.sig >= 0 && b@.sig >= 0 && ge_p2(b@, k) ==> ge_p2(r@, k - 1),
        forall|k: int|
            #![trigger le_p2(a@, k), le_p2(b@, k)]
            a@.sig >= 0 && b@.sig >= 0 && le_p2(a@, k) && le_p2(b@, k) ==> le_p2(r@, k + 2),
        a@.sig == 0 ==> value_eq(r@, b@),
        b@.sig == 0 ==> value_eq(r@, a@),
        a@.sig >= 0 && b@.sig >= 0 ==> !value_lt(r@, a@) && !value_lt(r@, b@),
        rel_close(
            r@.sig,
            r@.exp,
            a@.sig * pow2((a@.exp - if a@.exp <= b@.exp { a@.exp } else { b@.exp }) as nat)
                + b@.sig * pow2((b@.exp - if a@.exp <= b@.exp { a@.exp } else { b@.exp }) as nat),
            if a@.exp <= b@.exp { a@.exp } else { b@.exp },
            ((if a@.prec >= b@.prec { a@.prec } else { b@.prec }) - 2) as nat,
        ),
{
    let c = Context::new(0);
    let mut r = FBig::<HalfAway>::from_repr(Repr::new(IBig::from_parts(a.significand.negative.into(), UBig::from_words(&a.significand.words)), a.exponent), c).with_precision(a.precision).value();
    r += FBig::from_repr(Repr::new(IBig::from_parts(b.significand.negative.into(), UBig::from_words(&b.significand.words)), b.exponent), c).with_precision(b.precision).value();
    let (s, w) = r.repr().significand().as_sign_words();
    DashuFloat { significand: BigInt { negative: s.into(), words: w.to_vec() }, exponent: r.repr().exponent(), precision: r.precision() }
}

/// `Repr < Repr`, an exact comparison of the two values (the order `FBig`
/// comparison is built on, without its precision shortcut). The exponents
/// differ by at most the limit, which keeps the alignment inside `isize`.
#[verifier::external_body]
fn fbig_lt(a: &DashuFloat, b: &DashuFloat) -> (r: bool)
    requires
        float_sane(a@),
        float_sane(b@),
        exps_diff_ok(a@, b@),
    ensures
        r == value_lt(a@, b@),
{
    let x = Repr::<2>::new(IBig::from_parts(Sign::from(a.significand.negative), UBig::from_words(&a.significand.words)), a.exponent);
    let y = Repr::<2>::new(IBig::from_parts(Sign::from(b.significand.negative), UBig::from_words(&b.significand.words)), b.exponent);
    x < y
}

/// `FBig::with_base_and_precision::<10>(digits)` then `to_string`: the value in
/// decimal, rounded to `digits` significant digits, written as an optional
/// minus sign, digits, and an optional point followed by digits (`Display`
/// prints the decimal significand with the point placed by the exponent, so
/// the text's value is the rounded one exactly). `dashu` documents every
/// context operation as exact to within one unit in the last place of its
/// precision, so for a value below `10^j` the text is within `10^(j − digits + 1)`
/// of it, and when the text has `k` digits after its point (the decimal
/// exponent is `-k`, at or above that last place) within `10^-k`. `dashu`
/// panics when asked for an inexact conversion at unlimited precision, which
/// `digits >= 1` rules out.
#[verifier::external_body]
fn fbig_to_decimal(a: &DashuFloat, digits: usize) -> (r: String)
    requires
        float_sane(a@),
        digits >= 1,
    ensures
        r@ == fbig_decimal(a@.sig, a@.exp, digits as nat),
        plain_decimal_chars(r@),
        is_numeral(r@),
        forall|e: nat|
            below_ten_pow(a@.sig, a@.exp, digits - 1 - e) ==> #[trigger] numeral_within(r@, a@.sig, a@.exp, e),
        find_char(r@, '.') is Some ==> numeral_within(r@, a@.sig, a@.exp, numeral_frac(r@)),
{
    let x = FBig::<HalfAway>::from_parts(IBig::from_parts(Sign::from(a.significand.negative), UBig::from_words(&a.significand.words)), a.exponent);
    x.with_base_and_precision::<10>(digits).value().to_string()
}

} // verus!

verus! {

// ─── Helpers ──────────────────────────────────────────────────────────────────

/// Decimal digits, with 20 guard digits, that hold `bits` bits:
/// `⌈bits / log2(10)⌉ + 20`, with `log2(10)` and the quotient as doubles.
pub open spec fn decimal_digits_for_bits(bits: nat) -> nat {
    ceil_nearest_double(bits * (TWO_POW_51 as nat), LOG2_10_MANTISSA as nat) + 20
}

/// Convert bit precision to decimal digit count with guard digits.
fn bits_to_decimal_digits(bits: u32) -> (r: usize)
    ensures
        r as nat == decimal_digits_for_bits(bits as nat),
        r <= 0x8000_0020,
{
    let num = bits as u128 * TWO_POW_51;
    proof {
        assert(num < 0x1_0000_0000 * TWO_POW_51) by (nonlinear_arith)
            requires num == bits * TWO_POW_51, bits < 0x1_0000_0000;
        vstd::arithmetic::div_mod::lemma_fundamental_div_mod(num as int, LOG2_10_MANTISSA as int);
        vstd::arithmetic::div_mod::lemma_div_pos_is_pos(num as int, LOG2_10_MANTISSA as int);
        let q = num as int / LOG2_10_MANTISSA as int;
        assert(q < 0x8000_0000) by (nonlinear_arith)
            requires
                LOG2_10_MANTISSA as int * q + num as int % LOG2_10_MANTISSA as int == num as int,
                num as int % LOG2_10_MANTISSA as int >= 0,
                num < 0x1_0000_0000 * TWO_POW_51,
                q >= 0;
    }
    let q = ceil_nearest_double_exec(num, LOG2_10_MANTISSA);
    q as usize + 20
}

/// The working precision of the float operations for `precision_bits`:
/// 64 guard bits more.
pub open spec fn ctx_prec(precision_bits: nat) -> nat {
    precision_bits + 64
}

/// The precision of a context for `precision_bits`, with 64 guard bits.
fn make_ctx(precision_bits: u32) -> (r: usize)
    requires
        precision_bits as int + 64 <= usize::MAX,
    ensures
        r as nat == ctx_prec(precision_bits as nat),
{
    precision_bits as usize + 64
}

/// Proof that `10^e ≤ 2^(4e)`, and `10^e ≥ 10^10` from `e = 10` on.
proof fn lemma_pow10_bounds(e: nat)
    ensures
        pow(10, e) <= pow2(4 * e),
        pow(10, e) >= 1,
        e >= 10 ==> pow(10, e) >= 10_000_000_000,
    decreases e,
{
    reveal(pow);
    if e == 0 {
        assert(pow2(0) == 1) by {
            vstd::arithmetic::power2::lemma2_to64();
        }
    } else {
        lemma_pow10_bounds((e - 1) as nat);
        assert(pow(10, e) == 10 * pow(10, (e - 1) as nat));
        lemma_pow2_adds(4 * ((e - 1) as nat), 4);
        assert(pow2(4) == 16) by {
            vstd::arithmetic::power2::lemma2_to64();
        }
        assert(4 * e == 4 * ((e - 1) as nat) + 4);
        if e == 10 {
            assert(pow(10, 10) == 10_000_000_000) by {
                reveal_with_fuel(pow, 11);
            }
        }
    }
}

/// The floor of the base-2 logarithm of `v`.
proof fn log2_floor(v: int) -> (k: nat)
    requires
        v >= 1,
    ensures
        pow2(k) <= v < pow2(k + 1),
    decreases v,
{
    if v == 1 {
        vstd::arithmetic::power2::lemma2_to64();
        0
    } else {
        let k0 = log2_floor(v / 2);
        vstd::arithmetic::power2::lemma_pow2_unfold(k0 + 1);
        vstd::arithmetic::power2::lemma_pow2_unfold(k0 + 2);
        k0 + 1
    }
}

// ─── π via Machin's formula ───────────────────────────────────────────────────

/// The significand and exponent pair as a float at `prec` bits.
pub open spec fn at_prec(r: (int, int), prec: nat) -> FloatValue {
    FloatValue { sig: r.0, exp: r.1, prec }
}

/// The integer scale of Machin's sums for `digits` digits: `10^(digits+10)`.
pub open spec fn machin_scale(digits: nat) -> int {
    pow(10, digits + 10)
}

/// Machin's `16·arctan(1/5) − 4·arctan(1/239)` summed in integers scaled by
/// [`machin_scale`]: π times the scale, up to the series' truncations.
pub open spec fn machin_numerator(digits: nat) -> int {
    let scale = machin_scale(digits);
    arctan_value(scale, 5) * 4 * 4 - arctan_value(scale, 239) * 4
}

/// π as Machin's formula gives it: [`machin_numerator`] and [`machin_scale`]
/// both converted at `prec` bits and divided.
pub open spec fn machin_pi_value(prec: nat, digits: nat) -> FloatValue {
    let scale = machin_scale(digits);
    let pi_scaled = machin_numerator(digits);
    let n = fbig_from_int(pi_scaled, prec);
    let d = fbig_from_int(scale, prec);
    at_prec(fbig_div(n.0, n.1, d.0, d.1, prec), prec)
}

/// Compute π using Machin's formula π/4 = 4·arctan(1/5) − arctan(1/239).
///
/// The arctangents are summed in integers scaled by `10^(digits + 10)`, so no
/// precision is lost before the final division at `prec` bits.
fn machin_pi(prec: usize, digits: usize) -> (r: DashuFloat)
    requires
        2 <= prec <= prec_limit(),
        digits <= 0x8000_0020,
    ensures
        r@ == machin_pi_value(prec as nat, digits as nat),
        float_sane(r@),
        r@.prec == prec,
        r@.sig > 0,
        ge_p2(r@, -3),
        le_p2(r@, 6),
        prec >= 5 ==> le_p2(r@, 3),
        prec >= 5 ==> rel_close(
            r@.sig * machin_scale(digits as nat),
            r@.exp,
            machin_numerator(digits as nat),
            0,
            (prec - 5) as nat,
        ),
{
    let ten = BigInt::from_u64(10);
    let scale = big_pow(&ten, digits + 10);
    let ghost s = scale@;
    let ghost m: nat = (digits + 10) as nat;
    proof {
        lemma_pow10_bounds(m);
        vstd::arithmetic::power2::lemma_pow2_strictly_increases(4 * m, ARCTAN_SCALE_BITS as nat);
    }
    let arctan5 = arctan_series(&scale, 5);
    let arctan239 = arctan_series(&scale, 239);
    let four = BigInt::from_u64(4);
    let a5_4 = big_mul(&arctan5, &four);
    let a5_16 = big_mul(&a5_4, &four);
    let a239_4 = big_mul(&arctan239, &four);
    let pi_scaled = big_sub(&a5_16, &a239_4);
    let ghost ps = pi_scaled@;
    let ghost k = log2_floor(s);
    proof {
        assert(abs_int(s) == s);
        assert(a5_16@ == arctan5@ * 16);
        assert(a239_4@ == arctan239@ * 4);
        lemma_term_nonincreasing(s, 239, 0);
        lemma_pow1(239);
        assert(arctan_power_term(s, 239, 0) == s / 239);
        assert(arctan_power_term(s, 239, 0) / 1 == arctan_power_term(s, 239, 0));
        assert(arctan_term(s, 239, 0) == s / 239);
        let q5 = s / 5;
        let c1 = arctan_term(s, 5, 1);
        assert(pow(5, 3) == 125) by {
            reveal_with_fuel(pow, 4);
        }
        assert(c1 == (s / 125) / 3);
        vstd::arithmetic::div_mod::lemma_fundamental_div_mod(s, 5);
        vstd::arithmetic::div_mod::lemma_fundamental_div_mod(s, 125);
        vstd::arithmetic::div_mod::lemma_fundamental_div_mod(s / 125, 3);
        vstd::arithmetic::div_mod::lemma_fundamental_div_mod(s, 239);
        vstd::arithmetic::div_mod::lemma_mod_bound(s, 5);
        vstd::arithmetic::div_mod::lemma_mod_bound(s, 125);
        vstd::arithmetic::div_mod::lemma_mod_bound(s / 125, 3);
        vstd::arithmetic::div_mod::lemma_mod_bound(s, 239);
        assert(ps == arctan5@ * 16 - arctan239@ * 4);
        assert(2 * s <= ps <= 4 * s) by (nonlinear_arith)
            requires
                ps == arctan5@ * 16 - arctan239@ * 4,
                q5 - c1 <= arctan5@ <= q5,
                0 <= arctan239@ <= s / 239,
                s == 5 * q5 + s % 5,
                0 <= s % 5 < 5,
                s == 125 * (s / 125) + s % 125,
                0 <= s % 125,
                s / 125 == 3 * c1 + (s / 125) % 3,
                0 <= (s / 125) % 3,
                s == 239 * (s / 239) + s % 239,
                0 <= s % 239,
                s >= 10_000_000_000;
        vstd::arithmetic::power2::lemma_pow2_unfold(k + 1);
        vstd::arithmetic::power2::lemma_pow2_unfold(k + 2);
        vstd::arithmetic::power2::lemma_pow2_unfold(k + 3);
        assert(ps >= pow2(k + 1));
        assert(ps <= pow2(k + 3));
        assert(k <= 4 * m) by {
            vstd::arithmetic::power2::lemma_pow2_unfold(4 * m + 1);
            lemma_pow2_pos(4 * m);
            crate::float_value::lemma_pow2_lt_inv(k, 4 * m + 1);
        }
        lemma_pow2_le(k + 3, prec_limit());
        lemma_pow2_le(4 * m, prec_limit());
    }
    let pi_int = fbig_from_int_at(&pi_scaled, prec);
    let scale_f = fbig_from_int_at(&scale, prec);
    proof {
        assert(ge_p2(pi_int@, (k + 1) as nat - 1));
        assert(le_p2(pi_int@, (k + 3) as nat as int + 1));
        assert(ge_p2(scale_f@, k - 1));
        assert(le_p2(scale_f@, (k + 1) as nat as int + 1));
        lemma_sane_from_p2(pi_int@, prec as nat, k as int, k as int + 4);
        lemma_sane_from_p2(scale_f@, prec as nat, k - 1, k as int + 2);
    }
    let r = fbig_div_at(&pi_int, &scale_f, prec);
    proof {
        assert(le_p2(r@, (k + 4) - (k - 1) + 1));
        assert(ge_p2(r@, k - (k + 2) - 1));
        lemma_sane_from_p2(r@, prec as nat, -3, 6);
        if prec >= 5 {
            lemma_quotient_of_close(r@, pi_int@, scale_f@, ps, s, (prec - 2) as nat);
            lemma_close_ratio_le(r@, s, ps, (prec - 5) as nat);
        }
    }
    r
}

/// Proof that a value within a factor of two of `ps / s`, with `ps ≤ 4s`, is
/// at most `2^3`.
proof fn lemma_close_ratio_le(r: FloatValue, s: int, ps: int, q: nat)
    requires
        s > 0,
        r.sig > 0,
        0 < ps <= 4 * s,
        rel_close(r.sig * s, r.exp, ps, 0, q),
    ensures
        le_p2(r, 3),
{
    let m = if r.exp <= 0 { r.exp } else { 0 };
    let dr = (r.exp - m) as nat;
    let dx = (0 - m) as nat;
    let x = r.sig * s * pow2(dr);
    let y = ps * pow2(dx);
    lemma_pow2_pos(dr);
    lemma_pow2_pos(dx);
    lemma_pow2_pos(q);
    assert(y > 0) by (nonlinear_arith)
        requires y == ps * pow2(dx), ps > 0, pow2(dx) > 0;
    assert(abs_int(x - y) * pow2(q) <= y);
    let ax = abs_int(x - y);
    assert(x <= 2 * y) by (nonlinear_arith)
        requires ax * pow2(q) <= y, x - y <= ax, pow2(q) >= 1, y > 0;
    assert(x <= 8 * s * pow2(dx)) by (nonlinear_arith)
        requires x <= 2 * y, y == ps * pow2(dx), ps <= 4 * s, pow2(dx) > 0;
    vstd::arithmetic::power2::lemma2_to64();
    if r.exp >= 0 {
        assert(dx == 0);
        assert(r.sig * pow2(dr) <= 8) by (nonlinear_arith)
            requires x == r.sig * s * pow2(dr), x <= 8 * s * pow2(dx), pow2(dx) == 1, s > 0;
        if r.exp >= 3 {
            lemma_pow2_adds((r.exp - 3) as nat, 3);
            assert(r.sig * pow2((r.exp - 3) as nat) <= 1) by (nonlinear_arith)
                requires
                    r.sig * pow2(dr) <= 8,
                    pow2(dr) == pow2((r.exp - 3) as nat) * pow2(3),
                    pow2(3) == 8;
        } else {
            lemma_pow2_adds((3 - r.exp) as nat, dr);
            assert(r.sig <= pow2((3 - r.exp) as nat)) by (nonlinear_arith)
                requires
                    r.sig * pow2(dr) <= 8,
                    pow2((3 - r.exp) as nat) * pow2(dr) == pow2(3),
                    pow2(3) == 8,
                    pow2(dr) > 0;
        }
    } else {
        assert(dr == 0);
        lemma_pow2_adds(3, dx);
        assert(r.sig <= pow2((3 - r.exp) as nat)) by (nonlinear_arith)
            requires
                x == r.sig * s * pow2(dr),
                pow2(dr) == 1,
                x <= 8 * s * pow2(dx),
                pow2(3 + dx) == pow2(3) * pow2(dx),
                pow2(3) == 8,
                (3 - r.exp) as nat == 3 + dx,
                s > 0;
    }
}

/// Proof that dividing a value close to `ps` by a value close to `s` (each
/// within `2^-q`), itself within `2^-q`, gives a value within `2^(3-q)` of
/// `ps / s`.
proof fn lemma_quotient_of_close(r: FloatValue, a: FloatValue, f: FloatValue, ps: int, s: int, q: nat)
    requires
        r.sig > 0,
        a.sig > 0,
        f.sig > 0,
        ps > 0,
        s > 0,
        q >= 3,
        rel_close(a.sig, a.exp, ps, 0, q),
        rel_close(f.sig, f.exp, s, 0, q),
        rel_close(r.sig * f.sig, r.exp + f.exp, a.sig, a.exp, q),
    ensures
        rel_close(r.sig * s, r.exp, ps, 0, (q - 3) as nat),
{
    let m0 = if a.exp <= f.exp { a.exp } else { f.exp };
    let m1 = if m0 <= r.exp { m0 } else { r.exp };
    let m = if m1 <= 0 { m1 } else { 0 };
    let da = (a.exp - m) as nat;
    let df = (f.exp - m) as nat;
    let dr = (r.exp - m) as nat;
    let dx = (0 - m) as nat;
    let x = pow2(dx) as int;
    let ai = a.sig * pow2(da);
    let fi = f.sig * pow2(df);
    let ri = r.sig * pow2(dr);
    lemma_pow2_pos(da);
    lemma_pow2_pos(df);
    lemma_pow2_pos(dr);
    lemma_pow2_pos(dx);
    lemma_pow2_pos(q);
    lemma_mul_strictly_positive(a.sig, pow2(da) as int);
    lemma_mul_strictly_positive(f.sig, pow2(df) as int);
    lemma_mul_strictly_positive(r.sig, pow2(dr) as int);
    crate::float_value::lemma_rel_close_at(a.sig, a.exp, ps, 0, q, m);
    crate::float_value::lemma_rel_close_at(f.sig, f.exp, s, 0, q, m);
    crate::float_value::lemma_rel_close_at(r.sig * f.sig, r.exp + f.exp, a.sig, a.exp, q, 2 * m);
    assert((r.exp + f.exp - 2 * m) as nat == dr + df);
    assert((a.exp - 2 * m) as nat == da + dx);
    lemma_pow2_adds(dr, df);
    lemma_pow2_adds(da, dx);
    assert(r.sig * f.sig * pow2(dr + df) == ri * fi) by (nonlinear_arith)
        requires pow2(dr + df) == pow2(dr) * pow2(df), ri == r.sig * pow2(dr), fi == f.sig * pow2(df);
    assert(a.sig * pow2(da + dx) == ai * x) by (nonlinear_arith)
        requires pow2(da + dx) == pow2(da) * pow2(dx), ai == a.sig * pow2(da), x == pow2(dx);
    assert(ps * pow2(dx) > 0) by (nonlinear_arith)
        requires ps > 0, pow2(dx) > 0;
    assert(s * pow2(dx) > 0) by (nonlinear_arith)
        requires s > 0, pow2(dx) > 0;
    assert(abs_int(ps * x) == ps * x);
    assert(abs_int(s * x) == s * x);
    assert(abs_int(ai * x) == ai * x) by (nonlinear_arith)
        requires ai > 0, x > 0;
    assert(pow2(q) >= 2) by {
        lemma_pow2_le(1, q);
        vstd::arithmetic::power2::lemma2_to64();
    }
    crate::float_value::lemma_quotient_close(ri, ai, fi, ps, s, x, pow2(q) as int);
    lemma_pow2_adds((q - 3) as nat, 3);
    assert(pow2(3) == 8) by {
        vstd::arithmetic::power2::lemma2_to64();
    }
    assert(r.sig * s * pow2(dr) == ri * s) by (nonlinear_arith)
        requires ri == r.sig * pow2(dr);
    let g = abs_int(ri * s - ps * x);
    assert(g * pow2((q - 3) as nat) <= ps * x) by (nonlinear_arith)
        requires
            g * pow2(q) <= 8 * (ps * x),
            pow2(q) == pow2((q - 3) as nat) * 8,
            g >= 0;
    crate::float_value::lemma_rel_close_at(r.sig * s, r.exp, ps, 0, (q - 3) as nat, m);
}

} // verus!

verus! {

// ─── Backend ──────────────────────────────────────────────────────────────────

/// `a · b` at the working precision for `p` bits.
pub open spec fn mul_value(a: FloatValue, b: FloatValue, p: nat) -> FloatValue {
    at_prec(fbig_mul(a.sig, a.exp, b.sig, b.exp, ctx_prec(p)), ctx_prec(p))
}

/// `a / b` at the working precision for `p` bits.
pub open spec fn div_value(a: FloatValue, b: FloatValue, p: nat) -> FloatValue {
    at_prec(fbig_div(a.sig, a.exp, b.sig, b.exp, ctx_prec(p)), ctx_prec(p))
}

/// The integer `v` at the working precision for `p` bits.
pub open spec fn int_value(v: int, p: nat) -> FloatValue {
    at_prec(fbig_from_int(v, ctx_prec(p)), ctx_prec(p))
}

/// `a + b` at the larger of their precisions.
pub open spec fn add_value(a: FloatValue, b: FloatValue) -> FloatValue {
    at_prec(
        fbig_add(a.sig, a.exp, a.prec, b.sig, b.exp, b.prec),
        if a.prec >= b.prec { a.prec } else { b.prec },
    )
}

/// Zero, with unlimited precision.
pub open spec fn zero_value() -> FloatValue {
    FloatValue { sig: 0, exp: 0, prec: 0 }
}

/// The bit precision π is computed at for a request of `p` bits: `p` rounded
/// up to a multiple of 64.
pub open spec fn pi_key(p: nat) -> nat {
    ((p + 63) / 64) * 64
}

/// The decimal digits Machin's sums use for a request of `p` bits.
pub open spec fn pi_digits(p: nat) -> nat {
    decimal_digits_for_bits(pi_key(p))
}

/// The decimal digits Machin's sums are scaled by cover the key's bits with
/// room to spare: `digits · log2(10) ≥ key + 63`, with `log2(10)` read from
/// above as `3.321928094887363`.
pub proof fn lemma_pi_digits_cover_key(p: nat)
    ensures
        pi_digits(p) * 3321928094887363 >= (pi_key(p) + 63) * 1_000_000_000_000_000,
{
    let key = pi_key(p);
    let num = key * (TWO_POW_51 as nat);
    let den = LOG2_10_MANTISSA as nat;
    let k = num / den;
    vstd::arithmetic::div_mod::lemma_fundamental_div_mod(num as int, den as int);
    vstd::arithmetic::div_mod::lemma_mod_bound(num as int, den as int);
    assert(ceil_nearest_double(num, den) >= k);
    let d = pi_digits(p);
    assert(d >= k + 20);
    let rem = num % den;
    assert(num == den * k + rem);
    assert(rem < den);
    assert((k + 1) * den > num) by (nonlinear_arith)
        requires num == den * k + rem, rem < den;
    assert(d * 3321928094887363 >= (key + 63) * 1_000_000_000_000_000) by (nonlinear_arith)
        requires
            d >= k + 20,
            (k + 1) * den > num,
            num == key * 2251799813685248,
            den == 7480317065143153,
            k >= 0;
}

/// Proof that `10^e ≥ 2^(3e)`.
proof fn lemma_pow10_ge_eighths(e: nat)
    ensures
        pow(10, e) >= pow2(3 * e),
    decreases e,
{
    reveal(pow);
    if e == 0 {
        vstd::arithmetic::power2::lemma2_to64();
    } else {
        lemma_pow10_ge_eighths((e - 1) as nat);
        assert(pow(10, e) == 10 * pow(10, (e - 1) as nat));
        lemma_pow2_adds(3 * ((e - 1) as nat), 3);
        vstd::arithmetic::power2::lemma2_to64();
        assert(3 * e == 3 * ((e - 1) as nat) + 3);
        lemma_pow2_pos(3 * ((e - 1) as nat));
    }
}

/// Proof that `10^(28u) ≥ 2^(93u)`, from `10^28 ≥ 2^93`.
proof fn lemma_pow10_ge_blocks(u: nat)
    ensures
        pow(10, 28 * u) >= pow2(93 * u),
    decreases u,
{
    if u == 0 {
        reveal(pow);
        vstd::arithmetic::power2::lemma2_to64();
    } else {
        let u1 = (u - 1) as nat;
        lemma_pow10_ge_blocks(u1);
        assert(pow(10, 28) == 10_000_000_000_000_000_000_000_000_000) by {
            reveal_with_fuel(pow, 29);
        }
        vstd::arithmetic::power2::lemma2_to64();
        vstd::arithmetic::power2::lemma2_to64_rest();
        lemma_pow2_adds(64, 29);
        assert(pow2(93) == 9903520314283042199192993792);
        assert(28 * u == 28 * u1 + 28);
        assert(93 * u == 93 * u1 + 93);
        lemma_pow_adds(10, 28 * u1, 28);
        lemma_pow2_adds(93 * u1, 93);
        lemma_pow2_pos(93 * u1);
        let x = pow(10, 28 * u1);
        let y = pow2(93 * u1) as int;
        assert(x * pow(10, 28) >= y * pow2(93)) by (nonlinear_arith)
            requires
                x >= y,
                y > 0,
                pow(10, 28) >= pow2(93),
                pow2(93) > 0;
    }
}

/// For requests up to 100 000 bits, Machin's sums are scaled by at least
/// `2^(key + 64)`: the scale carries 64 bits beyond the key's precision.
pub proof fn lemma_machin_scale_covers_key(p: nat)
    requires
        p <= 100_000,
    ensures
        machin_scale(pi_digits(p)) >= pow2(pi_key(p) + 64),
{
    let key = pi_key(p);
    assert(key <= p + 63) by (nonlinear_arith)
        requires key == ((p + 63) / 64) * 64;
    let num = key * (TWO_POW_51 as nat);
    let den = LOG2_10_MANTISSA as nat;
    let k = num / den;
    vstd::arithmetic::div_mod::lemma_fundamental_div_mod(num as int, den as int);
    vstd::arithmetic::div_mod::lemma_mod_bound(num as int, den as int);
    let rem = num % den;
    assert(num == den * k + rem);
    let d = pi_digits(p);
    assert(k + 20 <= d <= k + 21);
    let a = d + 10;
    let u = a / 28;
    let z = a % 28;
    assert(a == 28 * u + z);
    assert((k + 1) * den > num) by (nonlinear_arith)
        requires num == den * k + rem, rem < den;
    assert(k * den <= num) by (nonlinear_arith)
        requires num == den * k + rem, rem >= 0;
    // the digits' bits beat the key by 64 once blocks of 28 digits count 93 bits
    assert(93 * u + 3 * z >= key + 64) by (nonlinear_arith)
        requires
            (k + 1) * den > num,
            k * den <= num,
            num == key * 2251799813685248,
            den == 7480317065143153,
            key <= 100_063,
            k + 20 <= d <= k + 21,
            a == d + 10,
            a == 28 * u + z,
            0 <= z < 28;
    lemma_pow10_ge_blocks(u);
    lemma_pow10_ge_eighths(z);
    lemma_pow_adds(10, 28 * u, z);
    lemma_pow2_adds(93 * u, 3 * z);
    lemma_pow2_pos(93 * u);
    lemma_pow2_pos(3 * z);
    let x = pow(10, 28 * u);
    let y = pow(10, z);
    assert(x * y >= pow2(93 * u) * pow2(3 * z)) by (nonlinear_arith)
        requires
            x >= pow2(93 * u),
            y >= pow2(3 * z),
            pow2(93 * u) > 0,
            pow2(3 * z) > 0;
    lemma_pow2_le(key + 64, 93 * u + 3 * z);
}

/// Proof that for `j` even and `n > j` the alternating partial sum after `n`
/// terms lies between those after `j + 2` and `j + 1` terms, the terms not
/// growing.
proof fn lemma_partial_bracket(scale: int, x: int, j: nat, n: nat)
    requires
        scale >= 0,
        x >= 1,
        j % 2 == 0,
        j + 1 <= n,
    ensures
        arctan_partial(scale, x, j + 2) <= arctan_partial(scale, x, n) <= arctan_partial(scale, x, j + 1),
    decreases n,
{
    lemma_term_nonincreasing(scale, x, j);
    lemma_term_nonincreasing(scale, x, j + 1);
    if n <= j + 2 {
    } else {
        let n1 = (n - 1) as nat;
        let n2 = (n - 2) as nat;
        lemma_partial_bracket(scale, x, j, n1);
        lemma_term_nonincreasing(scale, x, n2);
        lemma_term_order(scale, x, n2, n2);
        if n2 >= j + 1 {
            lemma_partial_bracket(scale, x, j, n2);
        }
        assert(arctan_partial(scale, x, n) == arctan_partial(scale, x, n1)
            + if n1 % 2 == 0 { arctan_term(scale, x, n1) } else { -arctan_term(scale, x, n1) });
        assert(arctan_partial(scale, x, n1) == arctan_partial(scale, x, n2)
            + if n2 % 2 == 0 { arctan_term(scale, x, n2) } else { -arctan_term(scale, x, n2) });
    }
}

/// Proof that `x^n ≥ n + 1` for `x ≥ 2`.
proof fn lemma_pow_grows(x: int, n: nat)
    requires
        x >= 2,
    ensures
        pow(x, n) >= n + 1,
    decreases n,
{
    reveal(pow);
    if n > 0 {
        lemma_pow_grows(x, (n - 1) as nat);
        assert(x * pow(x, (n - 1) as nat) >= 2 * pow(x, (n - 1) as nat)) by (nonlinear_arith)
            requires x >= 2, pow(x, (n - 1) as nat) >= 0;
    }
}

/// Proof that for `x ≥ 2` the term at index `n = scale` truncates to zero.
proof fn lemma_late_term_zero(scale: int, x: int)
    requires
        scale >= 0,
        x >= 2,
    ensures
        arctan_term(scale, x, scale as nat) == 0,
{
    let n = scale as nat;
    lemma_pow_grows(x, 2 * n + 1);
    assert(arctan_power_term(scale, x, n) == 0) by {
        vstd::arithmetic::div_mod::lemma_basic_div(scale, pow(x, 2 * n + 1));
    }
}

/// Machin's numerator is π times the scale to six decimals:
/// `3.141592 · scale ≤ machin_numerator ≤ 3.141593 · scale`, from the first
/// six terms of `arctan(1/5)` and the first two of `arctan(1/239)` bracketing
/// the alternating sums.
pub proof fn lemma_machin_numerator_near_pi(digits: nat)
    ensures
        3141592 * machin_scale(digits) <= 1_000_000 * machin_numerator(digits),
        1_000_000 * machin_numerator(digits) <= 3141593 * machin_scale(digits),
{
    let s = machin_scale(digits);
    lemma_pow10_bounds(digits + 10);
    assert(s >= 10_000_000_000);
    assert(abs_int(s) == s);
    // arctan(1/5): between the partial sums of six and five terms
    lemma_late_term_zero(s, 5);
    lemma_arctan_value_at_zero_term(s, 5, s as nat);
    lemma_partial_bracket(s, 5, 4, s as nat);
    // arctan(1/239): between the partial sums of two terms and one
    lemma_late_term_zero(s, 239);
    lemma_arctan_value_at_zero_term(s, 239, s as nat);
    lemma_partial_bracket(s, 239, 0, s as nat);
    assert(pow(5, 1) == 5 && pow(5, 3) == 125 && pow(5, 5) == 3125 && pow(5, 7) == 78125
        && pow(5, 9) == 1953125 && pow(5, 11) == 48828125) by {
        reveal_with_fuel(pow, 12);
    }
    assert(pow(239, 1) == 239 && pow(239, 3) == 13651919) by {
        reveal_with_fuel(pow, 4);
    }
    let a0 = s / 5;
    let a1 = (s / 125) / 3;
    let a2 = (s / 3125) / 5;
    let a3 = (s / 78125) / 7;
    let a4 = (s / 1953125) / 9;
    let a5 = (s / 48828125) / 11;
    assert(arctan_term(s, 5, 0) == a0 / 1);
    assert(arctan_term(s, 5, 1) == a1);
    assert(arctan_term(s, 5, 2) == a2);
    assert(arctan_term(s, 5, 3) == a3);
    assert(arctan_term(s, 5, 4) == a4);
    assert(arctan_term(s, 5, 5) == a5);
    let b0 = s / 239;
    let b1 = (s / 13651919) / 3;
    assert(arctan_term(s, 239, 0) == b0 / 1);
    assert(arctan_term(s, 239, 1) == b1);
    reveal_with_fuel(arctan_partial, 7);
    let p5 = a0 - a1 + a2 - a3 + a4;
    let p6 = p5 - a5;
    assert(arctan_partial(s, 5, 5) == p5);
    assert(arctan_partial(s, 5, 6) == p6);
    assert(arctan_partial(s, 239, 1) == b0);
    assert(arctan_partial(s, 239, 2) == b0 - b1);
    let v5 = arctan_value(s, 5);
    let v239 = arctan_value(s, 239);
    assert(p6 <= v5 <= p5);
    assert(b0 - b1 <= v239 <= b0);
    assert(machin_numerator(digits) == v5 * 4 * 4 - v239 * 4);
    assert(3141592 * s <= 1_000_000 * (16 * p6 - 4 * b0));
    assert(1_000_000 * (16 * p5 - 4 * (b0 - b1)) <= 3141593 * s);
}

/// Proof that a value within a relative `2^-q`, `q ≥ 20`, of `n / s` with
/// `3.141592 ≤ n / s ≤ 3.141593` lies between `3.14158` and `3.14160`
/// (`v = w / den` without division).
proof fn lemma_near_pi(r: FloatValue, s: int, n: int, q: nat)
    requires
        r.sig > 0,
        s > 0,
        q >= 20,
        3141592 * s <= 1_000_000 * n,
        1_000_000 * n <= 3141593 * s,
        rel_close(r.sig * s, r.exp, n, 0, q),
    ensures
        314158 * pow2((if r.exp < 0 { -r.exp } else { 0 }) as nat)
            <= 100_000 * (r.sig * pow2((if r.exp > 0 { r.exp } else { 0 }) as nat)),
        100_000 * (r.sig * pow2((if r.exp > 0 { r.exp } else { 0 }) as nat))
            <= 314160 * pow2((if r.exp < 0 { -r.exp } else { 0 }) as nat),
{
    let ne = (if r.exp < 0 { -r.exp } else { 0 }) as nat;
    let pe = (if r.exp > 0 { r.exp } else { 0 }) as nat;
    let den = pow2(ne) as int;
    let w = r.sig * pow2(pe);
    let m = if r.exp <= 0 { r.exp } else { 0 };
    assert((r.exp - m) as nat == pe);
    assert((0 - m) as nat == ne);
    lemma_pow2_pos(ne);
    lemma_pow2_pos(q);
    lemma_pow2_le(20, q);
    vstd::arithmetic::power2::lemma2_to64();
    let t = pow2(q) as int;
    assert(t >= 1048576);
    assert(n > 0);
    let x = w * s;
    let y = n * den;
    assert(r.sig * s * pow2(pe) == x) by (nonlinear_arith)
        requires w == r.sig * pow2(pe), x == w * s;
    assert(abs_int(x - y) * t <= abs_int(y));
    assert(y > 0) by (nonlinear_arith)
        requires y == n * den, n > 0, den > 0;
    let ax = abs_int(x - y);
    assert(x * t <= y * (t + 1)) by (nonlinear_arith)
        requires ax * t <= y, x - y <= ax, t > 0;
    assert(x * t >= y * (t - 1)) by (nonlinear_arith)
        requires ax * t <= y, y - x <= ax, t > 0;
    assert(1_000_000 * y <= 3141593 * s * den) by (nonlinear_arith)
        requires y == n * den, 1_000_000 * n <= 3141593 * s, den > 0;
    assert(1_000_000 * y >= 3141592 * s * den) by (nonlinear_arith)
        requires y == n * den, 3141592 * s <= 1_000_000 * n, den > 0;
    assert(1_000_000 * x * t <= 3141600 * s * den * t) by (nonlinear_arith)
        requires
            x * t <= y * (t + 1),
            1_000_000 * y <= 3141593 * s * den,
            t >= 1048576,
            s > 0,
            den > 0;
    assert(1_000_000 * x * t >= 3141580 * s * den * t) by (nonlinear_arith)
        requires
            x * t >= y * (t - 1),
            1_000_000 * y >= 3141592 * s * den,
            t >= 1048576,
            s > 0,
            den > 0;
    assert(100_000 * w <= 314160 * den) by (nonlinear_arith)
        requires 1_000_000 * x * t <= 3141600 * s * den * t, x == w * s, t > 0, s > 0;
    assert(314158 * den <= 100_000 * w) by (nonlinear_arith)
        requires 1_000_000 * x * t >= 3141580 * s * den * t, x == w * s, t > 0, s > 0;
}

/// π as computed for a request of `p` bits.
pub open spec fn pi_value(p: nat) -> FloatValue {
    machin_pi_value(ctx_prec(pi_key(p)), decimal_digits_for_bits(pi_key(p)))
}

/// Proof that π is the same for requests whose precisions round up to the
/// same multiple of 64.
pub proof fn lemma_pi_shares_key(p1: nat, p2: nat)
    requires
        pi_key(p1) == pi_key(p2),
    ensures
        pi_value(p1) == pi_value(p2),
{
}

/// `1 / 2^(p + 64)` at the working precision for `p` bits.
pub open spec fn epsilon_value(p: nat) -> FloatValue {
    div_value(int_value(1, p), int_value(pow2(p + 64) as int, p), p)
}

impl DashuFloat {
    /// A copy of the value.
    pub fn copy(&self) -> (r: DashuFloat)
        ensures
            r@ == self@,
    {
        DashuFloat { significand: self.significand.copy(), exponent: self.exponent, precision: self.precision }
    }

    /// Return the absolute value.
    pub fn abs(&self) -> (r: DashuFloat)
        ensures
            r@ == abs_value(self@),
    {
        let significand = BigInt { negative: false, words: self.significand.words.clone() };
        assert(significand.words@ == self.significand.words@);
        DashuFloat { significand, exponent: self.exponent, precision: self.precision }
    }

    /// Return `true` if this value is strictly less than `other`.
    pub fn lt(&self, other: &Self) -> (r: bool)
        requires
            float_sane(self@),
            float_sane(other@),
                exps_diff_ok(self@, other@),
    ensures
            r == value_lt(self@, other@),
    {
        fbig_lt(self, other)
    }

    /// Add `other` into `self` in place, at the larger of the two precisions.
    pub fn add_assign(&mut self, other: &Self)
        requires
            float_sane(old(self)@),
            float_sane(other@),
            old(self)@.prec >= 2 || other@.prec >= 2,
                exps_diff_ok(old(self)@, other@),
    ensures
            final(self)@ == add_value(old(self)@, other@),
            float_shape(final(self)@, final(self)@.prec),
            old(self)@.sig >= 0 && other@.sig >= 0 ==> final(self)@.sig >= 0,
            forall|k: int|
                #![trigger ge_p2(old(self)@, k), ge_p2(final(self)@, k - 1)]
                old(self)@.sig >= 0 && other@.sig >= 0 && ge_p2(old(self)@, k) ==> ge_p2(final(self)@, k - 1),
            forall|k: int|
                #![trigger ge_p2(other@, k), ge_p2(final(self)@, k - 1)]
                old(self)@.sig >= 0 && other@.sig >= 0 && ge_p2(other@, k) ==> ge_p2(final(self)@, k - 1),
            forall|k: int|
                #![trigger le_p2(old(self)@, k), le_p2(other@, k)]
                old(self)@.sig >= 0 && other@.sig >= 0 && le_p2(old(self)@, k) && le_p2(other@, k)
                    ==> le_p2(final(self)@, k + 2),
            old(self)@.sig == 0 ==> value_eq(final(self)@, other@),
            other@.sig == 0 ==> value_eq(final(self)@, old(self)@),
            old(self)@.sig >= 0 && other@.sig >= 0
                ==> !value_lt(final(self)@, old(self)@) && !value_lt(final(self)@, other@),
            rel_close(
                final(self)@.sig,
                final(self)@.exp,
                old(self)@.sig * pow2((old(self)@.exp - if old(self)@.exp <= other@.exp { old(self)@.exp } else { other@.exp }) as nat)
                    + other@.sig * pow2((other@.exp - if old(self)@.exp <= other@.exp { old(self)@.exp } else { other@.exp }) as nat),
                if old(self)@.exp <= other@.exp { old(self)@.exp } else { other@.exp },
                ((if old(self)@.prec >= other@.prec { old(self)@.prec } else { other@.prec }) - 2) as nat,
            ),
    {
        let r = fbig_add_to(self, other);
        *self = r;
    }
}

/// `v` rounded to the nearest integer, halves away from zero.
pub open spec fn round_half_away(v: FloatValue) -> int {
    if v.exp >= 0 {
        v.sig * pow2(v.exp as nat)
    } else {
        let d = pow2((-v.exp) as nat) as int;
        let m = abs_int(v.sig);
        let n = if 2 * (m % d) >= d { m / d + 1 } else { m / d };
        if v.sig < 0 {
            -n
        } else {
            n
        }
    }
}

/// `round_half_away(v)` is a nearest integer to `v = sig · 2^exp`, and on a
/// tie the one farther from zero: with `v = w / den`, `den = 2^-exp` for a
/// negative exponent, `|2(n · den − w)| ≤ den`, equality only when
/// `|n| · den > |w|`; and `n` has the sign of `v`.
pub proof fn lemma_round_half_away_nearest(v: FloatValue)
    ensures
        ({
            let den = pow2((if v.exp < 0 { -v.exp } else { 0 }) as nat) as int;
            let w = v.sig * pow2((if v.exp > 0 { v.exp } else { 0 }) as nat);
            let n = round_half_away(v);
            &&& 2 * abs_int(n * den - w) <= den
            &&& 2 * abs_int(n * den - w) == den ==> abs_int(n) * den > abs_int(w)
            &&& n * w >= 0
        }),
{
    let den = pow2((if v.exp < 0 { -v.exp } else { 0 }) as nat) as int;
    let w = v.sig * pow2((if v.exp > 0 { v.exp } else { 0 }) as nat);
    let n = round_half_away(v);
    if v.exp >= 0 {
        vstd::arithmetic::power2::lemma2_to64();
        assert(den == 1);
        assert(n == w);
        assert(n * w >= 0) by (nonlinear_arith)
            requires n == w;
    } else {
        let d = pow2((-v.exp) as nat) as int;
        lemma_pow2_pos((-v.exp) as nat);
        vstd::arithmetic::power2::lemma2_to64();
        assert((if v.exp > 0 { v.exp } else { 0 }) as nat == 0);
        assert(pow2(0) == 1);
        assert(v.sig * pow2(0) == v.sig);
        assert(w == v.sig);
        assert(den == d);
        let m = abs_int(v.sig);
        let q = m / d;
        let r = m % d;
        vstd::arithmetic::div_mod::lemma_fundamental_div_mod(m, d);
        vstd::arithmetic::div_mod::lemma_mod_bound(m, d);
        vstd::arithmetic::div_mod::lemma_div_pos_is_pos(m, d);
        let nm = if 2 * r >= d { q + 1 } else { q };
        assert(m == d * q + r);
        assert(nm * d - m == if 2 * r >= d { d - r } else { -r }) by (nonlinear_arith)
            requires m == d * q + r, nm == if 2 * r >= d { q + 1 } else { q };
        assert(2 * abs_int(nm * d - m) <= d);
        assert(2 * abs_int(nm * d - m) == d ==> nm * d > m);
        assert(nm >= 0);
        if v.sig < 0 {
            assert(n == -nm);
            assert(n * den - w == -(nm * d - m)) by (nonlinear_arith)
                requires n == -nm, den == d, w == v.sig, m == -v.sig;
            assert(abs_int(n) * den == nm * d);
            assert(n * w == nm * m) by (nonlinear_arith)
                requires n == -nm, w == v.sig, m == -v.sig;
            assert(nm * m >= 0) by (nonlinear_arith)
                requires nm >= 0, m >= 0;
        } else {
            assert(n == nm);
            assert(n * w >= 0) by (nonlinear_arith)
                requires n == nm, nm >= 0, w == v.sig, v.sig >= 0;
        }
    }
}

/// The text of `v` with `digits` digits after the point: for no digits, the
/// numeral of `v` rounded to the nearest integer (halves away from zero);
/// otherwise the decimal with `digits + 20` significant digits cut or padded
/// to `digits` fractional digits.
pub open spec fn decimal_string_value(v: FloatValue, digits: nat) -> Seq<char> {
    if digits == 0 {
        int_text(round_half_away(v))
    } else {
        fixed_point_text(fbig_decimal(v.sig, v.exp, digits + 20), digits)
    }
}

impl DashuFloat {
    /// The value rounded to the nearest integer, halves away from zero.
    pub fn rounded_integer(&self) -> (r: BigInt)
        requires
            float_sane(self@),
        ensures
            r@ == round_half_away(self@),
    {
        if self.exponent >= 0 {
            return big_shl(&self.significand, self.exponent as usize);
        }
        let shift = (-(self.exponent + 1)) as usize + 1;
        let magnitude = BigInt { negative: false, words: self.significand.words.clone() };
        assert(magnitude.words@ == self.significand.words@);
        let one = BigInt::from_u64(1);
        let unit = big_shl(&one, shift);
        let ghost d = pow2(shift as nat) as int;
        proof {
            lemma_pow2_pos(shift as nat);
        }
        let q = big_div(&magnitude, &unit);
        let covered = big_mul(&q, &unit);
        let rest = big_sub(&magnitude, &covered);
        let twice = big_add(&rest, &rest);
        let excess = big_sub(&twice, &unit);
        proof {
            let m = magnitude@;
            assert(m == abs_int(self@.sig));
            assert(unit@ == d);
            assert(q@ == m / d);
            assert(covered@ == q@ * d);
            vstd::arithmetic::div_mod::lemma_fundamental_div_mod(m, d);
            vstd::arithmetic::mul::lemma_mul_is_commutative(d, m / d);
            assert(rest@ == m % d);
        }
        let n = if excess.is_negative() { q } else { big_add(&q, &one) };
        if self.significand.negative {
            let zero = BigInt::from_u64(0);
            big_sub(&zero, &n)
        } else {
            n
        }
    }

    /// The value in decimal rounded to `digits` significant digits, as
    /// `dashu` writes it.
    pub fn to_significant_decimal(&self, digits: usize) -> (r: String)
        requires
            float_sane(self@),
            digits >= 1,
        ensures
            r@ == fbig_decimal(self@.sig, self@.exp, digits as nat),
            plain_decimal_chars(r@),
            is_numeral(r@),
            forall|e: nat|
                below_ten_pow(self@.sig, self@.exp, digits - 1 - e)
                    ==> #[trigger] numeral_within(r@, self@.sig, self@.exp, e),
            find_char(r@, '.') is Some ==> numeral_within(r@, self@.sig, self@.exp, numeral_frac(r@)),
    {
        fbig_to_decimal(self, digits)
    }

    /// Format as a decimal string with exactly `digits` digits after the point
    /// (and no point for zero digits, where the value is rounded to an
    /// integer).
    pub fn to_decimal_string(&self, digits: u32) -> (r: String)
        requires
            float_sane(self@),
            digits as int + 20 <= usize::MAX,
        ensures
            r@ == decimal_string_value(self@, digits as nat),
            digits > 0 ==> find_char(r@, '.') == Some((r@.len() - digits - 1) as nat),
            digits > 0 && below_ten_pow(self@.sig, self@.exp, 19)
                ==> numeral_within(r@, self@.sig, self@.exp, digits as nat),
            digits == 0 ==> is_numeral(r@) && numeral_frac(r@) == 0
                && numeral_num(r@) == round_half_away(self@)
                && numeral_within(r@, self@.sig, self@.exp, 0),
    {
        if digits == 0 {
            let n = self.rounded_integer();
            proof {
                lemma_int_text_value(n@);
                lemma_round_half_away_nearest(self@);
                let den = pow2((if self@.exp < 0 { -self@.exp } else { 0 }) as nat) as int;
                lemma_pow2_pos((if self@.exp < 0 { -self@.exp } else { 0 }) as nat);
                assert(ten_pow(0) == 1);
                let w = self@.sig * pow2((if self@.exp > 0 { self@.exp } else { 0 }) as nat);
                assert(self@.sig * pow2((if self@.exp > 0 { self@.exp } else { 0 }) as nat) * ten_pow(0) == w);
                assert(abs_int(n@ * den - w) * ten_pow(0) < ten_pow(0) * den);
            }
            return big_to_decimal(&n);
        }
        let target_prec = digits as usize;
        let s = fbig_to_decimal(self, target_prec + 20);
        proof {
            lemma_fixed_point_has_digits(s@, digits as nat);
            if below_ten_pow(self@.sig, self@.exp, 19) {
                assert(numeral_within(s@, self@.sig, self@.exp, digits as nat));
                lemma_fixed_point_within(s@, digits as nat, self@.sig, self@.exp);
            }
        }
        format_fixed(&s, digits)
    }
}

/// Pure-Rust arbitrary-precision backend (dashu).
pub struct DashuBackend;

impl DashuBackend {
    /// Compute π to at least `precision_bits` of precision, by Machin's formula
    /// at `precision_bits` rounded up to a multiple of 64: the value is within
    /// a relative `2^-(key + 59)` of Machin's integer ratio
    /// `machin_numerator / machin_scale`, `key ≥ precision_bits` being that
    /// rounded precision. That ratio is π to six decimals, and the value lies
    /// between `3.14158` and `3.14160`.
    pub fn pi(precision_bits: u32) -> (r: DashuFloat)
        requires
            precision_bits as int + 63 <= u32::MAX,
            precision_bits as int + 127 <= usize::MAX,
        ensures
            r@ == pi_value(precision_bits as nat),
            float_sane(r@),
            r@.sig > 0,
            ge_p2(r@, -3),
            le_p2(r@, 6),
            le_p2(r@, 3),
            pi_key(precision_bits as nat) >= precision_bits,
            rel_close(
                r@.sig * machin_scale(pi_digits(precision_bits as nat)),
                r@.exp,
                machin_numerator(pi_digits(precision_bits as nat)),
                0,
                pi_key(precision_bits as nat) + 59,
            ),
            314158 * pow2((if r@.exp < 0 { -r@.exp } else { 0 }) as nat)
                <= 100_000 * (r@.sig * pow2((if r@.exp > 0 { r@.exp } else { 0 }) as nat)),
            100_000 * (r@.sig * pow2((if r@.exp > 0 { r@.exp } else { 0 }) as nat))
                <= 314160 * pow2((if r@.exp < 0 { -r@.exp } else { 0 }) as nat),
    {
        let key = ((precision_bits + 63) / 64) * 64;
        assert(key <= precision_bits + 63) by (nonlinear_arith)
            requires key == ((precision_bits + 63) / 64) * 64;
        assert(key >= precision_bits) by (nonlinear_arith)
            requires key == ((precision_bits + 63) / 64) * 64;
        let digits = bits_to_decimal_digits(key);
        let ctx = make_ctx(key);
        let r = machin_pi(ctx, digits);
        proof {
            lemma_machin_numerator_near_pi(digits as nat);
            lemma_pow10_bounds(digits as nat + 10);
            lemma_near_pi(r@, machin_scale(digits as nat), machin_numerator(digits as nat), (ctx - 5) as nat);
        }
        r
    }

    /// Multiply two values and return the result at `precision_bits` (plus 64
    /// guard bits).
    pub fn mul(a: &DashuFloat, b: &DashuFloat, precision_bits: u32) -> (r: DashuFloat)
        requires
            float_sane(a@),
            float_sane(b@),
            precision_bits as int + 64 <= usize::MAX,
                exps_sum_ok(a@, b@),
    ensures
            r@ == mul_value(a@, b@, precision_bits as nat),
            float_shape(r@, ctx_prec(precision_bits as nat)),
            a@.sig > 0 && b@.sig > 0 ==> r@.sig > 0,
            forall|ka: int, kb: int|
                #![trigger le_p2(a@, ka), le_p2(b@, kb)]
                le_p2(a@, ka) && le_p2(b@, kb) ==> le_p2(r@, ka + kb + 1),
            forall|ka: int, kb: int|
                #![trigger ge_p2(a@, ka), ge_p2(b@, kb)]
                ge_p2(a@, ka) && ge_p2(b@, kb) ==> ge_p2(r@, ka + kb - 1),
            r@ == mul_value(b@, a@, precision_bits as nat),
            rel_close(r@.sig, r@.exp, a@.sig * b@.sig, a@.exp + b@.exp, (ctx_prec(precision_bits as nat) - 2) as nat),
    {
        let ctx = make_ctx(precision_bits);
        fbig_mul_at(a, b, ctx)
    }

    /// Divide `num / den` and return the result at `precision_bits` (plus 64
    /// guard bits).
    pub fn div(num: &DashuFloat, den: &DashuFloat, precision_bits: u32) -> (r: DashuFloat)
        requires
            float_sane(num@),
            float_sane(den@),
            den@.sig != 0,
            precision_bits as int + 64 <= usize::MAX,
                exps_diff_ok(num@, den@),
    ensures
            r@ == div_value(num@, den@, precision_bits as nat),
            float_shape(r@, ctx_prec(precision_bits as nat)),
            num@.sig > 0 && den@.sig > 0 ==> r@.sig > 0,
            forall|ka: int, kb: int|
                #![trigger le_p2(num@, ka), ge_p2(den@, kb)]
                le_p2(num@, ka) && ge_p2(den@, kb) ==> le_p2(r@, ka - kb + 1),
            forall|ka: int, kb: int|
                #![trigger ge_p2(num@, ka), le_p2(den@, kb)]
                ge_p2(num@, ka) && le_p2(den@, kb) ==> ge_p2(r@, ka - kb - 1),
            rel_close(r@.sig * den@.sig, r@.exp + den@.exp, num@.sig, num@.exp, (ctx_prec(precision_bits as nat) - 2) as nat),
    {
        let ctx = make_ctx(precision_bits);
        fbig_div_at(num, den, ctx)
    }

    /// Convert an exact `u64` integer to a float at `precision_bits` (plus 64
    /// guard bits).
    pub fn from_u64(value: u64, precision_bits: u32) -> (r: DashuFloat)
        requires
            precision_bits as int + 64 <= usize::MAX,
        ensures
            r@ == int_value(value as int, precision_bits as nat),
            float_shape(r@, ctx_prec(precision_bits as nat)),
            value > 0 ==> r@.sig > 0,
            forall|k: int| #![trigger ge_p2(r@, k)] k >= -1 && value >= pow2((k + 1) as nat) ==> ge_p2(r@, k),
            forall|k: int| #![trigger le_p2(r@, k)] k >= 1 && value <= pow2((k - 1) as nat) ==> le_p2(r@, k),
            equals_int(r@, value as int),
    {
        let ctx = make_ctx(precision_bits);
        let v = BigInt::from_u64(value);
        proof {
            vstd::arithmetic::power2::lemma2_to64();
            lemma_pow2_le(64, prec_limit());
            lemma_pow2_le(64, ctx as nat);
        }
        fbig_from_int_at(&v, ctx)
    }

    /// Compute `2^exp` as a float, from the exact integer `1 << exp`.
    pub fn two_pow(exp: u32, precision_bits: u32) -> (r: DashuFloat)
        requires
            precision_bits as int + 64 <= usize::MAX,
        ensures
            r@ == int_value(pow2(exp as nat) as int, precision_bits as nat),
            float_shape(r@, ctx_prec(precision_bits as nat)),
            r@.sig > 0,
            ge_p2(r@, exp - 1),
            le_p2(r@, exp + 1),
            equals_int(r@, pow2(exp as nat) as int),
    {
        let ctx = make_ctx(precision_bits);
        let one = BigInt::from_u64(1);
        let power = big_shl(&one, exp as usize);
        proof {
            lemma_pow2_pos(exp as nat);
            vstd::arithmetic::power2::lemma_pow2_strictly_increases(exp as nat, prec_limit());
            assert(power@ == pow2(exp as nat));
            assert(is_power_of_two(power@));
        }
        let r = fbig_from_int_at(&power, ctx);
        proof {
            assert(abs_int(power@) >= pow2(exp as nat));
            assert(abs_int(power@) <= pow2(exp as nat));
        }
        r
    }

    /// Create a zero value.
    pub fn zero(_precision_bits: u32) -> (r: DashuFloat)
        ensures
            r@ == zero_value(),
    {
        DashuFloat {
            significand: BigInt { negative: false, words: Vec::new() },
            exponent: 0,
            precision: 0,
        }
    }

    /// Convergence epsilon: `1 / 2^(precision_bits + 64)`.
    #[verifier::rlimit(30)]
    pub fn epsilon(precision_bits: u32) -> (r: DashuFloat)
        requires
            precision_bits as int + 64 <= u32::MAX,
            precision_bits as int + 64 <= usize::MAX,
        ensures
            r@ == epsilon_value(precision_bits as nat),
            float_sane(r@),
            r@.sig > 0,
            ge_p2(r@, -(precision_bits + 64) - 3),
            le_p2(r@, -(precision_bits + 64) + 3),
    {
        let exp = precision_bits + 64;
        let ctx = make_ctx(precision_bits);
        let one_int = BigInt::from_u64(1);
        let den_int = big_shl(&one_int, exp as usize);
        proof {
            vstd::arithmetic::power2::lemma2_to64();
            lemma_pow2_pos(exp as nat);
            lemma_pow2_le(0, prec_limit());
            vstd::arithmetic::power2::lemma_pow2_strictly_increases(exp as nat, prec_limit());
            assert(one_int@ == 1);
            assert((exp as usize) as nat == exp as nat);
            assert(den_int@ == 1 * pow2(exp as nat));
            assert(den_int@ == pow2(exp as nat));
            assert(abs_int(den_int@) < pow2(prec_limit()));
            assert(abs_int(den_int@) >= pow2(exp as nat));
            assert(abs_int(den_int@) <= pow2(exp as nat));
        }
        let one = fbig_from_int_at(&one_int, ctx);
        let den = fbig_from_int_at(&den_int, ctx);
        proof {
            assert(pow2(0) == 1);
            assert(ge_p2(one@, -1));
            assert(le_p2(one@, 1));
            assert(ge_p2(den@, exp - 1));
            assert(le_p2(den@, exp as int + 1));
            lemma_sane_from_p2(one@, ctx as nat, -1, 1);
            lemma_sane_from_p2(den@, ctx as nat, exp - 1, exp as int + 1);
        }
        let r = fbig_div_at(&one, &den, ctx);
        proof {
            assert(le_p2(r@, 1 - (exp - 1) + 1));
            assert(ge_p2(r@, -1 - (exp as int + 1) - 1));
            lemma_sane_from_p2(r@, ctx as nat, -(exp as int) - 3, -(exp as int) + 3);
        }
        r
    }
}

} // verus!
