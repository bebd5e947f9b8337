//! Floats as numbers: significand, exponent and precision, with power-of-two
//! bounds on their magnitude.

use vstd::prelude::*;
use vstd::arithmetic::power2::{pow2, lemma_pow2_adds, lemma_pow2_pos, lemma_pow2_strictly_increases};
use vstd::arithmetic::mul::{lemma_mul_left_inequality, lemma_mul_strictly_positive};
use crate::bigint::abs_int;

verus! {

/// A float as numbers: the value is `sig · 2^exp`; `prec` is the number of
/// significant bits the value is rounded to, 0 meaning unlimited.
pub struct FloatValue {
    pub sig: int,
    pub exp: int,
    pub prec: nat,
}

/// The largest exponent magnitude the float operations are used with.
pub open spec fn exp_limit() -> int {
    0x4000_1000_0000_0000
}

/// The exponents of `a` and `b` add up to within the limit.
pub open spec fn exps_sum_ok(a: FloatValue, b: FloatValue) -> bool {
    -exp_limit() <= a.exp + b.exp <= exp_limit()
}

/// The exponents of `a` and `b` differ by at most the limit.
pub open spec fn exps_diff_ok(a: FloatValue, b: FloatValue) -> bool {
    -exp_limit() <= a.exp - b.exp <= exp_limit()
}

/// The largest precision the float operations are used with.
pub open spec fn prec_limit() -> nat {
    0x100_0000_0000
}

/// `v` is finite (zero has exponent 0), carries `prec`, and its significand has
/// at most `prec + 1` bits: one guard bit above the precision.
pub open spec fn float_shape(v: FloatValue, prec: nat) -> bool {
    &&& v.sig == 0 ==> v.exp == 0
    &&& v.prec == prec
    &&& abs_int(v.sig) < pow2(prec + 1)
}

/// `v` is a finite float whose exponent and precision are far from the limits
/// of the machine integers that hold them.
pub open spec fn float_sane(v: FloatValue) -> bool {
    &&& float_shape(v, v.prec)
    &&& -exp_limit() <= v.exp <= exp_limit()
    &&& v.prec <= prec_limit()
}

/// `|v| ≤ 2^k`.
pub open spec fn le_p2(v: FloatValue, k: int) -> bool {
    if v.exp >= k {
        abs_int(v.sig) * pow2((v.exp - k) as nat) <= 1
    } else {
        abs_int(v.sig) <= pow2((k - v.exp) as nat)
    }
}

/// `|v| ≥ 2^k`.
pub open spec fn ge_p2(v: FloatValue, k: int) -> bool {
    if v.exp >= k {
        abs_int(v.sig) * pow2((v.exp - k) as nat) >= 1
    } else {
        abs_int(v.sig) >= pow2((k - v.exp) as nat)
    }
}

/// `a < b` as numbers.
pub open spec fn value_lt(a: FloatValue, b: FloatValue) -> bool {
    let m = if a.exp <= b.exp { a.exp } else { b.exp };
    a.sig * pow2((a.exp - m) as nat) < b.sig * pow2((b.exp - m) as nat)
}

/// `s1 · 2^e1` lies within a factor `2^-q` of `s2 · 2^e2`:
/// `|s1 · 2^e1 − s2 · 2^e2| · 2^q ≤ |s2 · 2^e2|`, both sides read at the
/// smaller exponent.
pub open spec fn rel_close(s1: int, e1: int, s2: int, e2: int, q: nat) -> bool {
    let m = if e1 <= e2 { e1 } else { e2 };
    abs_int(s1 * pow2((e1 - m) as nat) - s2 * pow2((e2 - m) as nat)) * pow2(q)
        <= abs_int(s2 * pow2((e2 - m) as nat))
}

/// `a` and `b` are equal as numbers.
pub open spec fn value_eq(a: FloatValue, b: FloatValue) -> bool {
    let m = if a.exp <= b.exp { a.exp } else { b.exp };
    a.sig * pow2((a.exp - m) as nat) == b.sig * pow2((b.exp - m) as nat)
}

/// `v` is exactly the integer `i`.
pub open spec fn equals_int(v: FloatValue, i: int) -> bool {
    v.exp >= 0 && v.sig * pow2(v.exp as nat) == i
}

/// `i` is a power of two.
pub open spec fn is_power_of_two(i: int) -> bool {
    exists|k: nat| i == pow2(k)
}

/// The magnitude of `v`, same exponent and precision.
pub open spec fn abs_value(v: FloatValue) -> FloatValue {
    FloatValue { sig: abs_int(v.sig), exp: v.exp, prec: v.prec }
}

/// Proof that comparisons keep their direction when both sides are scaled by
/// a positive factor.
pub proof fn lemma_scaled_order(x: int, y: int, c: int)
    requires
        c > 0,
    ensures
        (x <= y) <==> (x * c <= y * c),
        (x < y) <==> (x * c < y * c),
        (x >= y) <==> (x * c >= y * c),
{
    assert((x <= y) ==> (x * c <= y * c)) by (nonlinear_arith)
        requires c > 0;
    assert((x * c <= y * c) ==> (x <= y)) by (nonlinear_arith)
        requires c > 0;
    assert((x < y) ==> (x * c < y * c)) by (nonlinear_arith)
        requires c > 0;
    assert((x * c < y * c) ==> (x < y)) by (nonlinear_arith)
        requires c > 0;
}

/// Proof that `2^a < 2^b` only when `a < b`.
pub proof fn lemma_pow2_lt_inv(a: nat, b: nat)
    requires
        pow2(a) < pow2(b),
    ensures
        a < b,
{
    if a > b {
        lemma_pow2_strictly_increases(b, a);
    }
}

/// Proof that `2^a ≤ 2^b` when `a ≤ b`.
pub proof fn lemma_pow2_le(a: nat, b: nat)
    requires
        a <= b,
    ensures
        pow2(a) <= pow2(b),
{
    if a < b {
        lemma_pow2_strictly_increases(a, b);
    }
}

/// Proof that the power-of-two bounds can be read at any exponent `m` below
/// both the value's exponent and the bound.
pub proof fn lemma_p2_at(v: FloatValue, k: int, m: int)
    requires
        m <= v.exp,
        m <= k,
    ensures
        le_p2(v, k) <==> abs_int(v.sig) * pow2((v.exp - m) as nat) <= pow2((k - m) as nat),
        ge_p2(v, k) <==> abs_int(v.sig) * pow2((v.exp - m) as nat) >= pow2((k - m) as nat),
{
    let m0 = if v.exp >= k { k } else { v.exp };
    let d = (m0 - m) as nat;
    let a = abs_int(v.sig);
    let ea = (v.exp - m0) as nat;
    let ka = (k - m0) as nat;
    lemma_pow2_adds(ea, d);
    lemma_pow2_adds(ka, d);
    lemma_pow2_pos(d);
    assert(pow2(0) == 1) by {
        vstd::arithmetic::power2::lemma2_to64();
    }
    assert((v.exp - m) as nat == ea + d);
    assert((k - m) as nat == ka + d);
    assert(a * pow2(ea + d) == (a * pow2(ea)) * pow2(d)) by (nonlinear_arith)
        requires pow2(ea + d) == pow2(ea) * pow2(d);
    lemma_scaled_order(a * pow2(ea), pow2(ka) as int, pow2(d) as int);
    if v.exp >= k {
        assert(ka == 0);
        assert(le_p2(v, k) <==> a * pow2(ea) <= pow2(ka));
        assert(ge_p2(v, k) <==> a * pow2(ea) >= pow2(ka));
    } else {
        assert(ea == 0);
        assert(a * pow2(ea) == a);
    }
}

/// Proof that an upper bound stays one when raised.
pub proof fn lemma_le_p2_mono(v: FloatValue, k: int, k2: int)
    requires
        le_p2(v, k),
        k <= k2,
    ensures
        le_p2(v, k2),
{
    let m = if v.exp <= k { v.exp } else { k };
    lemma_p2_at(v, k, m);
    lemma_p2_at(v, k2, m);
    lemma_pow2_le((k - m) as nat, (k2 - m) as nat);
}

/// Proof that a lower bound stays one when lowered.
pub proof fn lemma_ge_p2_mono(v: FloatValue, k: int, k2: int)
    requires
        ge_p2(v, k),
        k2 <= k,
    ensures
        ge_p2(v, k2),
{
    let m = if v.exp <= k2 { v.exp } else { k2 };
    lemma_p2_at(v, k, m);
    lemma_p2_at(v, k2, m);
    lemma_pow2_le((k2 - m) as nat, (k - m) as nat);
}

/// Proof that a value with a lower bound is not zero.
pub proof fn lemma_ge_p2_nonzero(v: FloatValue, k: int)
    requires
        ge_p2(v, k),
    ensures
        v.sig != 0,
{
    if v.sig == 0 {
        if v.exp < k {
            lemma_pow2_pos((k - v.exp) as nat);
        } else {
            assert(abs_int(v.sig) == 0);
            let q = pow2((v.exp - k) as nat);
            assert(0 * q == 0) by (nonlinear_arith);
        }
    }
}

/// Proof that a value below one at most `2^k` is at most `2^k` itself, for a
/// value that is not negative.
pub proof fn lemma_le_p2_from_lt(a: FloatValue, b: FloatValue, k: int)
    requires
        a.sig >= 0,
        value_lt(a, b),
        le_p2(b, k),
    ensures
        le_p2(a, k),
{
    let mm = if a.exp <= b.exp { a.exp } else { b.exp };
    let m = if mm <= k { mm } else { k };
    lemma_p2_at(a, k, m);
    lemma_p2_at(b, k, m);
    let d = (mm - m) as nat;
    let ea = (a.exp - mm) as nat;
    let eb = (b.exp - mm) as nat;
    lemma_pow2_adds(ea, d);
    lemma_pow2_adds(eb, d);
    lemma_pow2_pos(d);
    assert((a.exp - m) as nat == ea + d);
    assert((b.exp - m) as nat == eb + d);
    assert(a.sig * pow2(ea) < b.sig * pow2(eb));
    assert(a.sig * pow2(ea + d) < b.sig * pow2(eb + d)) by (nonlinear_arith)
        requires
            pow2(ea + d) == pow2(ea) * pow2(d),
            pow2(eb + d) == pow2(eb) * pow2(d),
            a.sig * pow2(ea) < b.sig * pow2(eb),
            pow2(d) > 0;
    assert(b.sig * pow2(eb + d) <= abs_int(b.sig) * pow2(eb + d)) by (nonlinear_arith);
}

/// Proof that `a < b` when `|a| ≤ 2^t < 2^e ≤ |b|`, `a` is not negative and `b` is positive.
pub proof fn lemma_lt_from_p2(a: FloatValue, b: FloatValue, t: int, e: int)
    requires
        a.sig >= 0,
        b.sig > 0,
        le_p2(a, t),
        ge_p2(b, e),
        t < e,
    ensures
        value_lt(a, b),
{
    let mm = if a.exp <= b.exp { a.exp } else { b.exp };
    let m = if mm <= t { mm } else { t };
    lemma_p2_at(a, t, m);
    lemma_p2_at(b, e, m);
    lemma_pow2_strictly_increases((t - m) as nat, (e - m) as nat);
    let d = (mm - m) as nat;
    let ea = (a.exp - mm) as nat;
    let eb = (b.exp - mm) as nat;
    lemma_pow2_adds(ea, d);
    lemma_pow2_adds(eb, d);
    lemma_pow2_pos(d);
    assert((a.exp - m) as nat == ea + d);
    assert((b.exp - m) as nat == eb + d);
    assert(a.sig * pow2(ea + d) == (a.sig * pow2(ea)) * pow2(d)) by (nonlinear_arith)
        requires pow2(ea + d) == pow2(ea) * pow2(d);
    assert(b.sig * pow2(eb + d) == (b.sig * pow2(eb)) * pow2(d)) by (nonlinear_arith)
        requires pow2(eb + d) == pow2(eb) * pow2(d);
    lemma_scaled_order(a.sig * pow2(ea), b.sig * pow2(eb), pow2(d) as int);
}

/// Proof that bounds on a value bound its exponent: at most the upper bound,
/// and above the lower bound less the significand's bits.
pub proof fn lemma_exp_range(v: FloatValue, p: nat, lo: int, hi: int)
    requires
        float_shape(v, p),
        le_p2(v, hi),
        ge_p2(v, lo),
    ensures
        v.sig != 0,
        lo - p - 1 < v.exp <= hi,
{
    lemma_ge_p2_nonzero(v, lo);
    if v.exp > hi {
        lemma_pow2_strictly_increases(0, (v.exp - hi) as nat);
        assert(pow2(0) == 1) by {
            vstd::arithmetic::power2::lemma2_to64();
        }
        assert(abs_int(v.sig) * pow2((v.exp - hi) as nat) >= pow2((v.exp - hi) as nat)) by (nonlinear_arith)
            requires abs_int(v.sig) >= 1, pow2((v.exp - hi) as nat) >= 0;
    }
    if v.exp < lo {
        lemma_pow2_lt_inv((lo - v.exp) as nat, p + 1);
    }
}

/// Proof that a value with bounds well inside the limits is sane.
pub proof fn lemma_sane_from_p2(v: FloatValue, p: nat, lo: int, hi: int)
    requires
        float_shape(v, p),
        p <= prec_limit(),
        le_p2(v, hi),
        ge_p2(v, lo),
        hi <= exp_limit(),
        lo >= -exp_limit() + p + 1,
    ensures
        float_sane(v),
        v.sig != 0,
        lo - p - 1 < v.exp <= hi,
{
    lemma_exp_range(v, p, lo, hi);
}

} // verus!

verus! {

/// Proof that closeness can be read at any exponent `m` below both
/// exponents.
pub proof fn lemma_rel_close_at(s1: int, e1: int, s2: int, e2: int, q: nat, m: int)
    requires
        m <= e1,
        m <= e2,
    ensures
        rel_close(s1, e1, s2, e2, q) <==> abs_int(s1 * pow2((e1 - m) as nat) - s2 * pow2((e2 - m) as nat))
            * pow2(q) <= abs_int(s2 * pow2((e2 - m) as nat)),
{
    let m0 = if e1 <= e2 { e1 } else { e2 };
    let d = (m0 - m) as nat;
    let x1 = (e1 - m0) as nat;
    let x2 = (e2 - m0) as nat;
    lemma_pow2_adds(x1, d);
    lemma_pow2_adds(x2, d);
    lemma_pow2_pos(d);
    lemma_pow2_pos(q);
    assert((e1 - m) as nat == x1 + d);
    assert((e2 - m) as nat == x2 + d);
    let c = pow2(d) as int;
    let a = s1 * pow2(x1) - s2 * pow2(x2);
    let b = s2 * pow2(x2);
    assert(s1 * pow2(x1 + d) - s2 * pow2(x2 + d) == a * c) by (nonlinear_arith)
        requires pow2(x1 + d) == pow2(x1) * pow2(d), pow2(x2 + d) == pow2(x2) * pow2(d),
            a == s1 * pow2(x1) - s2 * pow2(x2), c == pow2(d);
    assert(s2 * pow2(x2 + d) == b * c) by (nonlinear_arith)
        requires pow2(x2 + d) == pow2(x2) * pow2(d), b == s2 * pow2(x2), c == pow2(d);
    assert(abs_int(a * c) == abs_int(a) * c) by (nonlinear_arith)
        requires c > 0;
    assert(abs_int(b * c) == abs_int(b) * c) by (nonlinear_arith)
        requires c > 0;
    assert(abs_int(a) * c * pow2(q) == (abs_int(a) * pow2(q)) * c) by (nonlinear_arith);
    lemma_scaled_order(abs_int(a) * pow2(q), abs_int(b), c);
}

/// Proof that a quotient `r ≈ a / f` of two close values `a ≈ ps`, `f ≈ s`
/// (each within `1/e`) is within `8/e` of `ps / s`, all read as integers at
/// one scale `x`: `|r·s − ps·x| · e ≤ 8 · ps · x`.
pub proof fn lemma_quotient_close(r: int, a: int, f: int, ps: int, s: int, x: int, e: int)
    requires
        r > 0,
        a > 0,
        f > 0,
        ps > 0,
        s > 0,
        x > 0,
        e >= 2,
        abs_int(a - ps * x) * e <= ps * x,
        abs_int(f - s * x) * e <= s * x,
        abs_int(r * f - a * x) * e <= a * x,
    ensures
        abs_int(r * s - ps * x) * e <= 8 * (ps * x),
{
    let t1 = r * f - a * x;
    let t2 = a - ps * x;
    let t3 = f - s * x;
    let g = r * s - ps * x;
    let sx = s * x;
    let px = ps * x;
    lemma_mul_strictly_positive(s, x);
    lemma_mul_strictly_positive(ps, x);
    vstd::arithmetic::mul::lemma_mul_is_distributive_sub(s, r * f, a * x);
    vstd::arithmetic::mul::lemma_mul_is_distributive_sub(sx, a, px);
    vstd::arithmetic::mul::lemma_mul_is_distributive_sub(px, f, sx);
    vstd::arithmetic::mul::lemma_mul_is_distributive_sub(f, r * s, px);
    assert(s * (r * f) == f * (r * s)) by (nonlinear_arith);
    assert(s * (a * x) == sx * a) by (nonlinear_arith)
        requires sx == s * x;
    vstd::arithmetic::mul::lemma_mul_is_commutative(sx, px);
    vstd::arithmetic::mul::lemma_mul_is_commutative(px, f);
    assert(f * g == s * t1 + sx * t2 - px * t3);
    let u1 = s * t1;
    let u2 = sx * t2;
    let u3 = px * t3;
    assert(abs_int(u1) == s * abs_int(t1)) by (nonlinear_arith)
        requires u1 == s * t1, s > 0;
    assert(abs_int(u2) == sx * abs_int(t2)) by (nonlinear_arith)
        requires u2 == sx * t2, sx > 0;
    assert(abs_int(u3) == px * abs_int(t3)) by (nonlinear_arith)
        requires u3 == px * t3, px > 0;
    assert(s * abs_int(t1) * e <= s * (a * x)) by (nonlinear_arith)
        requires abs_int(t1) * e <= a * x, s > 0;
    assert(sx * abs_int(t2) * e <= sx * px) by (nonlinear_arith)
        requires abs_int(t2) * e <= px, sx > 0;
    assert(px * abs_int(t3) * e <= px * sx) by (nonlinear_arith)
        requires abs_int(t3) * e <= sx, px > 0;
    let fg = f * g;
    assert(abs_int(fg) <= abs_int(u1) + abs_int(u2) + abs_int(u3));
    assert(abs_int(fg) * e <= (abs_int(u1) + abs_int(u2) + abs_int(u3)) * e) by (nonlinear_arith)
        requires abs_int(fg) <= abs_int(u1) + abs_int(u2) + abs_int(u3), e > 0;
    assert((abs_int(u1) + abs_int(u2) + abs_int(u3)) * e
        == s * abs_int(t1) * e + sx * abs_int(t2) * e + px * abs_int(t3) * e) by (nonlinear_arith)
        requires abs_int(u1) == s * abs_int(t1), abs_int(u2) == sx * abs_int(t2), abs_int(u3) == px * abs_int(t3);
    assert(a <= 2 * px) by (nonlinear_arith)
        requires abs_int(t2) * e <= px, t2 == a - px, e >= 2, px > 0;
    assert(2 * f >= sx) by (nonlinear_arith)
        requires abs_int(t3) * e <= sx, t3 == f - sx, e >= 2, sx > 0;
    assert(s * (a * x) <= 2 * (sx * px)) by (nonlinear_arith)
        requires a <= 2 * px, s > 0, x > 0, sx == s * x, px == ps * x;
    assert(abs_int(fg) * e <= 4 * (sx * px));
    assert(abs_int(fg) == f * abs_int(g)) by (nonlinear_arith)
        requires fg == f * g, f > 0;
    assert(sx * (abs_int(g) * e) <= 2 * (f * abs_int(g) * e)) by (nonlinear_arith)
        requires 2 * f >= sx, abs_int(g) * e >= 0, sx > 0;
    assert(f * abs_int(g) * e == abs_int(fg) * e) by (nonlinear_arith)
        requires abs_int(fg) == f * abs_int(g);
    assert(2 * (4 * (sx * px)) == sx * (8 * px)) by (nonlinear_arith);
    assert(sx * (abs_int(g) * e) <= sx * (8 * px));
    assert(abs_int(g) * e <= 8 * px) by (nonlinear_arith)
        requires sx * (abs_int(g) * e) <= sx * (8 * px), sx > 0;
}

} // verus!

verus! {

/// `s1 · 2^e1` lies within `c · 2^-q` (relatively) of `s2 · 2^e2`:
/// `|s1 · 2^e1 − s2 · 2^e2| · 2^q ≤ c · |s2 · 2^e2|`, both sides read at the
/// smaller exponent.
pub open spec fn within(s1: int, e1: int, s2: int, e2: int, c: nat, q: nat) -> bool {
    let m = if e1 <= e2 { e1 } else { e2 };
    abs_int(s1 * pow2((e1 - m) as nat) - s2 * pow2((e2 - m) as nat)) * pow2(q)
        <= c * abs_int(s2 * pow2((e2 - m) as nat))
}

/// Proof that `c` units of `2^-q` are at most one unit of `2^-q2` when
/// `c ≤ 2^(q - q2)`.
pub proof fn lemma_within_to_rel_close(s1: int, e1: int, s2: int, e2: int, c: nat, q: nat, q2: nat)
    requires
        q2 <= q,
        c <= pow2((q - q2) as nat),
        within(s1, e1, s2, e2, c, q),
    ensures
        rel_close(s1, e1, s2, e2, q2),
{
    let m = if e1 <= e2 { e1 } else { e2 };
    let a = abs_int(s1 * pow2((e1 - m) as nat) - s2 * pow2((e2 - m) as nat));
    let b = abs_int(s2 * pow2((e2 - m) as nat));
    let d = (q - q2) as nat;
    lemma_pow2_adds(q2, d);
    lemma_pow2_pos(q2);
    lemma_pow2_pos(d);
    assert(a * pow2(q2) <= b) by (nonlinear_arith)
        requires
            a * pow2(q) <= c * b,
            pow2(q) == pow2(q2) * pow2(d),
            c <= pow2(d),
            pow2(d) > 0,
            a >= 0,
            b >= 0;
}

/// Proof that `within` can be read at any exponent `m` below both exponents.
pub proof fn lemma_within_at(s1: int, e1: int, s2: int, e2: int, c: nat, q: nat, m: int)
    requires
        m <= e1,
        m <= e2,
    ensures
        within(s1, e1, s2, e2, c, q) <==> abs_int(s1 * pow2((e1 - m) as nat) - s2 * pow2((e2 - m) as nat))
            * pow2(q) <= c * abs_int(s2 * pow2((e2 - m) as nat)),
{
    let m0 = if e1 <= e2 { e1 } else { e2 };
    let d = (m0 - m) as nat;
    let x1 = (e1 - m0) as nat;
    let x2 = (e2 - m0) as nat;
    lemma_pow2_adds(x1, d);
    lemma_pow2_adds(x2, d);
    lemma_pow2_pos(d);
    assert((e1 - m) as nat == x1 + d);
    assert((e2 - m) as nat == x2 + d);
    let k = pow2(d) as int;
    let a = s1 * pow2(x1) - s2 * pow2(x2);
    let b = s2 * pow2(x2);
    assert(s1 * pow2(x1 + d) - s2 * pow2(x2 + d) == a * k) by (nonlinear_arith)
        requires pow2(x1 + d) == pow2(x1) * pow2(d), pow2(x2 + d) == pow2(x2) * pow2(d),
            a == s1 * pow2(x1) - s2 * pow2(x2), k == pow2(d);
    assert(s2 * pow2(x2 + d) == b * k) by (nonlinear_arith)
        requires pow2(x2 + d) == pow2(x2) * pow2(d), b == s2 * pow2(x2), k == pow2(d);
    assert(abs_int(a * k) == abs_int(a) * k) by (nonlinear_arith)
        requires k > 0;
    assert(abs_int(b * k) == abs_int(b) * k) by (nonlinear_arith)
        requires k > 0;
    assert(abs_int(a) * k * pow2(q) == (abs_int(a) * pow2(q)) * k) by (nonlinear_arith);
    assert(c * (abs_int(b) * k) == (c * abs_int(b)) * k) by (nonlinear_arith);
    lemma_scaled_order(abs_int(a) * pow2(q), c * abs_int(b), k);
}

/// Proof that the product of two values close to `b1` and `b2` (within
/// `c1/e` and `c2/e`) is within `(c1 + c2 + 1)/e` of `b1 · b2` when
/// `c1 · c2 ≤ e`.
pub proof fn lemma_product_within(a1: int, b1: int, a2: int, b2: int, c1: int, c2: int, e: int)
    requires
        e > 0,
        c1 >= 0,
        c2 >= 0,
        c1 * c2 <= e,
        abs_int(a1 - b1) * e <= c1 * abs_int(b1),
        abs_int(a2 - b2) * e <= c2 * abs_int(b2),
    ensures
        abs_int(a1 * a2 - b1 * b2) * e <= (c1 + c2 + 1) * abs_int(b1 * b2),
{
    let d1 = a1 - b1;
    let d2 = a2 - b2;
    let n1 = abs_int(b1);
    let n2 = abs_int(b2);
    assert(a1 * a2 - b1 * b2 == d1 * d2 + d1 * b2 + b1 * d2) by (nonlinear_arith)
        requires d1 == a1 - b1, d2 == a2 - b2;
    assert(abs_int(b1 * b2) == n1 * n2) by (nonlinear_arith)
        requires n1 == abs_int(b1), n2 == abs_int(b2);
    assert(abs_int(d1 * d2) == abs_int(d1) * abs_int(d2)) by (nonlinear_arith);
    assert(abs_int(d1 * b2) == abs_int(d1) * n2) by (nonlinear_arith)
        requires n2 == abs_int(b2);
    assert(abs_int(b1 * d2) == n1 * abs_int(d2)) by (nonlinear_arith)
        requires n1 == abs_int(b1);
    let x1 = abs_int(d1);
    let x2 = abs_int(d2);
    assert(x1 * x2 * e * e <= c1 * c2 * n1 * n2) by (nonlinear_arith)
        requires x1 * e <= c1 * n1, x2 * e <= c2 * n2, x1 >= 0, x2 >= 0, e > 0, c1 >= 0, c2 >= 0, n1 >= 0, n2 >= 0;
    assert(c1 * c2 * n1 * n2 <= e * (n1 * n2)) by (nonlinear_arith)
        requires c1 * c2 <= e, n1 >= 0, n2 >= 0;
    assert(x1 * x2 * e <= n1 * n2) by (nonlinear_arith)
        requires x1 * x2 * e * e <= e * (n1 * n2), e > 0;
    assert(x1 * n2 * e <= c1 * (n1 * n2)) by (nonlinear_arith)
        requires x1 * e <= c1 * n1, n2 >= 0;
    assert(n1 * x2 * e <= c2 * (n1 * n2)) by (nonlinear_arith)
        requires x2 * e <= c2 * n2, n1 >= 0;
    let t = a1 * a2 - b1 * b2;
    assert(abs_int(t) <= x1 * x2 + x1 * n2 + n1 * x2);
    assert(abs_int(t) * e <= (x1 * x2 + x1 * n2 + n1 * x2) * e) by (nonlinear_arith)
        requires abs_int(t) <= x1 * x2 + x1 * n2 + n1 * x2, e > 0;
    assert((x1 * x2 + x1 * n2 + n1 * x2) * e == x1 * x2 * e + x1 * n2 * e + n1 * x2 * e) by (nonlinear_arith);
    assert((c1 + c2 + 1) * (n1 * n2) == c1 * (n1 * n2) + c2 * (n1 * n2) + n1 * n2) by (nonlinear_arith);
}

/// Proof that a value rounded within `1/e` of a value within `c/e` of `y`
/// is within `(c + 2)/e` of `y` when `c ≤ e`.
pub proof fn lemma_round_within(r: int, x: int, y: int, c: int, e: int)
    requires
        e > 0,
        0 <= c <= e,
        abs_int(r - x) * e <= abs_int(x),
        abs_int(x - y) * e <= c * abs_int(y),
    ensures
        abs_int(r - y) * e <= (c + 2) * abs_int(y),
{
    assert(abs_int(x) <= abs_int(y) + abs_int(x - y));
    assert(abs_int(x) * e <= abs_int(y) * e + abs_int(x - y) * e) by (nonlinear_arith)
        requires abs_int(x) <= abs_int(y) + abs_int(x - y), e > 0;
    assert(abs_int(x) * e <= abs_int(y) * e + c * abs_int(y));
    assert(abs_int(x) <= 2 * abs_int(y)) by (nonlinear_arith)
        requires abs_int(x) * e <= abs_int(y) * e + c * abs_int(y), c <= e, e > 0, abs_int(y) >= 0;
    assert(abs_int(r - y) <= abs_int(r - x) + abs_int(x - y));
    assert(abs_int(r - y) * e <= abs_int(r - x) * e + abs_int(x - y) * e) by (nonlinear_arith)
        requires abs_int(r - y) <= abs_int(r - x) + abs_int(x - y), e > 0;
    assert((c + 2) * abs_int(y) == c * abs_int(y) + 2 * abs_int(y)) by (nonlinear_arith);
}

} // verus!

verus! {

/// Proof that a rounded product (within `2^-q` of `a · b`) of values within
/// `ca` and `cb` units of `A · 2^ae` and `B · 2^be` is within
/// `ca + cb + 3` units of their product.
pub proof fn lemma_mul_step(
    r: FloatValue,
    a: FloatValue,
    b: FloatValue,
    big_a: int,
    ae: int,
    big_b: int,
    be: int,
    ca: nat,
    cb: nat,
    q: nat,
)
    requires
        within(a.sig, a.exp, big_a, ae, ca, q),
        within(b.sig, b.exp, big_b, be, cb, q),
        rel_close(r.sig, r.exp, a.sig * b.sig, a.exp + b.exp, q),
        ca * cb <= pow2(q),
        ca + cb + 1 <= pow2(q),
    ensures
        within(r.sig, r.exp, big_a * big_b, ae + be, ca + cb + 3, q),
{
    let m0 = if a.exp <= b.exp { a.exp } else { b.exp };
    let m1 = if m0 <= ae { m0 } else { ae };
    let m2 = if m1 <= be { m1 } else { be };
    let m3 = if m2 <= r.exp { m2 } else { r.exp };
    let m = if m3 <= 0 { m3 } else { 0 };
    let e = pow2(q) as int;
    lemma_pow2_pos(q);
    lemma_within_at(a.sig, a.exp, big_a, ae, ca, q, m);
    lemma_within_at(b.sig, b.exp, big_b, be, cb, q, m);
    let ai = a.sig * pow2((a.exp - m) as nat);
    let bi = b.sig * pow2((b.exp - m) as nat);
    let xa = big_a * pow2((ae - m) as nat);
    let xb = big_b * pow2((be - m) as nat);
    lemma_product_within(ai, xa, bi, xb, ca as int, cb as int, e);
    lemma_pow2_adds((a.exp - m) as nat, (b.exp - m) as nat);
    lemma_pow2_adds((ae - m) as nat, (be - m) as nat);
    assert((a.exp + b.exp - 2 * m) as nat == (a.exp - m) as nat + (b.exp - m) as nat);
    assert((ae + be - 2 * m) as nat == (ae - m) as nat + (be - m) as nat);
    let p1 = pow2((a.exp - m) as nat);
    let p2 = pow2((b.exp - m) as nat);
    let p3 = pow2((ae - m) as nat);
    let p4 = pow2((be - m) as nat);
    assert(ai * bi == a.sig * b.sig * pow2((a.exp + b.exp - 2 * m) as nat)) by (nonlinear_arith)
        requires ai == a.sig * p1, bi == b.sig * p2, pow2((a.exp + b.exp - 2 * m) as nat) == p1 * p2;
    assert(xa * xb == big_a * big_b * pow2((ae + be - 2 * m) as nat)) by (nonlinear_arith)
        requires xa == big_a * p3, xb == big_b * p4, pow2((ae + be - 2 * m) as nat) == p3 * p4;
    lemma_rel_close_at(r.sig, r.exp, a.sig * b.sig, a.exp + b.exp, q, 2 * m);
    let ri = r.sig * pow2((r.exp - 2 * m) as nat);
    assert(abs_int(ri - ai * bi) * e <= abs_int(ai * bi));
    lemma_round_within(ri, ai * bi, xa * xb, (ca + cb + 1) as int, e);
    lemma_within_at(r.sig, r.exp, big_a * big_b, ae + be, ca + cb + 3, q, 2 * m);
}

} // verus!

verus! {

/// Proof that `t ≈ a / f` (its product with `f` within `1/e` of `a · x`),
/// with `a` and `f` within `ca/e` and `cd/e` of `big_a` and `d`, puts `t · d`
/// within `2 (ca + cd + 2)/e` of `big_a · x`; all positive integers at one
/// scale.
pub proof fn lemma_quotient_within(t: int, a: int, f: int, big_a: int, d: int, x: int, e: int, ca: int, cd: int)
    requires
        t > 0,
        a > 0,
        f > 0,
        big_a > 0,
        d > 0,
        x > 0,
        e > 0,
        0 <= ca,
        0 <= cd,
        2 * ca <= e,
        2 * cd <= e,
        abs_int(a - big_a) * e <= ca * big_a,
        abs_int(f - d) * e <= cd * d,
        abs_int(t * f - a * x) * e <= a * x,
    ensures
        abs_int(t * d - big_a * x) * e <= 2 * (ca + cd + 2) * (big_a * x),
{
    let t1 = t * f - a * x;
    let t2 = a - big_a;
    let t3 = f - d;
    let g = t * d - big_a * x;
    let ax = big_a * x;
    let dx = d * x;
    lemma_mul_strictly_positive(big_a, x);
    lemma_mul_strictly_positive(d, x);
    lemma_mul_strictly_positive(a, x);
    vstd::arithmetic::mul::lemma_mul_is_distributive_sub(d, t * f, a * x);
    vstd::arithmetic::mul::lemma_mul_is_distributive_sub(dx, a, big_a);
    vstd::arithmetic::mul::lemma_mul_is_distributive_sub(ax, f, d);
    vstd::arithmetic::mul::lemma_mul_is_distributive_sub(f, t * d, ax);
    assert(d * (t * f) == f * (t * d)) by (nonlinear_arith);
    assert(d * (a * x) == dx * a) by (nonlinear_arith)
        requires dx == d * x;
    assert(dx * big_a == ax * d) by (nonlinear_arith)
        requires dx == d * x, ax == big_a * x;
    vstd::arithmetic::mul::lemma_mul_is_commutative(ax, f);
    assert(f * g == d * t1 + dx * t2 - ax * t3);
    let u1 = d * t1;
    let u2 = dx * t2;
    let u3 = ax * t3;
    assert(abs_int(u1) == d * abs_int(t1)) by (nonlinear_arith)
        requires u1 == d * t1, d > 0;
    assert(abs_int(u2) == dx * abs_int(t2)) by (nonlinear_arith)
        requires u2 == dx * t2, dx > 0;
    assert(abs_int(u3) == ax * abs_int(t3)) by (nonlinear_arith)
        requires u3 == ax * t3, ax > 0;
    assert(d * abs_int(t1) * e <= d * (a * x)) by (nonlinear_arith)
        requires abs_int(t1) * e <= a * x, d > 0;
    assert(dx * abs_int(t2) * e <= dx * (ca * big_a)) by (nonlinear_arith)
        requires abs_int(t2) * e <= ca * big_a, dx > 0;
    assert(ax * abs_int(t3) * e <= ax * (cd * d)) by (nonlinear_arith)
        requires abs_int(t3) * e <= cd * d, ax > 0;
    let fg = f * g;
    assert(abs_int(fg) <= abs_int(u1) + abs_int(u2) + abs_int(u3));
    assert(abs_int(fg) * e <= (abs_int(u1) + abs_int(u2) + abs_int(u3)) * e) by (nonlinear_arith)
        requires abs_int(fg) <= abs_int(u1) + abs_int(u2) + abs_int(u3), e > 0;
    assert((abs_int(u1) + abs_int(u2) + abs_int(u3)) * e
        == d * abs_int(t1) * e + dx * abs_int(t2) * e + ax * abs_int(t3) * e) by (nonlinear_arith)
        requires abs_int(u1) == d * abs_int(t1), abs_int(u2) == dx * abs_int(t2), abs_int(u3) == ax * abs_int(t3);
    assert(a <= 2 * big_a) by (nonlinear_arith)
        requires abs_int(t2) * e <= ca * big_a, t2 == a - big_a, 2 * ca <= e, big_a > 0, e > 0;
    assert(2 * f >= d) by (nonlinear_arith)
        requires abs_int(t3) * e <= cd * d, t3 == f - d, 2 * cd <= e, d > 0, e > 0;
    assert(d * (a * x) <= 2 * (dx * big_a)) by (nonlinear_arith)
        requires a <= 2 * big_a, d > 0, x > 0, dx == d * x;
    assert(dx * (ca * big_a) == ca * (dx * big_a)) by (nonlinear_arith);
    assert(ax * (cd * d) == cd * (dx * big_a)) by (nonlinear_arith)
        requires ax == big_a * x, dx == d * x;
    let k = dx * big_a;
    assert(abs_int(fg) * e <= (2 + ca + cd) * k) by (nonlinear_arith)
        requires
            abs_int(fg) * e <= d * (a * x) + ca * k + cd * k,
            d * (a * x) <= 2 * k;
    assert(abs_int(fg) == f * abs_int(g)) by (nonlinear_arith)
        requires fg == f * g, f > 0;
    assert(d * (abs_int(g) * e) <= 2 * (f * abs_int(g) * e)) by (nonlinear_arith)
        requires 2 * f >= d, abs_int(g) * e >= 0, d > 0;
    assert(f * abs_int(g) * e == abs_int(fg) * e) by (nonlinear_arith)
        requires abs_int(fg) == f * abs_int(g);
    assert(2 * ((2 + ca + cd) * k) == d * (2 * (ca + cd + 2) * ax)) by (nonlinear_arith)
        requires k == dx * big_a, dx == d * x, ax == big_a * x;
    assert(d * (abs_int(g) * e) <= d * (2 * (ca + cd + 2) * ax));
    assert(abs_int(g) * e <= 2 * (ca + cd + 2) * ax) by (nonlinear_arith)
        requires d * (abs_int(g) * e) <= d * (2 * (ca + cd + 2) * ax), d > 0;
}

} // verus!

verus! {

/// Proof that a rounded quotient `t ≈ a / f` (its product with `f` within
/// `2^-q` of `a`), with `a` and `f` within `ca` and `cd` units of
/// `big_a · 2^ae` and `d · 2^de`, puts `t · d · 2^de` within
/// `2 (ca + cd + 2)` units of `big_a · 2^ae`.
pub proof fn lemma_div_step(
    t: FloatValue,
    a: FloatValue,
    f: FloatValue,
    big_a: int,
    ae: int,
    d: int,
    de: int,
    ca: nat,
    cd: nat,
    q: nat,
)
    requires
        t.sig > 0,
        a.sig > 0,
        f.sig > 0,
        big_a > 0,
        d > 0,
        within(a.sig, a.exp, big_a, ae, ca, q),
        within(f.sig, f.exp, d, de, cd, q),
        rel_close(t.sig * f.sig, t.exp + f.exp, a.sig, a.exp, q),
        2 * ca <= pow2(q),
        2 * cd <= pow2(q),
    ensures
        within(t.sig * d, t.exp + de, big_a, ae, 2 * (ca + cd + 2), q),
{
    let m0 = if a.exp <= f.exp { a.exp } else { f.exp };
    let m1 = if m0 <= ae { m0 } else { ae };
    let m2 = if m1 <= de { m1 } else { de };
    let m3 = if m2 <= t.exp { m2 } else { t.exp };
    let m = if m3 <= 0 { m3 } else { 0 };
    let e = pow2(q) as int;
    lemma_pow2_pos(q);
    let pa = pow2((a.exp - m) as nat);
    let pf = pow2((f.exp - m) as nat);
    let pt = pow2((t.exp - m) as nat);
    let pae = pow2((ae - m) as nat);
    let pde = pow2((de - m) as nat);
    let x = pow2((0 - m) as nat) as int;
    lemma_pow2_pos((a.exp - m) as nat);
    lemma_pow2_pos((f.exp - m) as nat);
    lemma_pow2_pos((t.exp - m) as nat);
    lemma_pow2_pos((ae - m) as nat);
    lemma_pow2_pos((de - m) as nat);
    lemma_pow2_pos((0 - m) as nat);
    let ai = a.sig * pa;
    let fi = f.sig * pf;
    let ti = t.sig * pt;
    let xa = big_a * pae;
    let xd = d * pde;
    lemma_mul_strictly_positive(a.sig, pa as int);
    lemma_mul_strictly_positive(f.sig, pf as int);
    lemma_mul_strictly_positive(t.sig, pt as int);
    lemma_mul_strictly_positive(big_a, pae as int);
    lemma_mul_strictly_positive(d, pde as int);
    lemma_within_at(a.sig, a.exp, big_a, ae, ca, q, m);
    lemma_within_at(f.sig, f.exp, d, de, cd, q, m);
    assert(abs_int(xa) == xa);
    assert(abs_int(xd) == xd);
    lemma_rel_close_at(t.sig * f.sig, t.exp + f.exp, a.sig, a.exp, q, 2 * m);
    assert((t.exp + f.exp - 2 * m) as nat == (t.exp - m) as nat + (f.exp - m) as nat);
    assert((a.exp - 2 * m) as nat == (a.exp - m) as nat + (0 - m) as nat);
    lemma_pow2_adds((t.exp - m) as nat, (f.exp - m) as nat);
    lemma_pow2_adds((a.exp - m) as nat, (0 - m) as nat);
    assert(t.sig * f.sig * pow2((t.exp + f.exp - 2 * m) as nat) == ti * fi) by (nonlinear_arith)
        requires ti == t.sig * pt, fi == f.sig * pf, pow2((t.exp + f.exp - 2 * m) as nat) == pt * pf;
    assert(a.sig * pow2((a.exp - 2 * m) as nat) == ai * x) by (nonlinear_arith)
        requires ai == a.sig * pa, x == pow2((0 - m) as nat), pow2((a.exp - 2 * m) as nat) == pa * x;
    assert(abs_int(ai * x) == ai * x) by (nonlinear_arith)
        requires ai > 0, x > 0;
    lemma_quotient_within(ti, ai, fi, xa, xd, x, e, ca as int, cd as int);
    assert((t.exp + de - 2 * m) as nat == (t.exp - m) as nat + (de - m) as nat);
    assert((ae - 2 * m) as nat == (ae - m) as nat + (0 - m) as nat);
    lemma_pow2_adds((t.exp - m) as nat, (de - m) as nat);
    lemma_pow2_adds((ae - m) as nat, (0 - m) as nat);
    assert(t.sig * d * pow2((t.exp + de - 2 * m) as nat) == ti * xd) by (nonlinear_arith)
        requires ti == t.sig * pt, xd == d * pde, pow2((t.exp + de - 2 * m) as nat) == pt * pde;
    assert(big_a * pow2((ae - 2 * m) as nat) == xa * x) by (nonlinear_arith)
        requires xa == big_a * pae, x == pow2((0 - m) as nat), pow2((ae - 2 * m) as nat) == pae * x;
    assert(abs_int(xa * x) == xa * x) by (nonlinear_arith)
        requires xa > 0, x > 0;
    lemma_within_at(t.sig * d, t.exp + de, big_a, ae, 2 * (ca + cd + 2), q, 2 * m);
}

} // verus!

verus! {

/// Proof that the sum of two non-negative values within `c1/e` and `c2/e` of
/// `y1` and `y2` is within `max(c1, c2)/e` of `y1 + y2`.
pub proof fn lemma_sum_within(x1: int, y1: int, x2: int, y2: int, c1: int, c2: int, e: int)
    requires
        e > 0,
        y1 >= 0,
        y2 >= 0,
        c1 >= 0,
        c2 >= 0,
        abs_int(x1 - y1) * e <= c1 * y1,
        abs_int(x2 - y2) * e <= c2 * y2,
    ensures
        abs_int((x1 + x2) - (y1 + y2)) * e <= (if c1 >= c2 { c1 } else { c2 }) * (y1 + y2),
{
    let c = if c1 >= c2 { c1 } else { c2 };
    assert(abs_int((x1 + x2) - (y1 + y2)) <= abs_int(x1 - y1) + abs_int(x2 - y2));
    assert(abs_int((x1 + x2) - (y1 + y2)) * e <= abs_int(x1 - y1) * e + abs_int(x2 - y2) * e) by (nonlinear_arith)
        requires abs_int((x1 + x2) - (y1 + y2)) <= abs_int(x1 - y1) + abs_int(x2 - y2), e > 0;
    assert(c1 * y1 <= c * y1) by (nonlinear_arith)
        requires c1 <= c, y1 >= 0;
    assert(c2 * y2 <= c * y2) by (nonlinear_arith)
        requires c2 <= c, y2 >= 0;
    assert(c * y1 + c * y2 == c * (y1 + y2)) by (nonlinear_arith);
}

/// Proof that scaling both sides by `k > 0` keeps closeness.
pub proof fn lemma_scale_within(x: int, y: int, c: int, e: int, k: int)
    requires
        k > 0,
        e > 0,
        abs_int(x - y) * e <= c * abs_int(y),
    ensures
        abs_int(x * k - y * k) * e <= c * abs_int(y * k),
{
    assert(x * k - y * k == (x - y) * k) by (nonlinear_arith);
    assert(abs_int((x - y) * k) == abs_int(x - y) * k) by (nonlinear_arith)
        requires k > 0;
    assert(abs_int(y * k) == abs_int(y) * k) by (nonlinear_arith)
        requires k > 0;
    assert(abs_int(x - y) * k * e == (abs_int(x - y) * e) * k) by (nonlinear_arith);
    assert(c * (abs_int(y) * k) == (c * abs_int(y)) * k) by (nonlinear_arith);
    assert((abs_int(x - y) * e) * k <= (c * abs_int(y)) * k) by (nonlinear_arith)
        requires abs_int(x - y) * e <= c * abs_int(y), k > 0;
}

} // verus!
