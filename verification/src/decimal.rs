//! Decimal text: finding characters, integer numerals, and cutting a
//! decimal numeral to a fixed number of fractional digits.

use vstd::prelude::*;
use vstd::string::{StrSliceExecFns, StringExecFns};
use vstd::arithmetic::power2::{pow2, lemma_pow2_pos};
use crate::bigint::abs_int;

verus! {

// ─── Characters ───────────────────────────────────────────────────────────────

/// The index of the first `c` in `s`, if any.
pub open spec fn find_char(s: Seq<char>, c: char) -> Option<nat>
    decreases s.len(),
{
    if s.len() == 0 {
        None
    } else if s[0] == c {
        Some(0)
    } else {
        match find_char(s.drop_first(), c) {
            Some(i) => Some(i + 1),
            None => None,
        }
    }
}

/// `c` is one of `0`–`9`.
pub open spec fn is_digit(c: char) -> bool {
    '0' <= c && c <= '9'
}

/// The digit character for `d < 10`.
pub open spec fn digit_char(d: nat) -> char {
    if d == 0 { '0' }
    else if d == 1 { '1' }
    else if d == 2 { '2' }
    else if d == 3 { '3' }
    else if d == 4 { '4' }
    else if d == 5 { '5' }
    else if d == 6 { '6' }
    else if d == 7 { '7' }
    else if d == 8 { '8' }
    else { '9' }
}

/// The characters of a plain decimal numeral: digits, a minus sign, a point.
pub open spec fn plain_decimal_chars(s: Seq<char>) -> bool {
    forall|i: int| 0 <= i < s.len() ==> (is_digit(#[trigger] s[i]) || s[i] == '-' || s[i] == '.')
}

/// Proof that a scan that met no `c` before `i` finds the first `c` at `i`,
/// or none when `i` is the end.
proof fn lemma_find_char(s: Seq<char>, c: char, i: nat)
    requires
        i <= s.len(),
        forall|j: int| 0 <= j < i ==> s[j] != c,
    ensures
        i < s.len() && s[i as int] == c ==> find_char(s, c) == Some(i),
        i == s.len() ==> find_char(s, c) is None,
    decreases i,
{
    if i > 0 {
        let t = s.drop_first();
        assert forall|j: int| 0 <= j < i - 1 implies t[j] != c by {
            assert(t[j] == s[j + 1]);
        }
        lemma_find_char(t, c, (i - 1) as nat);
        if i < s.len() {
            assert(t[i - 1] == s[i as int]);
        }
    }
}

/// The index of the first `c` in `s`, if any.
pub fn find_char_in(s: &str, c: char) -> (r: Option<usize>)
    ensures
        match r {
            Some(i) => find_char(s@, c) == Some(i as nat),
            None => find_char(s@, c) is None,
        },
{
    let len = s.unicode_len();
    let mut i: usize = 0;
    while i < len
        invariant
            i <= len,
            len == s@.len(),
            forall|j: int| 0 <= j < i ==> s@[j] != c,
        decreases len - i,
    {
        if s.get_char(i) == c {
            proof {
                lemma_find_char(s@, c, i as nat);
            }
            return Some(i);
        }
        i = i + 1;
    }
    proof {
        lemma_find_char(s@, c, i as nat);
    }
    None
}

/// The decimal numeral of `v`, without leading zeros.
pub open spec fn decimal_text(v: nat) -> Seq<char>
    decreases v,
{
    if v < 10 {
        seq![digit_char(v)]
    } else {
        decimal_text(v / 10).push(digit_char(v % 10))
    }
}

/// The decimal numeral of the integer `i`: a minus sign for a negative one,
/// then the digits of its magnitude.
pub open spec fn int_text(i: int) -> Seq<char> {
    if i < 0 {
        seq!['-'] + decimal_text((-i) as nat)
    } else {
        decimal_text(i as nat)
    }
}

// ─── Fixed-point text ─────────────────────────────────────────────────────────

/// `k` zeros.
pub open spec fn zeros(k: nat) -> Seq<char> {
    Seq::new(k, |i: int| '0')
}

/// A numeral cut or padded to exactly `digits` fractional digits: up to the
/// point and `digits` digits after it (stopping at an `e`), padded with
/// zeros; a numeral without a point gets a point and `digits` zeros.
pub open spec fn fixed_point_text(s: Seq<char>, digits: nat) -> Seq<char> {
    match find_char(s, '.') {
        Some(dot) => {
            let end_of_digits = match find_char(s, 'e') {
                Some(e) => e,
                None => s.len(),
            };
            let end = if dot + 1 + digits <= end_of_digits { dot + 1 + digits } else { end_of_digits };
            let kept = s.subrange(0, end as int);
            kept + zeros((digits - (end - dot - 1)) as nat)
        },
        None => if digits > 0 {
            s.push('.') + zeros(digits)
        } else {
            s
        },
    }
}

/// `k` zeros appended to `r`.
fn append_zeros(r: &mut String, k: usize)
    ensures
        final(r)@ == old(r)@ + zeros(k as nat),
{
    proof {
        reveal_strlit("0");
    }
    let mut i: usize = 0;
    while i < k
        invariant
            i <= k,
            r@ == old(r)@ + zeros(i as nat),
        decreases k - i,
    {
        proof {
            reveal_strlit("0");
        }
        r.append("0");
        i = i + 1;
        assert(r@ =~= old(r)@ + zeros(i as nat));
    }
}

/// Cut or pad a plain decimal numeral to exactly `digits` fractional digits
/// (see [`fixed_point_text`]).
pub fn format_fixed(s: &String, digits: u32) -> (r: String)
    requires
        plain_decimal_chars(s@),
    ensures
        r@ == fixed_point_text(s@, digits as nat),
{
    let text = s.as_str();
    let target_prec = digits as usize;
    match find_char_in(text, '.') {
        Some(dot_pos) => {
            let len = text.unicode_len();
            let end_of_digits = match find_char_in(text, 'e') {
                Some(e) => e,
                None => len,
            };
            proof {
                if let Some(e) = find_char(s@, 'e') {
                    lemma_find_char_is(s@, 'e', e);
                }
                lemma_find_char_is(s@, '.', dot_pos as nat);
                assert(end_of_digits == len);
            }
            let end = if target_prec <= end_of_digits - (dot_pos + 1) {
                dot_pos + 1 + target_prec
            } else {
                end_of_digits
            };
            let mut result = String::from_str(text.substring_char(0, end));
            let current_prec = result.unicode_len() - dot_pos - 1;
            if current_prec < target_prec {
                append_zeros(&mut result, target_prec - current_prec);
            } else {
                assert(zeros(0) =~= Seq::<char>::empty());
                assert(result@ + zeros(0) =~= result@);
            }
            result
        },
        None => {
            let mut result = s.clone();
            if target_prec > 0 {
                proof {
                    reveal_strlit(".");
                }
                result.append(".");
                append_zeros(&mut result, target_prec);
            }
            result
        },
    }
}

/// Proof that a character found is one of the string's, at that index.
proof fn lemma_find_char_is(s: Seq<char>, c: char, i: nat)
    requires
        find_char(s, c) == Some(i),
    ensures
        i < s.len(),
        s[i as int] == c,
    decreases s.len(),
{
    if s[0] != c {
        lemma_find_char_is(s.drop_first(), c, (i - 1) as nat);
    }
}

/// Proof that the first `c` found has no `c` before it.
proof fn lemma_find_char_first(s: Seq<char>, c: char, i: nat)
    requires
        find_char(s, c) == Some(i),
    ensures
        forall|j: int| 0 <= j < i ==> s[j] != c,
    decreases s.len(),
{
    lemma_find_char_is(s, c, i);
    if s[0] != c {
        let t = s.drop_first();
        lemma_find_char_first(t, c, (i - 1) as nat);
        assert forall|j: int| 0 <= j < i implies s[j] != c by {
            if j > 0 {
                assert(s[j] == t[j - 1]);
            }
        }
    }
}

/// Proof that a character not found occurs nowhere.
proof fn lemma_find_char_none(s: Seq<char>, c: char)
    requires
        find_char(s, c) is None,
    ensures
        forall|j: int| 0 <= j < s.len() ==> s[j] != c,
    decreases s.len(),
{
    if s.len() > 0 {
        let t = s.drop_first();
        lemma_find_char_none(t, c);
        assert forall|j: int| 0 <= j < s.len() implies s[j] != c by {
            if j > 0 {
                assert(s[j] == t[j - 1]);
            }
        }
    }
}

/// Proof that a plain numeral cut to `digits > 0` fractional digits has its
/// point exactly `digits` characters before its end.
pub proof fn lemma_fixed_point_has_digits(s: Seq<char>, digits: nat)
    requires
        plain_decimal_chars(s),
        digits > 0,
    ensures
        find_char(fixed_point_text(s, digits), '.') == Some((fixed_point_text(s, digits).len() - digits - 1) as nat),
{
    let r = fixed_point_text(s, digits);
    match find_char(s, '.') {
        Some(dot) => {
            lemma_find_char_is(s, '.', dot);
            lemma_find_char_first(s, '.', dot);
            if let Some(e) = find_char(s, 'e') {
                lemma_find_char_is(s, 'e', e);
            }
            assert(r.len() == dot + 1 + digits);
            assert forall|j: int| 0 <= j < dot implies r[j] != '.' by {
                assert(r[j] == s[j]);
            }
            assert(r[dot as int] == '.');
            lemma_find_char(r, '.', dot);
        },
        None => {
            lemma_find_char_none(s, '.');
            assert(r.len() == s.len() + 1 + digits);
            assert forall|j: int| 0 <= j < s.len() implies r[j] != '.' by {
                assert(r[j] == s[j]);
            }
            assert(r[s.len() as int] == '.');
            lemma_find_char(r, '.', s.len());
        },
    }
}

/// A numeral with its point at `dot` and at least `digits` digits after it is
/// cut to exactly its own first `digits` fractional digits: nothing is
/// dropped before them and nothing is padded.
pub proof fn lemma_fixed_point_keeps_digits(s: Seq<char>, digits: nat, dot: nat)
    requires
        dot + 1 + digits <= s.len(),
        s[dot as int] == '.',
        forall|j: int| 0 <= j < dot ==> s[j] != '.' && s[j] != 'e',
        forall|j: int| dot < j <= dot + digits ==> is_digit(s[j]),
    ensures
        fixed_point_text(s, digits) == s.subrange(0, (dot + 1 + digits) as int),
{
    lemma_find_char(s, '.', dot);
    if let Some(e) = find_char(s, 'e') {
        lemma_find_char_is(s, 'e', e);
        assert(e >= dot + 1 + digits) by {
            if e < dot + 1 + digits {
                assert(!is_digit('e'));
            }
        }
    }
    assert(zeros(0) =~= Seq::<char>::empty());
    assert(s.subrange(0, (dot + 1 + digits) as int) + zeros(0) =~= s.subrange(0, (dot + 1 + digits) as int));
}

// ─── The value of a numeral ───────────────────────────────────────────────────

/// `10^n`.
pub open spec fn ten_pow(n: nat) -> nat
    decreases n,
{
    if n == 0 {
        1
    } else {
        10 * ten_pow((n - 1) as nat)
    }
}

/// The value of a digit character.
pub open spec fn digit_value(c: char) -> nat {
    (c as int - '0' as int) as nat
}

/// The number the digit characters of `s` spell, most significant first.
pub open spec fn digits_value(s: Seq<char>) -> nat
    decreases s.len(),
{
    if s.len() == 0 {
        0
    } else {
        digits_value(s.drop_last()) * 10 + digit_value(s.last())
    }
}

/// The length of the sign of a numeral: one for a leading minus, else zero.
pub open spec fn sign_len(s: Seq<char>) -> int {
    if s.len() > 0 && s[0] == '-' {
        1
    } else {
        0
    }
}

/// `s` is a numeral: an optional minus sign, at least one digit, and
/// optionally a point followed by at least one digit.
pub open spec fn is_numeral(s: Seq<char>) -> bool {
    let o = sign_len(s);
    match find_char(s, '.') {
        Some(dot) => o < dot && dot + 1 < s.len() && forall|i: int|
            o <= i < s.len() && i != dot ==> is_digit(#[trigger] s[i]),
        None => o < s.len() && forall|i: int| o <= i < s.len() ==> is_digit(#[trigger] s[i]),
    }
}

/// The number of digits after the point of a numeral (zero without a point).
pub open spec fn numeral_frac(s: Seq<char>) -> nat {
    match find_char(s, '.') {
        Some(dot) => (s.len() - dot - 1) as nat,
        None => 0,
    }
}

/// The digits of a numeral, without its sign and point.
pub open spec fn numeral_digits(s: Seq<char>) -> Seq<char> {
    match find_char(s, '.') {
        Some(dot) => s.subrange(sign_len(s), dot as int) + s.subrange(dot as int + 1, s.len() as int),
        None => s.subrange(sign_len(s), s.len() as int),
    }
}

/// A numeral's value times `10^numeral_frac`: its digits read as an integer,
/// with its sign.
pub open spec fn numeral_num(s: Seq<char>) -> int {
    if sign_len(s) == 1 {
        -(digits_value(numeral_digits(s)) as int)
    } else {
        digits_value(numeral_digits(s)) as int
    }
}

/// `|sig · 2^exp| < 10^j`, without division.
pub open spec fn below_ten_pow(sig: int, exp: int, j: int) -> bool {
    let a = pow2((if exp < 0 { -exp } else { 0 }) as nat);
    let b = pow2((if exp > 0 { exp } else { 0 }) as nat);
    abs_int(sig) * b * ten_pow((if j < 0 { -j } else { 0 }) as nat) < ten_pow((if j > 0 { j } else { 0 }) as nat) * a
}

/// The numeral `s` is within `10^-e` of `sig · 2^exp`:
/// `|numeral_num(s) / 10^numeral_frac(s) − sig · 2^exp| < 10^-e`, without
/// division.
pub open spec fn numeral_within(s: Seq<char>, sig: int, exp: int, e: nat) -> bool {
    let a = pow2((if exp < 0 { -exp } else { 0 }) as nat);
    let b = pow2((if exp > 0 { exp } else { 0 }) as nat);
    let k = numeral_frac(s);
    abs_int(numeral_num(s) * a - sig * b * ten_pow(k)) * ten_pow(e) < ten_pow(k) * a
}

/// Proof that `10^(a + b) = 10^a · 10^b`, and that powers of ten are positive.
pub proof fn lemma_ten_pow_adds(a: nat, b: nat)
    ensures
        ten_pow(a + b) == ten_pow(a) * ten_pow(b),
        ten_pow(a) > 0,
    decreases a,
{
    if a > 0 {
        let a1 = (a - 1) as nat;
        lemma_ten_pow_adds(a1, b);
        assert((a + b - 1) as nat == a1 + b);
        let x = ten_pow(a1);
        let y = ten_pow(b);
        assert(ten_pow(a) == 10 * x);
        assert(ten_pow(a + b) == 10 * ten_pow(a1 + b));
        assert(ten_pow(a1 + b) == x * y);
        assert(10 * (x * y) == (10 * x) * y) by (nonlinear_arith);
    } else {
        assert(a + b == b);
        assert(ten_pow(0) == 1);
        assert(ten_pow(a) * ten_pow(b) == ten_pow(b));
    }
}

/// Proof that the digits of `a + b` spell `a`'s number shifted past `b`'s.
pub proof fn lemma_digits_value_concat(a: Seq<char>, b: Seq<char>)
    ensures
        digits_value(a + b) == digits_value(a) * ten_pow(b.len()) + digits_value(b),
    decreases b.len(),
{
    if b.len() == 0 {
        assert(a + b =~= a);
        assert(digits_value(b) == 0);
        assert(ten_pow(0) == 1);
    } else {
        let b1 = b.drop_last();
        lemma_digits_value_concat(a, b1);
        assert((a + b).drop_last() =~= a + b1);
        assert((a + b).last() == b.last());
        let va = digits_value(a) as int;
        let v1 = digits_value(b1) as int;
        let t1 = ten_pow(b1.len()) as int;
        let c = digit_value(b.last()) as int;
        assert(b1.len() + 1 == b.len());
        assert(ten_pow(b.len()) == 10 * ten_pow(b1.len()));
        assert(digits_value(a + b) == digits_value(a + b1) * 10 + digit_value(b.last()));
        assert(digits_value(b) == digits_value(b1) * 10 + digit_value(b.last()));
        assert(digits_value(a + b1) == va * t1 + v1);
        assert((va * t1 + v1) * 10 + c == va * (10 * t1) + (v1 * 10 + c)) by (nonlinear_arith);
    }
}

/// Proof that digits spell a number below `10^len`.
pub proof fn lemma_digits_value_bound(s: Seq<char>)
    requires
        forall|i: int| 0 <= i < s.len() ==> is_digit(#[trigger] s[i]),
    ensures
        digits_value(s) < ten_pow(s.len()),
    decreases s.len(),
{
    if s.len() > 0 {
        let s1 = s.drop_last();
        assert forall|i: int| 0 <= i < s1.len() implies is_digit(#[trigger] s1[i]) by {
            assert(s1[i] == s[i]);
        }
        lemma_digits_value_bound(s1);
        assert(is_digit(s[s.len() - 1]));
        assert(digit_value(s.last()) <= 9);
        assert(digits_value(s1) * 10 + digit_value(s.last()) < 10 * ten_pow(s1.len())) by (nonlinear_arith)
            requires digits_value(s1) < ten_pow(s1.len()), digit_value(s.last()) <= 9;
    }
}

/// Proof that zeros spell zero.
pub proof fn lemma_digits_value_zeros(k: nat)
    ensures
        digits_value(zeros(k)) == 0,
    decreases k,
{
    if k > 0 {
        assert(zeros(k).drop_last() =~= zeros((k - 1) as nat));
        lemma_digits_value_zeros((k - 1) as nat);
    }
}

/// Proof that a numeral that reads as `10^t` times another, with `t` more
/// fractional digits, has the same value and is as close to any number.
proof fn lemma_within_rescaled(s: Seq<char>, r: Seq<char>, t: nat, sig: int, exp: int, e: nat)
    requires
        numeral_num(r) == numeral_num(s) * ten_pow(t),
        numeral_frac(r) == numeral_frac(s) + t,
        numeral_within(s, sig, exp, e),
    ensures
        numeral_within(r, sig, exp, e),
{
    let a = pow2((if exp < 0 { -exp } else { 0 }) as nat);
    let b = pow2((if exp > 0 { exp } else { 0 }) as nat);
    let k = numeral_frac(s);
    let x = numeral_num(s) * a - sig * b * ten_pow(k);
    lemma_ten_pow_adds(k, t);
    lemma_ten_pow_adds(t, 0);
    lemma_ten_pow_adds(e, 0);
    assert(numeral_num(r) * a - sig * b * ten_pow(k + t) == x * ten_pow(t)) by (nonlinear_arith)
        requires
            numeral_num(r) == numeral_num(s) * ten_pow(t),
            ten_pow(k + t) == ten_pow(k) * ten_pow(t),
            x == numeral_num(s) * a - sig * b * ten_pow(k);
    assert(abs_int(x * ten_pow(t)) == abs_int(x) * ten_pow(t)) by (nonlinear_arith)
        requires ten_pow(t) > 0;
    assert(abs_int(x) * ten_pow(t) * ten_pow(e) < ten_pow(k) * ten_pow(t) * a) by (nonlinear_arith)
        requires abs_int(x) * ten_pow(e) < ten_pow(k) * a, ten_pow(t) > 0;
}

/// Proof that cutting a numeral within `10^-k` of a number, `k` its fractional
/// digits, to `d ≤ k` fractional digits leaves it within `10^-d`: the digits
/// dropped are worth less than `10^-d − 10^-k`.
proof fn lemma_within_truncated(s: Seq<char>, r: Seq<char>, tail: nat, sig: int, exp: int)
    requires
        numeral_frac(r) <= numeral_frac(s),
        tail < ten_pow((numeral_frac(s) - numeral_frac(r)) as nat),
        sign_len(r) == sign_len(s),
        digits_value(numeral_digits(s)) == digits_value(numeral_digits(r))
            * ten_pow((numeral_frac(s) - numeral_frac(r)) as nat) + tail,
        numeral_within(s, sig, exp, numeral_frac(s)),
    ensures
        numeral_within(r, sig, exp, numeral_frac(r)),
{
    let a = pow2((if exp < 0 { -exp } else { 0 }) as nat);
    let b = pow2((if exp > 0 { exp } else { 0 }) as nat);
    let k = numeral_frac(s);
    let d = numeral_frac(r);
    let g = (k - d) as nat;
    let w = sig * b;
    let ms = digits_value(numeral_digits(s)) as int;
    let mr = digits_value(numeral_digits(r)) as int;
    let sg: int = if sign_len(s) == 1 { -1 } else { 1 };
    if sign_len(s) == 1 {
        assert(numeral_num(s) == -ms);
        assert(numeral_num(r) == -mr);
    }
    assert(numeral_num(s) == sg * ms);
    assert(numeral_num(r) == sg * mr);
    lemma_ten_pow_adds(d, g);
    assert(d + g == k);
    lemma_ten_pow_adds(g, 0);
    lemma_ten_pow_adds(k, 0);
    lemma_pow2_pos((if exp < 0 { -exp } else { 0 }) as nat);
    let ex = numeral_num(s) * a - w * ten_pow(k);
    let xr = numeral_num(r) * a - w * ten_pow(d);
    let tg = ten_pow(g) as int;
    let td = ten_pow(d) as int;
    // the cut numeral read at 10^k: the full one less its dropped digits
    let u = sg * mr * a;
    let v = w * td;
    assert(xr == u - v);
    vstd::arithmetic::mul::lemma_mul_is_distributive_sub_other_way(tg, u, v);
    assert(xr * tg == u * tg - v * tg);
    vstd::arithmetic::mul::lemma_mul_is_associative(w, td, tg);
    assert(v * tg == w * ten_pow(k));
    assert(u * tg == sg * (mr * tg) * a) by (nonlinear_arith)
        requires u == sg * mr * a;
    let mt = mr * tg;
    assert(ms == mt + tail);
    assert(sg * mt * a == sg * ms * a - sg * tail * a) by (nonlinear_arith)
        requires ms == mt + tail;
    assert(xr * tg == ex - sg * tail * a);
    assert(abs_int(ex) * ten_pow(k) < ten_pow(k) * a);
    assert(abs_int(ex) < a) by (nonlinear_arith)
        requires abs_int(ex) * ten_pow(k) < ten_pow(k) * a, ten_pow(k) > 0;
    assert(abs_int(ex - sg * tail * a) < ten_pow(g) * a) by (nonlinear_arith)
        requires
            abs_int(ex) < a,
            0 <= tail,
            tail + 1 <= ten_pow(g),
            sg == 1 || sg == -1,
            a > 0;
    assert(abs_int(xr) < a) by (nonlinear_arith)
        requires
            abs_int(xr * ten_pow(g)) < ten_pow(g) * a,
            ten_pow(g) > 0;
    assert(abs_int(xr) * ten_pow(d) < ten_pow(d) * a) by (nonlinear_arith)
        requires abs_int(xr) < a, ten_pow(d) > 0;
}

/// Proof that a numeral whose digits spell `10^t` times another's, with the
/// same sign, reads as `10^t` times it.
proof fn lemma_num_scaled(s: Seq<char>, r: Seq<char>, t: nat)
    requires
        sign_len(r) == sign_len(s),
        digits_value(numeral_digits(r)) == digits_value(numeral_digits(s)) * ten_pow(zeros(t).len()) + 0,
    ensures
        numeral_num(r) == numeral_num(s) * ten_pow(t),
{
    let m = digits_value(numeral_digits(s)) as int;
    assert(zeros(t).len() == t);
    assert((-m) * ten_pow(t) == -(m * ten_pow(t))) by (nonlinear_arith);
}

/// Proof that a numeral without an `e` has none.
proof fn lemma_numeral_no_e(s: Seq<char>)
    requires
        is_numeral(s),
    ensures
        find_char(s, 'e') is None,
{
    let o = sign_len(s);
    assert forall|j: int| 0 <= j < s.len() implies s[j] != 'e' by {
        if j >= o {
            if let Some(dot) = find_char(s, '.') {
                if j == dot {
                    lemma_find_char_is(s, '.', dot);
                } else {
                    assert(is_digit(s[j]));
                }
            } else {
                assert(is_digit(s[j]));
            }
        }
    }
    lemma_find_char(s, 'e', s.len());
}

/// A numeral within `10^-d` of a number, and within `10^-k` of it when it has
/// `k` fractional digits, stays within `10^-d` when cut or padded to exactly
/// `d` fractional digits: cutting drops digits worth less than `10^-d − 10^-k`,
/// padding keeps the value.
pub proof fn lemma_fixed_point_within(s: Seq<char>, d: nat, sig: int, exp: int)
    requires
        is_numeral(s),
        d >= 1,
        numeral_within(s, sig, exp, d),
        find_char(s, '.') is Some ==> numeral_within(s, sig, exp, numeral_frac(s)),
    ensures
        numeral_within(fixed_point_text(s, d), sig, exp, d),
{
    let r = fixed_point_text(s, d);
    let o = sign_len(s);
    lemma_numeral_no_e(s);
    match find_char(s, '.') {
        Some(dot) => {
            lemma_find_char_is(s, '.', dot);
            lemma_find_char_first(s, '.', dot);
            let k = numeral_frac(s);
            let end = if dot + 1 + d <= s.len() { dot + 1 + d } else { s.len() as nat };
            let t = (d - (end - dot - 1)) as nat;
            assert(r == s.subrange(0, end as int) + zeros(t));
            assert(r.len() == dot + 1 + d);
            assert forall|j: int| 0 <= j < dot implies r[j] != '.' by {
                assert(r[j] == s[j]);
            }
            assert(r[dot as int] == '.');
            lemma_find_char(r, '.', dot);
            assert(numeral_frac(r) == d);
            assert(r[0] == s[0]);
            assert(sign_len(r) == o);
            let head = s.subrange(o, dot as int);
            assert(r.subrange(o, dot as int) =~= head);
            if k >= d {
                let kept = s.subrange(dot as int + 1, (dot + 1 + d) as int);
                let rest = s.subrange((dot + 1 + d) as int, s.len() as int);
                assert(t == 0);
                assert(r.subrange(dot as int + 1, r.len() as int) =~= kept);
                assert(numeral_digits(r) =~= head + kept);
                assert(numeral_digits(s) =~= (head + kept) + rest);
                lemma_digits_value_concat(head + kept, rest);
                assert(rest.len() == k - d);
                assert forall|i: int| 0 <= i < rest.len() implies is_digit(#[trigger] rest[i]) by {
                    assert(rest[i] == s[dot + 1 + d + i]);
                }
                lemma_digits_value_bound(rest);
                lemma_within_truncated(s, r, digits_value(rest), sig, exp);
            } else {
                let frac = s.subrange(dot as int + 1, s.len() as int);
                assert(end == s.len());
                assert(t == d - k);
                assert(r.subrange(dot as int + 1, r.len() as int) =~= frac + zeros(t));
                assert(numeral_digits(r) =~= (head + frac) + zeros(t));
                assert(numeral_digits(s) =~= head + frac);
                lemma_digits_value_concat(head + frac, zeros(t));
                lemma_digits_value_zeros(t);
                lemma_num_scaled(s, r, t);
                lemma_within_rescaled(s, r, t, sig, exp, d);
            }
        },
        None => {
            lemma_find_char_none(s, '.');
            assert(r == s.push('.') + zeros(d));
            let n = s.len();
            assert forall|j: int| 0 <= j < n implies r[j] != '.' by {
                assert(r[j] == s[j]);
            }
            assert(r[n as int] == '.');
            lemma_find_char(r, '.', n);
            assert(numeral_frac(r) == d);
            assert(numeral_frac(s) == 0);
            assert(r[0] == s[0]);
            assert(sign_len(r) == o);
            assert(numeral_digits(r) =~= s.subrange(o, n as int) + zeros(d));
            lemma_digits_value_concat(s.subrange(o, n as int), zeros(d));
            lemma_digits_value_zeros(d);
            lemma_num_scaled(s, r, d);
            lemma_within_rescaled(s, r, d, sig, exp, d);
        },
    }
}

/// Proof that a digit character reads back as its digit.
proof fn lemma_digit_char_value(d: nat)
    requires
        d < 10,
    ensures
        is_digit(digit_char(d)),
        digit_value(digit_char(d)) == d,
{
}

/// Proof that the decimal numeral of `v` is digits spelling `v`.
proof fn lemma_decimal_text_value(v: nat)
    ensures
        decimal_text(v).len() >= 1,
        forall|i: int| 0 <= i < decimal_text(v).len() ==> is_digit(#[trigger] decimal_text(v)[i]),
        digits_value(decimal_text(v)) == v,
    decreases v,
{
    if v < 10 {
        lemma_digit_char_value(v);
        let t = decimal_text(v);
        assert(t.drop_last() =~= Seq::<char>::empty());
        assert(digits_value(Seq::<char>::empty()) == 0);
        assert(t.last() == digit_char(v));
        assert(digits_value(t) == digits_value(t.drop_last()) * 10 + digit_value(t.last()));
    } else {
        lemma_decimal_text_value(v / 10);
        lemma_digit_char_value(v % 10);
        let h = decimal_text(v / 10);
        let t = decimal_text(v);
        assert(t == h.push(digit_char(v % 10)));
        assert(t.drop_last() =~= h);
        assert forall|i: int| 0 <= i < t.len() implies is_digit(#[trigger] t[i]) by {
            if i < h.len() {
                assert(t[i] == h[i]);
            }
        }
        assert(v == (v / 10) * 10 + v % 10);
        assert(t.last() == digit_char(v % 10));
        assert(digits_value(t) == digits_value(t.drop_last()) * 10 + digit_value(t.last()));
    }
}

/// The numeral of an integer is a numeral without a point that reads as the
/// integer.
pub proof fn lemma_int_text_value(i: int)
    ensures
        is_numeral(int_text(i)),
        numeral_frac(int_text(i)) == 0,
        numeral_num(int_text(i)) == i,
{
    let s = int_text(i);
    let m: nat = if i < 0 { (-i) as nat } else { i as nat };
    let t = decimal_text(m);
    lemma_decimal_text_value(m);
    if i < 0 {
        assert(s == seq!['-'] + t);
        assert(s[0] == '-');
        assert(sign_len(s) == 1);
        assert forall|j: int| 0 <= j < s.len() implies s[j] != '.' by {
            if j > 0 {
                assert(s[j] == t[j - 1]);
            }
        }
        lemma_find_char(s, '.', s.len());
        assert(s.subrange(1, s.len() as int) =~= t);
        assert forall|j: int| 1 <= j < s.len() implies is_digit(#[trigger] s[j]) by {
            assert(s[j] == t[j - 1]);
        }
    } else {
        assert(s == t);
        assert(is_digit(t[0]));
        assert(sign_len(s) == 0);
        assert forall|j: int| 0 <= j < s.len() implies s[j] != '.' by {
            assert(is_digit(t[j]));
        }
        lemma_find_char(s, '.', s.len());
        assert(s.subrange(0, s.len() as int) =~= t);
    }
}

} // verus!
