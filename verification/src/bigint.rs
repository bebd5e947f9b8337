//! Arbitrary-size signed integers held as plain words, with the arithmetic
//! done by `dashu`'s `IBig`.

use vstd::prelude::*;
use vstd::arithmetic::power::pow;
use crate::decimal::int_text;
use vstd::arithmetic::power2::{pow2, lemma_pow2_pos};
use ::dashu::base::Sign;
use ::dashu::integer::{IBig, UBig};

verus! {

/// The value of little-endian 64-bit words.
pub open spec fn words_value(w: Seq<u64>) -> nat
    decreases w.len(),
{
    if w.len() == 0 {
        0
    } else {
        w[0] as nat + pow2(64) * words_value(w.drop_first())
    }
}

/// Division of integers truncated toward zero, as Rust and `dashu` divide.
pub open spec fn trunc_div(a: int, b: int) -> int {
    let q = abs_int(a) / abs_int(b);
    if (a >= 0) == (b >= 0) {
        q
    } else {
        -q
    }
}

/// `|a|`.
pub open spec fn abs_int(a: int) -> int {
    if a < 0 {
        -a
    } else {
        a
    }
}

/// A signed integer: a sign flag and the little-endian words of its magnitude.
#[derive(Clone, Debug)]
pub struct BigInt {
    pub negative: bool,
    pub words: Vec<u64>,
}

impl View for BigInt {
    type V = int;

    open spec fn view(&self) -> int {
        if self.negative {
            -(words_value(self.words@) as int)
        } else {
            words_value(self.words@) as int
        }
    }
}

/// The magnitude is zero exactly when every word is zero.
pub proof fn lemma_words_value_zero(w: Seq<u64>)
    ensures
        (words_value(w) == 0) <==> (forall|i: int| 0 <= i < w.len() ==> w[i] == 0),
    decreases w.len(),
{
    if w.len() > 0 {
        lemma_words_value_zero(w.drop_first());
        lemma_pow2_pos(64);
        if words_value(w) == 0 {
            let v = words_value(w.drop_first());
            assert(pow2(64) * v >= 0) by (nonlinear_arith)
                requires pow2(64) > 0;
            assert(w[0] == 0 && pow2(64) * v == 0);
            assert(v == 0) by (nonlinear_arith)
                requires pow2(64) > 0, pow2(64) * v == 0;
            assert forall|i: int| 0 <= i < w.len() implies w[i] == 0 by {
                if i > 0 {
                    assert(w[i] == w.drop_first()[i - 1]);
                }
            }
        }
        if forall|i: int| 0 <= i < w.len() ==> w[i] == 0 {
            assert forall|i: int| 0 <= i < w.drop_first().len() implies w.drop_first()[i] == 0 by {
                assert(w.drop_first()[i] == w[i + 1]);
            }
        }
    }
}

impl BigInt {
    /// The integer `value`.
    pub fn from_u64(value: u64) -> (r: BigInt)
        ensures
            r@ == value as int,
    {
        let mut words: Vec<u64> = Vec::new();
        if value != 0 {
            words.push(value);
        }
        proof {
            if value != 0 {
                assert(words@.drop_first() =~= Seq::<u64>::empty());
                assert(words_value(words@.drop_first()) == 0);
                assert(words_value(words@) == words@[0] as nat + pow2(64) * words_value(words@.drop_first()));
            } else {
                assert(words@.len() == 0);
            }
        }
        BigInt { negative: false, words }
    }

    /// A copy of the value.
    pub fn copy(&self) -> (r: BigInt)
        ensures
            r@ == self@,
    {
        BigInt { negative: self.negative, words: self.words.clone() }
    }

    /// Whether the value is below zero.
    pub fn is_negative(&self) -> (r: bool)
        ensures
            r == (self@ < 0),
    {
        self.negative && !self.is_zero()
    }

    /// Whether the value is zero.
    pub fn is_zero(&self) -> (r: bool)
        ensures
            r == (self@ == 0),
    {
        proof {
            lemma_words_value_zero(self.words@);
        }
        let n = self.words.len();
        let mut i: usize = 0;
        while i < n
            invariant
                n == self.words@.len(),
                i <= n,
                forall|j: int| 0 <= j < i ==> self.words@[j] == 0,
            decreases n - i,
        {
            if self.words[i] != 0 {
                proof {
                    lemma_words_value_zero(self.words@);
                    assert(self.words@[i as int] != 0);
                }
                return false;
            }
            i = i + 1;
        }
        true
    }
}

/// The decimal numeral of `a`, written by `IBig`'s `Display` (`to_string`):
/// a minus sign for a negative value, then the decimal digits of the
/// magnitude without leading zeros (`0` for zero).
#[verifier::external_body]
pub(crate) fn big_to_decimal(a: &BigInt) -> (r: String)
    ensures
        r@ == int_text(a@),
{
    IBig::from_parts(Sign::from(a.negative), UBig::from_words(&a.words)).to_string()
}

/// Sum, computed by `IBig + IBig`. `dashu` adds integers exactly.
#[verifier::external_body]
pub(crate) fn big_add(a: &BigInt, b: &BigInt) -> (r: BigInt)
    ensures
        r@ == a@ + b@,
{
    let x = IBig::from_parts(Sign::from(a.negative), UBig::from_words(&a.words));
    let y = IBig::from_parts(Sign::from(b.negative), UBig::from_words(&b.words));
    let z = x + y;
    let (s, w) = z.as_sign_words();
    BigInt { negative: bool::from(s), words: w.to_vec() }
}

/// Difference, computed by `IBig - IBig`. `dashu` subtracts integers exactly.
#[verifier::external_body]
pub(crate) fn big_sub(a: &BigInt, b: &BigInt) -> (r: BigInt)
    ensures
        r@ == a@ - b@,
{
    let x = IBig::from_parts(Sign::from(a.negative), UBig::from_words(&a.words));
    let y = IBig::from_parts(Sign::from(b.negative), UBig::from_words(&b.words));
    let z = x - y;
    let (s, w) = z.as_sign_words();
    BigInt { negative: bool::from(s), words: w.to_vec() }
}

/// Product, computed by `IBig * IBig`. `dashu` multiplies integers exactly.
#[verifier::external_body]
pub(crate) fn big_mul(a: &BigInt, b: &BigInt) -> (r: BigInt)
    ensures
        r@ == a@ * b@,
{
    let x = IBig::from_parts(Sign::from(a.negative), UBig::from_words(&a.words));
    let y = IBig::from_parts(Sign::from(b.negative), UBig::from_words(&b.words));
    let z = x * y;
    let (s, w) = z.as_sign_words();
    BigInt { negative: bool::from(s), words: w.to_vec() }
}

/// Quotient, computed by `IBig / IBig`, which `dashu` truncates toward zero.
/// `dashu` panics on a zero divisor, which `requires` rules out.
#[verifier::external_body]
pub(crate) fn big_div(a: &BigInt, b: &BigInt) -> (r: BigInt)
    requires
        b@ != 0,
    ensures
        r@ == trunc_div(a@, b@),
{
    let x = IBig::from_parts(Sign::from(a.negative), UBig::from_words(&a.words));
    let y = IBig::from_parts(Sign::from(b.negative), UBig::from_words(&b.words));
    let z = x / y;
    let (s, w) = z.as_sign_words();
    BigInt { negative: bool::from(s), words: w.to_vec() }
}

/// Power, computed by `IBig::pow`, which `dashu` computes exactly.
#[verifier::external_body]
pub(crate) fn big_pow(a: &BigInt, e: usize) -> (r: BigInt)
    ensures
        r@ == pow(a@, e as nat),
{
    let x = IBig::from_parts(Sign::from(a.negative), UBig::from_words(&a.words));
    let z = x.pow(e);
    let (s, w) = z.as_sign_words();
    BigInt { negative: bool::from(s), words: w.to_vec() }
}

/// Left shift, computed by `IBig << usize`: multiplication by `2^n`.
#[verifier::external_body]
pub(crate) fn big_shl(a: &BigInt, n: usize) -> (r: BigInt)
    ensures
        r@ == a@ * pow2(n as nat),
{
    let x = IBig::from_parts(Sign::from(a.negative), UBig::from_words(&a.words));
    let z = x << n;
    let (s, w) = z.as_sign_words();
    BigInt { negative: bool::from(s), words: w.to_vec() }
}

} // verus!
