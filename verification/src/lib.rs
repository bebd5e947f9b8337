//! # ni_number
//!
//! High-precision computation of the **Ni constant** (η_ν), defined by the
//! series
//!
//! ```text
//! η_ν = Σ (n=1..∞)  πⁿ / (n! · 2^(n²))
//! ```
//!
//! Value: **1.88937666040491913115597775087642096081019761538215...**
//!
//! Values are computed with `dashu`'s arbitrary-precision binary floats, π by
//! Machin's formula in integers, and kept in a [`cache::NiCache`] by precision.

pub mod bigint;
pub mod float_value;
pub mod nearest_double;
pub mod decimal;
pub mod backend;
pub mod series;
pub mod compute;
pub mod cache;

pub use compute::digits_to_bits as bits_for_digits;

use vstd::prelude::*;
use crate::backend::dashu_backend::{DashuFloat, decimal_string_value};
use crate::cache::{NiCache, cache_key, cache_precision_ok, served_key, serving_key};
use crate::compute::{ni_value, ni_accurate, bits_for_digits_value};
use crate::decimal::find_char;
use crate::float_value::{FloatValue, float_sane};
use crate::series::{NiSeries, series_precision_ok};

verus! {

/// The first 50 decimal digits of η_ν.
pub const NI_50_DIGITS: &'static str = "1.88937666040491913115597775087642096081019761538215";

/// The digit counts [`ni_number_digits`] accepts: the bit precision they need
/// fits the cache, and the text length fits the machine integers.
pub open spec fn digits_ok(d: nat) -> bool {
    &&& bits_for_digits_value(d) <= u32::MAX
    &&& cache_precision_ok(bits_for_digits_value(d))
    &&& d + 20 <= usize::MAX
}

/// The cache key of a request for `bits` bits.
pub open spec fn request_key(bits: nat) -> u32 {
    cache_key(bits) as u32
}

/// η_ν as a decimal string with `decimal_digits` digits after the decimal
/// point, computed at [`bits_for_digits`]`(decimal_digits)` bits through the
/// cache.
///
/// A call at the same or a lower precision than a cached one takes the value
/// from the cache without computing, and leaves the cache as it was.
pub fn ni_number_digits(cache: &mut NiCache, decimal_digits: u32) -> (r: String)
    requires
        old(cache).wf(),
        digits_ok(decimal_digits as nat),
    ensures
        final(cache).wf(),
        r@ == decimal_string_value(
            ni_value(served_key(old(cache)@, request_key(bits_for_digits_value(decimal_digits as nat))) as nat),
            decimal_digits as nat,
        ),
        served_key(old(cache)@, request_key(bits_for_digits_value(decimal_digits as nat)))
            >= cache_key(bits_for_digits_value(decimal_digits as nat)),
        ni_accurate(
            ni_value(served_key(old(cache)@, request_key(bits_for_digits_value(decimal_digits as nat))) as nat),
            served_key(old(cache)@, request_key(bits_for_digits_value(decimal_digits as nat))) as nat,
        ),
        decimal_digits > 0 ==> find_char(r@, '.') == Some((r@.len() - decimal_digits - 1) as nat),
        serving_key(old(cache)@, request_key(bits_for_digits_value(decimal_digits as nat))) is Some
            ==> final(cache)@ == old(cache)@,
        serving_key(old(cache)@, request_key(bits_for_digits_value(decimal_digits as nat))) is None
            ==> final(cache)@ == old(cache)@.insert(
                request_key(bits_for_digits_value(decimal_digits as nat)),
                ni_value(cache_key(bits_for_digits_value(decimal_digits as nat))),
            ),
{
    let bits = compute::digits_to_bits(decimal_digits);
    let val = cache.get_or_compute(bits);
    val.to_decimal_string(decimal_digits)
}

/// Proof that after a request for `d1` digits, a request for `d2 ≤ d1`
/// digits is answered from the cache (so it computes nothing and leaves the
/// cache unchanged).
pub proof fn lemma_fewer_digits_are_served(m: Map<u32, FloatValue>, d1: nat, d2: nat)
    requires
        d2 <= d1,
        digits_ok(d1),
        digits_ok(d2),
        m.contains_key(request_key(bits_for_digits_value(d1))),
    ensures
        serving_key(m, request_key(bits_for_digits_value(d2))) is Some,
{
    let b1 = bits_for_digits_value(d1);
    let b2 = bits_for_digits_value(d2);
    if d2 < d1 {
        crate::compute::lemma_bits_for_digits_grow(d2, d1);
    }
    vstd::arithmetic::div_mod::lemma_div_is_ordered((b2 + 63) as int, (b1 + 63) as int, 64);
    let k1 = request_key(b1);
    assert(cache_key(b2) <= cache_key(b1));
    assert(m.contains_key(k1) && k1 >= request_key(b2));
}

/// η_ν at `precision_bits` of internal bit precision, through the cache: the
/// value computed at the smallest cached precision at or above
/// `precision_bits` rounded up to a multiple of 64, or computed and stored at
/// that rounded precision when none is cached.
pub fn ni_number(cache: &mut NiCache, precision_bits: u32) -> (r: DashuFloat)
    requires
        old(cache).wf(),
        cache_precision_ok(precision_bits as nat),
    ensures
        final(cache).wf(),
        r@ == ni_value(served_key(old(cache)@, request_key(precision_bits as nat)) as nat),
        served_key(old(cache)@, request_key(precision_bits as nat)) >= cache_key(precision_bits as nat),
        ni_accurate(r@, served_key(old(cache)@, request_key(precision_bits as nat)) as nat),
        float_sane(r@),
        serving_key(old(cache)@, request_key(precision_bits as nat)) is Some ==> final(cache)@ == old(cache)@,
        serving_key(old(cache)@, request_key(precision_bits as nat)) is None
            ==> final(cache)@ == old(cache)@.insert(request_key(precision_bits as nat), r@),
{
    cache.get_or_compute(precision_bits)
}

/// The series terms one step at a time, at `precision_bits`.
///
/// Each [`series::NiStep`] has the index `n`, the term and the partial sum.
pub fn ni_series(precision_bits: u32) -> (r: NiSeries)
    requires
        series_precision_ok(precision_bits as nat),
    ensures
        r.wf(),
        r.precision() == precision_bits,
        r.count() == 0,
{
    NiSeries::new(precision_bits)
}

/// Clear the cache; the next request computes from scratch.
pub fn clear_cache(cache: &mut NiCache)
    ensures
        final(cache).wf(),
        final(cache)@ == Map::<u32, FloatValue>::empty(),
{
    cache.clear();
}

} // verus!
