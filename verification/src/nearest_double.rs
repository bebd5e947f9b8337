//! The ceiling of a quotient rounded to the nearest double, computed in
//! integers. Precision conversions between decimal digits and bits are
//! defined through `log2(10)` as a double, `m / 2^51` with the mantissa `m`
//! below.

use vstd::prelude::*;
use vstd::arithmetic::power2::{pow2, lemma_pow2_unfold, lemma2_to64};
use vstd::arithmetic::div_mod::{lemma_div_pos_is_pos, lemma_fundamental_div_mod};

verus! {

/// `log2(10)` as a double is `LOG2_10_MANTISSA / 2^51`.
pub const LOG2_10_MANTISSA: u128 = 7480317065143153;

/// `2^51`.
pub const TWO_POW_51: u128 = 2251799813685248;

/// The number of bits of `k`.
pub open spec fn bit_len(k: nat) -> nat
    decreases k,
{
    if k == 0 {
        0
    } else {
        1 + bit_len(k / 2)
    }
}

/// `⌈d(num / den)⌉`, where `d(x)` is the double nearest to `x` (53-bit
/// significand, ties to even), for quotients below `2^53`.
///
/// The quotient lies in `[k, k + 1)` with `k = ⌊num / den⌋`. Rounding moves it
/// down to `k` exactly when its fractional part is positive and at most half
/// a unit in the last place, `2^(bit_len(k) - 54)`; the ceiling is then `k`.
pub open spec fn ceil_nearest_double(num: nat, den: nat) -> nat {
    let k = num / den;
    let rem = num % den;
    if rem == 0 || (k >= 1 && rem * pow2((54 - bit_len(k)) as nat) <= den) {
        k
    } else {
        k + 1
    }
}

/// Proof that a number below `2^b` has at most `b` bits.
proof fn lemma_bit_len_bound(k: nat, b: nat)
    requires
        k < pow2(b),
    ensures
        bit_len(k) <= b,
    decreases k,
{
    if k > 0 {
        if b == 0 {
            lemma2_to64();
        } else {
            lemma_pow2_unfold(b);
            lemma_bit_len_bound(k / 2, (b - 1) as nat);
        }
    }
}

/// The number of bits of `k`.
fn bit_len_exec(k: u128) -> (r: u32)
    ensures
        r as nat == bit_len(k as nat),
{
    proof {
        lemma2_to64();
        vstd::arithmetic::power2::lemma_pow2_adds(64, 64);
        assert(pow2(128) == 0x1_0000_0000_0000_0000 * 0x1_0000_0000_0000_0000nat);
        lemma_bit_len_bound(k as nat, 128);
    }
    let mut x = k;
    let mut c: u32 = 0;
    while x > 0
        invariant
            bit_len(k as nat) == c + bit_len(x as nat),
            c + bit_len(x as nat) <= 128,
        decreases x,
    {
        assert(bit_len(x as nat) == 1 + bit_len((x / 2) as nat));
        x = x / 2;
        c = c + 1;
    }
    c
}

/// `⌈d(num / den)⌉` (see [`ceil_nearest_double`]).
pub fn ceil_nearest_double_exec(num: u128, den: u128) -> (r: u128)
    requires
        0 < den < 0x1000_0000_0000_0000,
        num < 0x10_0000_0000_0000_0000_0000_0000,
        num / den < 0x20_0000_0000_0000,
    ensures
        r as nat == ceil_nearest_double(num as nat, den as nat),
{
    let k = num / den;
    let rem = num % den;
    if rem == 0 {
        return k;
    }
    if k >= 1 {
        proof {
            lemma2_to64();
            assert(pow2(53) == 0x20_0000_0000_0000) by {
                vstd::arithmetic::power2::lemma2_to64_rest();
            }
            lemma_bit_len_bound(k as nat, 53);
        }
        let bl = bit_len_exec(k);
        let sh = 54 - bl;
        let mut f: u128 = 1;
        let mut i: u32 = 0;
        while i < sh
            invariant
                i <= sh <= 54,
                f as nat == pow2(i as nat),
                f <= 0x40_0000_0000_0000,
            decreases sh - i,
        {
            proof {
                lemma_pow2_unfold((i + 1) as nat);
                crate::float_value::lemma_pow2_le((i + 1) as nat, 54);
                vstd::arithmetic::power2::lemma2_to64_rest();
                assert(pow2(54) == 0x40_0000_0000_0000);
            }
            f = f * 2;
            i = i + 1;
        }
        assert(rem < den);
        assert(rem * f <= 0x1000_0000_0000_0000 * 0x40_0000_0000_0000) by (nonlinear_arith)
            requires rem < 0x1000_0000_0000_0000, f <= 0x40_0000_0000_0000;
        if rem * f <= den {
            return k;
        }
    }
    k + 1
}

} // verus!
