//! Division by a divisor that is known beforehand and used many times, as
//! when the flat indices of a matrix are split into rows and columns: the
//! division is replaced by a multiplication, two shifts and a comparison.
//!
//! For a divisor `d`, a multiplier `ceil(2^(64 + s) / d)` is computed once,
//! where `2^s < d <= 2^(s + 1)`. For a numerator `n` the value
//! `n * multiplier / 2^(64 + s)` is an estimate of `n / d`. Since the
//! multiplier is rounded up, the estimate can exceed `n / d`, by one and no
//! more: it does so exactly where `n` leaves the remainder `d - 1` and is at
//! least `2^(64 + s)` divided by the rounding excess. The estimate, taken
//! `d` times, exceeds `n` for those numerators and for no others, so one
//! comparison finds them and one is taken off. What comes out is `n / d`
//! for every numerator and every divisor.
//!
//! No numerator below `2^63` is large enough for the estimate to be wrong,
//! and for a divisor that is a power of two there is no excess.

use crate::arithmetic::{lemma_ceil_div, lemma_remainder_from_quotient, lemma_scaled_quotient};
use crate::power_of_two::{
    ceil_log2,
    is_power_of_two,
    lemma_ceil_log2_bounds,
    lemma_ceil_log2_unique,
    lemma_one_shl,
    lemma_trailing_zeros_of_next_power,
};
use std::ops::{Div, Rem};
use vstd::arithmetic::div_mod::{
    lemma_div_basics,
    lemma_div_denominator,
    lemma_div_is_ordered,
    lemma_div_multiples_vanish,
    lemma_mod_pos_bound,
};
use vstd::arithmetic::power2::{
    lemma2_to64,
    lemma2_to64_rest,
    lemma_pow2_adds,
    lemma_pow2_pos,
    lemma_pow2_strictly_increases,
    pow2,
};
use vstd::bits::lemma_u128_shr_is_div;
use vstd::prelude::*;

verus! {

/// The second of the two shifts by which a numerator is divided by `d`: the
/// `s` with `2^s < d <= 2^(s + 1)`, and 0 for the divisor 1.
pub open spec fn reduced_shift(d: nat) -> nat {
    if d <= 1 {
        0
    } else {
        (ceil_log2(d) - 1) as nat
    }
}

/// The power of two by which the two shifts together divide.
pub open spec fn reduced_scale(d: nat) -> nat {
    pow2(64 + reduced_shift(d))
}

/// The multiplier for the divisor `d`: `reduced_scale(d) / d`, rounded up.
pub open spec fn reduced_multiplier(d: nat) -> nat {
    ((reduced_scale(d) + d - 1) / (d as int)) as nat
}

/// By how much the multiplier, taken `d` times, exceeds the scale: what the
/// rounding up has added.
pub open spec fn rounding_excess(d: nat) -> nat {
    (reduced_multiplier(d) * d - reduced_scale(d)) as nat
}

/// The estimate of `n / d` that multiplying and shifting gives.
pub open spec fn quotient_estimate(n: nat, d: nat) -> nat {
    (n * reduced_multiplier(d)) / reduced_scale(d)
}

/// The numerators for which the estimate is one more than `n / d`: those
/// with the largest remainder that `d` leaves, for which the rounding
/// excess adds up to a whole scale.
pub open spec fn overshoots(n: nat, d: nat) -> bool {
    n % d == d - 1 && n * rounding_excess(d) >= reduced_scale(d)
}

/// A divisor together with the multiplier and the shift that stand in for
/// it. Both are computed once, when the value is made, and never change.
#[derive(Clone, Copy, Debug)]
pub struct StrengthReducedUsize {
    multiplier: u128,
    divisor: usize,
    shift_value: u32,
}

impl View for StrengthReducedUsize {
    type V = nat;

    /// The divisor that the value stands for.
    closed spec fn view(&self) -> nat {
        self.divisor as nat
    }
}

impl StrengthReducedUsize {
    /// The multiplier that is stored for the divisor.
    pub closed spec fn multiplier(self) -> nat {
        self.multiplier as nat
    }

    /// The shift that is stored for the divisor.
    pub closed spec fn shift_value(self) -> nat {
        self.shift_value as nat
    }

    /// The divisor is not zero, and the multiplier and the shift are those
    /// that belong to it.
    #[verifier::type_invariant]
    pub closed spec fn well_formed(self) -> bool {
        &&& self.divisor > 0
        &&& self.multiplier == reduced_multiplier(self.divisor as nat)
        &&& self.shift_value == reduced_shift(self.divisor as nat)
    }

    /// Computes the multiplier and the shift for `divisor`, which must not
    /// be zero.
    pub fn new(divisor: usize) -> (reduced: Self)
        requires
            divisor > 0,
        ensures
            reduced@ == divisor,
            reduced.multiplier() == reduced_multiplier(divisor as nat),
            reduced.shift_value() == reduced_shift(divisor as nat),
    {
        if divisor == 1 {
            proof {
                lemma_one_shl(64);
                lemma2_to64();
                lemma_div_basics(pow2(64) as int);
            }
            Self { multiplier: 1u128 << 64, divisor, shift_value: 0 }
        } else {
            let big_divisor: u128 = divisor as u128;
            let power: u128 = big_divisor.next_power_of_two();
            let trailing_zeros: u32 = power.trailing_zeros();
            proof {
                lemma2_to64();
                lemma2_to64_rest();
                assert(power != 0) by {
                    let k = choose|k: nat| power == #[trigger] pow2(k);
                    lemma_pow2_pos(k);
                }
                lemma_trailing_zeros_of_next_power(
                    big_divisor as nat,
                    power as nat,
                    trailing_zeros as nat,
                );
                lemma_reduction_bounds(divisor as nat);
                lemma_one_shl((trailing_zeros + 63) as u32);
                lemma_pow2_adds(64, 63);
                if trailing_zeros < 64 {
                    lemma_pow2_strictly_increases((trailing_zeros + 63) as nat, 127);
                }
            }
            Self {
                multiplier: ((1u128 << trailing_zeros + 63) + big_divisor - 1) / big_divisor,
                divisor,
                shift_value: trailing_zeros - 1,
            }
        }
    }

    /// Quotient and remainder of `numerator` by the divisor of `denom`. The
    /// numerator is divided once, and the remainder is what the quotient
    /// leaves of it.
    pub fn div_rem(numerator: usize, denom: StrengthReducedUsize) -> (result: (usize, usize))
        ensures
            result.0 == numerator as nat / denom@,
            result.1 == numerator as nat % denom@,
    {
        proof {
            use_type_invariant(&denom);
            lemma_remainder_from_quotient(numerator as int, denom.divisor as int);
        }
        let quotient: usize = numerator / denom;
        let remainder: usize = numerator - quotient * denom.divisor;
        (quotient, remainder)
    }

    /// The divisor that the value was made for.
    pub fn get(&self) -> (divisor: usize)
        ensures
            divisor == self@,
            divisor > 0,
    {
        proof {
            use_type_invariant(self);
        }
        self.divisor
    }
}

impl Div<StrengthReducedUsize> for usize {
    type Output = usize;

    /// The quotient of `self` by the divisor of `rhs`. It is estimated by
    /// multiplying with the stored multiplier and shifting, first by a whole
    /// 64-bit word and then by the stored shift; where the estimate, taken
    /// as often as the divisor says, exceeds the numerator, it is one too
    /// large and one is taken off.
    fn div(self, rhs: StrengthReducedUsize) -> (quotient: usize)
        ensures
            quotient == self as nat / rhs@,
    {
        proof {
            use_type_invariant(&rhs);
            lemma_reduction_bounds(rhs@);
            lemma_quotient_estimate(self as nat, rhs@);
            lemma_corrected_estimate(self as nat, rhs@);
            lemma2_to64();
            assert(self * rhs.multiplier <= u128::MAX) by (nonlinear_arith)
                requires
                    self <= 0xffff_ffff_ffff_ffffu128,
                    rhs.multiplier <= 0x1_0000_0000_0000_0000u128,
            ;
        }
        let multiplied: u128 = ((self as u128) * rhs.multiplier) >> 64;
        let shifted: u128 = multiplied >> rhs.shift_value;
        proof {
            let product = (self as u128) * rhs.multiplier;
            let s = rhs.shift_value as nat;
            lemma_u128_shr_is_div(product as u128, 64u128);
            lemma_u128_shr_is_div(multiplied, rhs.shift_value as u128);
            lemma_pow2_pos(64);
            lemma_pow2_pos(s);
            lemma_div_denominator(product as int, pow2(64) as int, pow2(s) as int);
            lemma_pow2_adds(64, s);
            assert(shifted == quotient_estimate(self as nat, rhs@));
            assert(shifted * rhs.divisor <= u128::MAX) by (nonlinear_arith)
                requires
                    shifted <= 0xffff_ffff_ffff_ffffu128,
                    rhs.divisor <= 0xffff_ffff_ffff_ffffu128,
            ;
        }
        if shifted * (rhs.divisor as u128) > self as u128 {
            (shifted - 1) as usize
        } else {
            shifted as usize
        }
    }
}

impl vstd::std_specs::ops::DivSpecImpl<StrengthReducedUsize> for usize {
    open spec fn obeys_div_spec() -> bool {
        true
    }

    open spec fn div_req(self, rhs: StrengthReducedUsize) -> bool {
        true
    }

    open spec fn div_spec(self, rhs: StrengthReducedUsize) -> usize {
        (self as nat / rhs@) as usize
    }
}

impl Rem<StrengthReducedUsize> for usize {
    type Output = usize;

    /// The remainder of `self` by the divisor of `rhs`: what is left of the
    /// numerator when the divisor is taken from it as often as the quotient
    /// says.
    fn rem(self, rhs: StrengthReducedUsize) -> (remainder: usize)
        ensures
            remainder == self as nat % rhs@,
    {
        proof {
            use_type_invariant(&rhs);
            lemma_remainder_from_quotient(self as int, rhs.divisor as int);
        }
        let quotient: usize = self / rhs;
        self - quotient * rhs.divisor
    }
}

impl vstd::std_specs::ops::RemSpecImpl<StrengthReducedUsize> for usize {
    open spec fn obeys_rem_spec() -> bool {
        true
    }

    open spec fn rem_req(self, rhs: StrengthReducedUsize) -> bool {
        true
    }

    open spec fn rem_spec(self, rhs: StrengthReducedUsize) -> usize {
        (self as nat % rhs@) as usize
    }
}

/// The sizes of what is stored for a divisor of at most 64 bits: the shift
/// stays below 64, the multiplier does not exceed `2^64`, and the rounding
/// excess is less than the divisor itself.
pub proof fn lemma_reduction_bounds(d: nat)
    requires
        0 < d <= u64::MAX,
    ensures
        reduced_shift(d) <= 63,
        pow2(64) <= reduced_scale(d),
        pow2(reduced_shift(d)) <= d <= pow2(reduced_shift(d) + 1),
        0 < reduced_multiplier(d) <= pow2(64),
        reduced_multiplier(d) * d == reduced_scale(d) + rounding_excess(d),
        rounding_excess(d) < d,
{
    let s = reduced_shift(d);
    let scale = reduced_scale(d);
    let m = reduced_multiplier(d);
    lemma2_to64();
    lemma_ceil_log2_bounds(d);
    if d > 1 && ceil_log2(d) > 65 {
        lemma_pow2_strictly_increases(64, (ceil_log2(d) - 1) as nat);
    }
    lemma_pow2_adds(64, s);
    lemma_pow2_adds(s, 1);
    lemma_pow2_pos(s);
    lemma_ceil_div(scale as int, d as int);
    assert(pow2(64) <= scale) by (nonlinear_arith)
        requires
            scale == pow2(64) * pow2(s),
            pow2(s) > 0,
    ;
    // `d` is no less than `2^s`, so `scale / d`, rounded up, does not
    // exceed `2^64`.
    assert(m <= pow2(64)) by (nonlinear_arith)
        requires
            scale == pow2(64) * pow2(s),
            pow2(s) <= d,
            m * d < scale + d,
            0 < d,
    ;
    assert(0 < m) by (nonlinear_arith)
        requires
            scale <= m * d,
            0 < scale,
            0 < d,
    ;
}

/// What the estimate is for every numerator and divisor of at most 64
/// bits: the quotient, and one more exactly where the numerator overshoots.
/// It never exceeds the numerator.
pub proof fn lemma_quotient_estimate(n: nat, d: nat)
    requires
        n <= u64::MAX,
        0 < d <= u64::MAX,
    ensures
        quotient_estimate(n, d) == n / d + (if overshoots(n, d) {
            1nat
        } else {
            0nat
        }),
        quotient_estimate(n, d) <= n,
{
    let s = reduced_shift(d);
    let scale = reduced_scale(d);
    let m = reduced_multiplier(d);
    let e = rounding_excess(d);
    lemma_reduction_bounds(d);
    lemma2_to64();
    lemma_pow2_adds(64, s);
    lemma_pow2_adds(s, 1);
    // The excess is below `d <= 2^(s + 1)` and the numerator below `2^64`.
    assert(n * e < 2 * scale) by (nonlinear_arith)
        requires
            n < pow2(64),
            e < d,
            d <= pow2(s) * 2,
            scale == pow2(64) * pow2(s),
    ;
    lemma_scaled_quotient(n as int, d as int, scale as int, m as int, e as int);
    assert(n * m <= scale * n) by (nonlinear_arith)
        requires
            m <= pow2(64),
            pow2(64) <= scale,
    ;
    lemma_div_is_ordered((n * m) as int, (scale * n) as int, scale as int);
    lemma_div_multiples_vanish(n as int, scale as int);
}

/// The estimate is the quotient, or one more; taken `d` times it exceeds the
/// numerator in the second case and in no other. So taking one off where it
/// does gives the quotient.
pub proof fn lemma_corrected_estimate(n: nat, d: nat)
    requires
        n <= u64::MAX,
        0 < d <= u64::MAX,
    ensures
        quotient_estimate(n, d) * d > n <==> overshoots(n, d),
        n / d == (if quotient_estimate(n, d) * d > n {
            quotient_estimate(n, d) - 1
        } else {
            quotient_estimate(n, d) as int
        }),
{
    let exact = n as int / d as int;
    lemma_quotient_estimate(n, d);
    lemma_remainder_from_quotient(n as int, d as int);
    lemma_mod_pos_bound(n as int, d as int);
    assert((exact + 1) * d == exact * d + d) by (nonlinear_arith);
}

/// No numerator below `2^63` overshoots: for those the estimate is the
/// quotient, whatever the divisor. These are all the numerators there are
/// where a word has fewer than 64 bits.
pub proof fn lemma_exact_below_half_range(n: nat, d: nat)
    requires
        n < pow2(63),
        0 < d <= u64::MAX,
    ensures
        !overshoots(n, d),
        quotient_estimate(n, d) == n / d,
{
    let s = reduced_shift(d);
    let e = rounding_excess(d);
    lemma_reduction_bounds(d);
    lemma2_to64();
    lemma2_to64_rest();
    lemma_pow2_adds(63, s + 1);
    lemma_pow2_adds(s, 1);
    assert(n * e < pow2(63) * pow2(s + 1)) by (nonlinear_arith)
        requires
            n < pow2(63),
            e < d,
            d <= pow2(s + 1),
    ;
    lemma_quotient_estimate(n, d);
}

/// For a divisor that is a power of two nothing is rounded: no numerator
/// overshoots, and the estimate is the quotient.
pub proof fn lemma_exact_for_power_of_two(n: nat, d: nat)
    requires
        n <= u64::MAX,
        d <= u64::MAX,
        is_power_of_two(d),
    ensures
        rounding_excess(d) == 0,
        !overshoots(n, d),
        quotient_estimate(n, d) == n / d,
{
    let k = choose|k: nat| d == #[trigger] pow2(k);
    let s = reduced_shift(d);
    lemma2_to64();
    lemma_pow2_pos(k);
    if k > 64 {
        lemma_pow2_strictly_increases(64, k);
    }
    if k > 0 {
        lemma_pow2_strictly_increases((k - 1) as nat, k);
        lemma_ceil_log2_unique(d, k);
    }
    // The scale is the divisor `2^63` times (`2^64` times for the divisor
    // 1), so the division that gives the multiplier leaves nothing.
    let whole = pow2((64 + s - k) as nat);
    lemma_pow2_adds((64 + s - k) as nat, k);
    lemma_reduction_bounds(d);
    assert(reduced_multiplier(d) == whole) by (nonlinear_arith)
        requires
            reduced_scale(d) == whole * d,
            reduced_multiplier(d) * d == reduced_scale(d) + rounding_excess(d),
            rounding_excess(d) < d,
    ;
    assert(n * rounding_excess(d) == 0) by (nonlinear_arith)
        requires
            rounding_excess(d) == 0,
    ;
    lemma_quotient_estimate(n, d);
}

/// The divisor 1 has no exponent below its own, so its shift is set to 0
/// and its multiplier to `2^64`: the first shift undoes the multiplication,
/// and the estimate of every numerator is the numerator itself.
pub proof fn lemma_divisor_one(n: nat)
    requires
        n <= u64::MAX,
    ensures
        reduced_shift(1) == 0,
        reduced_multiplier(1) == pow2(64),
        quotient_estimate(n, 1) == n,
{
    lemma2_to64();
    lemma_div_basics(pow2(64) as int);
    lemma_div_basics(n as int);
    assert(is_power_of_two(1)) by {
        assert(1 == pow2(0));
    }
    lemma_exact_for_power_of_two(n, 1);
}

} // verus!
