//! Powers of two: the exponent that reaches a given number, and what std's
//! bit functions on 128-bit words say of them.

use vstd::arithmetic::div_mod::lemma_small_mod;
use vstd::arithmetic::power2::{
    lemma2_to64,
    lemma_pow2_pos,
    lemma_pow2_strictly_increases,
    lemma_pow2_subtracts,
    lemma_pow2_unfold,
    pow2,
};
use vstd::prelude::*;

verus! {

/// `value` is a power of two.
pub open spec fn is_power_of_two(value: nat) -> bool {
    exists|k: nat| value == #[trigger] pow2(k)
}

/// `power` is the least power of two that is not below `value`.
pub open spec fn is_least_power_of_two_from(value: nat, power: nat) -> bool {
    &&& is_power_of_two(power)
    &&& value <= power
    &&& forall|k: nat| value <= #[trigger] pow2(k) ==> power <= pow2(k)
}

/// `count` is the number of zero bits below the lowest set bit of `value`,
/// which is not zero: `2^count` divides `value`, and what is left is odd.
pub open spec fn is_trailing_zero_count(value: nat, count: nat) -> bool {
    value % pow2(count) == 0 && (value / pow2(count)) % 2 == 1
}

/// `u128::next_power_of_two` of std: for a value up to `2^127` it returns
/// the smallest power of two greater than or equal to the value. A larger
/// value has no such power in 128 bits and is left out.
pub assume_specification[ u128::next_power_of_two ](value: u128) -> (power: u128)
    requires
        value <= 0x8000_0000_0000_0000_0000_0000_0000_0000u128,
    ensures
        is_least_power_of_two_from(value as nat, power as nat),
;

/// `u128::trailing_zeros` of std: the number of trailing zeros in the binary
/// representation of the value, which is 128 for zero.
pub assume_specification[ u128::trailing_zeros ](value: u128) -> (count: u32)
    ensures
        value == 0 ==> count == 128,
        value != 0 ==> count < 128 && is_trailing_zero_count(value as nat, count as nat),
;

/// The least `k` with `d <= 2^k`.
pub open spec fn ceil_log2(d: nat) -> nat
    decreases d,
{
    if d <= 1 {
        0
    } else {
        ceil_log2((d + 1) / 2) + 1
    }
}

/// `ceil_log2(d)` is an exponent that reaches `d`, and the one before it
/// does not.
pub proof fn lemma_ceil_log2_bounds(d: nat)
    requires
        0 < d,
    ensures
        d <= pow2(ceil_log2(d)),
        d > 1 ==> ceil_log2(d) >= 1 && pow2((ceil_log2(d) - 1) as nat) < d,
    decreases d,
{
    lemma2_to64();
    if d > 1 {
        let half = (d + 1) / 2;
        let c = ceil_log2(half);
        lemma_ceil_log2_bounds(half);
        lemma_pow2_unfold(c + 1);
        if half > 1 {
            lemma_pow2_unfold(c);
        }
    }
}

/// Only one exponent reaches `d` while the one before it does not.
pub proof fn lemma_ceil_log2_unique(d: nat, k: nat)
    requires
        0 < d <= pow2(k),
        k > 0 ==> pow2((k - 1) as nat) < d,
    ensures
        k == ceil_log2(d),
{
    let c = ceil_log2(d);
    lemma_ceil_log2_bounds(d);
    lemma2_to64();
    if k < c {
        if k < c - 1 {
            lemma_pow2_strictly_increases(k, (c - 1) as nat);
        }
    } else if c < k {
        if c < k - 1 {
            lemma_pow2_strictly_increases(c, (k - 1) as nat);
        }
    }
}

/// A power of two has as many trailing zeros as its exponent says.
proof fn lemma_trailing_zeros_of_power(k: nat, count: nat)
    requires
        is_trailing_zero_count(pow2(k), count),
    ensures
        count == k,
{
    lemma_pow2_pos(k);
    lemma_pow2_pos(count);
    if k < count {
        lemma_pow2_strictly_increases(k, count);
        lemma_small_mod(pow2(k), pow2(count));
    } else if count < k {
        lemma_pow2_subtracts(count, k);
        lemma_pow2_unfold((k - count) as nat);
    }
}

/// The trailing zeros of the least power of two from `value` on are as many
/// as `ceil_log2(value)`.
pub proof fn lemma_trailing_zeros_of_next_power(value: nat, power: nat, count: nat)
    requires
        0 < value,
        is_least_power_of_two_from(value, power),
        is_trailing_zero_count(power, count),
    ensures
        count == ceil_log2(value),
        power == pow2(count),
{
    let k = choose|k: nat| power == #[trigger] pow2(k);
    lemma_trailing_zeros_of_power(k, count);
    if k > 0 && value <= pow2((k - 1) as nat) {
        lemma_pow2_strictly_increases((k - 1) as nat, k);
    }
    lemma_ceil_log2_unique(value, k);
}

/// The bit `shift` of a 128-bit word has the value `2^shift`.
pub proof fn lemma_one_shl(shift: u32)
    requires
        shift < 128,
    ensures
        1u128 << shift == pow2(shift as nat),
    decreases shift,
{
    if shift == 0 {
        assert(1u128 << 0u32 == 1u128) by (bit_vector);
        lemma2_to64();
    } else {
        let below: u32 = (shift - 1) as u32;
        assert(1u128 << shift == 2 * (1u128 << below)) by (bit_vector)
            requires
                0 < shift < 128,
                below == shift - 1,
        ;
        lemma_one_shl(below);
        lemma_pow2_unfold(shift as nat);
    }
}

} // verus!
