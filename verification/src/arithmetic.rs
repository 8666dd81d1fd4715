//! Facts of integer arithmetic on which division by multiplication rests.

use vstd::arithmetic::div_mod::{lemma_fundamental_div_mod, lemma_fundamental_div_mod_converse};
use vstd::prelude::*;

verus! {

/// Rounding a quotient up adds less than one divisor: with
/// `m = ceil(scale / d)`, the product `m * d` lies in `scale .. scale + d`.
pub proof fn lemma_ceil_div(scale: int, d: int)
    requires
        0 <= scale,
        0 < d,
    ensures
        scale <= ((scale + d - 1) / d) * d < scale + d,
{
    lemma_fundamental_div_mod(scale + d - 1, d);
    let m = (scale + d - 1) / d;
    assert(d * m == m * d) by (nonlinear_arith);
}

/// What a multiplication in place of a division gives. Let `m * d` exceed
/// `scale` by `e < d`. Then `n * m / scale` is the quotient `n / d` as long
/// as the excess, taken `n` times, stays below what the remainder of `n`
/// leaves of one `scale`; and one more where it does not. With
/// `n * e < 2 * scale` that can happen only where `n` has the largest
/// remainder there is, `d - 1`.
pub proof fn lemma_scaled_quotient(n: int, d: int, scale: int, m: int, e: int)
    requires
        0 <= n,
        0 < d,
        0 < scale,
        0 <= e < d,
        m * d == scale + e,
        n * e < 2 * scale,
    ensures
        (n * m) / scale == n / d + (if n % d == d - 1 && n * e >= scale {
            1int
        } else {
            0int
        }),
{
    let q = n / d;
    let r = n % d;
    lemma_fundamental_div_mod(n, d);
    let c = if r == d - 1 && n * e >= scale {
        1int
    } else {
        0int
    };
    let t = r * scale + n * e;
    assert(0 <= n * e) by (nonlinear_arith)
        requires
            0 <= n,
            0 <= e,
    ;
    // The product, taken `d` times, is `q * d * scale` and a rest `t`.
    assert((n * m) * d == (q * scale) * d + t) by (nonlinear_arith)
        requires
            n == d * q + r,
            m * d == scale + e,
            t == r * scale + n * e,
    ;
    // The rest holds `c` times `d * scale`, and not once more.
    assert((c * scale) * d <= t < ((c + 1) * scale) * d) by (nonlinear_arith)
        requires
            0 <= r < d,
            0 < scale,
            0 <= n * e < 2 * scale,
            t == r * scale + n * e,
            c == if r == d - 1 && n * e >= scale {
                1int
            } else {
                0int
            },
    ;
    let low = (q + c) * scale;
    assert(low * d <= (n * m) * d < (low + scale) * d) by (nonlinear_arith)
        requires
            (n * m) * d == (q * scale) * d + t,
            (c * scale) * d <= t < ((c + 1) * scale) * d,
            low == (q + c) * scale,
    ;
    assert(low <= n * m < low + scale) by (nonlinear_arith)
        requires
            low * d <= (n * m) * d < (low + scale) * d,
            0 < d,
    ;
    lemma_fundamental_div_mod_converse(n * m, scale, q + c, n * m - low);
}

/// The quotient says how often the divisor can be taken from the numerator,
/// and what is then left is the remainder.
pub proof fn lemma_remainder_from_quotient(n: int, d: int)
    requires
        0 <= n,
        0 < d,
    ensures
        0 <= (n / d) * d <= n,
        n - (n / d) * d == n % d,
{
    lemma_fundamental_div_mod(n, d);
    assert((n / d) * d == d * (n / d)) by (nonlinear_arith);
}

} // verus!
