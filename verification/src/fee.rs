//! The swap fee curve: a fee rate that interpolates linearly between a
//! configured minimum and maximum, driven by how far the pool's underlying
//! reserve is from its liquidity target.

use vstd::prelude::*;
use vstd::arithmetic::div_mod::{
    lemma_div_is_ordered, lemma_div_multiples_vanish, lemma_div_pos_is_pos,
};
use vstd::arithmetic::mul::lemma_mul_upper_bound;

verus! {

/// The product of two `u64` values always fits in a `u128`.
pub(crate) proof fn lemma_u64_mul_fits_u128(a: int, b: int)
    requires
        0 <= a <= u64::MAX,
        0 <= b <= u64::MAX,
    ensures
        0 <= a * b <= u128::MAX,
{
    lemma_mul_upper_bound(a, u64::MAX as int, b, u64::MAX as int);
    assert(0 <= a * b) by (nonlinear_arith)
        requires
            0 <= a,
            0 <= b,
    ;
}

/// Fixed-point scale: a real value `v` is stored as `v * FIXED_POINT_SCALE`,
/// truncated. A `Percentage` of `FIXED_POINT_SCALE` means 100%.
pub const FIXED_POINT_SCALE: u64 = 1_000_000;

/// The fee rate charged by a swap when the pool holds `token` units of
/// underlying reserve, as a fixed-point fraction (`FIXED_POINT_SCALE` = 100%).
///
/// Below the target the rate climbs linearly from `min` (reserve at target)
/// to `max` (reserve depleted). Above the target the rate relaxes linearly
/// from `max` back toward `min` as the surplus grows, clamped so it never
/// drops below `min`. All divisions truncate.
pub open spec fn spec_fee_rate(token: int, target: int, min: int, max: int) -> int {
    if token <= target {
        min + (target - token) * (max - min) / target
    } else {
        let relief = (token - target) * (max - min) / target;
        if relief >= max - min {
            min
        } else {
            max - relief
        }
    }
}

/// Computes the swap fee rate for a reserve level of `token`.
pub fn fee_rate(token: u64, target: u64, min: u64, max: u64) -> (rate: u64)
    requires
        1 <= target,
        min <= max,
    ensures
        rate == spec_fee_rate(token as int, target as int, min as int, max as int),
        min <= rate <= max,
{
    let spread: u64 = max - min;
    if token <= target {
        let distance: u64 = target - token;
        proof {
            lemma_u64_mul_fits_u128(distance as int, spread as int);
        }
        let climb128: u128 = (distance as u128) * (spread as u128) / (target as u128);
        proof {
            lemma_interp_step_le_spread(distance as int, target as int, spread as int);
        }
        let climb: u64 = climb128 as u64;
        min + climb
    } else {
        let distance: u64 = token - target;
        proof {
            lemma_u64_mul_fits_u128(distance as int, spread as int);
        }
        let relief128: u128 = (distance as u128) * (spread as u128) / (target as u128);
        proof {
            let relief = (token - target) * (max - min) / (target as int);
            lemma_div_pos_is_pos((token - target) * (max - min), target as int);
            assert(0 <= (token - target) * (max - min)) by (nonlinear_arith)
                requires
                    target < token,
                    min <= max,
            ;
            assert(0 <= relief);
        }
        if relief128 >= spread as u128 {
            min
        } else {
            max - (relief128 as u64)
        }
    }
}

/// A single interpolation step never overshoots: for a distance of at most
/// `target`, the linear term `distance * spread / target` is at most `spread`.
proof fn lemma_interp_step_le_spread(distance: int, target: int, spread: int)
    requires
        0 <= distance <= target,
        1 <= target,
        0 <= spread,
    ensures
        0 <= distance * spread / target <= spread,
{
    assert(0 <= distance * spread) by (nonlinear_arith)
        requires
            0 <= distance,
            0 <= spread,
    ;
    lemma_div_pos_is_pos(distance * spread, target);
    assert(distance * spread <= target * spread) by (nonlinear_arith)
        requires
            distance <= target,
            0 <= spread,
    ;
    lemma_div_is_ordered(distance * spread, target * spread, target);
    lemma_div_multiples_vanish(spread, target);
}

/// The fee rate always stays within the configured `[min, max]` band.
pub proof fn lemma_fee_rate_bounds(token: int, target: int, min: int, max: int)
    requires
        0 <= token,
        1 <= target,
        0 <= min <= max,
    ensures
        min <= spec_fee_rate(token, target, min, max) <= max,
{
    if token <= target {
        lemma_interp_step_le_spread(target - token, target, max - min);
    } else {
        assert(0 <= (token - target) * (max - min)) by (nonlinear_arith)
            requires
                target < token,
                min <= max,
        ;
        lemma_div_pos_is_pos((token - target) * (max - min), target);
    }
}

/// As the reserve falls from the target toward depletion, the fee rate never
/// decreases.
pub proof fn lemma_fee_rate_monotone_scarce(t1: int, t2: int, target: int, min: int, max: int)
    requires
        0 <= t1 <= t2 <= target,
        1 <= target,
        0 <= min <= max,
    ensures
        spec_fee_rate(t2, target, min, max) <= spec_fee_rate(t1, target, min, max),
{
    assert((target - t2) * (max - min) <= (target - t1) * (max - min)) by (nonlinear_arith)
        requires
            t1 <= t2 <= target,
            min <= max,
    ;
    lemma_div_is_ordered((target - t2) * (max - min), (target - t1) * (max - min), target);
}

/// As the reserve grows past the target, the fee rate never increases, and it
/// never drops below `min`.
pub proof fn lemma_fee_rate_monotone_surplus(t1: int, t2: int, target: int, min: int, max: int)
    requires
        target < t1 <= t2,
        1 <= target,
        0 <= min <= max,
    ensures
        min <= spec_fee_rate(t2, target, min, max) <= spec_fee_rate(t1, target, min, max),
{
    lemma_fee_rate_bounds(t2, target, min, max);
    assert((t1 - target) * (max - min) <= (t2 - target) * (max - min)) by (nonlinear_arith)
        requires
            target < t1 <= t2,
            min <= max,
    ;
    lemma_div_is_ordered((t1 - target) * (max - min), (t2 - target) * (max - min), target);
    assert(0 <= (t1 - target) * (max - min)) by (nonlinear_arith)
        requires
            target < t1,
            min <= max,
    ;
    lemma_div_pos_is_pos((t1 - target) * (max - min), target);
}

} // verus!
