//! Snapping slider readings to a grid of volume levels.
//!
//! Volume levels and the step between them are fractions of full volume,
//! counted in millionths: `VOLUME_SCALE` is full volume.
use vstd::prelude::*;
use vstd::arithmetic::div_mod::{
    lemma_fundamental_div_mod,
    lemma_fundamental_div_mod_converse,
    lemma_div_is_ordered,
};
use crate::conditioner::FULL_SCALE;

verus! {

/// Full volume, in millionths.
pub const VOLUME_SCALE: u32 = 1_000_000;

/// A step is a fraction in (0, 1].
pub open spec fn valid_step(step: u32) -> bool {
    0 < step <= VOLUME_SCALE
}

pub open spec fn min_int(a: int, b: int) -> int {
    if a <= b { a } else { b }
}

/// Index of the grid point nearest to `n / d` (of full volume) for grid `step`,
/// halves rounded up.
pub open spec fn nearest_index(n: int, d: int, step: int) -> int {
    (2 * n * VOLUME_SCALE + d * step) / (2 * d * step)
}

/// The level of slider reading `value` (out of `FULL_SCALE`) on the grid of `step`.
pub open spec fn level_of_value(value: int, step: int) -> int {
    min_int(nearest_index(value, FULL_SCALE as int, step) * step, VOLUME_SCALE as int)
}

/// A level snapped to the grid of `step`, never above full volume.
pub open spec fn quantize_spec(level: int, step: int) -> int {
    min_int(((2 * level + step) / (2 * step)) * step, VOLUME_SCALE as int)
}

/// The volume level, in millionths, for a slider reading.
pub fn level_for_value(value: u16, step: u32) -> (r: u32)
    requires
        valid_step(step),
    ensures
        r as int == level_of_value(value as int, step as int),
        r <= VOLUME_SCALE,
{
    assert(2 * (value as u64) * 1_000_000 <= 2 * 65535 * 1_000_000) by (nonlinear_arith)
        requires
            value <= 65535,
    ;
    assert(1023 * (step as u64) <= 1023 * 1_000_000) by (nonlinear_arith)
        requires
            step <= 1_000_000,
    ;
    let num: u64 = 2 * (value as u64) * (VOLUME_SCALE as u64) + (FULL_SCALE as u64) * (step as u64);
    assert(2 * 1023 * (step as u64) <= 2 * 1023 * 1_000_000 && 2 * 1023 * (step as u64) > 0)
        by (nonlinear_arith)
        requires
            0 < step <= 1_000_000,
    ;
    let den: u64 = 2 * (FULL_SCALE as u64) * (step as u64);
    let k: u64 = num / den;
    assert(k * step <= 2 * 65535 * 1_000_000 + 1_000_000) by (nonlinear_arith)
        requires
            k == num / den,
            den == 2 * 1023 * step,
            num <= 2 * 65535 * 1_000_000 + 1023 * step,
            0 < step <= 1_000_000,
    {
        lemma_fundamental_div_mod(num as int, den as int);
        assert(den * k <= num);
    }
    let scaled: u64 = k * (step as u64);
    if scaled > VOLUME_SCALE as u64 {
        VOLUME_SCALE
    } else {
        scaled as u32
    }
}

/// Snaps a level in [0, full volume] to the nearest point of the grid of `step`.
pub fn quantize(level: u32, step: u32) -> (r: u32)
    requires
        valid_step(step),
        level <= VOLUME_SCALE,
    ensures
        r as int == quantize_spec(level as int, step as int),
        r <= VOLUME_SCALE,
{
    let num: u64 = 2 * (level as u64) + step as u64;
    let den: u64 = 2 * (step as u64);
    let k: u64 = num / den;
    assert(k * step <= 2 * 1_000_000 + 1_000_000) by (nonlinear_arith)
        requires
            k == num / den,
            den == 2 * step,
            num <= 2 * 1_000_000 + step,
            0 < step <= 1_000_000,
    {
        lemma_fundamental_div_mod(num as int, den as int);
        assert(den * k <= num);
    }
    let scaled: u64 = k * (step as u64);
    if scaled > VOLUME_SCALE as u64 {
        VOLUME_SCALE
    } else {
        scaled as u32
    }
}

proof fn lemma_grid_point_fixed(k: int, step: int)
    requires
        k >= 0,
        step > 0,
    ensures
        (2 * (k * step) + step) / (2 * step) == k,
{
    assert(2 * (k * step) + step == k * (2 * step) + step) by (nonlinear_arith);
    lemma_fundamental_div_mod_converse(2 * (k * step) + step, 2 * step, k, step);
}

proof fn lemma_full_volume_fixed_when_overshot(k: int, step: int)
    requires
        0 < step,
        step <= VOLUME_SCALE,
        k >= 0,
        k * step > VOLUME_SCALE,
        k <= (2 * VOLUME_SCALE + step) / (2 * step),
    ensures
        quantize_spec(VOLUME_SCALE as int, step) == VOLUME_SCALE,
{
    let kf = (2 * VOLUME_SCALE + step) / (2 * step);
    assert(kf * step >= k * step) by (nonlinear_arith)
        requires
            kf >= k,
            step > 0,
    ;
}

/// Snapping is idempotent: a level already on the grid stays where it is.
pub proof fn lemma_quantize_idempotent(level: int, step: int)
    requires
        0 <= level <= VOLUME_SCALE,
        0 < step <= VOLUME_SCALE,
    ensures
        quantize_spec(quantize_spec(level, step), step) == quantize_spec(level, step),
{
    let k = (2 * level + step) / (2 * step);
    assert(k >= 0) by {
        lemma_div_is_ordered(0, 2 * level + step, 2 * step);
    }
    if k * step <= VOLUME_SCALE {
        lemma_grid_point_fixed(k, step);
    } else {
        lemma_div_is_ordered(2 * level + step, 2 * VOLUME_SCALE + step, 2 * step);
        lemma_full_volume_fixed_when_overshot(k, step);
    }
}

/// The level of any reading up to full scale is already on the grid:
/// snapping it again changes nothing.
pub proof fn lemma_value_level_on_grid(value: int, step: int)
    requires
        0 <= value <= FULL_SCALE,
        0 < step <= VOLUME_SCALE,
    ensures
        quantize_spec(level_of_value(value, step), step) == level_of_value(value, step),
{
    let d = FULL_SCALE as int;
    let num = 2 * value * VOLUME_SCALE + d * step;
    let k = nearest_index(value, d, step);
    assert(2 * d * step > 0) by (nonlinear_arith)
        requires
            d == 1023,
            step > 0,
    ;
    assert(num >= 0) by (nonlinear_arith)
        requires
            num == 2 * value * VOLUME_SCALE + d * step,
            value >= 0,
            d == 1023,
            step > 0,
    ;
    assert(k >= 0) by {
        lemma_div_is_ordered(0, num, 2 * d * step);
    }
    if k * step <= VOLUME_SCALE {
        lemma_grid_point_fixed(k, step);
    } else {
        lemma_fundamental_div_mod(num, 2 * d * step);
        let kf = (2 * VOLUME_SCALE + step) / (2 * step);
        lemma_fundamental_div_mod(2 * VOLUME_SCALE + step, 2 * step);
        assert(k <= kf) by (nonlinear_arith)
            requires
                k == num / (2 * d * step),
                num == (2 * d * step) * (num / (2 * d * step)) + num % (2 * d * step),
                num % (2 * d * step) >= 0,
                num == 2 * value * VOLUME_SCALE + d * step,
                d == 1023,
                value <= 1023,
                step > 0,
                kf == (2 * VOLUME_SCALE + step) / (2 * step),
                2 * VOLUME_SCALE + step == (2 * step) * kf + (2 * VOLUME_SCALE + step) % (2 * step),
                (2 * VOLUME_SCALE + step) % (2 * step) < 2 * step,
        {
            assert(k * (2 * d * step) <= num);
            assert(num <= d * (2 * VOLUME_SCALE + step));
            assert(k * (2 * step) <= 2 * VOLUME_SCALE + step);
            if k > kf {
                assert(k >= kf + 1);
                assert(k * (2 * step) >= (kf + 1) * (2 * step));
            }
        }
        lemma_full_volume_fixed_when_overshot(k, step);
    }
}

} // verus!
