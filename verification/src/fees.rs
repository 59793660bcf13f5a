//! Fee growth accounting for the per-position model of concentrated
//! liquidity: fee growth inside a tick range, and fees earned since a
//! checkpoint.
use vstd::prelude::*;
use vstd::wrapping::u128_specs::wrapping_sub;
use crate::position::tokens_owed_spec;
use crate::quant_math::mul_shift128;
pub use crate::quant_math::fee_growth_per_unit_q128;

verus! {

// ---------------------------------------------------------------------------
// Fee growth inside a tick range
// ---------------------------------------------------------------------------

/// Fee growth below the lower tick: its outside value when the current tick
/// is at or above it, the global value minus it otherwise.
pub open spec fn growth_below(lower_tick: i32, current_tick: i32, global: u128, outside: u128) -> u128 {
    if current_tick >= lower_tick {
        outside
    } else {
        wrapping_sub(global, outside)
    }
}

/// Fee growth above the upper tick: its outside value when the current tick
/// is below it, the global value minus it otherwise.
pub open spec fn growth_above(upper_tick: i32, current_tick: i32, global: u128, outside: u128) -> u128 {
    if current_tick < upper_tick {
        outside
    } else {
        wrapping_sub(global, outside)
    }
}

/// Fee growth inside `[lower_tick, upper_tick]`:
/// `global − below − above`, wrapping.
pub open spec fn growth_inside(
    lower_tick: i32,
    upper_tick: i32,
    current_tick: i32,
    global: u128,
    lower_outside: u128,
    upper_outside: u128,
) -> u128 {
    wrapping_sub(
        wrapping_sub(global, growth_below(lower_tick, current_tick, global, lower_outside)),
        growth_above(upper_tick, current_tick, global, upper_outside),
    )
}

/// Compute `fee_growth_inside` for a position range `[lower_tick, upper_tick]`.
///
/// All accumulator values are Q128.  Returns `(inside_0, inside_1)`:
/// ```text
/// fee_below = if current >= lower { outside_lower } else { global - outside_lower }
/// fee_above = if current <  upper { outside_upper } else { global - outside_upper }
/// fee_inside = global - fee_below - fee_above   (all wrapping)
/// ```
pub fn fee_growth_inside(
    lower_tick: i32,
    upper_tick: i32,
    current_tick: i32,
    fee_growth_global_0: u128,
    fee_growth_global_1: u128,
    tick_lower_outside_0: u128,
    tick_lower_outside_1: u128,
    tick_upper_outside_0: u128,
    tick_upper_outside_1: u128,
) -> (r: (u128, u128))
    ensures
        r.0 == growth_inside(
            lower_tick,
            upper_tick,
            current_tick,
            fee_growth_global_0,
            tick_lower_outside_0,
            tick_upper_outside_0,
        ),
        r.1 == growth_inside(
            lower_tick,
            upper_tick,
            current_tick,
            fee_growth_global_1,
            tick_lower_outside_1,
            tick_upper_outside_1,
        ),
{
    // fee growth below lower tick
    let (fgb0, fgb1) = if current_tick >= lower_tick {
        (tick_lower_outside_0, tick_lower_outside_1)
    } else {
        (
            fee_growth_global_0.wrapping_sub(tick_lower_outside_0),
            fee_growth_global_1.wrapping_sub(tick_lower_outside_1),
        )
    };
    // fee growth above upper tick
    let (fga0, fga1) = if current_tick < upper_tick {
        (tick_upper_outside_0, tick_upper_outside_1)
    } else {
        (
            fee_growth_global_0.wrapping_sub(tick_upper_outside_0),
            fee_growth_global_1.wrapping_sub(tick_upper_outside_1),
        )
    };
    (
        fee_growth_global_0.wrapping_sub(fgb0).wrapping_sub(fga0),
        fee_growth_global_1.wrapping_sub(fgb1).wrapping_sub(fga1),
    )
}

/// With the current tick inside the range and both boundaries' outside
/// accumulators at zero, all of the global fee growth is inside.
pub proof fn lemma_fresh_range_collects_all(
    lower_tick: i32,
    upper_tick: i32,
    current_tick: i32,
    global: u128,
)
    requires
        lower_tick <= current_tick < upper_tick,
    ensures
        growth_inside(lower_tick, upper_tick, current_tick, global, 0, 0) == global,
{
}

// ---------------------------------------------------------------------------
// Fees earned since last checkpoint
// ---------------------------------------------------------------------------

/// Compute fees earned by a position since its last fee growth checkpoint:
/// for each token, `liquidity · (now − last) / 2^128` with the difference
/// taken wrapping.  Returns `(earned_0_raw, earned_1_raw)` in raw units.
pub fn fees_earned(
    liquidity: u128,
    fg_inside_0_now: u128,
    fg_inside_1_now: u128,
    fg_inside_0_last: u128,
    fg_inside_1_last: u128,
) -> (r: (u128, u128))
    ensures
        r.0 == tokens_owed_spec(liquidity, fg_inside_0_now, fg_inside_0_last),
        r.1 == tokens_owed_spec(liquidity, fg_inside_1_now, fg_inside_1_last),
{
    let delta0 = fg_inside_0_now.wrapping_sub(fg_inside_0_last);
    let delta1 = fg_inside_1_now.wrapping_sub(fg_inside_1_last);
    (mul_shift128(liquidity, delta0), mul_shift128(liquidity, delta1))
}

/// A position whose fee growth has not moved since its checkpoint has
/// earned nothing, whatever its liquidity.
pub proof fn lemma_no_growth_no_fees(liquidity: u128, fg_0: u128, fg_1: u128)
    ensures
        tokens_owed_spec(liquidity, fg_0, fg_0) == 0,
        tokens_owed_spec(liquidity, fg_1, fg_1) == 0,
{
    assert((liquidity as int) * 0 == 0);
}

// ---------------------------------------------------------------------------
// Fees of a position from a pool snapshot
// ---------------------------------------------------------------------------

/// One initialised tick of a concentrated-liquidity pool.
#[derive(Debug, Clone)]
pub struct TickSnapshot {
    pub tick: i32,
    /// Net liquidity change when crossed left-to-right.
    pub liquidity_net: i128,
    /// Fee growth outside this boundary (token0), Q128.
    pub fee_growth_outside_0_q128: u128,
    /// Fee growth outside this boundary (token1), Q128.
    pub fee_growth_outside_1_q128: u128,
}

/// The outside accumulators of the first snapshot of `tick`, zeros when
/// there is none.
pub open spec fn outside_of(ticks: Seq<TickSnapshot>, tick: i32) -> (u128, u128)
    decreases ticks.len(),
{
    if ticks.len() == 0 {
        (0, 0)
    } else if ticks[0].tick == tick {
        (ticks[0].fee_growth_outside_0_q128, ticks[0].fee_growth_outside_1_q128)
    } else {
        outside_of(ticks.drop_first(), tick)
    }
}

/// The fee growth inside a position's range when the pool reports its
/// current tick and both global accumulators; zeros otherwise.
pub open spec fn snapshot_growth_inside(
    lower_tick: i32,
    upper_tick: i32,
    current_tick: Option<i32>,
    fee_growth_global_0: Option<u128>,
    fee_growth_global_1: Option<u128>,
    ticks: Seq<TickSnapshot>,
) -> (u128, u128) {
    match (current_tick, fee_growth_global_0, fee_growth_global_1) {
        (Some(ct), Some(g0), Some(g1)) => {
            let lo = outside_of(ticks, lower_tick);
            let up = outside_of(ticks, upper_tick);
            (
                growth_inside(lower_tick, upper_tick, ct, g0, lo.0, up.0),
                growth_inside(lower_tick, upper_tick, ct, g1, lo.1, up.1),
            )
        },
        _ => (0, 0),
    }
}

/// The outside accumulators of the first snapshot of `tick`.
fn find_outside(ticks: &[TickSnapshot], tick: i32) -> (r: (u128, u128))
    ensures
        r == outside_of(ticks@, tick),
{
    let mut i: usize = 0;
    assert(ticks@.skip(0) =~= ticks@);
    while i < ticks.len()
        invariant
            i <= ticks.len(),
            outside_of(ticks@, tick) == outside_of(ticks@.skip(i as int), tick),
        decreases ticks.len() - i,
    {
        assert(ticks@.skip(i as int).drop_first() =~= ticks@.skip(i + 1));
        if ticks[i].tick == tick {
            return (ticks[i].fee_growth_outside_0_q128, ticks[i].fee_growth_outside_1_q128);
        }
        i += 1;
    }
    (0, 0)
}

/// Fees earned in raw units by a position of a snapshot pool since its
/// checkpoint: the fee growth inside its range from the pool's current
/// tick, global accumulators and boundary snapshots (zero when the pool
/// reports none), against the position's last checkpoint.
pub fn v3_fees_earned(
    lower_tick: i32,
    upper_tick: i32,
    liquidity: u128,
    fee_growth_inside_0_last: u128,
    fee_growth_inside_1_last: u128,
    current_tick: Option<i32>,
    fee_growth_global_0: Option<u128>,
    fee_growth_global_1: Option<u128>,
    ticks: &[TickSnapshot],
) -> (r: (u128, u128))
    ensures
        ({
            let inside = snapshot_growth_inside(
                lower_tick,
                upper_tick,
                current_tick,
                fee_growth_global_0,
                fee_growth_global_1,
                ticks@,
            );
            r == (
                tokens_owed_spec(liquidity, inside.0, fee_growth_inside_0_last),
                tokens_owed_spec(liquidity, inside.1, fee_growth_inside_1_last),
            )
        }),
{
    let (fg_inside_0, fg_inside_1) = match (current_tick, fee_growth_global_0, fee_growth_global_1) {
        (Some(ct), Some(fg0), Some(fg1)) => {
            // The snapshots of the position's boundaries.
            let (lo_out0, lo_out1) = find_outside(ticks, lower_tick);
            let (up_out0, up_out1) = find_outside(ticks, upper_tick);
            fee_growth_inside(
                lower_tick,
                upper_tick,
                ct,
                fg0,
                fg1,
                lo_out0,
                lo_out1,
                up_out0,
                up_out1,
            )
        },
        _ => (0, 0),
    };
    fees_earned(
        liquidity,
        fg_inside_0,
        fg_inside_1,
        fee_growth_inside_0_last,
        fee_growth_inside_1_last,
    )
}

} // verus!
