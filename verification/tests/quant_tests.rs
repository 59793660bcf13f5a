use std::collections::BTreeMap;
use xrpl_amm::fees::{fee_growth_inside, fees_earned, v3_fees_earned, TickSnapshot};
use xrpl_amm::quant_math::{
    amount0_delta, amount1_delta, div_q64, fee_growth_per_unit_q128, mul_shift128, mul_shift64,
    sqrt_price_at_tick, tick_at_sqrt_price, Q64,
};
use xrpl_amm::replay::{replay_swaps, ReplayState, ReplayTick, SwapEvent};

// ---------------------------------------------------------------------------
// math helpers
// ---------------------------------------------------------------------------

#[test]
fn mul_shift64_identity() {
    // Q64 * Q64 >> 64 == Q64 (1.0 * 1.0 = 1.0 in Q64.64)
    assert_eq!(mul_shift64(Q64, Q64), Q64);
}

#[test]
fn mul_shift128_identity() {
    // 2^64 * 2^64 = 2^128, >> 128 = 1
    let result = mul_shift128(1u128 << 64, 1u128 << 64);
    assert_eq!(result, 1);
}

#[test]
fn mul_shift128_zero() {
    assert_eq!(mul_shift128(0, u128::MAX), 0);
    assert_eq!(mul_shift128(u128::MAX, 0), 0);
}

#[test]
fn sqrt_price_tick_zero_is_q64() {
    // tick 0 → sqrt(1) = 1.0 → Q64
    assert_eq!(sqrt_price_at_tick(0), Q64);
}

#[test]
fn mod_sqrt_price_monotone() {
    let p_neg = sqrt_price_at_tick(-1);
    let p_zero = sqrt_price_at_tick(0);
    let p_pos = sqrt_price_at_tick(1);
    assert!(p_neg < p_zero, "negative tick → smaller price");
    assert!(p_pos > p_zero, "positive tick → larger price");
}

#[test]
fn mod_tick_round_trip() {
    for t in [-1000i32, -100, -1, 0, 1, 100, 1000] {
        let p = sqrt_price_at_tick(t);
        let recovered = tick_at_sqrt_price(p);
        assert!((recovered - t).abs() <= 1, "round-trip failed: tick={t}, recovered={recovered}");
    }
}

#[test]
fn mod_amount0_delta_zero_range() {
    // sqrt_lower == sqrt_upper → 0
    let result = amount0_delta(Q64, Q64, 1_000_000, false);
    assert_eq!(result, 0);
}

#[test]
fn amount1_delta_zero_range() {
    let result = amount1_delta(Q64, Q64, 1_000_000, false);
    assert_eq!(result, 0);
}

#[test]
fn amount0_increases_with_liquidity() {
    let sqrt_lower = sqrt_price_at_tick(-100);
    let sqrt_upper = sqrt_price_at_tick(100);
    let a = amount0_delta(sqrt_lower, sqrt_upper, 1_000, false);
    let b = amount0_delta(sqrt_lower, sqrt_upper, 2_000, false);
    assert!(b > a, "more liquidity → more token0");
}

#[test]
fn fee_growth_per_unit_zero_liquidity() {
    assert_eq!(fee_growth_per_unit_q128(1_000, 0), 0);
}

#[test]
fn fee_growth_per_unit_basic() {
    // fee_amount = active_liquidity → one full Q128 unit per liquidity unit,
    // i.e. the result should be non-zero.
    let result = fee_growth_per_unit_q128(1_000_000, 1_000_000);
    assert!(result > 0);
}

#[test]
fn math_mul_shift64_identity() {
    assert_eq!(mul_shift64(Q64, Q64), Q64);
}

#[test]
fn math_mul_shift128_identity() {
    assert_eq!(mul_shift128(1u128 << 64, 1u128 << 64), 1);
}

#[test]
fn math_mul_shift128_zero() {
    assert_eq!(mul_shift128(0, u128::MAX), 0);
}

#[test]
fn math_sqrt_price_tick_zero() {
    assert_eq!(sqrt_price_at_tick(0), Q64);
}

#[test]
fn math_amount0_zero_range() {
    assert_eq!(amount0_delta(Q64, Q64, 1_000, false), 0);
}

#[test]
fn math_amount1_zero_range() {
    assert_eq!(amount1_delta(Q64, Q64, 1_000, false), 0);
}

#[test]
fn math_fee_growth_per_unit_zero_liquidity() {
    assert_eq!(fee_growth_per_unit_q128(1_000, 0), 0);
}

#[test]
fn quant_mul_shift64_saturates() {
    // The exact product of the largest words is far past 2^128.
    assert_eq!(mul_shift64(u128::MAX, u128::MAX), u128::MAX);
    assert_eq!(mul_shift64(u128::MAX, 2 * Q64), u128::MAX);
    // Below the bound it is the floored product.
    assert_eq!(mul_shift64(3 * Q64, Q64 / 4), 3 * Q64 / 4);
}

#[test]
fn quant_div_q64_exact() {
    assert_eq!(div_q64(1, 4), 1u128 << 62);
    assert_eq!(div_q64(1, 0), u128::MAX);
}

#[test]
fn fee_growth_per_unit_exact_values() {
    // A whole unit per liquidity unit: quotient 1 in the low word.
    assert_eq!(fee_growth_per_unit_q128(1_000_000, 1_000_000), 1);
    // Half a unit: the fraction 2^63 placed in the upper half of the word.
    assert_eq!(fee_growth_per_unit_q128(1, 2), 1u128 << 127);
    // 3_000 / 1_000_000 = 0.003: no integer part, 64 fraction bits moved up.
    let frac = ((3_000u128 << 64) / 1_000_000) << 64;
    assert_eq!(fee_growth_per_unit_q128(3_000, 1_000_000), frac);
}

// ---------------------------------------------------------------------------
// Fees
// ---------------------------------------------------------------------------

#[test]
fn fee_growth_inside_tick_in_range() {
    // lower_tick = -100, upper_tick = 100, current_tick = 0.
    // Global = 1000 for both tokens.
    // Both lower and upper outside = 0 (initialised at zero).
    let (fg0, fg1) = fee_growth_inside(-100, 100, 0, 1000, 1000, 0, 0, 0, 0);
    // inside = global - below - above = 1000 - 0 - 0 = 1000
    assert_eq!(fg0, 1000);
    assert_eq!(fg1, 1000);
}

#[test]
fn fee_growth_inside_below_and_above_range() {
    // Current tick below the range: below = global - lower_outside.
    let (fg0, _) = fee_growth_inside(-100, 100, -200, 1000, 1000, 300, 300, 100, 100);
    // below = 1000 - 300 = 700, above = 100, inside = 1000 - 700 - 100 = 200
    assert_eq!(fg0, 200);
    // Current tick above the range: above = global - upper_outside.
    let (_, fg1) = fee_growth_inside(-100, 100, 200, 1000, 1000, 300, 300, 100, 100);
    // below = 300, above = 900, inside = 1000 - 300 - 900 wraps
    assert_eq!(fg1, 0u128.wrapping_sub(200));
}

#[test]
fn fees_earned_zero_delta() {
    // If fee growth hasn't changed since checkpoint, earned = 0.
    let (e0, e1) = fees_earned(1_000_000, 500, 500, 500, 500);
    assert_eq!(e0, 0);
    assert_eq!(e1, 0);
}

#[test]
fn fees_earned_nonzero() {
    // With liquidity = 2^64 and delta = 2^64, result should be 1.
    let (e0, _e1) = fees_earned(1u128 << 64, 1u128 << 64, 0, 0, 0);
    assert_eq!(e0, 1, "mul_shift128(2^64, 2^64) should be 1");
}

#[test]
fn v3_fees_from_snapshot() {
    let ticks = vec![
        TickSnapshot {
            tick: -100,
            liquidity_net: 10,
            fee_growth_outside_0_q128: 0,
            fee_growth_outside_1_q128: 0,
        },
        TickSnapshot {
            tick: 100,
            liquidity_net: -10,
            fee_growth_outside_0_q128: 0,
            fee_growth_outside_1_q128: 0,
        },
    ];
    // Inside growth 2^64 per unit on token0 for 2^64 liquidity: one unit earned.
    let (e0, e1) = v3_fees_earned(
        -100,
        100,
        1u128 << 64,
        0,
        0,
        Some(0),
        Some(1u128 << 64),
        Some(0),
        &ticks,
    );
    assert_eq!((e0, e1), (1, 0));
    // Without the pool's accumulators nothing is inside.
    assert_eq!(v3_fees_earned(-100, 100, 1u128 << 64, 0, 0, None, Some(1), Some(1), &ticks), (0, 0));
}

// ---------------------------------------------------------------------------
// Replay
// ---------------------------------------------------------------------------

fn empty_replay_state() -> ReplayState {
    ReplayState {
        fee_growth_global_0: 0,
        fee_growth_global_1: 0,
        active_liquidity: 1_000_000,
        current_tick: 0,
        ticks: BTreeMap::new(),
    }
}

#[test]
fn replay_empty_swaps_unchanged() {
    let state = empty_replay_state();
    let after = replay_swaps(state.clone(), &[]);
    assert_eq!(after.fee_growth_global_0, state.fee_growth_global_0);
    assert_eq!(after.fee_growth_global_1, state.fee_growth_global_1);
    assert_eq!(after.active_liquidity, state.active_liquidity);
}

#[test]
fn replay_single_swap_accumulates_fees() {
    let state = empty_replay_state();
    let swap = SwapEvent { timestamp_secs: 1000, amount_in: 1_000_000, fee_bps: 30, zero_for_one: true };
    let after = replay_swaps(state, &[swap]);
    // fee_amount = 1_000_000 * 30 / 10_000 = 3_000
    assert!(after.fee_growth_global_0 > 0, "token0 fee growth should accumulate");
    assert_eq!(after.fee_growth_global_1, 0, "token1 should be unchanged for zero_for_one");
    assert_eq!(after.fee_growth_global_0, fee_growth_per_unit_q128(3_000, 1_000_000));
}

#[test]
fn replay_tick_crossing_changes_liquidity() {
    let mut state = empty_replay_state();
    // Add a tick below current (at -100) with liquidity_net = -500_000.
    state.ticks.insert(
        -100,
        ReplayTick { liquidity_net: -500_000, fee_growth_outside_0: 0, fee_growth_outside_1: 0 },
    );
    let liquidity_before = state.active_liquidity;
    let swap = SwapEvent {
        timestamp_secs: 1000,
        amount_in: 1_000_000_000,
        fee_bps: 30,
        zero_for_one: true, // price moving down, should cross tick at -100
    };
    let after = replay_swaps(state, &[swap]);
    // After crossing tick -100 (downward), liquidity_net = -500_000 is subtracted.
    assert_ne!(after.active_liquidity, liquidity_before);
    assert_eq!(after.active_liquidity, 1_500_000);
    assert_eq!(after.current_tick, -100);
    // The crossed tick's outside accumulator flipped to the global value.
    assert_eq!(after.ticks.get(&-100).unwrap().fee_growth_outside_0, after.fee_growth_global_0);
}

#[test]
fn replay_without_liquidity_skips_every_swap() {
    let mut state = empty_replay_state();
    state.active_liquidity = 0;
    state.ticks.insert(50, ReplayTick { liquidity_net: 7, fee_growth_outside_0: 0, fee_growth_outside_1: 0 });
    let swaps = [
        SwapEvent { timestamp_secs: 1, amount_in: 10_000, fee_bps: 30, zero_for_one: false },
        SwapEvent { timestamp_secs: 2, amount_in: 10_000, fee_bps: 30, zero_for_one: true },
    ];
    let after = replay_swaps(state, &swaps);
    assert_eq!(after.fee_growth_global_0, 0);
    assert_eq!(after.fee_growth_global_1, 0);
    assert_eq!(after.current_tick, 0);
    assert_eq!(after.ticks.get(&50).unwrap().fee_growth_outside_1, 0);
}

#[test]
fn replay_upward_crosses_tick_at_or_above_current() {
    let mut state = empty_replay_state();
    state.ticks.insert(0, ReplayTick { liquidity_net: 250_000, fee_growth_outside_0: 0, fee_growth_outside_1: 0 });
    state.ticks.insert(60, ReplayTick { liquidity_net: 100, fee_growth_outside_0: 0, fee_growth_outside_1: 0 });
    let swap = SwapEvent { timestamp_secs: 5, amount_in: 2_000_000, fee_bps: 10, zero_for_one: false };
    let after = replay_swaps(state, &[swap]);
    // The tick at the current index is the nearest one at or above it.
    assert_eq!(after.current_tick, 0);
    assert_eq!(after.active_liquidity, 1_250_000);
    assert_eq!(after.fee_growth_global_0, 0);
    assert_eq!(after.fee_growth_global_1, fee_growth_per_unit_q128(2_000, 1_000_000));
}

#[test]
fn replay_in_batches_matches_replay_at_once() {
    let mut state = empty_replay_state();
    state.ticks.insert(-60, ReplayTick { liquidity_net: 300_000, fee_growth_outside_0: 5, fee_growth_outside_1: 6 });
    state.ticks.insert(60, ReplayTick { liquidity_net: -200_000, fee_growth_outside_0: 7, fee_growth_outside_1: 8 });
    let swaps = [
        SwapEvent { timestamp_secs: 1, amount_in: 50_000, fee_bps: 30, zero_for_one: true },
        SwapEvent { timestamp_secs: 2, amount_in: 70_000, fee_bps: 30, zero_for_one: false },
        SwapEvent { timestamp_secs: 3, amount_in: 90_000, fee_bps: 30, zero_for_one: false },
    ];
    let once = replay_swaps(state.clone(), &swaps);
    let first = replay_swaps(state, &swaps[..1]);
    let both = replay_swaps(first, &swaps[1..]);
    assert_eq!(once.fee_growth_global_0, both.fee_growth_global_0);
    assert_eq!(once.fee_growth_global_1, both.fee_growth_global_1);
    assert_eq!(once.active_liquidity, both.active_liquidity);
    assert_eq!(once.current_tick, both.current_tick);
    assert_eq!(once.ticks.len(), both.ticks.len());
}
