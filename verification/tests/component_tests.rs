use xrpl_amm::codec::{decode_state, encode_state};
use xrpl_amm::hooks::{get, Hook, HookContext, HookId, SwapOutcome};
use xrpl_amm::math::Q64;
use xrpl_amm::pool::ContractState;
use xrpl_amm::position::{mul_shift128, PositionKey, PositionMap};
use xrpl_amm::swap::{execute_swap, fee_growth_per_unit_q128, SwapResult};
use xrpl_amm::tick::{TickMap, TickState};
use xrpl_amm::tick_bitmap::{TickBitmap, Word256};
use xrpl_amm::types::ContractError;

// ---------------------------------------------------------------------------
// Hooks
// ---------------------------------------------------------------------------

fn ctx_with(current_tick: i32, liquidity: u128) -> HookContext {
    HookContext { current_tick, sqrt_price: Q64, liquidity, fee_bps: 30 }
}

#[test]
fn noop_allows_everything() {
    let h = get(HookId::NoHook);
    assert!(h.before_swap(&ctx_with(0, 1_000_000), true, 999_999).is_ok());
    assert!(h.before_mint(&ctx_with(0, 0), -100, 100, 1).is_ok());
    assert!(h.before_burn(&ctx_with(0, 0), -100, 100, 1).is_ok());
    assert!(h
        .after_swap(
            &ctx_with(0, 0),
            &SwapOutcome { amount_in: 1, amount_out: 1, sqrt_price_after: Q64, tick_after: 0, ticks_crossed: 0 },
        )
        .is_ok());
}

#[test]
fn conservative_blocks_oversized_swap() {
    let h = get(HookId::ConservativeHedge);
    let c = ctx_with(0, 1_000_000);
    // cap = 1_000_000 / 20 = 50_000
    assert!(h.before_swap(&c, true, 50_001).is_err());
    assert!(h.before_swap(&c, true, 50_000).is_ok());
}

#[test]
fn conservative_allows_swap_when_pool_empty() {
    // liquidity = 0 → cap branch skipped, any amount is allowed
    let h = get(HookId::ConservativeHedge);
    assert!(h.before_swap(&ctx_with(0, 0), false, u64::MAX).is_ok());
}

#[test]
fn conservative_blocks_narrow_mint() {
    let h = get(HookId::ConservativeHedge);
    assert!(h.before_mint(&ctx_with(0, 0), 0, 199, 1).is_err()); // 199 ticks — too narrow
    assert!(h.before_mint(&ctx_with(0, 0), 0, 200, 1).is_ok()); // exactly 200 — allowed
    assert!(h.before_mint(&ctx_with(0, 0), -500, 500, 1).is_ok()); // wide — fine
}

#[test]
fn conservative_does_not_restrict_burn() {
    let h = get(HookId::ConservativeHedge);
    // Narrow position, but burn should always be allowed
    assert!(h.before_burn(&ctx_with(0, 0), 0, 10, 1).is_ok());
}

#[test]
fn yield_requires_position_to_straddle_tick() {
    let h = get(HookId::YieldRebalance);
    let c = ctx_with(0, 1_000_000); // current_tick = 0
    // Position entirely above current tick — rejected
    assert!(h.before_mint(&c, 10, 100, 1).is_err());
    // Position entirely below current tick — rejected
    assert!(h.before_mint(&c, -100, -10, 1).is_err());
    // Current tick sits on lower boundary — rejected (lower < tick required)
    assert!(h.before_mint(&c, 0, 100, 1).is_err());
    // Current tick sits on upper boundary — rejected (tick < upper required)
    assert!(h.before_mint(&c, -100, 0, 1).is_err());
    // Position straddles current tick — allowed
    assert!(h.before_mint(&c, -10, 10, 1).is_ok());
}

#[test]
fn yield_does_not_restrict_burn() {
    let h = get(HookId::YieldRebalance);
    // Can always burn regardless of whether position still straddles tick
    assert!(h.before_burn(&ctx_with(100, 0), 0, 10, 1).is_ok());
}

#[test]
fn hook_id_roundtrip() {
    for &id in &[HookId::NoHook, HookId::ConservativeHedge, HookId::YieldRebalance] {
        assert_eq!(HookId::from_u8(id.to_u8()), id);
    }
    assert_eq!(HookId::from_u8(255), HookId::NoHook); // unknown → no hook
}

#[test]
fn hook_errors_carry_their_codes() {
    let h = get(HookId::ConservativeHedge);
    assert_eq!(h.before_swap(&ctx_with(0, 1_000_000), true, 50_001), Err(ContractError::SlippageLimitExceeded));
    assert_eq!(h.before_mint(&ctx_with(0, 0), 0, 199, 1), Err(ContractError::InvalidTickRange));
    assert_eq!(HookId::ConservativeHedge.to_u8(), 1);
    assert_eq!(HookId::YieldRebalance.to_u8(), 2);
}

// ---------------------------------------------------------------------------
// Positions
// ---------------------------------------------------------------------------

fn alice() -> [u8; 20] {
    [1u8; 20]
}

fn key(lower: i32, upper: i32) -> PositionKey {
    PositionKey { owner: alice(), lower_tick: lower, upper_tick: upper }
}

#[test]
fn mint_creates_position() {
    let mut pm = PositionMap::new();
    let pos = pm.update(key(-100, 100), 1_000, 0, 0).unwrap();
    assert_eq!(pos.liquidity, 1_000);
}

#[test]
fn burn_reduces_liquidity() {
    let mut pm = PositionMap::new();
    pm.update(key(-100, 100), 1_000, 0, 0).unwrap();
    let pos = pm.update(key(-100, 100), -500, 0, 0).unwrap();
    assert_eq!(pos.liquidity, 500);
}

#[test]
fn burn_below_zero_errors() {
    let mut pm = PositionMap::new();
    pm.update(key(-100, 100), 500, 0, 0).unwrap();
    let err = pm.update(key(-100, 100), -1000, 0, 0).unwrap_err();
    assert_eq!(err, ContractError::InvalidLiquidityDelta);
}

#[test]
fn collect_partial() {
    let mut pm = PositionMap::new();
    let k = key(-100, 100);
    pm.update(k, 1_000, 0, 0).unwrap();
    pm.update(k, 0, 1_000_000, 1_000_000).unwrap();
    let (c0, c1) = pm.collect(k, u64::MAX, u64::MAX);
    let _ = (c0, c1);
}

#[test]
fn collect_pays_owed_up_to_caps() {
    let mut pm = PositionMap::new();
    let k = key(-100, 100);
    pm.update(k, 1i128 << 64, 0, 0).unwrap();
    // Growth of 5·2^64 per unit on token0 and 3·2^64 on token1 for 2^64 liquidity.
    pm.update(k, 0, 5u128 << 64, 3u128 << 64).unwrap();
    let p = pm.get(&k);
    assert_eq!(p.tokens_owed_0, 5);
    assert_eq!(p.tokens_owed_1, 3);
    assert_eq!(pm.collect(k, 2, u64::MAX), (2, 3));
    assert_eq!(pm.collect(k, u64::MAX, u64::MAX), (3, 0));
}

#[test]
fn mul_shift128_basic() {
    let result = mul_shift128(1u128 << 64, 1u128 << 64);
    assert_eq!(result, 1);
}

// ---------------------------------------------------------------------------
// Swap
// ---------------------------------------------------------------------------

/// A simple pool state for swap tests.
fn simple_pool() -> (u128, i32, u128, TickMap, TickBitmap) {
    let sqrt_price = Q64; // price = 1.0
    let tick = 0;
    let liquidity = 1_000_000_000u128;
    let mut ticks = TickMap::new();
    let mut bitmap = TickBitmap::new();
    // Initialize tick range -1000..1000 with liquidity.
    ticks.update(-1000, tick, 1_000_000_000, 0, 0, false).unwrap();
    ticks.update(1000, tick, 1_000_000_000, 0, 0, true).unwrap();
    bitmap.flip_tick(-1000, 10);
    bitmap.flip_tick(1000, 10);
    (sqrt_price, tick, liquidity, ticks, bitmap)
}

// execute_swap with zeroed oracle parameters.
fn swap(
    sp: u128,
    tick: i32,
    liq: u128,
    fee_bps: u16,
    amount_in: u64,
    zero_for_one: bool,
    limit: u128,
    ticks: &mut TickMap,
    bitmap: &mut TickBitmap,
) -> Result<SwapResult, ContractError> {
    execute_swap(sp, tick, liq, fee_bps, 0, 0, amount_in, zero_for_one, limit, 10, 0, 0, 0, ticks, bitmap)
}

#[test]
fn swap_one_for_zero_increases_price() {
    let (sp, tick, liq, mut ticks, mut bitmap) = simple_pool();
    let result = swap(sp, tick, liq, 30, 10_000, false, sp * 2, &mut ticks, &mut bitmap).unwrap();
    assert!(result.sqrt_price_after > sp, "price should increase");
    assert!(result.amount_out > 0, "should produce output");
    assert!(result.amount_in <= 10_000, "used ≤ requested input");
}

#[test]
fn swap_zero_for_one_decreases_price() {
    let (sp, tick, liq, mut ticks, mut bitmap) = simple_pool();
    let result = swap(sp, tick, liq, 30, 10_000, true, sp / 2, &mut ticks, &mut bitmap).unwrap();
    assert!(result.sqrt_price_after < sp, "price should decrease");
    assert!(result.amount_out > 0);
}

#[test]
fn swap_fee_accumulates() {
    let (sp, tick, liq, mut ticks, mut bitmap) = simple_pool();
    let result = swap(sp, tick, liq, 100, 100_000, false, sp * 3, &mut ticks, &mut bitmap).unwrap();
    assert!(result.fee_growth_delta > 0, "fee growth should be positive");
}

#[test]
fn swap_respects_price_limit() {
    let (sp, tick, liq, mut ticks, mut bitmap) = simple_pool();
    let limit = sp + (sp / 100); // +1%
    let result = swap(sp, tick, liq, 30, 1_000_000, false, limit, &mut ticks, &mut bitmap).unwrap();
    assert!(result.sqrt_price_after <= limit, "price must not exceed limit");
}

#[test]
fn invalid_limit_direction_errors() {
    let (sp, tick, liq, mut ticks, mut bitmap) = simple_pool();
    let err = swap(sp, tick, liq, 30, 1000, true, sp * 2, &mut ticks, &mut bitmap);
    assert!(err.is_err());
}

#[test]
fn fee_growth_per_unit_sanity() {
    // 1_000 fee / 1_000_000 liquidity = 0.001 per unit
    let g = fee_growth_per_unit_q128(1_000, 1_000_000);
    assert!(g > 0);
}

#[test]
fn swap_with_limit_on_wrong_side_reports_slippage() {
    let (sp, tick, liq, mut ticks, mut bitmap) = simple_pool();
    let err = swap(sp, tick, liq, 30, 1000, false, sp / 2, &mut ticks, &mut bitmap);
    assert_eq!(err.err(), Some(ContractError::SlippageLimitExceeded));
}

// ---------------------------------------------------------------------------
// Ticks
// ---------------------------------------------------------------------------

#[test]
fn tick_update_increases_gross() {
    let mut tm = TickMap::new();
    let (gross, flipped) = tm.update(100, 0, 500, 0, 0, false).unwrap();
    assert_eq!(gross, 500);
    assert!(flipped);
}

#[test]
fn tick_update_to_zero_flips_back() {
    let mut tm = TickMap::new();
    tm.update(100, 0, 500, 0, 0, false).unwrap();
    let (gross, flipped) = tm.update(100, 0, -500, 0, 0, false).unwrap();
    assert_eq!(gross, 0);
    assert!(flipped);
}

#[test]
fn cross_flips_outside_accumulators() {
    let mut tm = TickMap::new();
    tm.update(100, 50, 1000, 500, 300, false).unwrap();
    let lnet = tm.cross(100, 500, 300, 0, 0, 0);
    assert_eq!(lnet, 1000);
    let t = tm.get(100);
    assert_eq!(t.fee_growth_outside_0_q128, 500);
}

#[test]
fn fee_growth_inside_in_range() {
    let mut tm = TickMap::new();
    tm.update(-100, 0, 1000, 0, 0, false).unwrap();
    tm.update(100, 0, 1000, 0, 0, true).unwrap();
    let (fg0, fg1) = tm.fee_growth_inside(-100, 100, 0, 1000, 1000);
    assert_eq!((fg0, fg1), (1000, 1000));
}

#[test]
fn tick_update_removing_too_much_errors() {
    // Removing more than is there is refused.
    let mut tm = TickMap::new();
    assert_eq!(tm.update(100, 0, -1, 0, 0, false), Err(ContractError::InvalidLiquidityDelta));
}

// ---------------------------------------------------------------------------
// Tick bitmap
// ---------------------------------------------------------------------------

#[test]
fn flip_and_find() {
    let mut bm = TickBitmap::new();
    bm.flip_tick(100, 10);
    bm.flip_tick(200, 10);
    let (tick, init) = bm.next_initialized_tick_within_one_word(250, 10, true);
    assert!(init);
    assert_eq!(tick, 200);
}

#[test]
fn flip_twice_removes() {
    let mut bm = TickBitmap::new();
    bm.flip_tick(100, 10);
    bm.flip_tick(100, 10);
    let (_, init) = bm.next_initialized_tick_within_one_word(200, 10, true);
    assert!(!init);
}

#[test]
fn search_upward() {
    let mut bm = TickBitmap::new();
    bm.flip_tick(300, 10);
    let (tick, init) = bm.next_initialized_tick_within_one_word(100, 10, false);
    assert!(init);
    assert_eq!(tick, 300);
}

#[test]
fn search_without_initialized_tick_stops_at_word_edge() {
    let bm = TickBitmap::new();
    // Compressed tick 10 sits in word 0 at bit 10; nothing set below it.
    let (tick, init) = bm.next_initialized_tick_within_one_word(100, 10, true);
    assert!(!init);
    assert_eq!(tick, 0);
    let (tick, init) = bm.next_initialized_tick_within_one_word(100, 10, false);
    assert!(!init);
    assert_eq!(tick, 2550);
}

// ---------------------------------------------------------------------------
// Codec
// ---------------------------------------------------------------------------

#[test]
fn roundtrip_empty_state() {
    let state = ContractState::new();
    let bytes = encode_state(&state);
    let decoded = decode_state(&bytes).expect("decode failed");
    assert_eq!(decoded.pool.initialized, false);
    assert_eq!(decoded.config.tick_spacing, 10);
}

#[test]
fn roundtrip_preserves_pool_fields() {
    let mut state = ContractState::new();
    state.pool.sqrt_price_q64_64 = 12345678901234567890u128;
    state.pool.current_tick = -500;
    state.pool.fee_bps = 100;
    state.pool.initialized = true;
    let bytes = encode_state(&state);
    let decoded = decode_state(&bytes).expect("decode failed");
    assert_eq!(decoded.pool.sqrt_price_q64_64, 12345678901234567890u128);
    assert_eq!(decoded.pool.current_tick, -500);
    assert_eq!(decoded.pool.fee_bps, 100);
    assert!(decoded.pool.initialized);
}

#[test]
fn roundtrip_with_ticks() {
    let mut state = ContractState::new();
    state.ticks.set(
        100,
        TickState {
            liquidity_gross: 999,
            liquidity_net: -999,
            fee_growth_outside_0_q128: 42,
            fee_growth_outside_1_q128: 43,
            seconds_outside: 60,
            tick_cumulative_outside: -7,
            seconds_per_liquidity_outside_q128: 100,
        },
    );
    let bytes = encode_state(&state);
    let decoded = decode_state(&bytes).expect("decode failed");
    let t = decoded.ticks.get(100);
    assert_eq!(t.liquidity_gross, 999);
    assert_eq!(t.tick_cumulative_outside, -7);
}

#[test]
fn truncated_state_is_rejected() {
    let state = ContractState::new();
    let bytes = encode_state(&state);
    assert!(decode_state(&bytes[..bytes.len() - 1]).is_none());
    assert!(decode_state(&[]).is_none());
}

#[test]
fn crossing_twice_restores_tick() {
    let mut tm = TickMap::new();
    tm.update(100, 50, 1000, 500, 300, false).unwrap();
    let before = tm.get(100);
    tm.cross(100, 900, 700, -42, 12345, 77);
    let mid = tm.get(100);
    assert_eq!(mid.fee_growth_outside_0_q128, 900u128.wrapping_sub(before.fee_growth_outside_0_q128));
    assert_eq!(mid.fee_growth_outside_1_q128, 700u128.wrapping_sub(before.fee_growth_outside_1_q128));
    tm.cross(100, 900, 700, -42, 12345, 77);
    let after = tm.get(100);
    assert_eq!(after.fee_growth_outside_0_q128, before.fee_growth_outside_0_q128);
    assert_eq!(after.fee_growth_outside_1_q128, before.fee_growth_outside_1_q128);
    assert_eq!(after.tick_cumulative_outside, before.tick_cumulative_outside);
    assert_eq!(after.seconds_per_liquidity_outside_q128, before.seconds_per_liquidity_outside_q128);
    assert_eq!(after.seconds_outside, before.seconds_outside);
    assert_eq!(after.liquidity_gross, before.liquidity_gross);
    assert_eq!(after.liquidity_net, before.liquidity_net);
}

#[test]
fn word256_bit_ops() {
    let mut w = Word256::default();
    w.set_bit(0);
    w.set_bit(63);
    w.set_bit(255);
    assert!(w.is_set(0));
    assert!(w.is_set(63));
    assert!(w.is_set(255));
    assert!(!w.is_set(1));
    w.clear_bit(63);
    assert!(!w.is_set(63));
}

#[test]
fn conservative_cap_compares_in_full_width() {
    // A twentieth of 20·2^64 is 2^64: an input of 1 is well within it.
    let h = get(HookId::ConservativeHedge);
    let c = ctx_with(0, 20u128 << 64);
    assert!(h.before_swap(&c, true, 1).is_ok());
    assert!(h.before_swap(&c, true, u64::MAX).is_ok());
}
