use xrpl_amm::pool::{
    burn, collect, collect_protocol, get_current_tick, get_fee_growth_global, get_liquidity,
    get_protocol_fees, get_sqrt_price, initialize_pool, mint, set_pause, set_protocol_fee,
    swap_exact_in, test_setup, ContractState,
};

fn owner() -> [u8; 20] {
    [1u8; 20]
}

fn tick(t: i32) -> u32 {
    t as u32
}

/// A standard pool: price=1.0 (tick=0), 0.3% fee, tick_spacing=10.
fn std_pool() -> ContractState {
    let mut s = ContractState::new();
    test_setup(&mut s, owner(), 10);
    assert_eq!(initialize_pool(&mut s, 0u32, 30, 0), 0, "initialize_pool should succeed");
    s
}

fn init_pool() -> ContractState {
    let mut s = ContractState::new();
    test_setup(&mut s, [0u8; 20], 10);
    // initial_tick = 0 → price = 1.0 in Q64.64
    assert_eq!(initialize_pool(&mut s, 0u32, 30, 0), 0);
    s
}

fn add_liquidity(s: &mut ContractState) {
    assert_eq!(mint(s, tick(-1000), 1000, 1_000_000_000), 0);
}

#[test]
fn full_lifecycle() {
    let mut s = init_pool();
    add_liquidity(&mut s);
    let sp_before = get_sqrt_price(&s);
    let liq_before = get_liquidity(&s);
    assert!(liq_before > 0);
    let out = swap_exact_in(&mut s, 10_000, 9_900, 0);
    assert!(out > 0, "swap should produce output");
    let sp_after = get_sqrt_price(&s);
    assert!(sp_after > sp_before, "price should have increased");
}

#[test]
fn swap_decreases_price() {
    let mut s = init_pool();
    add_liquidity(&mut s);
    let sp_before = get_sqrt_price(&s);
    let out = swap_exact_in(&mut s, 10_000, 9_900, 1);
    assert!(out > 0);
    assert!(get_sqrt_price(&s) < sp_before);
}

#[test]
fn mint_increases_liquidity() {
    let mut s = init_pool();
    assert_eq!(get_liquidity(&s), 0);
    add_liquidity(&mut s);
    assert!(get_liquidity(&s) > 0);
}

#[test]
fn burn_decreases_liquidity() {
    let mut s = init_pool();
    add_liquidity(&mut s);
    let liq = get_liquidity(&s);
    assert_eq!(burn(&mut s, tick(-1000), 1000, 500_000_000), 0);
    assert!(get_liquidity(&s) < liq);
}

#[test]
fn collect_works_after_burn() {
    let mut s = init_pool();
    add_liquidity(&mut s);
    burn(&mut s, tick(-1000), 1000, 1_000_000_000);
    assert_eq!(collect(&mut s, tick(-1000), 1000, u32::MAX, u32::MAX), 0);
}

#[test]
fn pause_blocks_swap() {
    let mut s = init_pool();
    add_liquidity(&mut s);
    assert_eq!(set_pause(&mut s, 1), 0);
    let out = swap_exact_in(&mut s, 10_000, 0, 0);
    assert_eq!(out, 0); // paused → returns 0
}

#[test]
fn set_protocol_fee_and_collect() {
    let mut s = init_pool();
    add_liquidity(&mut s);
    assert_eq!(set_protocol_fee(&mut s, 1_000), 0); // 10% of fees
    // Do a swap so fees accumulate.
    swap_exact_in(&mut s, 100_000, 99_000, 0);
    let (pf0, pf1) = get_protocol_fees(&s);
    assert!(pf0 > 0 || pf1 > 0, "protocol fees should have accrued");
    let _ = collect_protocol(&mut s, u32::MAX, u32::MAX);
    let (pf0_after, pf1_after) = get_protocol_fees(&s);
    assert_eq!(pf0_after, 0);
    assert_eq!(pf1_after, 0);
}

#[test]
fn slippage_cap_enforced() {
    let mut s = init_pool();
    add_liquidity(&mut s);
    let out = swap_exact_in(&mut s, 10_000, 0, 0);
    assert_eq!(out, 0);
}

// ---------------------------------------------------------------------------
// Scenario 1: Full LP lifecycle
// ---------------------------------------------------------------------------

#[test]
fn full_lp_lifecycle() {
    let mut s = std_pool();
    assert_eq!(get_liquidity(&s), 0);
    assert_eq!(mint(&mut s, tick(-1000), 1000, 1_000_000_000), 0, "mint should succeed");
    let liq = get_liquidity(&s);
    assert!(liq > 0, "liquidity should be positive after mint");

    let price_before = get_sqrt_price(&s);
    let out1 = swap_exact_in(&mut s, 10_000, 9_900, 0);
    assert!(out1 > 0, "upward swap should produce output");
    assert!(get_sqrt_price(&s) > price_before, "price should rise");

    let price_mid = get_sqrt_price(&s);
    let out2 = swap_exact_in(&mut s, 10_000, 9_900, 1);
    assert!(out2 > 0, "downward swap should produce output");
    assert!(get_sqrt_price(&s) < price_mid, "price should fall");

    assert_eq!(burn(&mut s, tick(-1000), 1000, 1_000_000_000), 0, "burn should succeed");
    assert_eq!(get_liquidity(&s), 0, "liquidity should be zero after full burn");
    assert_eq!(
        collect(&mut s, tick(-1000), 1000, u32::MAX, u32::MAX),
        0,
        "collect should succeed after burn"
    );
}

// ---------------------------------------------------------------------------
// Scenario 2: Multiple LPs share fee growth
// ---------------------------------------------------------------------------

#[test]
fn multiple_lps_share_fee_growth() {
    let mut s = std_pool();
    assert_eq!(mint(&mut s, tick(-1000), 1000, 2_000_000_000), 0);
    assert_eq!(mint(&mut s, tick(-1000), 1000, 1_000_000_000), 0);
    let liq_total = get_liquidity(&s);
    assert_eq!(liq_total, 3_000_000_000, "total liquidity = alice + bob");

    let (fg0_before, fg1_before) = get_fee_growth_global(&s);
    swap_exact_in(&mut s, 100_000, 99_000, 0);
    let (fg0_after, fg1_after) = get_fee_growth_global(&s);
    assert!(fg1_after > fg1_before || fg0_after > fg0_before, "some fee growth should have accrued");

    burn(&mut s, tick(-1000), 1000, 2_000_000_000);
    burn(&mut s, tick(-1000), 1000, 1_000_000_000);
    assert_eq!(collect(&mut s, tick(-1000), 1000, u32::MAX, u32::MAX), 0);
}

// ---------------------------------------------------------------------------
// Scenario 3: Slippage enforcement
// ---------------------------------------------------------------------------

#[test]
fn slippage_enforcement() {
    let mut s = std_pool();
    add_liquidity(&mut s);
    let out = swap_exact_in(&mut s, 10_000, 0, 0);
    assert_eq!(out, 0, "swap with min_out=0 should fail slippage check");
    let out = swap_exact_in(&mut s, 10_000, 9_900, 0);
    assert!(out > 0, "upward swap with 1% tolerance should succeed");
    let out = swap_exact_in(&mut s, 10_000, 9_900, 1);
    assert!(out > 0, "downward swap with 1% tolerance should succeed");
}

// ---------------------------------------------------------------------------
// Scenario 4: Protocol fee accumulation
// ---------------------------------------------------------------------------

#[test]
fn protocol_fee_accrues_and_is_collectable() {
    let mut s = std_pool();
    assert_eq!(set_protocol_fee(&mut s, 1_000), 0);
    add_liquidity(&mut s);
    swap_exact_in(&mut s, 500_000, 495_000, 0);
    let (pf0, pf1) = get_protocol_fees(&s);
    assert!(pf0 > 0 || pf1 > 0, "protocol fees should be non-zero after swap");
    collect_protocol(&mut s, u32::MAX, u32::MAX);
    let (pf0_after, pf1_after) = get_protocol_fees(&s);
    assert_eq!(pf0_after, 0);
    assert_eq!(pf1_after, 0);
}

#[test]
fn collect_protocol_fees_succeeds() {
    let mut s = std_pool();
    assert_eq!(set_protocol_fee(&mut s, 500), 0);
    add_liquidity(&mut s);
    swap_exact_in(&mut s, 100_000, 99_000, 0);
    let (pf0_before, pf1_before) = get_protocol_fees(&s);
    assert!(pf0_before > 0 || pf1_before > 0, "fees should have accrued");
    collect_protocol(&mut s, u32::MAX, u32::MAX);
    let (pf0_after, pf1_after) = get_protocol_fees(&s);
    assert_eq!(pf0_after, 0);
    assert_eq!(pf1_after, 0);
}

// ---------------------------------------------------------------------------
// Scenario 5: Emergency pause
// ---------------------------------------------------------------------------

#[test]
fn pause_blocks_all_operations_unpause_restores_them() {
    let mut s = std_pool();
    add_liquidity(&mut s);
    assert_eq!(set_pause(&mut s, 1), 0);
    assert_eq!(swap_exact_in(&mut s, 10_000, 9_900, 0), 0, "swap should fail when paused");
    assert_ne!(mint(&mut s, tick(-1000), 1000, 1_000_000_000), 0, "mint should error when paused");
    assert_ne!(burn(&mut s, tick(-1000), 1000, 500_000_000), 0, "burn should error when paused");
    assert_ne!(
        collect(&mut s, tick(-1000), 1000, u32::MAX, u32::MAX),
        0,
        "collect should error when paused"
    );
    assert_eq!(set_pause(&mut s, 0), 0);
    let out = swap_exact_in(&mut s, 10_000, 9_900, 0);
    assert!(out > 0, "swap should succeed after unpause");
}

#[test]
fn pause_and_unpause_works() {
    let mut s = std_pool();
    assert_eq!(set_pause(&mut s, 1), 0, "pause should succeed");
    assert_eq!(set_pause(&mut s, 0), 0, "unpause should succeed");
    add_liquidity(&mut s);
    let out = swap_exact_in(&mut s, 10_000, 9_900, 0);
    assert!(out > 0, "pool should work after unpause");
}

// ---------------------------------------------------------------------------
// Scenario 6: Multi-tick crossing
// ---------------------------------------------------------------------------

#[test]
fn swap_crosses_multiple_ticks() {
    let mut s = std_pool();
    assert_eq!(mint(&mut s, tick(-3000), tick(-1000), 500_000_000), 0);
    assert_eq!(mint(&mut s, tick(-1000), 0, 500_000_000), 0);
    assert_eq!(mint(&mut s, 0, 1000, 500_000_000), 0);
    assert_eq!(mint(&mut s, 1000, 3000, 500_000_000), 0);

    let price_before = get_sqrt_price(&s);
    let tick_before = get_current_tick(&s);
    let out = swap_exact_in(&mut s, 3_000_000, 2_970_000, 0);
    assert!(out > 0, "multi-tick swap should produce output");
    let price_after = get_sqrt_price(&s);
    let tick_after = get_current_tick(&s);
    assert!(price_after > price_before, "price should have risen");
    assert!(tick_after > tick_before, "tick should have increased");
    assert!(
        tick_after > tick_before + 50,
        "price should have crossed multiple tick boundaries; tick_before={} tick_after={}",
        tick_before,
        tick_after
    );
}

// ---------------------------------------------------------------------------
// Scenario 7: Out-of-range positions
// ---------------------------------------------------------------------------

#[test]
fn out_of_range_position_contributes_zero_active_liquidity() {
    let mut s = std_pool();
    mint(&mut s, tick(-1000), 1000, 1_000_000_000);
    let liq_with_in_range = get_liquidity(&s);
    mint(&mut s, 2000, 5000, 1_000_000_000);
    let liq_after_out_of_range = get_liquidity(&s);
    assert_eq!(
        liq_with_in_range, liq_after_out_of_range,
        "out-of-range mint should not change active liquidity"
    );
    mint(&mut s, tick(-500), 500, 500_000_000);
    let liq_after_second_in_range = get_liquidity(&s);
    assert!(
        liq_after_second_in_range > liq_after_out_of_range,
        "second in-range mint should increase active liquidity"
    );
}

// ---------------------------------------------------------------------------
// Scenario 8: Fee growth only for in-range positions
// ---------------------------------------------------------------------------

#[test]
fn fees_only_accrue_when_position_is_in_range() {
    let mut s = std_pool();
    mint(&mut s, tick(-1000), 1000, 1_000_000_000);
    mint(&mut s, 2000, 5000, 1_000_000_000);
    for _ in 0..3 {
        swap_exact_in(&mut s, 5_000, 4_950, 0);
    }
    burn(&mut s, tick(-1000), 1000, 1_000_000_000);
    burn(&mut s, 2000, 5000, 1_000_000_000);
    assert_eq!(collect(&mut s, tick(-1000), 1000, u32::MAX, u32::MAX), 0);
    assert_eq!(collect(&mut s, 2000, 5000, u32::MAX, u32::MAX), 0);
}

// ---------------------------------------------------------------------------
// Errors and edge cases
// ---------------------------------------------------------------------------

#[test]
fn mint_rejects_bad_ranges() {
    let mut s = std_pool();
    // Lower not below upper.
    assert_ne!(mint(&mut s, 100, 100, 1_000), 0);
    // Off the tick spacing.
    assert_ne!(mint(&mut s, 5, 100, 1_000), 0);
    assert_eq!(get_liquidity(&s), 0);
}

#[test]
fn swap_before_initialization_returns_zero() {
    let mut s = ContractState::new();
    test_setup(&mut s, owner(), 10);
    assert_eq!(swap_exact_in(&mut s, 10_000, 9_900, 0), 0);
    assert_ne!(mint(&mut s, tick(-1000), 1000, 1_000), 0);
}

#[test]
fn zero_input_swap_returns_zero() {
    let mut s = std_pool();
    add_liquidity(&mut s);
    let before = get_sqrt_price(&s);
    assert_eq!(swap_exact_in(&mut s, 0, 0, 0), 0);
    assert_eq!(get_sqrt_price(&s), before);
}

#[test]
fn initialize_clamps_fees() {
    let mut s = ContractState::new();
    test_setup(&mut s, owner(), 10);
    assert_eq!(initialize_pool(&mut s, 0, 60_000, 9_000), 0);
    assert_eq!(s.pool.fee_bps, 10_000);
    assert_eq!(s.pool.protocol_fee_share_bps, 2_500);
    assert_eq!(get_sqrt_price(&s), 1u128 << 64);
}

#[test]
fn mint_then_burn_restores_active_liquidity() {
    let mut s = std_pool();
    add_liquidity(&mut s);
    let before = get_liquidity(&s);
    let price = get_sqrt_price(&s);
    assert_eq!(mint(&mut s, tick(-500), 500, 123_456), 0);
    assert_eq!(get_liquidity(&s), before + 123_456);
    assert_eq!(burn(&mut s, tick(-500), 500, 123_456), 0);
    assert_eq!(get_liquidity(&s), before);
    assert_eq!(get_sqrt_price(&s), price);
}

#[test]
fn paused_pool_keeps_its_state() {
    let mut s = std_pool();
    add_liquidity(&mut s);
    assert_eq!(set_pause(&mut s, 1), 0);
    let liq = get_liquidity(&s);
    let price = get_sqrt_price(&s);
    let tick_now = get_current_tick(&s);
    assert_ne!(mint(&mut s, tick(-100), 100, 5), 0);
    assert_ne!(burn(&mut s, tick(-1000), 1000, 5), 0);
    assert_eq!(swap_exact_in(&mut s, 10_000, 9_900, 1), 0);
    assert_eq!(get_liquidity(&s), liq);
    assert_eq!(get_sqrt_price(&s), price);
    assert_eq!(get_current_tick(&s), tick_now);
}

#[test]
fn stored_state_check_accepts_states_the_pool_produces() {
    let mut s = init_pool();
    assert!(s.check_wf());
    add_liquidity(&mut s);
    assert!(s.check_wf());
    swap_exact_in(&mut s, 10_000, 0, 1);
    assert!(s.check_wf());
}

#[test]
fn stored_state_check_rejects_malformed_states() {
    let mut s = init_pool();
    add_liquidity(&mut s);

    let mut bad_spacing = init_pool();
    bad_spacing.config.tick_spacing = 0;
    assert!(!bad_spacing.check_wf());

    let mut bad_fee = init_pool();
    bad_fee.pool.fee_bps = 10_001;
    assert!(!bad_fee.check_wf());

    let mut twice = init_pool();
    add_liquidity(&mut twice);
    twice.ticks.keys[1] = twice.ticks.keys[0];
    assert!(!twice.check_wf());

    let mut off_grid = init_pool();
    add_liquidity(&mut off_grid);
    off_grid.config.tick_spacing = 3000;
    assert!(!off_grid.check_wf());
}

#[test]
fn swap_readiness_follows_tick_and_bitmap() {
    let mut s = init_pool();
    add_liquidity(&mut s);
    assert!(xrpl_amm::pool::is_swap_ready(&s, true));
    assert!(xrpl_amm::pool::is_swap_ready(&s, false));

    let mut far = init_pool();
    add_liquidity(&mut far);
    far.pool.current_tick = xrpl_amm::math::MAX_TICK + 11;
    assert!(!xrpl_amm::pool::is_swap_ready(&far, true));

    let mut unbacked = init_pool();
    add_liquidity(&mut unbacked);
    unbacked.ticks.len = 0;
    assert!(unbacked.check_wf());
    assert!(!xrpl_amm::pool::is_swap_ready(&unbacked, true));
}

#[test]
fn swap_moves_price_its_way_or_not_at_all() {
    let mut s = init_pool();
    add_liquidity(&mut s);
    let p0 = get_sqrt_price(&s);
    assert_eq!(swap_exact_in(&mut s, 10_000, u32::MAX, 1), 0);
    assert_eq!(get_sqrt_price(&s), p0);
    assert!(swap_exact_in(&mut s, 10_000, 9_900, 1) > 0);
    let p1 = get_sqrt_price(&s);
    assert!(p1 <= p0);
    swap_exact_in(&mut s, 10_000, 9_900, 0);
    assert!(get_sqrt_price(&s) >= p1);
}

#[test]
fn full_maps_still_take_changes_to_stored_ranges() {
    let mut s = ContractState::new();
    test_setup(&mut s, owner(), 1);
    assert_eq!(initialize_pool(&mut s, 0u32, 30, 0), 0);
    for i in 1..=32 {
        assert!(xrpl_amm::pool::has_room_for(&s, tick(-i), tick(i)));
        assert_eq!(mint(&mut s, tick(-i), tick(i), 1_000), 0);
    }
    assert_eq!(s.ticks.len, 64);
    assert_eq!(s.positions.len, 32);
    // Every map is full, yet a range it already holds has room.
    assert!(xrpl_amm::pool::has_room_for(&s, tick(-5), tick(5)));
    assert_eq!(mint(&mut s, tick(-5), tick(5), 1_000), 0);
    // A new bound tick would not fit.
    assert!(!xrpl_amm::pool::has_room_for(&s, tick(-100), tick(100)));
    assert!(!xrpl_amm::pool::has_room_for(&s, tick(-1), tick(100)));
    assert!(xrpl_amm::pool::has_room_for(&s, tick(-5), tick(5)));
    assert_eq!(burn(&mut s, tick(-5), tick(5), 2_000), 0);
}

#[test]
fn failed_burn_keeps_its_lower_tick_update() {
    let mut s = std_pool();
    assert_eq!(mint(&mut s, tick(-100), tick(100), 1_000), 0);
    assert_eq!(mint(&mut s, tick(-100), tick(200), 500), 0);
    assert!(xrpl_amm::pool::is_swap_ready(&s, true));
    // Tick -100 holds enough gross liquidity, tick 100 does not: the burn
    // fails after emptying tick -100, whose bitmap bit stays set.
    assert_ne!(burn(&mut s, tick(-100), tick(100), 1_500), 0);
    assert_eq!(s.ticks.get(-100).liquidity_gross, 0);
    assert!(!xrpl_amm::pool::is_swap_ready(&s, true));
}
