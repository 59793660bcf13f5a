use xrpl_amm::math::{self, Q64};
use xrpl_amm::price_math;
use xrpl_amm::quant_math;

#[test]
fn math_sqrt_price_at_zero_tick_is_one() {
    // Should be exactly Q64 = 2^64.
    assert_eq!(math::sqrt_price_at_tick(0), Q64);
    assert_eq!(price_math::sqrt_price_at_tick(0), Q64);
}

#[test]
fn math_sqrt_price_monotone() {
    let p0 = math::sqrt_price_at_tick(0);
    let p1 = math::sqrt_price_at_tick(1);
    let pm1 = math::sqrt_price_at_tick(-1);
    assert!(p1 > p0, "price increases with tick");
    assert!(pm1 < p0, "price decreases for negative tick");
    let q0 = price_math::sqrt_price_at_tick(0);
    let q1 = price_math::sqrt_price_at_tick(1);
    let qm1 = price_math::sqrt_price_at_tick(-1);
    assert!(q1 > q0, "price increases with tick");
    assert!(qm1 < q0, "price decreases for negative tick");
}

#[test]
fn math_tick_round_trip() {
    for t in [-1000, -100, -1, 0, 1, 100, 1000] {
        let p = math::sqrt_price_at_tick(t);
        let recovered = math::tick_at_sqrt_price(p);
        assert!((recovered - t).abs() <= 1, "round-trip tick={} recovered={}", t, recovered);
        let q = price_math::sqrt_price_at_tick(t);
        let recovered = price_math::tick_at_sqrt_price(q);
        assert!((recovered - t).abs() <= 1, "round-trip tick={} recovered={}", t, recovered);
    }
}

#[test]
fn math_amount0_delta_zero_range() {
    assert_eq!(math::amount0_delta(Q64, Q64, 1000, false), 0);
    assert_eq!(price_math::amount0_delta(Q64, Q64, 1000, false), 0);
}

#[test]
fn math_compute_swap_step_zero_liquidity() {
    let (p, ai, ao, fee) = math::compute_swap_step(Q64, Q64 * 2, 0, 1000, 30, false);
    assert_eq!(p, Q64);
    assert_eq!(ai, 0);
    assert_eq!(ao, 0);
    assert_eq!(fee, 0);
    let (p, ai, ao, fee) = price_math::compute_swap_step(Q64, Q64 * 2, 0, 1000, 30, false);
    assert_eq!(p, Q64);
    assert_eq!(ai, 0);
    assert_eq!(ao, 0);
    assert_eq!(fee, 0);
}

#[test]
fn math_compute_swap_step_moves_price_up() {
    let (p_next, _, _, _) = math::compute_swap_step(Q64, Q64 * 2, 1_000_000, 1_000, 30, false);
    assert!(p_next > Q64, "price should increase for one_for_zero");
    let (p_next, _, _, _) = price_math::compute_swap_step(Q64, Q64 * 2, 1_000_000, 1_000, 30, false);
    assert!(p_next > Q64, "price should increase for one_for_zero");
}

#[test]
fn math_compute_swap_step_moves_price_down() {
    let (p_next, _, _, _) = math::compute_swap_step(Q64 * 2, Q64, 1_000_000, 1_000, 30, true);
    assert!(p_next < Q64 * 2, "price should decrease for zero_for_one");
    let (p_next, _, _, _) = price_math::compute_swap_step(Q64 * 2, Q64, 1_000_000, 1_000, 30, true);
    assert!(p_next < Q64 * 2, "price should decrease for zero_for_one");
}

// ---------------------------------------------------------------------------
// Exact values
// ---------------------------------------------------------------------------

#[test]
fn mul_shift64_exact_product() {
    // 1.5 * 2.0 = 3.0 in Q64.64.
    assert_eq!(math::mul_shift64(Q64 + Q64 / 2, 2 * Q64), 3 * Q64);
    // Products past 2^192 keep only the low half of the high partial product.
    assert_eq!(math::mul_shift64(u128::MAX, u128::MAX), u128::MAX);
}

#[test]
fn div_q64_exact_and_saturating() {
    assert_eq!(math::div_q64(1, 2), 1u128 << 63);
    assert_eq!(math::div_q64(5, 0), u128::MAX);
    assert_eq!(math::div_q64(Q64, 1), u128::MAX);
}

#[test]
fn amount1_delta_exact_value() {
    // L = 1000 over [1.0, 2.0] gives 1000 of token1.
    assert_eq!(math::amount1_delta(Q64, 2 * Q64, 1000, false), 1000);
    // A fractional product rounds up only when asked.
    assert_eq!(math::amount1_delta(Q64, Q64 + 1, 3, false), 0);
    assert_eq!(math::amount1_delta(Q64, Q64 + 1, 3, true), 1);
}

#[test]
fn amount0_delta_exact_value() {
    // L = 1000 over [1.0, 2.0]: 1000 * (2 - 1) / (2 * 1) = 500.
    assert_eq!(math::amount0_delta(Q64, 2 * Q64, 1000, false), 500);
    assert_eq!(quant_math::amount0_delta(Q64, 2 * Q64, 1000, true), 500);
    // L = 1000 over [1.0, 3.0]: 2000 / 3 = 666.67, rounded either way.
    assert_eq!(math::amount0_delta(Q64, 3 * Q64, 1000, false), 666);
    assert_eq!(math::amount0_delta(Q64, 3 * Q64, 1000, true), 667);
    // A zero lower price gives zero.
    assert_eq!(math::amount0_delta(0, Q64, 1000, true), 0);
}

#[test]
fn amount0_increases_with_liquidity_in_contract_math() {
    let lo = math::sqrt_price_at_tick(-100);
    let hi = math::sqrt_price_at_tick(100);
    assert!(math::amount0_delta(lo, hi, 2_000, false) > math::amount0_delta(lo, hi, 1_000, false));
}

#[test]
fn div_q64_divides_whole_values() {
    assert_eq!(math::div_q64(Q64, Q64), Q64);
    assert_eq!(math::div_q64(3 * Q64, 2 * Q64), Q64 + Q64 / 2);
    assert_eq!(quant_math::div_q64(Q64, 4 * Q64), Q64 / 4);
    assert_eq!(math::div_q64(u128::MAX, 1), u128::MAX);
}

#[test]
fn swap_step_selling_token0_moves_by_the_net_input() {
    // From price 2.0 toward 1.0 with liquidity 1e6 and 1000 in.
    let (p, a_in, a_out, fee) = math::compute_swap_step(2 * Q64, Q64, 1_000_000, 1000, 30, true);
    assert_eq!((p, a_in, a_out, fee), (36820068929972737593, 998, 3980, 2));
    // Without a fee the floored price asks one unit more than was given,
    // and the fee (the rest of the amount) is zero.
    let (p, a_in, _, fee) = math::compute_swap_step(2 * Q64, Q64, 1_000_000, 1000, 0, true);
    assert!(p > Q64 && p < 2 * Q64);
    assert_eq!((a_in, fee), (1001, 0));
}

#[test]
fn swap_step_reaching_the_target_charges_the_fee_on_the_input() {
    // Selling token1 from 1.0 toward 1.5 with liquidity 1000: 500 reach it.
    let (p, a_in, _, fee) = math::compute_swap_step(Q64, Q64 + Q64 / 2, 1_000, 10_000, 30, false);
    assert_eq!(p, Q64 + Q64 / 2);
    assert_eq!(a_in, 500);
    assert_eq!(fee, 500 * 30 / 9_970);
    // Short of the target the rest of the amount is the fee.
    let (p, a_in, _, fee) = math::compute_swap_step(Q64, 2 * Q64, 1_000, 100, 30, false);
    assert!(p > Q64 && p < 2 * Q64);
    assert!(a_in <= 99);
    assert_eq!(a_in as u64 + fee, 100);
}

#[test]
fn tick_at_sqrt_price_brackets_the_price() {
    let p = math::sqrt_price_at_tick(500);
    assert_eq!(math::tick_at_sqrt_price(p), 500);
    assert_eq!(math::tick_at_sqrt_price(p - 1), 499);
}

#[test]
fn tick_round_trip_is_exact_above_tie_bound() {
    for t in [887_272, 887_250, 700_000, 443_635, 1, 0, -1, -443_636, -600_000] {
        assert_eq!(math::tick_at_sqrt_price(math::sqrt_price_at_tick(t)), t);
    }
}

#[test]
fn tick_round_trip_on_tied_prices_finds_highest_tick() {
    assert_eq!(math::sqrt_price_at_tick(-689_383), 19_811);
    assert_eq!(math::sqrt_price_at_tick(-689_382), 19_811);
    assert_eq!(math::tick_at_sqrt_price(19_811), -689_382);
    assert_eq!(math::sqrt_price_at_tick(-887_272), 1);
    assert_eq!(math::tick_at_sqrt_price(1), -873_410);
}

#[test]
fn squaring_round_trip_in_window_and_past_overflow() {
    for t in [443_635, 1000, 0, -1000, -443_636] {
        assert_eq!(price_math::tick_at_sqrt_price(price_math::sqrt_price_at_tick(t)), t);
    }
    // Past tick 887,250 the partial-product multiply wraps, and the search
    // lands on a wrapped price.
    assert_eq!(price_math::tick_at_sqrt_price(price_math::sqrt_price_at_tick(887_250)), 887_272);
}

#[test]
fn saturating_round_trip_over_whole_range() {
    for t in [887_250, 443_635, 0, -443_636, -689_382] {
        assert_eq!(quant_math::tick_at_sqrt_price(quant_math::sqrt_price_at_tick(t)), t);
    }
    assert_eq!(quant_math::sqrt_price_at_tick(887_251), u128::MAX);
    assert_eq!(quant_math::tick_at_sqrt_price(u128::MAX), 887_272);
    assert_eq!(quant_math::tick_at_sqrt_price(quant_math::sqrt_price_at_tick(-887_272)), -873_388);
}

#[test]
fn analysis_amounts_grow_with_liquidity_and_round_up() {
    let lo = quant_math::sqrt_price_at_tick(-100);
    let hi = quant_math::sqrt_price_at_tick(100);
    let a1_small = quant_math::amount1_delta(lo, hi, 1_000, true);
    let a1_big = quant_math::amount1_delta(lo, hi, 2_000, true);
    assert!(a1_big > a1_small);
    assert!(quant_math::amount1_delta(lo, hi, 1_000, false) <= a1_small);
    // 1000 · 0.5 exactly, and 1001 · 0.5 rounded either way.
    assert_eq!(quant_math::amount1_delta(Q64, Q64 + Q64 / 2, 1_000, true), 500);
    assert_eq!(quant_math::amount1_delta(Q64, Q64 + Q64 / 2, 1_001, false), 500);
    assert_eq!(quant_math::amount1_delta(Q64, Q64 + Q64 / 2, 1_001, true), 501);
}

#[test]
fn analysis_tick_round_trip_is_exact_near_par() {
    for t in -1000..=1000 {
        assert_eq!(quant_math::tick_at_sqrt_price(quant_math::sqrt_price_at_tick(t)), t);
    }
}
