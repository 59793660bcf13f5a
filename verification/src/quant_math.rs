//! Fixed-point arithmetic of the analysis side, for concentrated-liquidity
//! positions replayed off-chain.
//!
//! Representations:
//!   sqrt_price  — Q64.64 (`u128`): upper 64 bits = integer, lower 64 = fraction
//!   fee_growth  — Q128   (`u128`): entire value is fractional (scaled by 2^128)
//!   liquidity   — plain `u128` (drop-scale integer)
//!
//! Q64.64 products here saturate on overflow.
use vstd::prelude::*;
use vstd::arithmetic::div_mod::{lemma_fundamental_div_mod, lemma_fundamental_div_mod_converse};
use crate::fixed::{two64, two128, sat128, lemma_split128, lemma_shl64};
use crate::math::{mul_shift64_sat_spec, div_q64_spec, at_least_one, lemma_wrapped_low_half};
use crate::position::mul_shift128_spec;
use crate::price_math::{sqrt_price_by, tick_search_in};
pub use crate::math::{Q64, MIN_TICK, MAX_TICK};

verus! {

// ---------------------------------------------------------------------------
// Multiply-shift helpers
// ---------------------------------------------------------------------------

/// Multiply two u128 values and shift right by 64 bits (Q64.64 multiply),
/// saturating at `u128::MAX` on overflow.
pub fn mul_shift64(a: u128, b: u128) -> (r: u128)
    ensures
        r == mul_shift64_sat_spec(a, b),
{
    crate::math::mul_shift64_saturating(a, b)
}

/// Multiply two u128 values and shift right by 128 bits (Q128 multiply):
/// the high 128 bits of the 256-bit product.
pub fn mul_shift128(a: u128, b: u128) -> (r: u128)
    ensures
        r == mul_shift128_spec(a, b),
{
    crate::position::mul_shift128(a, b)
}

/// Divide `a` by `b` in Q64.64 space: `(a << 64) / b`, saturating.
pub fn div_q64(a: u128, b: u128) -> (r: u128)
    ensures
        r == div_q64_spec(a, b),
{
    crate::math::div_q64(a, b)
}

// ---------------------------------------------------------------------------
// Tick ↔ sqrt_price conversion
// ---------------------------------------------------------------------------

/// Returns `sqrt_price_q64_64` for a given tick: `sqrt(1.0001^tick)` in
/// Q64.64, from `floor(sqrt(1.0001) · 2^64)` squared bit by bit.
pub fn sqrt_price_at_tick(tick: i32) -> (r: u128)
    ensures
        r == sqrt_price_by(true, tick),
{
    crate::price_math::sqrt_price_with(true, tick)
}

/// Returns the floor tick for a given `sqrt_price` (binary search over
/// `[MIN_TICK, MAX_TICK]`).
pub fn tick_at_sqrt_price(sqrt_price: u128) -> (t: i32)
    ensures
        t as int == tick_search_in(true, sqrt_price, MIN_TICK as int, MAX_TICK as int),
        MIN_TICK <= t <= MAX_TICK,
        t == MIN_TICK || sqrt_price_by(true, t) <= sqrt_price,
        t == MAX_TICK || sqrt_price_by(true, (t + 1) as i32) > sqrt_price,
{
    crate::price_math::tick_at_sqrt_price_with(true, sqrt_price)
}

// ---------------------------------------------------------------------------
// Liquidity delta → token amounts
// ---------------------------------------------------------------------------

/// The token0 amount for `liquidity` between two sqrt prices in Q64.64:
/// `L·(√u − √l) / (√u·√l)`, rounded down or up and saturated; zero for an
/// empty range or a zero lower price.
pub open spec fn amount0_delta_spec(
    sqrt_lower: u128,
    sqrt_upper: u128,
    liquidity: u128,
    round_up: bool,
) -> u128 {
    crate::math::amount0_delta_spec(sqrt_lower, sqrt_upper, liquidity, round_up)
}

/// `amount0 = L * (sqrt_upper - sqrt_lower) / (sqrt_upper * sqrt_lower)`
pub fn amount0_delta(sqrt_lower: u128, sqrt_upper: u128, liquidity: u128, round_up: bool) -> (r:
    u128)
    ensures
        r == amount0_delta_spec(sqrt_lower, sqrt_upper, liquidity, round_up),
{
    crate::math::amount0_delta(sqrt_lower, sqrt_upper, liquidity, round_up)
}

/// The token0 amount never falls as liquidity grows.
pub proof fn lemma_amount0_grows_with_liquidity(
    sqrt_lower: u128,
    sqrt_upper: u128,
    l1: u128,
    l2: u128,
    round_up: bool,
)
    requires
        l1 <= l2,
    ensures
        amount0_delta_spec(sqrt_lower, sqrt_upper, l1, round_up) <= amount0_delta_spec(
            sqrt_lower,
            sqrt_upper,
            l2,
            round_up,
        ),
{
    crate::math::lemma_amount0_grows_with_liquidity(sqrt_lower, sqrt_upper, l1, l2, round_up);
}

/// What `amount1_delta` computes: the saturating Q64.64 product
/// `L·(√u − √l) / 2^64`, plus one when rounding up and the product has a
/// fractional part; zero for an empty range.
pub open spec fn amount1_delta_spec(
    sqrt_lower: u128,
    sqrt_upper: u128,
    liquidity: u128,
    round_up: bool,
) -> u128 {
    if sqrt_lower >= sqrt_upper {
        0
    } else {
        let diff = (sqrt_upper - sqrt_lower) as u128;
        let base = mul_shift64_sat_spec(liquidity, diff);
        if round_up && (liquidity as int * diff as int) % two64() != 0 {
            sat128(base + 1)
        } else {
            base
        }
    }
}

/// The token1 amount never falls as liquidity grows.
pub proof fn lemma_amount1_grows_with_liquidity(
    sqrt_lower: u128,
    sqrt_upper: u128,
    l1: u128,
    l2: u128,
    round_up: bool,
)
    requires
        l1 <= l2,
    ensures
        amount1_delta_spec(sqrt_lower, sqrt_upper, l1, round_up) <= amount1_delta_spec(
            sqrt_lower,
            sqrt_upper,
            l2,
            round_up,
        ),
{
    if sqrt_lower < sqrt_upper {
        let d = (sqrt_upper - sqrt_lower) as u128;
        let x1 = l1 as int * d as int;
        let x2 = l2 as int * d as int;
        assert(0 <= x1 <= x2) by (nonlinear_arith)
            requires
                l1 <= l2,
                x1 == l1 as int * d as int,
                x2 == l2 as int * d as int,
        ;
        vstd::arithmetic::div_mod::lemma_div_is_ordered(x1, x2, two64());
        lemma_fundamental_div_mod(x1, two64());
        lemma_fundamental_div_mod(x2, two64());
    }
}

/// `amount1 = L * (sqrt_upper - sqrt_lower) / Q64`
pub fn amount1_delta(sqrt_lower: u128, sqrt_upper: u128, liquidity: u128, round_up: bool) -> (r:
    u128)
    ensures
        r == amount1_delta_spec(sqrt_lower, sqrt_upper, liquidity, round_up),
{
    if sqrt_lower >= sqrt_upper {
        return 0;
    }
    let diff = sqrt_upper.saturating_sub(sqrt_lower);
    let result = mul_shift64(liquidity, diff);
    let w = liquidity.wrapping_mul(diff);
    proof {
        lemma_split128(w);
        lemma_wrapped_low_half(liquidity as int * diff as int);
    }
    if round_up && (w & 0xFFFF_FFFF_FFFF_FFFFu128) != 0 {
        result.saturating_add(1)
    } else {
        result
    }
}

// ---------------------------------------------------------------------------
// Fee growth helpers
// ---------------------------------------------------------------------------

/// What `fee_growth_per_unit_q128` computes for a non-zero liquidity `l`:
/// the integer quotient `fee / l` plus the next 64 fraction bits of the
/// quotient placed in the upper half of the word, each step wrapping at
/// 2^128; zero when `l` is zero.
pub open spec fn fee_growth_per_unit_q128_spec(fee_amount: u128, active_liquidity: u128) -> u128 {
    if active_liquidity == 0 {
        0
    } else {
        let l = active_liquidity as int;
        let hi = fee_amount as int / l;
        let lo_num = ((fee_amount as int % l) * two64()) % two128();
        let lo = ((lo_num / l) * two64()) % two128();
        ((hi + lo) % two128()) as u128
    }
}

/// Shifting a word up by 64 bits keeps the low half of the value, moved up.
proof fn lemma_shift_up(a: int)
    requires
        0 <= a,
    ensures
        (a % two64()) * two64() == (a * two64()) % two128(),
{
    let B = two64();
    lemma_fundamental_div_mod(a, B);
    let q = a / B;
    let r = a % B;
    assert(a * B == q * (B * B) + r * B) by (nonlinear_arith)
        requires
            a == B * q + r,
    ;
    assert(0 <= r * B < B * B) by (nonlinear_arith)
        requires
            0 <= r < B,
            B > 0,
    ;
    lemma_fundamental_div_mod_converse(a * B, B * B, q, r * B);
    assert(B * B == two128());
}

/// Compute the Q128 fee growth per unit of liquidity for one swap step,
/// `fee_amount · 2^128 / active_liquidity` approximated with two 64-bit
/// shifts (no 256-bit division).
///
/// Returns 0 if `active_liquidity` is 0 (no liquidity → no fee distribution).
pub fn fee_growth_per_unit_q128(fee_amount: u128, active_liquidity: u128) -> (r: u128)
    ensures
        r == fee_growth_per_unit_q128_spec(fee_amount, active_liquidity),
{
    if active_liquidity == 0 {
        return 0;
    }
    let hi = fee_amount / active_liquidity;
    let rem = fee_amount % active_liquidity;
    proof {
        lemma_shl64(rem);
        lemma_shift_up(rem as int);
    }
    let lo_num = rem << 64;
    let q = lo_num / active_liquidity;
    proof {
        lemma_shl64(q);
        lemma_shift_up(q as int);
    }
    let lo = q << 64;
    proof {
        assert(hi << 0u32 == hi) by (bit_vector);
    }
    hi.wrapping_shl(128).wrapping_add(lo)
}

} // verus!
