//! The multi-tick swap loop.
//!
//! Each pass finds the next initialized tick in the swap direction, moves the
//! price towards it (or towards the caller's limit) with what input is left,
//! accrues the fee, and crosses the tick when the price reaches it.
use vstd::prelude::*;
use vstd::arithmetic::div_mod::*;
use crate::fixed::{two64, two128, sat128, lemma_shl64, lemma_split128};
use crate::math::{
    MIN_TICK,
    MAX_TICK,
    compute_swap_step,
    swap_step_spec,
    lemma_step_direction,
    sqrt_price_at_tick,
    sqrt_price_at_tick_spec,
    tick_at_sqrt_price,
    tick_search,
    saturating_mul_u128,
};
use crate::tick::{
    MAX_TICKS,
    TickMap,
    TickState,
    crossed_state,
    stored_after_set,
    zero_tick_state,
};
use crate::tick_bitmap::{
    TickBitmap,
    next_tick_spec,
    next_tick_found,
    search_fits,
    search_start,
    trunc_div,
    word_pos_of,
    bit_pos_of,
    nearest_below,
    nearest_above,
};
use crate::types::ContractError;

verus! {

/// Most ticks a single swap may cross.
pub const MAX_TICK_CROSSINGS: u32 = 64;

/// What a swap hands back.
pub struct SwapResult {
    pub amount_in: u64,
    pub amount_out: u64,
    /// Final sqrt price after swap.
    pub sqrt_price_after: u128,
    /// Final tick after swap.
    pub tick_after: i32,
    /// Active liquidity after all tick crossings have been applied.
    pub liquidity_after: u128,
    /// How far the global fee growth of the input token moved (wrapping).
    pub fee_growth_delta: u128,
    /// Protocol fee collected.
    pub protocol_fee: u128,
    /// Number of ticks crossed.
    pub ticks_crossed: u32,
}

/// The inputs that stay fixed while a swap runs.
pub struct SwapParams {
    pub fee_bps: u16,
    pub protocol_fee_share_bps: u16,
    pub fee_growth_global: u128,
    pub zero_for_one: bool,
    pub sqrt_price_limit: u128,
    pub tick_spacing: i32,
    pub tick_cumulative: i64,
    pub seconds_per_liquidity_q128: u128,
    pub timestamp: u32,
}

/// The state threaded through the swap loop.
pub struct SwapState {
    /// Remaining input amount (gross, before fee).
    pub amount_remaining: u64,
    /// Accumulated output so far.
    pub amount_out: u64,
    pub sqrt_price: u128,
    pub tick: i32,
    /// Active liquidity in the current range.
    pub liquidity: u128,
    /// Global fee growth of the input token, Q128.
    pub fee_growth_global: u128,
    pub protocol_fees: u128,
    pub ticks_crossed: u32,
    /// The price could not move, or nothing was consumed: the loop ends.
    pub stopped: bool,
}

/// Tick states as a function of the tick index.
pub type TickStates = spec_fn(i32) -> Option<TickState>;

/// The tick states a map holds.
pub open spec fn tick_states(m: TickMap) -> TickStates {
    |t: i32| m.lookup(t)
}

/// The state of `t`, all zeros when it has none.
pub open spec fn state_in(ts: TickStates, t: i32) -> TickState {
    match ts(t) {
        Some(s) => s,
        None => zero_tick_state(),
    }
}

/// The parameters of a call of `execute_swap`.
pub open spec fn swap_params(
    fee_bps: u16,
    protocol_fee_share_bps: u16,
    fee_growth_global: u128,
    zero_for_one: bool,
    sqrt_price_limit: u128,
    tick_spacing: i32,
    tick_cumulative: i64,
    seconds_per_liquidity_q128: u128,
    timestamp: u32,
) -> SwapParams {
    SwapParams {
        fee_bps,
        protocol_fee_share_bps,
        fee_growth_global,
        zero_for_one,
        sqrt_price_limit,
        tick_spacing,
        tick_cumulative,
        seconds_per_liquidity_q128,
        timestamp,
    }
}

/// The state a swap starts from.
pub open spec fn swap_start(
    p: SwapParams,
    sqrt_price: u128,
    tick: i32,
    liquidity: u128,
    amount_in: u64,
) -> SwapState {
    SwapState {
        amount_remaining: amount_in,
        amount_out: 0,
        sqrt_price,
        tick,
        liquidity,
        fee_growth_global: p.fee_growth_global,
        protocol_fees: 0,
        ticks_crossed: 0,
        stopped: false,
    }
}

/// A limit on the wrong side of the current price: at or above it when the
/// price moves down, at or below it when it moves up.
pub open spec fn limit_on_wrong_side(zero_for_one: bool, limit: u128, sqrt_price: u128) -> bool {
    if zero_for_one {
        limit >= sqrt_price
    } else {
        limit <= sqrt_price
    }
}

/// The searched tick clamped to the valid range on the side the price moves to.
pub open spec fn clamp_tick(t: i32, zero_for_one: bool) -> i32 {
    if zero_for_one {
        if t < MIN_TICK {
            MIN_TICK
        } else {
            t
        }
    } else {
        if t > MAX_TICK {
            MAX_TICK
        } else {
            t
        }
    }
}

/// The price a step aims at: the next tick's price, but never past the limit.
pub open spec fn step_target(p: SwapParams, tick_price: u128) -> u128 {
    if p.zero_for_one {
        if tick_price < p.sqrt_price_limit {
            p.sqrt_price_limit
        } else {
            tick_price
        }
    } else {
        if p.sqrt_price_limit < tick_price {
            p.sqrt_price_limit
        } else {
            tick_price
        }
    }
}

/// Whether the loop runs another pass.
pub open spec fn swap_continues(p: SwapParams, st: SwapState) -> bool {
    &&& st.amount_remaining > 0
    &&& st.sqrt_price != p.sqrt_price_limit
    &&& st.ticks_crossed < MAX_TICK_CROSSINGS
    &&& !st.stopped
}

/// `fee·2^128 / liquidity`, saturating at `u128::MAX`; zero without liquidity.
/// A fee below 2^64 is divided as `(fee << 64) / liquidity` and shifted up
/// again; a larger fee is split into its high and low halves.
pub open spec fn fee_growth_per_unit_spec(fee: u128, liquidity: u128) -> u128 {
    if liquidity == 0 {
        0
    } else if fee < two64() {
        let q = (fee as int * two64()) / (liquidity as int);
        if q >= two64() {
            u128::MAX
        } else {
            (q * two64()) as u128
        }
    } else {
        let hi = sat128((fee as int / two64()) * (u128::MAX as int / liquidity as int));
        let lo = ((fee as int % two64()) * two64()) / (liquidity as int);
        sat128(hi as int + lo)
    }
}

/// Active liquidity after crossing a tick with net liquidity `net`: moving
/// down subtracts it, moving up adds it, both in wrapping 128-bit arithmetic.
pub open spec fn liquidity_after_cross(liquidity: u128, net: i128, zero_for_one: bool) -> u128 {
    if zero_for_one {
        vstd::wrapping::i128_specs::wrapping_sub(liquidity as i128, net) as u128
    } else {
        vstd::wrapping::i128_specs::wrapping_add(liquidity as i128, net) as u128
    }
}

/// One pass of the swap loop: the new loop state and tick states.
pub open spec fn swap_step(bm: TickBitmap, p: SwapParams, st: SwapState, ts: TickStates) -> (
    SwapState,
    TickStates,
) {
    let (next_tick, initialized) = next_tick_spec(bm, st.tick, p.tick_spacing, p.zero_for_one);
    let ntc = clamp_tick(next_tick, p.zero_for_one);
    let tick_price = sqrt_price_at_tick_spec(ntc);
    let target = step_target(p, tick_price);
    if !initialized && target == st.sqrt_price {
        // An empty word whose boundary is the current price: step into the
        // adjacent word, counted as a crossing.
        (
            SwapState {
                tick: (if p.zero_for_one {
                    ntc - p.tick_spacing
                } else {
                    ntc + p.tick_spacing
                }) as i32,
                ticks_crossed: (st.ticks_crossed + 1) as u32,
                ..st
            },
            ts,
        )
    } else if target == st.sqrt_price {
        (SwapState { stopped: true, ..st }, ts)
    } else {
        let (after, step_in, step_out, fee) = swap_step_spec(
            st.sqrt_price,
            target,
            st.liquidity,
            st.amount_remaining,
            p.fee_bps,
            p.zero_for_one,
        );
        if step_in == 0 && fee == 0 {
            (SwapState { stopped: true, ..st }, ts)
        } else {
            let accrue = st.liquidity > 0 && fee > 0;
            let cut = (fee as int * p.protocol_fee_share_bps as int / 10_000) as u128;
            let fee_growth = if accrue {
                vstd::wrapping::u128_specs::wrapping_add(
                    st.fee_growth_global,
                    fee_growth_per_unit_spec((fee - cut) as u128, st.liquidity),
                )
            } else {
                st.fee_growth_global
            };
            let protocol_fees = if accrue {
                sat128(st.protocol_fees + cut)
            } else {
                st.protocol_fees
            };
            let used = if step_in + fee > u64::MAX {
                u64::MAX as int
            } else {
                step_in + fee
            };
            let moved = SwapState {
                amount_remaining: (if used > st.amount_remaining {
                    0
                } else {
                    st.amount_remaining - used
                }) as u64,
                amount_out: (if st.amount_out + step_out > u64::MAX {
                    u64::MAX as int
                } else {
                    st.amount_out + step_out
                }) as u64,
                sqrt_price: after,
                fee_growth_global: fee_growth,
                protocol_fees,
                ..st
            };
            if after == tick_price && initialized {
                let (g0, g1) = if p.zero_for_one {
                    (fee_growth, p.fee_growth_global)
                } else {
                    (p.fee_growth_global, fee_growth)
                };
                let crossed = crossed_state(
                    state_in(ts, ntc),
                    g0,
                    g1,
                    p.tick_cumulative,
                    p.seconds_per_liquidity_q128,
                    p.timestamp,
                );
                (
                    SwapState {
                        liquidity: liquidity_after_cross(
                            st.liquidity,
                            state_in(ts, ntc).liquidity_net,
                            p.zero_for_one,
                        ),
                        tick: (if p.zero_for_one {
                            ntc - 1
                        } else {
                            ntc as int
                        }) as i32,
                        ticks_crossed: (st.ticks_crossed + 1) as u32,
                        ..moved
                    },
                    |t: i32|
                        if t == ntc {
                            stored_after_set(crossed)
                        } else {
                            ts(t)
                        },
                )
            } else {
                (
                    SwapState {
                        tick: tick_search(after, MIN_TICK as int, MAX_TICK as int) as i32,
                        ..moved
                    },
                    ts,
                )
            }
        }
    }
}

/// The loop run for at most `fuel` passes.
pub open spec fn swap_run(bm: TickBitmap, p: SwapParams, st: SwapState, ts: TickStates, fuel: nat) -> (
    SwapState,
    TickStates,
)
    decreases fuel,
{
    if fuel == 0 || !swap_continues(p, st) {
        (st, ts)
    } else {
        let (st2, ts2) = swap_step(bm, p, st, ts);
        swap_run(bm, p, st2, ts2, (fuel - 1) as nat)
    }
}

/// The step a pass of the swap loop takes, `(price after, input, output,
/// fee)`: the step toward its target when the target differs from the
/// price, no step (the price unchanged, nothing in or out) otherwise.
pub open spec fn pass_step(bm: TickBitmap, p: SwapParams, st: SwapState) -> (u128, u64, u64, u64) {
    let (next_tick, initialized) = next_tick_spec(bm, st.tick, p.tick_spacing, p.zero_for_one);
    let target = step_target(p, sqrt_price_at_tick_spec(clamp_tick(next_tick, p.zero_for_one)));
    if target == st.sqrt_price {
        (st.sqrt_price, 0, 0, 0)
    } else {
        swap_step_spec(
            st.sqrt_price,
            target,
            st.liquidity,
            st.amount_remaining,
            p.fee_bps,
            p.zero_for_one,
        )
    }
}

/// The fee a pass of the swap loop charges.
pub open spec fn pass_fee(bm: TickBitmap, p: SwapParams, st: SwapState) -> int {
    pass_step(bm, p, st).3 as int
}

/// What a pass of the swap loop does to the amounts: a step that takes
/// input or a fee spends both from the amount remaining (down to zero),
/// adds its output to the amount out (saturating) and moves the price to
/// where the step ends; a step that takes neither leaves the price and the
/// amounts as they were.
#[verifier::spinoff_prover]
pub proof fn lemma_pass_accounting(bm: TickBitmap, p: SwapParams, st: SwapState, ts: TickStates)
    ensures
        ({
            let (after, step_in, step_out, fee) = pass_step(bm, p, st);
            let next = swap_step(bm, p, st, ts).0;
            &&& step_in > 0 || fee > 0 ==> {
                &&& next.amount_remaining == if step_in + fee >= st.amount_remaining {
                    0
                } else {
                    st.amount_remaining - step_in - fee
                }
                &&& next.amount_out == if st.amount_out + step_out > u64::MAX {
                    u64::MAX as int
                } else {
                    st.amount_out + step_out
                }
                &&& next.sqrt_price == after
            }
            &&& step_in == 0 && fee == 0 ==> next.sqrt_price == st.sqrt_price
                && next.amount_remaining == st.amount_remaining && next.amount_out == st.amount_out
        }),
{
}

/// The fee `fee·2^128 / liquidity` credited per unit of liquidity never
/// pays out more than `fee`, and falls short of it by less than one unit
/// per 2^64 of liquidity unless it saturates.
proof fn lemma_growth_bounds(x: u128, l: u128)
    requires
        x < two64(),
        l > 0,
    ensures
        fee_growth_per_unit_spec(x, l) as int * l <= x as int * two128(),
        x < l ==> x as int * two128() < fee_growth_per_unit_spec(x, l) as int * l + l as int * two64(),
{
    let q = (x as int * two64()) / (l as int);
    lemma_fundamental_div_mod(x as int * two64(), l as int);
    assert(two128() == two64() * two64());
    let r = (x as int * two64()) % (l as int);
    assert(0 <= r < l);
    if q >= two64() {
        assert(x as int * two64() >= two64() * l) by (nonlinear_arith)
            requires
                x as int * two64() == l as int * q + r,
                q >= two64(),
                r >= 0,
                l > 0,
        ;
        assert(x >= l) by (nonlinear_arith)
            requires
                x as int * two64() >= two64() * l,
                two64() > 0,
        ;
        assert(u128::MAX as int * l < x as int * two128()) by (nonlinear_arith)
            requires
                x >= l,
                l > 0,
                u128::MAX as int == two128() - 1,
                two128() > 0,
        ;
    } else {
        assert(q >= 0) by {
            lemma_div_pos_is_pos(x as int * two64(), l as int);
        }
        assert(q * two64() * l <= x as int * two128()) by (nonlinear_arith)
            requires
                x as int * two64() == l as int * q + r,
                r >= 0,
                two128() == two64() * two64(),
                two64() > 0,
        ;
        assert(x as int * two128() < q * two64() * l + l as int * two64()) by (nonlinear_arith)
            requires
                x as int * two64() == l as int * q + r,
                r < l,
                two128() == two64() * two64(),
                two64() > 0,
        ;
        assert(q * two64() < two128()) by (nonlinear_arith)
            requires
                0 <= q < two64(),
                two128() == two64() * two64(),
        ;
    }
}

/// The split of one fee between the protocol and the liquidity providers,
/// stated over the counters before and after.
proof fn lemma_accrual_split(
    growth_before: u128,
    growth_after: u128,
    protocol_before: u128,
    protocol_after: u128,
    liquidity: u128,
    fee: u64,
    share: u16,
)
    requires
        share <= 10_000,
        liquidity > 0 && fee > 0 ==> {
            let cut = (fee as int * share as int / 10_000) as u128;
            &&& growth_after == vstd::wrapping::u128_specs::wrapping_add(
                growth_before,
                fee_growth_per_unit_spec((fee - cut) as u128, liquidity),
            )
            &&& protocol_after == sat128(protocol_before + cut)
        },
        !(liquidity > 0 && fee > 0) ==> growth_after == growth_before && protocol_after
            == protocol_before,
    ensures
        ({
            let cut = fee * share / 10_000;
            let growth = (growth_after - growth_before) % two128();
            let protocol = protocol_after - protocol_before;
            &&& 0 <= protocol <= cut
            &&& liquidity > 0 && protocol_before + cut <= u128::MAX ==> protocol == cut
            &&& growth * liquidity <= (fee - cut) * two128()
            &&& fee - cut < liquidity ==> (fee - cut) * two128() < growth * liquidity + liquidity
                * two64()
        }),
{
    assert(two128() == 0x1_0000_0000_0000_0000_0000_0000_0000_0000int);
    let f = fee as int;
    let cut = f * share / 10_000;
    assert(0 <= f * share <= f * 10_000) by (nonlinear_arith)
        requires
            0 <= share <= 10_000,
            f >= 0,
    ;
    lemma_div_is_ordered(f * share, f * 10_000, 10_000);
    lemma_div_pos_is_pos(f * share, 10_000);
    assert((f * 10_000) / 10_000 == f) by {
        lemma_div_by_multiple(f, 10_000);
    }
    assert(0 <= cut <= f);
    assert(0int % two128() == 0);
    if liquidity > 0 {
        let x = (f - cut) as u128;
        assert(x < two64());
        lemma_growth_bounds(x, liquidity);
        if fee > 0 {
            let g = fee_growth_per_unit_spec(x, liquidity);
            assert((growth_after - growth_before) % two128() == g as int) by {
                if growth_before + g > u128::MAX {
                    assert((growth_after - growth_before) == g - two128());
                    lemma_mod_sub_multiples_vanish(g as int, two128());
                    lemma_small_mod(g as nat, two128() as nat);
                } else {
                    lemma_small_mod(g as nat, two128() as nat);
                }
            }
        }
    }
}

/// How one pass of the swap loop splits the fee it charges: the protocol
/// takes `⌊fee·share/10_000⌋` (less only where its counter saturates), and
/// the fee growth credited to the active liquidity pays out at most the
/// rest, short of it by less than one unit per 2^64 of liquidity unless the
/// growth saturates.  The protocol's cut is never also credited to the
/// liquidity providers.
#[verifier::spinoff_prover]
pub proof fn lemma_pass_fee_split(bm: TickBitmap, p: SwapParams, st: SwapState, ts: TickStates)
    requires
        p.fee_bps <= 10_000,
        p.protocol_fee_share_bps <= 10_000,
    ensures
        ({
            let next = swap_step(bm, p, st, ts).0;
            let fee = pass_fee(bm, p, st);
            let cut = fee * p.protocol_fee_share_bps / 10_000;
            let growth = (next.fee_growth_global - st.fee_growth_global) % two128();
            let protocol = next.protocol_fees - st.protocol_fees;
            &&& 0 <= protocol <= cut
            &&& st.liquidity > 0 && st.protocol_fees + cut <= u128::MAX ==> protocol == cut
            &&& growth * st.liquidity <= (fee - cut) * two128()
            &&& fee - cut < st.liquidity ==> (fee - cut) * two128() < growth * st.liquidity
                + st.liquidity * two64()
        }),
{
    let next = swap_step(bm, p, st, ts).0;
    let (after, step_in, step_out, fee) = pass_step(bm, p, st);
    if step_in == 0 && fee == 0 {
        assert(next.fee_growth_global == st.fee_growth_global);
        assert(next.protocol_fees == st.protocol_fees);
    }
    lemma_accrual_split(
        st.fee_growth_global,
        next.fee_growth_global,
        st.protocol_fees,
        next.protocol_fees,
        st.liquidity,
        fee,
        p.protocol_fee_share_bps,
    );
}

/// A pass of the swap loop never moves the price against the swap's
/// direction.
proof fn lemma_swap_step_direction(bm: TickBitmap, p: SwapParams, st: SwapState, ts: TickStates)
    requires
        p.fee_bps <= 10_000,
    ensures
        if p.zero_for_one {
            swap_step(bm, p, st, ts).0.sqrt_price <= st.sqrt_price
        } else {
            swap_step(bm, p, st, ts).0.sqrt_price >= st.sqrt_price
        },
{
    let (next_tick, initialized) = next_tick_spec(bm, st.tick, p.tick_spacing, p.zero_for_one);
    let ntc = clamp_tick(next_tick, p.zero_for_one);
    let target = step_target(p, sqrt_price_at_tick_spec(ntc));
    lemma_step_direction(
        st.sqrt_price,
        target,
        st.liquidity,
        st.amount_remaining,
        p.fee_bps,
        p.zero_for_one,
    );
}

/// The swap loop never moves the price against the swap's direction: a
/// zero-for-one run ends at or below its starting price, a one-for-zero
/// run at or above it.
pub proof fn lemma_swap_run_direction(
    bm: TickBitmap,
    p: SwapParams,
    st: SwapState,
    ts: TickStates,
    fuel: nat,
)
    requires
        p.fee_bps <= 10_000,
    ensures
        if p.zero_for_one {
            swap_run(bm, p, st, ts, fuel).0.sqrt_price <= st.sqrt_price
        } else {
            swap_run(bm, p, st, ts, fuel).0.sqrt_price >= st.sqrt_price
        },
    decreases fuel,
{
    if fuel > 0 && swap_continues(p, st) {
        let (st2, ts2) = swap_step(bm, p, st, ts);
        lemma_swap_step_direction(bm, p, st, ts);
        lemma_swap_run_direction(bm, p, st2, ts2, (fuel - 1) as nat);
    }
}

/// A bound on the passes left: each pass crosses a tick, consumes input or
/// stops the loop.
pub open spec fn swap_measure(st: SwapState) -> nat {
    if st.stopped {
        0
    } else {
        ((MAX_TICK_CROSSINGS + 1 - st.ticks_crossed) * two64() + st.amount_remaining) as nat
    }
}

/// Where the loop ends: its final state and tick states.
pub open spec fn swap_outcome(bm: TickBitmap, p: SwapParams, start: SwapState, ts: TickStates) -> (
    SwapState,
    TickStates,
) {
    swap_run(bm, p, start, ts, swap_measure(start) + 1)
}

/// The result reported for a final loop state.
pub open spec fn swap_result_of(o: SwapState, amount_in: u64, fee_growth_start: u128) -> SwapResult {
    SwapResult {
        amount_in: (amount_in - o.amount_remaining) as u64,
        amount_out: o.amount_out,
        sqrt_price_after: o.sqrt_price,
        tick_after: o.tick,
        liquidity_after: o.liquidity,
        fee_growth_delta: vstd::wrapping::u128_specs::wrapping_sub(
            o.fee_growth_global,
            fee_growth_start,
        ),
        protocol_fee: o.protocol_fees,
        ticks_crossed: o.ticks_crossed,
    }
}

/// The tick a bitmap bit stands for.
pub open spec fn bit_tick(word: i16, bit: int, tick_spacing: i32) -> int {
    (word * 256 + bit) * tick_spacing
}

/// Every tick the bitmap marks as initialized has gross liquidity.
pub open spec fn bitmap_backed(bm: TickBitmap, ticks: TickMap, tick_spacing: i32) -> bool {
    forall|w: i16, b: int| #[trigger]
        bm.has_tick(w, b) ==> ticks.state_of(bit_tick(w, b, tick_spacing) as i32).liquidity_gross > 0
}

/// Crossing the boundary tick that a search beyond the valid range is
/// clamped to finds room in the map: the map has a free slot, already holds
/// that tick, or no initialized tick lies beyond it.
pub open spec fn boundary_room(bm: TickBitmap, ticks: TickMap, tick_spacing: i32, zero_for_one: bool) -> bool {
    ||| ticks.len < MAX_TICKS
    ||| ticks.holds(
        if zero_for_one {
            MIN_TICK
        } else {
            MAX_TICK
        },
    )
    ||| forall|w: i16, b: int| #[trigger]
        bm.has_tick(w, b) ==> if zero_for_one {
            MIN_TICK <= bit_tick(w, b, tick_spacing)
        } else {
            bit_tick(w, b, tick_spacing) <= MAX_TICK
        }
}

/// A tick at most one spacing outside the valid range.
pub open spec fn tick_in_reach(tick: i32, tick_spacing: i32) -> bool {
    MIN_TICK - tick_spacing <= tick <= MAX_TICK + tick_spacing
}

/// The tick a bitmap bit stands for, computed exactly in 64 bits.
fn bit_tick_of(word: i16, bit: u16, tick_spacing: i32) -> (r: i64)
    requires
        bit < 256,
        0 < tick_spacing <= MAX_TICK,
    ensures
        r == bit_tick(word, bit as int, tick_spacing),
{
    let c: i64 = word as i64 * 256 + bit as i64;
    assert(-8_388_608 * 887_272 <= c * tick_spacing <= 8_388_608 * 887_272) by (nonlinear_arith)
        requires
            -8_388_608 <= c <= 8_388_608,
            0 < tick_spacing <= 887_272,
    ;
    c * tick_spacing as i64
}

/// Whether every tick the bitmap marks has gross liquidity in `ticks`.
pub fn check_bitmap_backed(bm: &TickBitmap, ticks: &TickMap, tick_spacing: i32) -> (r: bool)
    requires
        bm.wf(),
        ticks.wf(),
        0 < tick_spacing <= MAX_TICK,
    ensures
        r == bitmap_backed(*bm, *ticks, tick_spacing),
{
    let mut i: usize = 0;
    while i < bm.len
        invariant
            bm.wf(),
            ticks.wf(),
            0 < tick_spacing <= MAX_TICK,
            i <= bm.len,
            forall|a: int, j: int|
                0 <= a < i && 0 <= j < 256 && #[trigger] bm.word_vals[a].has(j)
                    ==> ticks.state_of(bit_tick(bm.word_keys[a], j, tick_spacing) as i32).liquidity_gross > 0,
        decreases bm.len - i,
    {
        let w = bm.word_keys[i];
        let word = bm.word_vals[i];
        let mut j: u16 = 0;
        while j < 256
            invariant
                bm.wf(),
                ticks.wf(),
                0 < tick_spacing <= MAX_TICK,
                i < bm.len,
                w == bm.word_keys[i as int],
                word == bm.word_vals[i as int],
                j <= 256,
                forall|k: int|
                    0 <= k < j && #[trigger] word.has(k)
                        ==> ticks.state_of(bit_tick(w, k, tick_spacing) as i32).liquidity_gross > 0,
            decreases 256 - j,
        {
            if word.is_set(j as u8) {
                let t = bit_tick_of(w, j, tick_spacing) as i32;
                if ticks.get(t).liquidity_gross == 0 {
                    proof {
                        bm.lemma_slot(i as int, j as int);
                    }
                    return false;
                }
            }
            j += 1;
        }
        i += 1;
    }
    proof {
        assert forall|w: i16, b: int| #[trigger] bm.has_tick(w, b) implies ticks.state_of(
            bit_tick(w, b, tick_spacing) as i32,
        ).liquidity_gross > 0 by {
            let k = choose|k: int|
                0 <= k < bm.len && bm.word_keys[k] == w && #[trigger] bm.word_vals[k].has(b);
            assert(bm.word_vals[k].has(b));
        }
    }
    true
}

/// Whether every tick the bitmap marks lies on the valid side of the range
/// boundary a search in the given direction is clamped to.
fn check_bitmap_within(bm: &TickBitmap, tick_spacing: i32, zero_for_one: bool) -> (r: bool)
    requires
        bm.wf(),
        0 < tick_spacing <= MAX_TICK,
    ensures
        r == forall|w: i16, b: int| #[trigger]
            bm.has_tick(w, b) ==> if zero_for_one {
                MIN_TICK <= bit_tick(w, b, tick_spacing)
            } else {
                bit_tick(w, b, tick_spacing) <= MAX_TICK
            },
{
    let mut i: usize = 0;
    while i < bm.len
        invariant
            bm.wf(),
            0 < tick_spacing <= MAX_TICK,
            i <= bm.len,
            forall|a: int, j: int|
                0 <= a < i && 0 <= j < 256 && #[trigger] bm.word_vals[a].has(j) ==> if zero_for_one {
                    MIN_TICK <= bit_tick(bm.word_keys[a], j, tick_spacing)
                } else {
                    bit_tick(bm.word_keys[a], j, tick_spacing) <= MAX_TICK
                },
        decreases bm.len - i,
    {
        let w = bm.word_keys[i];
        let word = bm.word_vals[i];
        let mut j: u16 = 0;
        while j < 256
            invariant
                bm.wf(),
                0 < tick_spacing <= MAX_TICK,
                i < bm.len,
                w == bm.word_keys[i as int],
                word == bm.word_vals[i as int],
                j <= 256,
                forall|k: int|
                    0 <= k < j && #[trigger] word.has(k) ==> if zero_for_one {
                        MIN_TICK <= bit_tick(w, k, tick_spacing)
                    } else {
                        bit_tick(w, k, tick_spacing) <= MAX_TICK
                    },
            decreases 256 - j,
        {
            if word.is_set(j as u8) {
                let t = bit_tick_of(w, j, tick_spacing);
                let outside = if zero_for_one {
                    t < MIN_TICK as i64
                } else {
                    t > MAX_TICK as i64
                };
                if outside {
                    proof {
                        bm.lemma_slot(i as int, j as int);
                    }
                    return false;
                }
            }
            j += 1;
        }
        i += 1;
    }
    proof {
        assert forall|w: i16, b: int| #[trigger] bm.has_tick(w, b) implies (if zero_for_one {
            MIN_TICK <= bit_tick(w, b, tick_spacing)
        } else {
            bit_tick(w, b, tick_spacing) <= MAX_TICK
        }) by {
            let k = choose|k: int|
                0 <= k < bm.len && bm.word_keys[k] == w && #[trigger] bm.word_vals[k].has(b);
            assert(bm.word_vals[k].has(b));
        }
    }
    true
}

/// Whether crossing the clamped boundary tick finds room (see
/// `boundary_room`).
pub fn check_boundary_room(bm: &TickBitmap, ticks: &TickMap, tick_spacing: i32, zero_for_one: bool) -> (r: bool)
    requires
        bm.wf(),
        ticks.wf(),
        0 < tick_spacing <= MAX_TICK,
    ensures
        r == boundary_room(*bm, *ticks, tick_spacing, zero_for_one),
{
    if ticks.len < MAX_TICKS {
        return true;
    }
    let edge = if zero_for_one {
        MIN_TICK
    } else {
        MAX_TICK
    };
    if ticks.find(edge).is_some() {
        return true;
    }
    check_bitmap_within(bm, tick_spacing, zero_for_one)
}

// ---------------------------------------------------------------------------
// Arithmetic facts
// ---------------------------------------------------------------------------

/// Truncating division by a positive spacing: the scaled quotient lies
/// within one spacing of the dividend, on the side of zero.
proof fn lemma_trunc_div(t: int, s: int)
    requires
        s > 0,
    ensures
        t - s < trunc_div(t, s) * s,
        t >= 0 ==> 0 <= trunc_div(t, s) * s <= t,
        t < 0 ==> t <= trunc_div(t, s) * s <= 0,
        t >= 0 ==> 0 <= trunc_div(t, s) <= t,
        t < 0 ==> t <= trunc_div(t, s) <= 0,
{
    if t >= 0 {
        lemma_fundamental_div_mod(t, s);
        let q = t / s;
        assert(q >= 0) by {
            lemma_div_pos_is_pos(t, s);
        }
        assert(q <= q * s) by (nonlinear_arith)
            requires
                q >= 0,
                s >= 1,
        ;
        assert(q * s == s * q) by (nonlinear_arith);
    } else {
        let u = -t;
        lemma_fundamental_div_mod(u, s);
        let q = u / s;
        assert(q >= 0) by {
            lemma_div_pos_is_pos(u, s);
        }
        assert(q <= q * s) by (nonlinear_arith)
            requires
                q >= 0,
                s >= 1,
        ;
        assert(q * s == s * q) by (nonlinear_arith);
        assert((-q) * s == -(q * s)) by (nonlinear_arith);
    }
}

/// A multiple of a positive spacing is ordered as its factors are.
proof fn lemma_scale_le(a: int, b: int, s: int)
    requires
        a <= b,
        s > 0,
    ensures
        a * s <= b * s,
{
    assert(a * s <= b * s) by (nonlinear_arith)
        requires
            a <= b,
            s > 0,
    ;
}

/// Scaling distributes over a sum.
proof fn lemma_scale_add(a: int, b: int, s: int)
    ensures
        (a + b) * s == a * s + b * s,
{
    assert((a + b) * s == a * s + b * s) by (nonlinear_arith);
}

/// From a tick in reach, the one-word search stays inside `i32`, and the
/// word it searches is the exact floor of the compressed tick over 256.
proof fn lemma_search_fits(t: i32, s: i32, lte: bool)
    requires
        0 < s <= MAX_TICK,
        tick_in_reach(t, s),
    ensures
        search_fits(t, s, lte),
        word_pos_of(search_start(t, s, lte)) as int == search_start(t, s, lte) / 256,
        search_start(t, s, lte) == 256 * word_pos_of(search_start(t, s, lte)) + bit_pos_of(
            search_start(t, s, lte),
        ),
{
    let c0 = trunc_div(t as int, s as int);
    lemma_trunc_div(t as int, s as int);
    let c = search_start(t, s, lte);
    assert(-(MAX_TICK + s) - 1 <= c <= MAX_TICK + s + 1);
    lemma_fundamental_div_mod(c, 256);
    let w = c / 256;
    assert(-32768 <= w <= 32767);
    assert(word_pos_of(c) as int == w);
    // The scaled compressed tick lies within one spacing of the tick.
    assert(-(MAX_TICK + s) <= c * s <= MAX_TICK + 2 * s) by {
        if lte {
        } else {
            lemma_scale_add(c0, 1, s as int);
        }
    }
    assert(w * 256 >= c - 255);
    assert(w * 256 + 255 <= c + 255);
    lemma_scale_le(c - 255, w * 256, s as int);
    lemma_scale_le(w * 256 + 255, c + 255, s as int);
    lemma_scale_add(c, -255, s as int);
    lemma_scale_add(c, 255, s as int);
    assert(255 * s <= 255 * MAX_TICK);
}

/// What the one-word search returns lies on the side the price moves to:
/// at or below the larger of the tick and zero when searching down, above
/// the tick when searching up.
proof fn lemma_next_side(bm: TickBitmap, t: i32, s: i32, lte: bool, r: (i32, bool))
    requires
        0 < s <= MAX_TICK,
        tick_in_reach(t, s),
        next_tick_found(bm, t, s, lte, r),
    ensures
        lte ==> r.0 <= t || r.0 <= 0,
        !lte ==> r.0 > t,
{
    lemma_search_fits(t, s, lte);
    lemma_trunc_div(t as int, s as int);
    let c = search_start(t, s, lte);
    let w = word_pos_of(c);
    let bs = bit_pos_of(c);
    if lte {
        if r.1 {
            let b = choose|b: int| #[trigger] nearest_below(bm, w, bs, b) && r.0 == (w * 256 + b) * s;
            lemma_scale_le(w * 256 + b, c, s as int);
        } else {
            lemma_scale_le(w * 256, c, s as int);
        }
    } else {
        lemma_scale_add(trunc_div(t as int, s as int), 1, s as int);
        if r.1 {
            let b = choose|b: int| #[trigger] nearest_above(bm, w, bs, b) && r.0 == (w * 256 + b) * s;
            lemma_scale_le(c, w * 256 + b, s as int);
        } else {
            lemma_scale_le(c, w * 256 + 255, s as int);
        }
    }
}

/// Each pass shrinks the measure: it crosses a tick, consumes input, or
/// stops the loop.
proof fn lemma_step_decreases(bm: TickBitmap, p: SwapParams, st: SwapState, ts: TickStates)
    requires
        swap_continues(p, st),
    ensures
        swap_measure(swap_step(bm, p, st, ts).0) < swap_measure(st),
        swap_step(bm, p, st, ts).0.ticks_crossed <= MAX_TICK_CROSSINGS,
        swap_step(bm, p, st, ts).0.amount_remaining <= st.amount_remaining,
{
    let st2 = swap_step(bm, p, st, ts).0;
    if !st2.stopped {
        let k = MAX_TICK_CROSSINGS + 1 - st.ticks_crossed;
        let k2 = MAX_TICK_CROSSINGS + 1 - st2.ticks_crossed;
        if st2.ticks_crossed == st.ticks_crossed {
            assert(st2.amount_remaining < st.amount_remaining);
        } else {
            assert(k2 * two64() + two64() <= k * two64()) by (nonlinear_arith)
                requires
                    k2 + 1 <= k,
            ;
        }
    }
}

// ---------------------------------------------------------------------------
// Fee growth
// ---------------------------------------------------------------------------

/// Fee growth per unit of liquidity in Q128: `(fee_amount << 128) / liquidity`,
/// saturating.
pub fn fee_growth_per_unit_q128(fee_amount: u128, liquidity: u128) -> (r: u128)
    ensures
        r == fee_growth_per_unit_spec(fee_amount, liquidity),
{
    if liquidity == 0 {
        return 0;
    }
    if fee_amount < 0x1_0000_0000_0000_0000u128 {
        proof {
            lemma_shl64(fee_amount);
            lemma_small_mod(fee_amount as nat, two64() as nat);
        }
        let q = (fee_amount << 64u32) / liquidity;
        if q >= 0x1_0000_0000_0000_0000u128 {
            u128::MAX
        } else {
            proof {
                lemma_shl64(q);
                lemma_small_mod(q as nat, two64() as nat);
            }
            q << 64u32
        }
    } else {
        proof {
            lemma_split128(fee_amount);
            lemma_shl64(fee_amount & 0xFFFF_FFFF_FFFF_FFFFu128);
            lemma_small_mod((fee_amount % 0x1_0000_0000_0000_0000u128) as nat, two64() as nat);
        }
        let hi = saturating_mul_u128(fee_amount >> 64u32, u128::MAX / liquidity);
        let lo = ((fee_amount & 0xFFFF_FFFF_FFFF_FFFFu128) << 64u32) / liquidity;
        hi.saturating_add(lo)
    }
}

// ---------------------------------------------------------------------------
// The swap loop
// ---------------------------------------------------------------------------

/// Executes an exact-input swap against the tick map and bitmap.
///
/// Fails with `SlippageLimitExceeded` when the price limit lies on the wrong
/// side of the current price.  Otherwise runs the loop of `swap_step` until
/// the input is used up, the price reaches the limit, it has crossed
/// `MAX_TICK_CROSSINGS` ticks, or a pass can neither move the price nor
/// consume input, and reports where it ended.  Crossed ticks have their
/// outside accumulators flipped; the bitmap is left as it was.
pub fn execute_swap(
    sqrt_price_current: u128,
    current_tick: i32,
    liquidity: u128,
    fee_bps: u16,
    protocol_fee_share_bps: u16,
    fee_growth_global: u128,
    amount_in: u64,
    zero_for_one: bool,
    sqrt_price_limit: u128,
    tick_spacing: i32,
    tick_cumulative: i64,
    seconds_per_liquidity_q128: u128,
    timestamp: u32,
    ticks: &mut TickMap,
    bitmap: &mut TickBitmap,
) -> (r: Result<SwapResult, ContractError>)
    requires
        old(ticks).wf(),
        old(bitmap).wf(),
        fee_bps <= 10_000,
        protocol_fee_share_bps <= 10_000,
        0 < tick_spacing <= MAX_TICK,
        tick_in_reach(current_tick, tick_spacing),
        bitmap_backed(*old(bitmap), *old(ticks), tick_spacing),
        boundary_room(*old(bitmap), *old(ticks), tick_spacing, zero_for_one),
    ensures
        *final(bitmap) == *old(bitmap),
        final(ticks).wf(),
        old(ticks).tidy() ==> final(ticks).tidy(),
        bitmap_backed(*final(bitmap), *final(ticks), tick_spacing),
        boundary_room(*final(bitmap), *final(ticks), tick_spacing, zero_for_one),
        limit_on_wrong_side(zero_for_one, sqrt_price_limit, sqrt_price_current) ==> r
            == Err::<SwapResult, ContractError>(ContractError::SlippageLimitExceeded) && *final(ticks)
            == *old(ticks),
        !limit_on_wrong_side(zero_for_one, sqrt_price_limit, sqrt_price_current) ==> r is Ok,
        r is Ok ==> ({
            let p = swap_params(
                fee_bps,
                protocol_fee_share_bps,
                fee_growth_global,
                zero_for_one,
                sqrt_price_limit,
                tick_spacing,
                tick_cumulative,
                seconds_per_liquidity_q128,
                timestamp,
            );
            let o = swap_outcome(
                *old(bitmap),
                p,
                swap_start(p, sqrt_price_current, current_tick, liquidity, amount_in),
                tick_states(*old(ticks)),
            );
            &&& r->Ok_0 == swap_result_of(o.0, amount_in, fee_growth_global)
            &&& forall|t: i32| #[trigger] final(ticks).lookup(t) == (o.1)(t)
        }),
        r is Ok ==> r->Ok_0.amount_in <= amount_in,
        r is Ok ==> r->Ok_0.ticks_crossed <= MAX_TICK_CROSSINGS,
        r is Ok ==> tick_in_reach(r->Ok_0.tick_after, tick_spacing),
        r is Ok && zero_for_one ==> r->Ok_0.sqrt_price_after >= sqrt_price_limit,
        r is Ok && !zero_for_one ==> r->Ok_0.sqrt_price_after <= sqrt_price_limit,
        forall|t: i32| #[trigger]
            final(ticks).state_of(t).liquidity_gross == old(ticks).state_of(t).liquidity_gross,
{
    // Validate limit price direction.
    if zero_for_one {
        if sqrt_price_limit >= sqrt_price_current {
            return Err(ContractError::SlippageLimitExceeded);
        }
    } else if sqrt_price_limit <= sqrt_price_current {
        return Err(ContractError::SlippageLimitExceeded);
    }
    let amount_in_total = amount_in;
    let ghost p = swap_params(
        fee_bps,
        protocol_fee_share_bps,
        fee_growth_global,
        zero_for_one,
        sqrt_price_limit,
        tick_spacing,
        tick_cumulative,
        seconds_per_liquidity_q128,
        timestamp,
    );
    let mut state = SwapState {
        amount_remaining: amount_in,
        amount_out: 0,
        sqrt_price: sqrt_price_current,
        tick: current_tick,
        liquidity,
        fee_growth_global,
        protocol_fees: 0,
        ticks_crossed: 0,
        stopped: false,
    };
    let ghost start = state;
    let ghost bm0 = *bitmap;
    let ghost ticks0 = *ticks;
    let ghost outcome = swap_outcome(bm0, p, start, tick_states(ticks0));
    let ghost mut fuel: nat = swap_measure(start) + 1;
    while state.amount_remaining > 0 && state.sqrt_price != sqrt_price_limit
        invariant_except_break
            swap_run(bm0, p, state, tick_states(*ticks), fuel) == outcome,
            swap_measure(state) < fuel,
        invariant
            *bitmap == bm0,
            bm0 == *old(bitmap),
            ticks0 == *old(ticks),
            bm0.wf(),
            ticks.wf(),
            ticks0.tidy() ==> ticks.tidy(),
            p == swap_params(
                fee_bps,
                protocol_fee_share_bps,
                fee_growth_global,
                zero_for_one,
                sqrt_price_limit,
                tick_spacing,
                tick_cumulative,
                seconds_per_liquidity_q128,
                timestamp,
            ),
            outcome == swap_outcome(bm0, p, start, tick_states(ticks0)),
            fee_bps <= 10_000,
            protocol_fee_share_bps <= 10_000,
            0 < tick_spacing <= MAX_TICK,
            tick_in_reach(state.tick, tick_spacing),
            bitmap_backed(bm0, *ticks, tick_spacing),
            boundary_room(bm0, *ticks, tick_spacing, zero_for_one),
            forall|t: i32| #[trigger]
                ticks.state_of(t).liquidity_gross == ticks0.state_of(t).liquidity_gross,
            zero_for_one ==> state.sqrt_price >= sqrt_price_limit,
            !zero_for_one ==> state.sqrt_price <= sqrt_price_limit,
            state.amount_remaining <= amount_in_total,
            amount_in_total == amount_in,
            state.ticks_crossed <= MAX_TICK_CROSSINGS,
            !state.stopped,
        ensures
            outcome.0 == (SwapState { stopped: outcome.0.stopped, ..state }),
            forall|t: i32| #[trigger] ticks.lookup(t) == (outcome.1)(t),
        decreases fuel,
    {
        let ghost st0 = state;
        let ghost ts0 = tick_states(*ticks);
        let ghost stepped = swap_step(bm0, p, st0, ts0);
        if state.ticks_crossed >= MAX_TICK_CROSSINGS {
            // Hard cap: return what we have so far.
            proof {
                assert(!swap_continues(p, st0));
            }
            break;
        }
        proof {
            assert(swap_continues(p, st0));
            assert(swap_run(bm0, p, st0, ts0, fuel) == swap_run(
                bm0,
                p,
                stepped.0,
                stepped.1,
                (fuel - 1) as nat,
            ));
            lemma_step_decreases(bm0, p, st0, ts0);
            lemma_search_fits(state.tick, tick_spacing, zero_for_one);
        }
        // 1. Find the next initialized tick in the swap direction.
        let (next_tick, initialized) = bitmap.next_initialized_tick_within_one_word(
            state.tick,
            tick_spacing,
            zero_for_one,
        );
        proof {
            lemma_next_side(bm0, st0.tick, tick_spacing, zero_for_one, (next_tick, initialized));
        }
        // Clamp the next tick to the valid price range.
        let next_tick_clamped = if zero_for_one {
            if next_tick < MIN_TICK {
                MIN_TICK
            } else {
                next_tick
            }
        } else {
            if next_tick > MAX_TICK {
                MAX_TICK
            } else {
                next_tick
            }
        };
        let sqrt_price_next_tick = sqrt_price_at_tick(next_tick_clamped);
        // Clamp the target price to the caller's limit.
        let sqrt_price_target = if zero_for_one {
            if sqrt_price_next_tick < sqrt_price_limit {
                sqrt_price_limit
            } else {
                sqrt_price_next_tick
            }
        } else {
            if sqrt_price_limit < sqrt_price_next_tick {
                sqrt_price_limit
            } else {
                sqrt_price_next_tick
            }
        };
        // An uninitialized word boundary at the current price: move one
        // spacing into the adjacent word so the next pass searches it.
        if !initialized && sqrt_price_target == state.sqrt_price {
            state.tick = if zero_for_one {
                next_tick_clamped - tick_spacing
            } else {
                next_tick_clamped + tick_spacing
            };
            state.ticks_crossed = state.ticks_crossed + 1;
            proof {
                assert(state == stepped.0);
                fuel = (fuel - 1) as nat;
            }
            if state.ticks_crossed >= MAX_TICK_CROSSINGS {
                proof {
                    assert(!swap_continues(p, state));
                    assert(swap_run(bm0, p, state, ts0, fuel) == (state, ts0));
                }
                break;
            }
            continue;
        }
        // Hard stop: the price cannot move.
        if sqrt_price_target == state.sqrt_price {
            proof {
                assert(stepped.0 == (SwapState { stopped: true, ..st0 }));
                assert(swap_run(bm0, p, stepped.0, stepped.1, (fuel - 1) as nat) == stepped);
            }
            break;
        }
        // 2. One step within the current range.
        let (sqrt_price_after, amount_in_step, amount_out_step, fee_amount) = compute_swap_step(
            state.sqrt_price,
            sqrt_price_target,
            state.liquidity,
            state.amount_remaining,
            fee_bps,
            zero_for_one,
        );
        // Nothing consumed (e.g. no liquidity in this range): stop.
        if amount_in_step == 0 && fee_amount == 0 {
            proof {
                assert(stepped.0 == (SwapState { stopped: true, ..st0 }));
                assert(swap_run(bm0, p, stepped.0, stepped.1, (fuel - 1) as nat) == stepped);
            }
            break;
        }
        state.amount_remaining = state.amount_remaining.saturating_sub(
            amount_in_step.saturating_add(fee_amount),
        );
        state.amount_out = state.amount_out.saturating_add(amount_out_step);
        state.sqrt_price = sqrt_price_after;
        // 3. Fee growth, Q128.
        if state.liquidity > 0 && fee_amount > 0 {
            proof {
                assert(fee_amount as int * protocol_fee_share_bps as int <= fee_amount as int
                    * 10_000) by (nonlinear_arith)
                    requires
                        protocol_fee_share_bps <= 10_000,
                        fee_amount >= 0,
                ;
                assert(fee_amount as int * protocol_fee_share_bps as int / 10_000 <= fee_amount)
                    by {
                    lemma_div_is_ordered(
                        fee_amount as int * protocol_fee_share_bps as int,
                        fee_amount as int * 10_000,
                        10_000,
                    );
                    lemma_div_by_multiple(fee_amount as int, 10_000);
                }
            }
            let protocol_cut = (fee_amount as u128 * protocol_fee_share_bps as u128) / 10_000;
            let lp_fee = fee_amount as u128 - protocol_cut;
            let growth_per_unit = fee_growth_per_unit_q128(lp_fee, state.liquidity);
            state.fee_growth_global = state.fee_growth_global.wrapping_add(growth_per_unit);
            state.protocol_fees = state.protocol_fees.saturating_add(protocol_cut);
        }
        // 4. Cross the tick when its price was reached.
        if sqrt_price_after == sqrt_price_next_tick && initialized {
            let ghost before = *ticks;
            proof {
                if next_tick_clamped == next_tick {
                    let c = search_start(st0.tick, tick_spacing, zero_for_one);
                    let w = word_pos_of(c);
                    let bs = bit_pos_of(c);
                    if zero_for_one {
                        let b = choose|b: int| #[trigger] nearest_below(bm0, w, bs, b)
                            && next_tick == (w * 256 + b) * tick_spacing;
                        assert(bm0.has_tick(w, b));
                    } else {
                        let b = choose|b: int| #[trigger] nearest_above(bm0, w, bs, b)
                            && next_tick == (w * 256 + b) * tick_spacing;
                        assert(bm0.has_tick(w, b));
                    }
                    assert(before.state_of(next_tick).liquidity_gross > 0);
                } else {
                    let c = search_start(st0.tick, tick_spacing, zero_for_one);
                    let w = word_pos_of(c);
                    let bs = bit_pos_of(c);
                    if zero_for_one {
                        let b = choose|b: int| #[trigger] nearest_below(bm0, w, bs, b)
                            && next_tick == (w * 256 + b) * tick_spacing;
                        assert(bm0.has_tick(w, b));
                    } else {
                        let b = choose|b: int| #[trigger] nearest_above(bm0, w, bs, b)
                            && next_tick == (w * 256 + b) * tick_spacing;
                        assert(bm0.has_tick(w, b));
                    }
                }
            }
            let liquidity_net = ticks.cross(
                next_tick_clamped,
                if zero_for_one {
                    state.fee_growth_global
                } else {
                    fee_growth_global
                },
                if zero_for_one {
                    fee_growth_global
                } else {
                    state.fee_growth_global
                },
                tick_cumulative,
                seconds_per_liquidity_q128,
                timestamp,
            );
            // Moving down subtracts the net liquidity, moving up adds it.
            let signed_liquidity = #[verifier::truncate] (state.liquidity as i128);
            let adjusted = if zero_for_one {
                signed_liquidity.wrapping_sub(liquidity_net)
            } else {
                signed_liquidity.wrapping_add(liquidity_net)
            };
            state.liquidity = #[verifier::truncate] (adjusted as u128);
            state.tick = if zero_for_one {
                next_tick_clamped - 1
            } else {
                next_tick_clamped
            };
            state.ticks_crossed = state.ticks_crossed + 1;
            proof {
                assert(state == stepped.0);
                assert(tick_states(*ticks) =~= stepped.1);
                assert forall|w: i16, b: int| #[trigger] bm0.has_tick(w, b) implies ticks.state_of(
                    bit_tick(w, b, tick_spacing) as i32,
                ).liquidity_gross > 0 by {
                    assert(before.state_of(bit_tick(w, b, tick_spacing) as i32).liquidity_gross > 0);
                }
                assert forall|t: i32| #[trigger]
                    ticks.state_of(t).liquidity_gross == ticks0.state_of(t).liquidity_gross by {
                    assert(before.state_of(t).liquidity_gross == ticks0.state_of(t).liquidity_gross);
                }
                if !(forall|w: i16, b: int| #[trigger]
                    bm0.has_tick(w, b) ==> if zero_for_one {
                        MIN_TICK <= bit_tick(w, b, tick_spacing)
                    } else {
                        bit_tick(w, b, tick_spacing) <= MAX_TICK
                    }) {
                    let bound = if zero_for_one {
                        MIN_TICK
                    } else {
                        MAX_TICK
                    };
                    if next_tick_clamped == bound {
                        assert(ticks.lookup(bound) == stored_after_set(
                            crossed_state(
                                before.state_of(bound),
                                if zero_for_one {
                                    state.fee_growth_global
                                } else {
                                    fee_growth_global
                                },
                                if zero_for_one {
                                    fee_growth_global
                                } else {
                                    state.fee_growth_global
                                },
                                tick_cumulative,
                                seconds_per_liquidity_q128,
                                timestamp,
                            ),
                        ));
                    } else {
                        assert(ticks.lookup(bound) == before.lookup(bound));
                    }
                }
                fuel = (fuel - 1) as nat;
            }
        } else {
            // Re-derive the tick from the price when no boundary was reached.
            state.tick = tick_at_sqrt_price(state.sqrt_price);
            proof {
                assert(state == stepped.0);
                fuel = (fuel - 1) as nat;
            }
        }
    }
    let amount_in_used = amount_in_total - state.amount_remaining;
    // How far the global accumulator moved.
    let fee_growth_delta = state.fee_growth_global.wrapping_sub(fee_growth_global);
    Ok(
        SwapResult {
            amount_in: amount_in_used,
            amount_out: state.amount_out,
            sqrt_price_after: state.sqrt_price,
            tick_after: state.tick,
            liquidity_after: state.liquidity,
            fee_growth_delta,
            protocol_fee: state.protocol_fees,
            ticks_crossed: state.ticks_crossed,
        },
    )
}

} // verus!
