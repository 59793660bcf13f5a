//! The contract's entry points over an explicit contract state: pool set-up,
//! liquidity provision, swaps, fee collection and administration.
use vstd::prelude::*;
use vstd::arithmetic::div_mod::*;
use crate::math::{
    MIN_TICK,
    MAX_TICK,
    amount0_delta,
    amount1_delta,
    amount0_delta_spec,
    amount1_delta_spec,
    sqrt_price_at_tick,
    sqrt_price_at_tick_spec,
};
use crate::position::{
    MAX_POSITIONS,
    PositionKey,
    PositionMap,
    PositionState,
    position_update_spec,
    kept,
};
use crate::swap::{
    SwapResult,
    execute_swap,
    swap_params,
    swap_start,
    swap_outcome,
    swap_result_of,
    tick_states,
    tick_in_reach,
    bitmap_backed,
    boundary_room,
    check_bitmap_backed,
    check_boundary_room,
    limit_on_wrong_side,
    lemma_swap_run_direction,
};
use crate::tick::{
    MAX_TICKS,
    TickMap,
    TickState,
    tick_update_spec,
    stored_after_set,
    len_after_set,
    droppable,
    zero_tick_state,
    fee_inside_one,
};
use crate::tick_bitmap::{MAX_BITMAP_WORDS, TickBitmap, trunc_div, word_pos_of, bit_pos_of};
use crate::types::{AccountId, ContractError, error_code};

verus! {

/// The pool's price, liquidity and fee accounting.
#[derive(Clone, Copy)]
pub struct PoolState {
    pub sqrt_price_q64_64: u128,
    pub current_tick: i32,
    pub liquidity_active: u128,
    pub fee_bps: u16,
    pub protocol_fee_share_bps: u16,
    pub fee_growth_global_0_q128: u128,
    pub fee_growth_global_1_q128: u128,
    pub protocol_fees_0: u128,
    pub protocol_fees_1: u128,
    pub initialized: bool,
}

/// Administrative settings.
#[derive(Clone, Copy)]
pub struct ContractConfig {
    pub owner: AccountId,
    /// Address of the manager contract that may call admin functions;
    /// all zeros when none is set.
    pub manager: AccountId,
    pub paused: bool,
    pub max_slippage_bps: u16,
    pub tick_spacing: i32,
}

/// The whole contract state.
pub struct ContractState {
    pub pool: PoolState,
    pub config: ContractConfig,
    pub ticks: TickMap,
    pub bitmap: TickBitmap,
    pub positions: PositionMap,
}

/// The all-zero account.
pub open spec fn zero_account() -> AccountId {
    vstd::array::spec_array_fill_for_copy_type::<u8, 20>(0u8)
}

/// The pool of a fresh contract: uninitialized, 0.3% fee, no liquidity.
pub open spec fn fresh_pool() -> PoolState {
    PoolState {
        sqrt_price_q64_64: 0,
        current_tick: 0,
        liquidity_active: 0,
        fee_bps: 30,
        protocol_fee_share_bps: 0,
        fee_growth_global_0_q128: 0,
        fee_growth_global_1_q128: 0,
        protocol_fees_0: 0,
        protocol_fees_1: 0,
        initialized: false,
    }
}

/// A contract with nothing stored: fresh pool, the given owner, manager and
/// spacing, unpaused, 1% slippage cap, and empty tick, bitmap and position maps.
pub open spec fn is_fresh(s: ContractState, owner: AccountId, manager: AccountId, tick_spacing: i32) -> bool {
    &&& s.wf()
    &&& s.pool == fresh_pool()
    &&& s.config.owner == owner
    &&& s.config.manager == manager
    &&& !s.config.paused
    &&& s.config.max_slippage_bps == 100
    &&& s.config.tick_spacing == tick_spacing
    &&& forall|t: i32| #[trigger] s.ticks.lookup(t) == None::<TickState>
    &&& forall|w: i16, b: int| !#[trigger] s.bitmap.has_tick(w, b)
    &&& forall|k: PositionKey| #[trigger] s.positions.lookup(k) == None::<PositionState>
}

impl ContractState {
    /// Well-formed: the maps are well-formed, the fees and slippage cap are
    /// within their ranges, the spacing is positive and at most `MAX_TICK`,
    /// and every tick with gross liquidity lies on the spacing.
    pub open spec fn wf(self) -> bool {
        &&& self.ticks.wf()
        &&& self.ticks.tidy()
        &&& self.bitmap.wf()
        &&& self.bitmap.tidy()
        &&& self.positions.wf()
        &&& self.pool.fee_bps <= 10_000
        &&& self.pool.protocol_fee_share_bps <= 2_500
        &&& self.config.max_slippage_bps <= 10_000
        &&& 0 < self.config.tick_spacing <= MAX_TICK
        &&& forall|t: i32| #[trigger]
            self.ticks.state_of(t).liquidity_gross > 0 ==> t % self.config.tick_spacing == 0
    }

    /// A fresh contract with spacing 10.
    pub fn new() -> (r: Self)
        ensures
            is_fresh(r, zero_account(), zero_account(), 10),
    {
        let r = ContractState {
            pool: PoolState {
                sqrt_price_q64_64: 0,
                current_tick: 0,
                liquidity_active: 0,
                fee_bps: 30,
                protocol_fee_share_bps: 0,
                fee_growth_global_0_q128: 0,
                fee_growth_global_1_q128: 0,
                protocol_fees_0: 0,
                protocol_fees_1: 0,
                initialized: false,
            },
            config: ContractConfig {
                owner: [0u8; 20],
                manager: [0u8; 20],
                paused: false,
                max_slippage_bps: 100,
                tick_spacing: 10,
            },
            ticks: TickMap::new(),
            bitmap: TickBitmap::new(),
            positions: PositionMap::new(),
        };
        proof {
            assert forall|t: i32| #[trigger] r.ticks.state_of(t).liquidity_gross > 0 implies t
                % r.config.tick_spacing == 0 by {
                assert(r.ticks.lookup(t) == None::<TickState>);
            }
        }
        r
    }

    /// Whether the state is well formed (see `wf`), checked field by field
    /// and tick by tick: for a state read back from storage.
    pub fn check_wf(&self) -> (r: bool)
        ensures
            r == self.wf(),
    {
        if !self.ticks.check_wf() || !self.bitmap.check_wf() || !self.positions.check_wf() {
            return false;
        }
        if self.pool.fee_bps > 10_000 || self.pool.protocol_fee_share_bps > 2_500
            || self.config.max_slippage_bps > 10_000 {
            return false;
        }
        let sp = self.config.tick_spacing;
        if sp <= 0 || sp > MAX_TICK {
            return false;
        }
        let mut i: usize = 0;
        while i < self.ticks.len
            invariant
                self.ticks.wf(),
                0 < sp,
                sp == self.config.tick_spacing,
                i <= self.ticks.len,
                forall|a: int|
                    0 <= a < i ==> (#[trigger] self.ticks.vals[a]).liquidity_gross > 0
                        ==> self.ticks.keys[a] % sp == 0,
            decreases self.ticks.len - i,
        {
            let t = self.ticks.keys[i];
            let m = t % sp;
            proof {
                lemma_rem_zero(t, sp, m);
            }
            if self.ticks.vals[i].liquidity_gross > 0 && m != 0 {
                proof {
                    self.ticks.lemma_slot(i as int);
                    assert(self.ticks.state_of(t).liquidity_gross > 0);
                }
                return false;
            }
            i += 1;
        }
        proof {
            assert forall|t: i32| #[trigger] self.ticks.state_of(t).liquidity_gross > 0 implies t
                % sp == 0 by {
                if self.ticks.holds(t) {
                    let k = choose|k: int| 0 <= k < self.ticks.len && self.ticks.keys[k] == t;
                    assert(self.ticks.vals[k].liquidity_gross > 0);
                }
            }
        }
        true
    }
}

/// One entry when the tick map does not hold `t` yet, else none.
pub open spec fn new_tick(m: TickMap, t: i32) -> int {
    if m.holds(t) {
        0
    } else {
        1
    }
}

/// One entry when `t` lies on the spacing and the bitmap does not hold its
/// word yet, else none: only ticks on the spacing are ever flipped.
pub open spec fn new_word(s: ContractState, t: i32) -> int {
    let sp = s.config.tick_spacing;
    if t % sp == 0 && !s.bitmap.holds_word(tick_word(t, sp)) {
        1
    } else {
        0
    }
}

/// Room for one liquidity change over `[lower, upper]`: each map can take
/// the entries that it does not hold yet for the two bound ticks, their
/// bitmap words and the range's position.
pub open spec fn has_room(s: ContractState, lower: i32, upper: i32) -> bool {
    let sp = s.config.tick_spacing;
    let same_word = lower % sp == 0 && tick_word(upper, sp) == tick_word(lower, sp);
    &&& s.ticks.len + new_tick(s.ticks, lower) + (if upper == lower {
        0
    } else {
        new_tick(s.ticks, upper)
    }) <= MAX_TICKS
    &&& s.bitmap.len + new_word(s, lower) + (if same_word {
        0
    } else {
        new_word(s, upper)
    }) <= MAX_BITMAP_WORDS
    &&& s.positions.holds(range_key(lower, upper)) || s.positions.len < MAX_POSITIONS
}

/// Whether the maps have room for a liquidity change over
/// `[lower_tick, upper_tick]` (two's complement; see `has_room`).
pub fn has_room_for(s: &ContractState, lower_tick: u32, upper_tick: u32) -> (r: bool)
    requires
        s.wf(),
    ensures
        r == has_room(*s, lower_tick as i32, upper_tick as i32),
{
    let lower = #[verifier::truncate] (lower_tick as i32);
    let upper = #[verifier::truncate] (upper_tick as i32);
    let sp = s.config.tick_spacing;
    let mut ticks: usize = s.ticks.len;
    if s.ticks.find(lower).is_none() {
        ticks += 1;
    }
    if upper != lower && s.ticks.find(upper).is_none() {
        ticks += 1;
    }
    let mut words: usize = s.bitmap.len;
    let lower_rem = lower % sp;
    let upper_rem = upper % sp;
    proof {
        lemma_rem_zero(lower, sp, lower_rem);
        lemma_rem_zero(upper, sp, upper_rem);
    }
    let mut lower_word: i16 = 0;
    if lower_rem == 0 {
        let (w, _) = TickBitmap::word_and_bit(lower, sp);
        lower_word = w;
        if s.bitmap.find(w).is_none() {
            words += 1;
        }
    }
    if upper_rem == 0 {
        let (w, _) = TickBitmap::word_and_bit(upper, sp);
        let same_word = lower_rem == 0 && w == lower_word;
        if !same_word && s.bitmap.find(w).is_none() {
            words += 1;
        }
    }
    let key = PositionKey { owner: [0u8; 20], lower_tick: lower, upper_tick: upper };
    assert(key == range_key(lower, upper));
    let position_room = s.positions.find(&key).is_some() || s.positions.len < MAX_POSITIONS;
    ticks <= MAX_TICKS && words <= MAX_BITMAP_WORDS && position_room
}

/// The state a swap in the given direction needs: the current tick within a
/// spacing of the valid range, every bitmap tick backed by gross liquidity,
/// and room for a crossing clamped to the range boundary.
pub open spec fn swap_ready(s: ContractState, zero_for_one: bool) -> bool {
    &&& tick_in_reach(s.pool.current_tick, s.config.tick_spacing)
    &&& bitmap_backed(s.bitmap, s.ticks, s.config.tick_spacing)
    &&& boundary_room(s.bitmap, s.ticks, s.config.tick_spacing, zero_for_one)
}

/// Whether a swap in the given direction may run on `s` (see `swap_ready`).
pub fn is_swap_ready(s: &ContractState, zero_for_one: bool) -> (r: bool)
    requires
        s.wf(),
    ensures
        r == swap_ready(*s, zero_for_one),
{
    let sp = s.config.tick_spacing;
    let t = s.pool.current_tick as i64;
    if t < MIN_TICK as i64 - sp as i64 || t > MAX_TICK as i64 + sp as i64 {
        return false;
    }
    check_bitmap_backed(&s.bitmap, &s.ticks, sp) && check_boundary_room(&s.bitmap, &s.ticks, sp, zero_for_one)
}

/// The state a tick is left in by `set`.
pub open spec fn set_state(t: TickState) -> TickState {
    if droppable(t) {
        zero_tick_state()
    } else {
        t
    }
}

/// The bitmap word and bit of a tick.
pub open spec fn tick_word(t: i32, tick_spacing: i32) -> i16 {
    word_pos_of(trunc_div(t as int, tick_spacing as int))
}

/// The bit of a tick inside its word.
pub open spec fn tick_bit(t: i32, tick_spacing: i32) -> int {
    bit_pos_of(trunc_div(t as int, tick_spacing as int))
}

/// The key of the range position: all positions belong to the zero account.
pub open spec fn range_key(lower: i32, upper: i32) -> PositionKey {
    PositionKey { owner: zero_account(), lower_tick: lower, upper_tick: upper }
}

/// Token amounts for `liquidity` over `[lower, upper]` at the current price:
/// all token0 below the range, all token1 above it, both inside.
pub open spec fn range_amounts(
    sqrt_current: u128,
    sqrt_lower: u128,
    sqrt_upper: u128,
    liquidity: u128,
    round_up: bool,
) -> (u128, u128) {
    let a0 = if sqrt_current < sqrt_lower {
        amount0_delta_spec(sqrt_lower, sqrt_upper, liquidity, round_up)
    } else if sqrt_current < sqrt_upper {
        amount0_delta_spec(sqrt_current, sqrt_upper, liquidity, round_up)
    } else {
        0
    };
    let a1 = if sqrt_current < sqrt_lower {
        0
    } else if sqrt_current < sqrt_upper {
        amount1_delta_spec(sqrt_lower, sqrt_current, liquidity, round_up)
    } else {
        amount1_delta_spec(sqrt_lower, sqrt_upper, liquidity, round_up)
    };
    (a0, a1)
}

/// The lower bound's state after its update.
pub open spec fn lower_update(s: ContractState, lower: i32, delta: i128) -> Result<TickState, ContractError> {
    tick_update_spec(
        s.ticks.state_of(lower),
        lower,
        s.pool.current_tick,
        delta,
        s.pool.fee_growth_global_0_q128,
        s.pool.fee_growth_global_1_q128,
        false,
    )
}

/// The upper bound's state before its update: what the lower update left
/// there when both bounds are the same tick.
pub open spec fn upper_base(s: ContractState, lower: i32, upper: i32, sl: TickState) -> TickState {
    if upper == lower {
        set_state(sl)
    } else {
        s.ticks.state_of(upper)
    }
}

/// The upper bound's state after its update.
pub open spec fn upper_update(s: ContractState, lower: i32, upper: i32, delta: i128, sl: TickState) -> Result<TickState, ContractError> {
    tick_update_spec(
        upper_base(s, lower, upper, sl),
        upper,
        s.pool.current_tick,
        delta,
        s.pool.fee_growth_global_0_q128,
        s.pool.fee_growth_global_1_q128,
        true,
    )
}

/// The fee growth inside the range once both bounds are updated.
pub open spec fn range_fee_inside(s: ContractState, lower: i32, upper: i32, sl: TickState, su: TickState) -> (u128, u128) {
    let nl = if lower == upper {
        set_state(su)
    } else {
        set_state(sl)
    };
    let nu = set_state(su);
    (
        fee_inside_one(
            lower,
            upper,
            s.pool.current_tick,
            s.pool.fee_growth_global_0_q128,
            nl.fee_growth_outside_0_q128,
            nu.fee_growth_outside_0_q128,
        ),
        fee_inside_one(
            lower,
            upper,
            s.pool.current_tick,
            s.pool.fee_growth_global_1_q128,
            nl.fee_growth_outside_1_q128,
            nu.fee_growth_outside_1_q128,
        ),
    )
}

/// The position after the change, or the error of the first failing step.
pub open spec fn range_position_update(s: ContractState, lower: i32, upper: i32, delta: i128) -> Result<PositionState, ContractError> {
    match lower_update(s, lower, delta) {
        Err(e) => Err(e),
        Ok(sl) => match upper_update(s, lower, upper, delta, sl) {
            Err(e) => Err(e),
            Ok(su) => {
                let fg = range_fee_inside(s, lower, upper, sl, su);
                position_update_spec(s.positions.state_of(range_key(lower, upper)), delta, fg.0, fg.1)
            },
        },
    }
}

/// The amounts a liquidity change of `amount` over `[lower, upper]` reports,
/// once the checks before it have passed.
pub open spec fn range_change_result(s: ContractState, lower: i32, upper: i32, delta: i128, amount: u128, round_up: bool) -> Result<(u128, u128), ContractError> {
    match range_position_update(s, lower, upper, delta) {
        Err(e) => Err(e),
        Ok(_) => Ok(
            range_amounts(
                s.pool.sqrt_price_q64_64,
                sqrt_price_at_tick_spec(lower),
                sqrt_price_at_tick_spec(upper),
                amount,
                round_up,
            ),
        ),
    }
}

/// Whether a tick's gross liquidity switched between zero and non-zero.
pub open spec fn flipped(before: TickState, after: TickState) -> bool {
    (after.liquidity_gross == 0) != (before.liquidity_gross == 0)
}

/// How a liquidity change of `delta` over `[lower, upper]` moves the state
/// from `s` to `n`, the checks before it having passed.  The bounds are
/// updated in turn and an error leaves what was done before it in place;
/// once both are updated, the bitmap bits of the bounds whose gross
/// liquidity switched between zero and non-zero are flipped, then the
/// position is updated, and then the active liquidity changes by `active`
/// when the current tick lies in the range.
pub open spec fn range_change_effect(s: ContractState, n: ContractState, lower: i32, upper: i32, delta: i128, active: u128) -> bool {
    let sp = s.config.tick_spacing;
    &&& n.wf()
    &&& n.config == s.config
    &&& match lower_update(s, lower, delta) {
        Err(_) => n == s,
        Ok(sl) => match upper_update(s, lower, upper, delta, sl) {
            Err(_) => {
                &&& n.pool == s.pool
                &&& n.bitmap == s.bitmap
                &&& n.positions == s.positions
                &&& forall|t: i32| #[trigger]
                    n.ticks.lookup(t) == if t == lower {
                        stored_after_set(sl)
                    } else {
                        s.ticks.lookup(t)
                    }
            },
            Ok(su) => {
                let fl = flipped(s.ticks.state_of(lower), sl);
                let fu = flipped(upper_base(s, lower, upper, sl), su);
                &&& forall|t: i32| #[trigger]
                    n.ticks.lookup(t) == if t == upper {
                        stored_after_set(su)
                    } else if t == lower {
                        stored_after_set(sl)
                    } else {
                        s.ticks.lookup(t)
                    }
                &&& forall|w: i16, b: int| #[trigger]
                    n.bitmap.has_tick(w, b) == ((s.bitmap.has_tick(w, b) != (fl && w == tick_word(
                        lower,
                        sp,
                    ) && b == tick_bit(lower, sp))) != (fu && w == tick_word(upper, sp) && b
                        == tick_bit(upper, sp)))
                &&& match range_position_update(s, lower, upper, delta) {
                    Err(_) => n.pool == s.pool && n.positions == s.positions,
                    Ok(p) => {
                        &&& forall|k: PositionKey| #[trigger]
                            n.positions.lookup(k) == if k == range_key(lower, upper) {
                                kept(p)
                            } else {
                                s.positions.lookup(k)
                            }
                        &&& n.pool == (PoolState {
                            liquidity_active: if s.pool.current_tick >= lower && s.pool.current_tick
                                < upper {
                                active
                            } else {
                                s.pool.liquidity_active
                            },
                            ..s.pool
                        })
                    },
                }
            },
        },
    }
}

/// The error `mint` reports before it touches any state, if any.
pub open spec fn mint_check(s: ContractState, lower: i32, upper: i32) -> Option<ContractError> {
    if s.config.paused {
        Some(ContractError::Paused)
    } else if !s.pool.initialized {
        Some(ContractError::PoolNotInitialized)
    } else if lower >= upper {
        Some(ContractError::InvalidTickRange)
    } else if lower % s.config.tick_spacing != 0 || upper % s.config.tick_spacing != 0 {
        Some(ContractError::TickSpacingViolation)
    } else {
        None
    }
}

/// The error `burn` reports before it touches any state, if any.
pub open spec fn burn_check(s: ContractState) -> Option<ContractError> {
    if s.config.paused {
        Some(ContractError::Paused)
    } else if !s.pool.initialized {
        Some(ContractError::PoolNotInitialized)
    } else {
        None
    }
}

/// What `mint` of `amount` over `[lower, upper]` returns.
pub open spec fn mint_result(s: ContractState, lower: i32, upper: i32, amount: u128) -> Result<(u128, u128), ContractError> {
    match mint_check(s, lower, upper) {
        Some(e) => Err(e),
        None => range_change_result(s, lower, upper, amount as i128, amount, true),
    }
}

/// How `mint` of `amount` over `[lower, upper]` moves the state.
pub open spec fn mint_effect(s: ContractState, n: ContractState, lower: i32, upper: i32, amount: u128) -> bool {
    match mint_check(s, lower, upper) {
        Some(_) => n == s,
        None => range_change_effect(
            s,
            n,
            lower,
            upper,
            amount as i128,
            s.pool.liquidity_active.saturating_add(amount),
        ),
    }
}

/// What `burn` of `amount` over `[lower, upper]` returns.
pub open spec fn burn_result(s: ContractState, lower: i32, upper: i32, amount: u128) -> Result<(u128, u128), ContractError> {
    match burn_check(s) {
        Some(e) => Err(e),
        None => range_change_result(s, lower, upper, (-(amount as int)) as i128, amount, false),
    }
}

/// How `burn` of `amount` over `[lower, upper]` moves the state.
pub open spec fn burn_effect(s: ContractState, n: ContractState, lower: i32, upper: i32, amount: u128) -> bool {
    match burn_check(s) {
        Some(_) => n == s,
        None => range_change_effect(
            s,
            n,
            lower,
            upper,
            (-(amount as int)) as i128,
            s.pool.liquidity_active.saturating_sub(amount),
        ),
    }
}

/// The ABI code of a result: zero on success, the error's code otherwise.
pub open spec fn result_code<T>(r: Result<T, ContractError>) -> u32 {
    match r {
        Ok(_) => 0,
        Err(e) => error_code(e),
    }
}

/// Rust's remainder by a positive divisor (which keeps the dividend's sign)
/// is zero exactly when the Euclidean one is.
proof fn lemma_rem_zero(t: i32, d: i32, m: i32)
    requires
        d > 0,
        t >= 0 ==> m == t % d,
        t < 0 ==> m == -((-(t as int)) % (d as int)),
    ensures
        (m == 0) == (t % d == 0),
{
    if t < 0 {
        let u = -(t as int);
        lemma_fundamental_div_mod(t as int, d as int);
        lemma_fundamental_div_mod(u, d as int);
        if t % d == 0 {
            let q = t as int / d as int;
            assert(u == (-q) * d) by (nonlinear_arith)
                requires
                    t == d * q,
                    u == -(t as int),
            ;
            lemma_mod_multiples_basic(-q, d as int);
        }
        if u % (d as int) == 0 {
            let q = u / (d as int);
            assert(t == (-q) * d) by (nonlinear_arith)
                requires
                    u == d * q,
                    u == -(t as int),
            ;
            lemma_mod_multiples_basic(-q, d as int);
        }
    }
}

// ---------------------------------------------------------------------------
// Guards
// ---------------------------------------------------------------------------

fn require_not_paused(s: &ContractState) -> (r: Result<(), ContractError>)
    ensures
        r == if s.config.paused {
            Err(ContractError::Paused)
        } else {
            Ok::<(), ContractError>(())
        },
{
    if s.config.paused {
        Err(ContractError::Paused)
    } else {
        Ok(())
    }
}

fn require_initialized(s: &ContractState) -> (r: Result<(), ContractError>)
    ensures
        r == if !s.pool.initialized {
            Err(ContractError::PoolNotInitialized)
        } else {
            Ok::<(), ContractError>(())
        },
{
    if !s.pool.initialized {
        Err(ContractError::PoolNotInitialized)
    } else {
        Ok(())
    }
}

// ---------------------------------------------------------------------------
// Entry points
// ---------------------------------------------------------------------------

/// The price a pool starts from: the tick's sqrt price, at least 2^32.
pub open spec fn initial_price(tick: i32) -> u128 {
    let p = sqrt_price_at_tick_spec(tick);
    if p < 0x1_0000_0000u128 {
        0x1_0000_0000u128
    } else {
        p
    }
}

/// Initializes the pool at `initial_tick` (two's complement) with the fee
/// clamped to 10_000 bps and the protocol share to 2_500 bps.  Returns 0.
pub fn initialize_pool(
    s: &mut ContractState,
    initial_tick: u32,
    fee_bps: u16,
    protocol_fee_share_bps: u16,
) -> (r: u32)
    requires
        old(s).wf(),
    ensures
        r == 0,
        final(s).wf(),
        final(s).pool == (PoolState {
            sqrt_price_q64_64: initial_price(initial_tick as i32),
            current_tick: initial_tick as i32,
            fee_bps: if fee_bps < 10_000 {
                fee_bps
            } else {
                10_000
            },
            protocol_fee_share_bps: if protocol_fee_share_bps < 2_500 {
                protocol_fee_share_bps
            } else {
                2_500
            },
            initialized: true,
            ..old(s).pool
        }),
        final(s).config == old(s).config,
        final(s).ticks == old(s).ticks,
        final(s).bitmap == old(s).bitmap,
        final(s).positions == old(s).positions,
{
    let tick = #[verifier::truncate] (initial_tick as i32);
    let price = sqrt_price_at_tick(tick).max(1u128 << 32u32);
    assert(1u128 << 32u32 == 0x1_0000_0000u128) by (bit_vector);
    let fee_clamped = fee_bps.min(10_000);
    s.pool.sqrt_price_q64_64 = price;
    s.pool.current_tick = tick;
    s.pool.fee_bps = fee_clamped;
    s.pool.protocol_fee_share_bps = protocol_fee_share_bps.min(2_500);
    s.pool.initialized = true;
    0
}

/// Adds `liquidity_delta` to the zero account's position over
/// `[lower_tick, upper_tick]` (two's complement).  Returns 0, or the code of
/// the error.
pub fn mint(s: &mut ContractState, lower_tick: u32, upper_tick: u32, liquidity_delta: u64) -> (r: u32)
    requires
        old(s).wf(),
        has_room(*old(s), lower_tick as i32, upper_tick as i32),
    ensures
        r == result_code(
            mint_result(*old(s), lower_tick as i32, upper_tick as i32, liquidity_delta as u128),
        ),
        mint_effect(
            *old(s),
            *final(s),
            lower_tick as i32,
            upper_tick as i32,
            liquidity_delta as u128,
        ),
{
    let lower = #[verifier::truncate] (lower_tick as i32);
    let upper = #[verifier::truncate] (upper_tick as i32);
    match mint_inner(s, lower, upper, liquidity_delta as u128) {
        Ok(_) => 0,
        Err(e) => e.code(),
    }
}

fn mint_inner(s: &mut ContractState, lower_tick: i32, upper_tick: i32, liquidity_delta: u128) -> (r:
    Result<(u128, u128), ContractError>)
    requires
        old(s).wf(),
        has_room(*old(s), lower_tick, upper_tick),
        liquidity_delta <= u64::MAX,
    ensures
        r == mint_result(*old(s), lower_tick, upper_tick, liquidity_delta),
        mint_effect(*old(s), *final(s), lower_tick, upper_tick, liquidity_delta),
{
    match require_not_paused(s) {
        Ok(_) => {},
        Err(e) => return Err(e),
    }
    match require_initialized(s) {
        Ok(_) => {},
        Err(e) => return Err(e),
    }
    if lower_tick >= upper_tick {
        return Err(ContractError::InvalidTickRange);
    }
    let tick_spacing = s.config.tick_spacing;
    let lower_rem = lower_tick % tick_spacing;
    let upper_rem = upper_tick % tick_spacing;
    proof {
        lemma_rem_zero(lower_tick, tick_spacing, lower_rem);
        lemma_rem_zero(upper_tick, tick_spacing, upper_rem);
    }
    if lower_rem != 0 || upper_rem != 0 {
        return Err(ContractError::TickSpacingViolation);
    }
    change_range(s, lower_tick, upper_tick, liquidity_delta as i128, liquidity_delta, true)
}

/// Removes `liquidity_delta` from the zero account's position over
/// `[lower_tick, upper_tick]` (two's complement).  Returns 0, or the code of
/// the error.
pub fn burn(s: &mut ContractState, lower_tick: u32, upper_tick: u32, liquidity_delta: u64) -> (r: u32)
    requires
        old(s).wf(),
        has_room(*old(s), lower_tick as i32, upper_tick as i32),
    ensures
        r == result_code(
            burn_result(*old(s), lower_tick as i32, upper_tick as i32, liquidity_delta as u128),
        ),
        burn_effect(
            *old(s),
            *final(s),
            lower_tick as i32,
            upper_tick as i32,
            liquidity_delta as u128,
        ),
{
    let lower = #[verifier::truncate] (lower_tick as i32);
    let upper = #[verifier::truncate] (upper_tick as i32);
    match burn_inner(s, lower, upper, liquidity_delta as u128) {
        Ok(_) => 0,
        Err(e) => e.code(),
    }
}

fn burn_inner(s: &mut ContractState, lower_tick: i32, upper_tick: i32, liquidity_delta: u128) -> (r:
    Result<(u128, u128), ContractError>)
    requires
        old(s).wf(),
        has_room(*old(s), lower_tick, upper_tick),
        liquidity_delta <= u64::MAX,
    ensures
        r == burn_result(*old(s), lower_tick, upper_tick, liquidity_delta),
        burn_effect(*old(s), *final(s), lower_tick, upper_tick, liquidity_delta),
{
    match require_not_paused(s) {
        Ok(_) => {},
        Err(e) => return Err(e),
    }
    match require_initialized(s) {
        Ok(_) => {},
        Err(e) => return Err(e),
    }
    let neg_delta = -(liquidity_delta as i128);
    change_range(s, lower_tick, upper_tick, neg_delta, liquidity_delta, false)
}

/// The lower bound of a liquidity change ends with gross liquidity only on
/// the spacing.
proof fn lemma_bounds_on_spacing_lower(s0: ContractState, lower: i32, delta: i128, adding: bool, sl: TickState)
    requires
        s0.wf(),
        lower_update(s0, lower, delta) == Ok::<TickState, ContractError>(sl),
        adding ==> lower % s0.config.tick_spacing == 0,
        !adding ==> delta <= 0,
    ensures
        sl.liquidity_gross > 0 ==> lower % s0.config.tick_spacing == 0,
{
    if !adding {
        assert(sl.liquidity_gross <= s0.ticks.state_of(lower).liquidity_gross);
    }
}

/// The bounds of a liquidity change that end with gross liquidity, or whose
/// bitmap bit flips, lie on the spacing: `mint` checks it, and `burn` only
/// lowers the gross liquidity of ticks that had some.
proof fn lemma_bounds_on_spacing(
    s0: ContractState,
    lower: i32,
    upper: i32,
    delta: i128,
    adding: bool,
    sl: TickState,
    su: TickState,
)
    requires
        s0.wf(),
        lower_update(s0, lower, delta) == Ok::<TickState, ContractError>(sl),
        upper_update(s0, lower, upper, delta, sl) == Ok::<TickState, ContractError>(su),
        adding ==> lower % s0.config.tick_spacing == 0 && upper % s0.config.tick_spacing == 0,
        !adding ==> delta <= 0,
    ensures
        sl.liquidity_gross > 0 || flipped(s0.ticks.state_of(lower), sl) ==> lower
            % s0.config.tick_spacing == 0,
        su.liquidity_gross > 0 || flipped(upper_base(s0, lower, upper, sl), su) ==> upper
            % s0.config.tick_spacing == 0,
{
    if !adding {
        assert(sl.liquidity_gross <= s0.ticks.state_of(lower).liquidity_gross);
        assert(su.liquidity_gross <= upper_base(s0, lower, upper, sl).liquidity_gross);
        if upper != lower {
            assert(upper_base(s0, lower, upper, sl) == s0.ticks.state_of(upper));
        }
    }
}

/// Updates both bound ticks of a liquidity change and flips the bitmap bits
/// of those that switched between empty and non-empty.  An error leaves
/// what was done before it in place.
#[verifier::rlimit(30)]
fn update_bounds(s: &mut ContractState, lower_tick: i32, upper_tick: i32, delta: i128, adding: bool) -> (r:
    Result<(), ContractError>)
    requires
        old(s).wf(),
        has_room(*old(s), lower_tick, upper_tick),
        delta != i128::MIN,
        adding ==> lower_tick % old(s).config.tick_spacing == 0 && upper_tick
            % old(s).config.tick_spacing == 0,
        !adding ==> delta <= 0,
    ensures
        final(s).wf(),
        final(s).pool == old(s).pool,
        final(s).config == old(s).config,
        final(s).positions == old(s).positions,
        match lower_update(*old(s), lower_tick, delta) {
            Err(e) => r == Err::<(), ContractError>(e) && *final(s) == *old(s),
            Ok(sl) => match upper_update(*old(s), lower_tick, upper_tick, delta, sl) {
                Err(e) => {
                    &&& r == Err::<(), ContractError>(e)
                    &&& final(s).bitmap == old(s).bitmap
                    &&& forall|t: i32| #[trigger]
                        final(s).ticks.lookup(t) == if t == lower_tick {
                            stored_after_set(sl)
                        } else {
                            old(s).ticks.lookup(t)
                        }
                },
                Ok(su) => {
                    let sp = old(s).config.tick_spacing;
                    let fl = flipped(old(s).ticks.state_of(lower_tick), sl);
                    let fu = flipped(upper_base(*old(s), lower_tick, upper_tick, sl), su);
                    &&& r == Ok::<(), ContractError>(())
                    &&& forall|t: i32| #[trigger]
                        final(s).ticks.lookup(t) == if t == upper_tick {
                            stored_after_set(su)
                        } else if t == lower_tick {
                            stored_after_set(sl)
                        } else {
                            old(s).ticks.lookup(t)
                        }
                    &&& forall|w: i16, b: int| #[trigger]
                        final(s).bitmap.has_tick(w, b) == ((old(s).bitmap.has_tick(w, b) != (fl && w
                            == tick_word(lower_tick, sp) && b == tick_bit(lower_tick, sp))) != (fu && w
                            == tick_word(upper_tick, sp) && b == tick_bit(upper_tick, sp)))
                },
            },
        },
{
    let ghost s0 = *s;
    let tick_spacing = s.config.tick_spacing;
    let current_tick = s.pool.current_tick;
    let fg0 = s.pool.fee_growth_global_0_q128;
    let fg1 = s.pool.fee_growth_global_1_q128;
    let (_, flipped_lower) = match s.ticks.update(lower_tick, current_tick, delta, fg0, fg1, false) {
        Ok(v) => v,
        Err(e) => return Err(e),
    };
    let ghost sl = lower_update(s0, lower_tick, delta)->Ok_0;
    let ghost ticks_mid = s.ticks;
    assert(ticks_mid.state_of(upper_tick) == upper_base(s0, lower_tick, upper_tick, sl));
    proof {
        lemma_bounds_on_spacing_lower(s0, lower_tick, delta, adding, sl);
        assert forall|t: i32| #[trigger] ticks_mid.state_of(t).liquidity_gross > 0 implies t
            % tick_spacing == 0 by {
            if t != lower_tick {
                assert(ticks_mid.lookup(t) == s0.ticks.lookup(t));
                assert(ticks_mid.state_of(t) == s0.ticks.state_of(t));
            } else {
                assert(ticks_mid.lookup(t) == stored_after_set(sl));
                assert(ticks_mid.state_of(t) == set_state(sl));
            }
        }
    }
    proof {
        assert(ticks_mid.len == len_after_set(s0.ticks, lower_tick, sl));
        if upper_tick != lower_tick {
            assert(ticks_mid.lookup(upper_tick) == s0.ticks.lookup(upper_tick));
        } else {
            assert(ticks_mid.lookup(lower_tick) == stored_after_set(sl));
        }
    }
    let (_, flipped_upper) = match s.ticks.update(upper_tick, current_tick, delta, fg0, fg1, true) {
        Ok(v) => v,
        Err(e) => {
            proof {
                assert(s.ticks == ticks_mid);
            }
            return Err(e);
        },
    };
    let ghost su = upper_update(s0, lower_tick, upper_tick, delta, sl)->Ok_0;
    proof {
        lemma_bounds_on_spacing(s0, lower_tick, upper_tick, delta, adding, sl, su);
        assert forall|t: i32| #[trigger] s.ticks.lookup(t) == if t == upper_tick {
            stored_after_set(su)
        } else if t == lower_tick {
            stored_after_set(sl)
        } else {
            s0.ticks.lookup(t)
        } by {
            assert(ticks_mid.lookup(t) == if t == lower_tick {
                stored_after_set(sl)
            } else {
                s0.ticks.lookup(t)
            });
        }
        assert forall|t: i32| #[trigger] s.ticks.state_of(t).liquidity_gross > 0 implies t
            % tick_spacing == 0 by {
            if t != upper_tick {
                assert(s.ticks.lookup(t) == ticks_mid.lookup(t));
                assert(s.ticks.state_of(t) == ticks_mid.state_of(t));
            } else {
                assert(s.ticks.lookup(t) == stored_after_set(su));
                assert(s.ticks.state_of(t) == set_state(su));
            }
        }
    }
    let ghost bm0 = s.bitmap;
    if flipped_lower {
        s.bitmap.flip_tick(lower_tick, tick_spacing);
    }
    let ghost bm1 = s.bitmap;
    proof {
        if flipped_upper && flipped_lower && tick_word(upper_tick, tick_spacing) != tick_word(
            lower_tick,
            tick_spacing,
        ) {
            assert(bm1.holds_word(tick_word(upper_tick, tick_spacing)) == bm0.holds_word(
                tick_word(upper_tick, tick_spacing),
            ));
        }
    }
    if flipped_upper {
        s.bitmap.flip_tick(upper_tick, tick_spacing);
    }
    proof {
        assert forall|w: i16, b: int| #[trigger] s.bitmap.has_tick(w, b) == ((bm0.has_tick(w, b) != (
        flipped_lower && w == tick_word(lower_tick, tick_spacing) && b == tick_bit(
            lower_tick,
            tick_spacing,
        ))) != (flipped_upper && w == tick_word(upper_tick, tick_spacing) && b == tick_bit(
            upper_tick,
            tick_spacing,
        ))) by {
            assert(bm1.has_tick(w, b) == (bm0.has_tick(w, b) != (flipped_lower && w == tick_word(
                lower_tick,
                tick_spacing,
            ) && b == tick_bit(lower_tick, tick_spacing))));
        }
    }
    Ok(())
}

/// The shared body of `mint` and `burn` after their checks: updates both
/// bound ticks, flips the bitmap bits of those that switched between empty
/// and non-empty, updates the position, and adjusts the active liquidity.
#[verifier::rlimit(40)]
fn change_range(
    s: &mut ContractState,
    lower_tick: i32,
    upper_tick: i32,
    delta: i128,
    amount: u128,
    adding: bool,
) -> (r: Result<(u128, u128), ContractError>)
    requires
        old(s).wf(),
        has_room(*old(s), lower_tick, upper_tick),
        amount <= u64::MAX,
        adding ==> delta == amount as i128,
        !adding ==> delta == (-(amount as int)) as i128,
        adding ==> lower_tick % old(s).config.tick_spacing == 0 && upper_tick
            % old(s).config.tick_spacing == 0,
    ensures
        r == range_change_result(*old(s), lower_tick, upper_tick, delta, amount, adding),
        range_change_effect(
            *old(s),
            *final(s),
            lower_tick,
            upper_tick,
            delta,
            if adding {
                old(s).pool.liquidity_active.saturating_add(amount)
            } else {
                old(s).pool.liquidity_active.saturating_sub(amount)
            },
        ),
{
    let ghost s0 = *s;
    match update_bounds(s, lower_tick, upper_tick, delta, adding) {
        Ok(_) => {},
        Err(e) => return Err(e),
    }
    let ghost sl = lower_update(s0, lower_tick, delta)->Ok_0;
    let ghost su = upper_update(s0, lower_tick, upper_tick, delta, sl)->Ok_0;
    let current_tick = s.pool.current_tick;
    let sqrt_price = s.pool.sqrt_price_q64_64;
    let fg0 = s.pool.fee_growth_global_0_q128;
    let fg1 = s.pool.fee_growth_global_1_q128;
    let (fg_inside_0, fg_inside_1) = s.ticks.fee_growth_inside(
        lower_tick,
        upper_tick,
        current_tick,
        fg0,
        fg1,
    );
    proof {
        assert(s.ticks.lookup(upper_tick) == stored_after_set(su));
        assert(s.ticks.lookup(lower_tick) == if lower_tick == upper_tick {
            stored_after_set(su)
        } else {
            stored_after_set(sl)
        });
    }
    let pos_key = PositionKey { owner: [0u8; 20], lower_tick, upper_tick };
    assert(pos_key == range_key(lower_tick, upper_tick));
    match s.positions.update(pos_key, delta, fg_inside_0, fg_inside_1) {
        Ok(_) => {},
        Err(e) => return Err(e),
    }
    let sqrt_lower = sqrt_price_at_tick(lower_tick);
    let sqrt_upper = sqrt_price_at_tick(upper_tick);
    let sqrt_current = sqrt_price;
    let amount0 = if sqrt_current < sqrt_lower {
        amount0_delta(sqrt_lower, sqrt_upper, amount, adding)
    } else if sqrt_current < sqrt_upper {
        amount0_delta(sqrt_current, sqrt_upper, amount, adding)
    } else {
        0
    };
    let amount1 = if sqrt_current < sqrt_lower {
        0
    } else if sqrt_current < sqrt_upper {
        amount1_delta(sqrt_lower, sqrt_current, amount, adding)
    } else {
        amount1_delta(sqrt_lower, sqrt_upper, amount, adding)
    };
    if current_tick >= lower_tick && current_tick < upper_tick {
        s.pool.liquidity_active = if adding {
            s.pool.liquidity_active.saturating_add(amount)
        } else {
            s.pool.liquidity_active.saturating_sub(amount)
        };
    }
    Ok((amount0, amount1))
}

/// The smaller of what is owed and the cap.
pub open spec fn capped(owed: u128, max: u64) -> int {
    if owed < max {
        owed as int
    } else {
        max as int
    }
}

/// The position after paying out up to the caps.
pub open spec fn after_collect(p: PositionState, max_0: u64, max_1: u64) -> PositionState {
    PositionState {
        tokens_owed_0: (p.tokens_owed_0 - capped(p.tokens_owed_0, max_0)) as u128,
        tokens_owed_1: (p.tokens_owed_1 - capped(p.tokens_owed_1, max_1)) as u128,
        ..p
    }
}

/// Pays out up to the caps of what the zero account's position over
/// `[lower_tick, upper_tick]` is owed.  Returns 0, or the `Paused` code
/// (leaving the state unchanged) while paused.
pub fn collect(
    s: &mut ContractState,
    lower_tick: u32,
    upper_tick: u32,
    max_amount_0: u32,
    max_amount_1: u32,
) -> (r: u32)
    requires
        old(s).wf(),
    ensures
        final(s).wf(),
        r == if old(s).config.paused {
            error_code(ContractError::Paused)
        } else {
            0
        },
        old(s).config.paused ==> *final(s) == *old(s),
        !old(s).config.paused ==> {
            let key = range_key(lower_tick as i32, upper_tick as i32);
            &&& final(s).pool == old(s).pool
            &&& final(s).config == old(s).config
            &&& final(s).ticks == old(s).ticks
            &&& final(s).bitmap == old(s).bitmap
            &&& forall|k: PositionKey| #[trigger]
                final(s).positions.lookup(k) == if k == key && old(s).positions.holds(key) {
                    kept(
                        after_collect(
                            old(s).positions.state_of(key),
                            max_amount_0 as u64,
                            max_amount_1 as u64,
                        ),
                    )
                } else {
                    old(s).positions.lookup(k)
                }
        },
{
    if require_not_paused(s).is_err() {
        return ContractError::Paused.code();
    }
    let pos_key = PositionKey {
        owner: [0u8; 20],
        lower_tick: #[verifier::truncate] (lower_tick as i32),
        upper_tick: #[verifier::truncate] (upper_tick as i32),
    };
    assert(pos_key == range_key(lower_tick as i32, upper_tick as i32));
    let _ = s.positions.collect(pos_key, max_amount_0 as u64, max_amount_1 as u64);
    0
}

/// The error a swap reports before it runs, if any: paused, uninitialized,
/// no input, or a minimum output below the slippage floor.
pub open spec fn swap_check(s: ContractState, amount_in: u64, min_amount_out: u64) -> Option<ContractError> {
    if s.config.paused {
        Some(ContractError::Paused)
    } else if !s.pool.initialized {
        Some(ContractError::PoolNotInitialized)
    } else if amount_in == 0 {
        Some(ContractError::InvalidLiquidityDelta)
    } else if (min_amount_out as int) < amount_in as int * (10_000 - s.config.max_slippage_bps)
        / 10_000 {
        Some(ContractError::SlippageLimitExceeded)
    } else {
        None
    }
}

/// The global fee growth of a swap's input token.
pub open spec fn input_fee_growth(s: ContractState, zero_for_one: bool) -> u128 {
    if zero_for_one {
        s.pool.fee_growth_global_0_q128
    } else {
        s.pool.fee_growth_global_1_q128
    }
}

/// Where the swap loop ends when run on the pool.
pub open spec fn pool_swap_outcome(s: ContractState, amount_in: u64, zero_for_one: bool, sqrt_price_limit: u128) -> (
    crate::swap::SwapState,
    crate::swap::TickStates,
) {
    let p = swap_params(
        s.pool.fee_bps,
        s.pool.protocol_fee_share_bps,
        input_fee_growth(s, zero_for_one),
        zero_for_one,
        sqrt_price_limit,
        s.config.tick_spacing,
        0,
        0,
        0,
    );
    swap_outcome(
        s.bitmap,
        p,
        swap_start(p, s.pool.sqrt_price_q64_64, s.pool.current_tick, s.pool.liquidity_active, amount_in),
        tick_states(s.ticks),
    )
}

/// What the swap loop reports when run on the pool.
pub open spec fn pool_swap_result(s: ContractState, amount_in: u64, zero_for_one: bool, sqrt_price_limit: u128) -> SwapResult {
    swap_result_of(
        pool_swap_outcome(s, amount_in, zero_for_one, sqrt_price_limit).0,
        amount_in,
        input_fee_growth(s, zero_for_one),
    )
}

/// What an exact-input swap returns: the output, or the first error.
pub open spec fn swap_exact_in_result(s: ContractState, amount_in: u64, min_amount_out: u64, zero_for_one: bool, sqrt_price_limit: u128) -> Result<u64, ContractError> {
    match swap_check(s, amount_in, min_amount_out) {
        Some(e) => Err(e),
        None => if limit_on_wrong_side(zero_for_one, sqrt_price_limit, s.pool.sqrt_price_q64_64) {
            Err(ContractError::SlippageLimitExceeded)
        } else {
            let res = pool_swap_result(s, amount_in, zero_for_one, sqrt_price_limit);
            if res.amount_out < min_amount_out {
                Err(ContractError::SlippageLimitExceeded)
            } else {
                Ok(res.amount_out)
            }
        },
    }
}

/// The pool after a swap is committed: its price, tick and liquidity, and
/// the input token's fee growth and protocol fees.
pub open spec fn committed_pool(p: PoolState, res: SwapResult, zero_for_one: bool) -> PoolState {
    PoolState {
        sqrt_price_q64_64: res.sqrt_price_after,
        current_tick: res.tick_after,
        liquidity_active: res.liquidity_after,
        fee_growth_global_0_q128: if zero_for_one {
            vstd::wrapping::u128_specs::wrapping_add(p.fee_growth_global_0_q128, res.fee_growth_delta)
        } else {
            p.fee_growth_global_0_q128
        },
        fee_growth_global_1_q128: if zero_for_one {
            p.fee_growth_global_1_q128
        } else {
            vstd::wrapping::u128_specs::wrapping_add(p.fee_growth_global_1_q128, res.fee_growth_delta)
        },
        protocol_fees_0: if zero_for_one {
            p.protocol_fees_0.saturating_add(res.protocol_fee)
        } else {
            p.protocol_fees_0
        },
        protocol_fees_1: if zero_for_one {
            p.protocol_fees_1
        } else {
            p.protocol_fees_1.saturating_add(res.protocol_fee)
        },
        ..p
    }
}

/// How an exact-input swap moves the state.  Once the loop has run, its tick
/// crossings stay even when the output then falls short of the minimum; the
/// pool is committed only on success.
pub open spec fn swap_exact_in_effect(s: ContractState, n: ContractState, amount_in: u64, min_amount_out: u64, zero_for_one: bool, sqrt_price_limit: u128) -> bool {
    &&& n.wf()
    &&& n.config == s.config
    &&& n.bitmap == s.bitmap
    &&& n.positions == s.positions
    &&& if swap_check(s, amount_in, min_amount_out) is Some || limit_on_wrong_side(
        zero_for_one,
        sqrt_price_limit,
        s.pool.sqrt_price_q64_64,
    ) {
        n.ticks == s.ticks && n.pool == s.pool
    } else {
        let res = pool_swap_result(s, amount_in, zero_for_one, sqrt_price_limit);
        &&& forall|t: i32| #[trigger]
            n.ticks.lookup(t) == (pool_swap_outcome(s, amount_in, zero_for_one, sqrt_price_limit).1)(t)
        &&& n.pool == if res.amount_out < min_amount_out {
            s.pool
        } else {
            committed_pool(s.pool, res, zero_for_one)
        }
    }
}

/// Swaps exactly `amount_in` of one token for the other (`zero_for_one`
/// non-zero: token0 in, price down), with no price limit.  Returns the
/// output (truncated to 32 bits), or 0 on any error.
pub fn swap_exact_in(s: &mut ContractState, amount_in: u32, min_amount_out: u32, zero_for_one: u8) -> (r: u32)
    requires
        old(s).wf(),
        swap_ready(*old(s), zero_for_one != 0),
    ensures
        swap_ready(*final(s), zero_for_one != 0),
        r == match swap_exact_in_result(
            *old(s),
            amount_in as u64,
            min_amount_out as u64,
            zero_for_one != 0,
            if zero_for_one != 0 {
                1
            } else {
                u128::MAX
            },
        ) {
            Ok(out) => out as u32,
            Err(_) => 0,
        },
        swap_exact_in_effect(
            *old(s),
            *final(s),
            amount_in as u64,
            min_amount_out as u64,
            zero_for_one != 0,
            if zero_for_one != 0 {
                1
            } else {
                u128::MAX
            },
        ),
{
    let direction = zero_for_one != 0;
    let sqrt_price_limit = if direction {
        1u128
    } else {
        u128::MAX
    };
    match swap_exact_in_inner(s, amount_in as u64, min_amount_out as u64, direction, sqrt_price_limit) {
        Ok(out) => #[verifier::truncate] (out as u32),
        Err(_) => 0,
    }
}

/// Swaps exactly `amount_in` with a price limit; the body of
/// `swap_exact_in`.  Returns the output, or the first error.
pub fn swap_exact_in_inner(
    s: &mut ContractState,
    amount_in: u64,
    min_amount_out: u64,
    zero_for_one: bool,
    sqrt_price_limit: u128,
) -> (r: Result<u64, ContractError>)
    requires
        old(s).wf(),
        swap_ready(*old(s), zero_for_one),
    ensures
        r == swap_exact_in_result(*old(s), amount_in, min_amount_out, zero_for_one, sqrt_price_limit),
        swap_ready(*final(s), zero_for_one),
        swap_exact_in_effect(
            *old(s),
            *final(s),
            amount_in,
            min_amount_out,
            zero_for_one,
            sqrt_price_limit,
        ),
{
    match require_not_paused(s) {
        Ok(_) => {},
        Err(e) => return Err(e),
    }
    match require_initialized(s) {
        Ok(_) => {},
        Err(e) => return Err(e),
    }
    if amount_in == 0 {
        return Err(ContractError::InvalidLiquidityDelta);
    }
    let max_slippage_bps = s.config.max_slippage_bps;
    proof {
        assert(amount_in as int * (10_000 - max_slippage_bps) <= u64::MAX as int * 10_000)
            by (nonlinear_arith)
            requires
                amount_in <= u64::MAX,
                0 <= 10_000 - max_slippage_bps <= 10_000,
        ;
    }
    let floor = amount_in as u128 * (10_000 - max_slippage_bps as u128) / 10_000;
    if (min_amount_out as u128) < floor {
        return Err(ContractError::SlippageLimitExceeded);
    }
    let (tick_cumulative, spl_q128) = (0i64, 0u128);
    let sqrt_price = s.pool.sqrt_price_q64_64;
    let current_tick = s.pool.current_tick;
    let liquidity = s.pool.liquidity_active;
    let fee_bps = s.pool.fee_bps;
    let protocol_fee_bps = s.pool.protocol_fee_share_bps;
    let fg0 = s.pool.fee_growth_global_0_q128;
    let fg1 = s.pool.fee_growth_global_1_q128;
    let tick_spacing = s.config.tick_spacing;
    let ghost s0 = *s;
    let result = match execute_swap(
        sqrt_price,
        current_tick,
        liquidity,
        fee_bps,
        protocol_fee_bps,
        if zero_for_one {
            fg0
        } else {
            fg1
        },
        amount_in,
        zero_for_one,
        sqrt_price_limit,
        tick_spacing,
        tick_cumulative,
        spl_q128,
        0,
        &mut s.ticks,
        &mut s.bitmap,
    ) {
        Ok(res) => res,
        Err(e) => return Err(e),
    };
    proof {
        assert forall|t: i32| #[trigger] s.ticks.state_of(t).liquidity_gross > 0 implies t
            % s.config.tick_spacing == 0 by {
            assert(s0.ticks.state_of(t).liquidity_gross == s.ticks.state_of(t).liquidity_gross);
        }
    }
    if result.amount_out < min_amount_out {
        return Err(ContractError::SlippageLimitExceeded);
    }
    // Commit the updated pool state.
    s.pool.sqrt_price_q64_64 = result.sqrt_price_after;
    s.pool.current_tick = result.tick_after;
    s.pool.liquidity_active = result.liquidity_after;
    if zero_for_one {
        s.pool.fee_growth_global_0_q128 = s.pool.fee_growth_global_0_q128.wrapping_add(
            result.fee_growth_delta,
        );
        s.pool.protocol_fees_0 = s.pool.protocol_fees_0.saturating_add(result.protocol_fee);
    } else {
        s.pool.fee_growth_global_1_q128 = s.pool.fee_growth_global_1_q128.wrapping_add(
            result.fee_growth_delta,
        );
        s.pool.protocol_fees_1 = s.pool.protocol_fees_1.saturating_add(result.protocol_fee);
    }
    Ok(result.amount_out)
}

/// Pays out up to the caps of the protocol fees of each token and returns
/// the token0 amount.
pub fn collect_protocol(s: &mut ContractState, max_amount_0: u32, max_amount_1: u32) -> (r: u32)
    requires
        old(s).wf(),
    ensures
        final(s).wf(),
        r as int == capped(old(s).pool.protocol_fees_0, max_amount_0 as u64),
        final(s).pool == (PoolState {
            protocol_fees_0: (old(s).pool.protocol_fees_0 - capped(
                old(s).pool.protocol_fees_0,
                max_amount_0 as u64,
            )) as u128,
            protocol_fees_1: (old(s).pool.protocol_fees_1 - capped(
                old(s).pool.protocol_fees_1,
                max_amount_1 as u64,
            )) as u128,
            ..old(s).pool
        }),
        final(s).config == old(s).config,
        final(s).ticks == old(s).ticks,
        final(s).bitmap == old(s).bitmap,
        final(s).positions == old(s).positions,
{
    let c0 = s.pool.protocol_fees_0.min(max_amount_0 as u128) as u32;
    let c1 = s.pool.protocol_fees_1.min(max_amount_1 as u128) as u32;
    s.pool.protocol_fees_0 = s.pool.protocol_fees_0 - c0 as u128;
    s.pool.protocol_fees_1 = s.pool.protocol_fees_1 - c1 as u128;
    c0
}

/// Sets the protocol's share of the fee, capped at 2_500 bps.  Returns 0.
pub fn set_protocol_fee(s: &mut ContractState, protocol_fee_share_bps: u16) -> (r: u32)
    requires
        old(s).wf(),
    ensures
        r == 0,
        final(s).wf(),
        final(s).pool == (PoolState {
            protocol_fee_share_bps: if protocol_fee_share_bps < 2_500 {
                protocol_fee_share_bps
            } else {
                2_500
            },
            ..old(s).pool
        }),
        final(s).config == old(s).config,
        final(s).ticks == old(s).ticks,
        final(s).bitmap == old(s).bitmap,
        final(s).positions == old(s).positions,
{
    s.pool.protocol_fee_share_bps = protocol_fee_share_bps.min(2_500);
    0
}

/// Accepts a deposit; the transfer itself is the host's.  Returns 0.
pub fn deposit(_amount: u64) -> (r: u32)
    ensures
        r == 0,
{
    0
}

/// Pauses (non-zero) or unpauses (zero) the contract.  Returns 0.
pub fn set_pause(s: &mut ContractState, paused: u8) -> (r: u32)
    requires
        old(s).wf(),
    ensures
        r == 0,
        final(s).wf(),
        final(s).config == (ContractConfig { paused: paused != 0, ..old(s).config }),
        final(s).pool == old(s).pool,
        final(s).ticks == old(s).ticks,
        final(s).bitmap == old(s).bitmap,
        final(s).positions == old(s).positions,
{
    s.config.paused = paused != 0;
    0
}

/// Byte `i` (little-endian) of `x`.
pub open spec fn le_byte(x: u64, i: int) -> u8 {
    ((x as int / vstd::arithmetic::power2::pow2((8 * i) as nat) as int) % 256) as u8
}

/// Sets the manager to the 20 bytes `mgr_lo ‖ mgr_mid ‖ mgr_hi`, each part
/// little-endian.  Returns 0.
pub fn set_manager(s: &mut ContractState, mgr_lo: u64, mgr_mid: u64, mgr_hi: u32) -> (r: u32)
    requires
        old(s).wf(),
    ensures
        r == 0,
        final(s).wf(),
        forall|i: int| 0 <= i < 8 ==> final(s).config.manager[i] == le_byte(mgr_lo, i),
        forall|i: int| 0 <= i < 8 ==> final(s).config.manager[8 + i] == #[trigger] le_byte(mgr_mid, i),
        forall|i: int| 0 <= i < 4 ==> final(s).config.manager[16 + i] == #[trigger] le_byte(mgr_hi as u64, i),
        final(s).config == (ContractConfig { manager: final(s).config.manager, ..old(s).config }),
        final(s).pool == old(s).pool,
        final(s).ticks == old(s).ticks,
        final(s).bitmap == old(s).bitmap,
        final(s).positions == old(s).positions,
{
    let mut manager = [0u8; 20];
    write_le(&mut manager, 0, mgr_lo, 8);
    write_le(&mut manager, 8, mgr_mid, 8);
    write_le(&mut manager, 16, mgr_hi as u64, 4);
    s.config.manager = manager;
    0
}

/// Writes the `n` low bytes of `x`, little-endian, at `at`.
fn write_le(buf: &mut [u8; 20], at: usize, x: u64, n: usize)
    requires
        at + n <= 20,
        n <= 8,
    ensures
        forall|i: int| 0 <= i < n ==> final(buf)[at + i] == #[trigger] le_byte(x, i),
        forall|i: int| 0 <= i < 20 && !(at <= i < at + n) ==> final(buf)[i] == old(buf)[i],
{
    let mut v = x;
    let mut k: usize = 0;
    proof {
        vstd::arithmetic::power2::lemma2_to64();
        assert(vstd::arithmetic::power2::pow2((8 * k) as nat) == 1);
        assert(x as int / 1 == x as int);
    }
    while k < n
        invariant
            at + n <= 20,
            n <= 8,
            k <= n,
            v as int == x as int / vstd::arithmetic::power2::pow2((8 * k) as nat) as int,
            forall|i: int| 0 <= i < k ==> buf[at + i] == #[trigger] le_byte(x, i),
            forall|i: int| 0 <= i < 20 && !(at <= i < at + k) ==> buf[i] == old(buf)[i],
        decreases n - k,
    {
        buf[at + k] = (v % 256) as u8;
        proof {
            vstd::arithmetic::power2::lemma_pow2_adds((8 * k) as nat, 8);
            vstd::arithmetic::power2::lemma2_to64();
            vstd::arithmetic::power2::lemma_pow2_pos((8 * k) as nat);
            vstd::arithmetic::div_mod::lemma_div_denominator(
                x as int,
                vstd::arithmetic::power2::pow2((8 * k) as nat) as int,
                256,
            );
        }
        v = v / 256;
        k = k + 1;
    }
}

/// Resets the contract to a fresh state with `owner` and `tick_spacing`.
pub fn test_setup(s: &mut ContractState, owner: AccountId, tick_spacing: i32)
    requires
        0 < tick_spacing <= MAX_TICK,
    ensures
        is_fresh(*final(s), owner, zero_account(), tick_spacing),
{
    *s = ContractState::new();
    s.config.owner = owner;
    s.config.tick_spacing = tick_spacing;
    proof {
        assert forall|t: i32| #[trigger] s.ticks.state_of(t).liquidity_gross > 0 implies t
            % s.config.tick_spacing == 0 by {
            assert(s.ticks.lookup(t) == None::<TickState>);
        }
    }
}

/// Resets the contract to a fresh state with `owner`, `manager` and
/// `tick_spacing`.
pub fn test_setup_with_manager(s: &mut ContractState, owner: AccountId, manager: AccountId, tick_spacing: i32)
    requires
        0 < tick_spacing <= MAX_TICK,
    ensures
        is_fresh(*final(s), owner, manager, tick_spacing),
{
    *s = ContractState::new();
    s.config.owner = owner;
    s.config.manager = manager;
    s.config.tick_spacing = tick_spacing;
    proof {
        assert forall|t: i32| #[trigger] s.ticks.state_of(t).liquidity_gross > 0 implies t
            % s.config.tick_spacing == 0 by {
            assert(s.ticks.lookup(t) == None::<TickState>);
        }
    }
}

/// The current sqrt price.
pub fn get_sqrt_price(s: &ContractState) -> (r: u128)
    ensures
        r == s.pool.sqrt_price_q64_64,
{
    s.pool.sqrt_price_q64_64
}

/// The active liquidity.
pub fn get_liquidity(s: &ContractState) -> (r: u128)
    ensures
        r == s.pool.liquidity_active,
{
    s.pool.liquidity_active
}

/// The protocol fees of each token.
pub fn get_protocol_fees(s: &ContractState) -> (r: (u128, u128))
    ensures
        r == (s.pool.protocol_fees_0, s.pool.protocol_fees_1),
{
    (s.pool.protocol_fees_0, s.pool.protocol_fees_1)
}

/// The current tick.
pub fn get_current_tick(s: &ContractState) -> (r: i32)
    ensures
        r == s.pool.current_tick,
{
    s.pool.current_tick
}

/// The manager account.
pub fn get_manager(s: &ContractState) -> (r: AccountId)
    ensures
        r == s.config.manager,
{
    s.config.manager
}

/// The global fee growth of each token.
pub fn get_fee_growth_global(s: &ContractState) -> (r: (u128, u128))
    ensures
        r == (s.pool.fee_growth_global_0_q128, s.pool.fee_growth_global_1_q128),
{
    (s.pool.fee_growth_global_0_q128, s.pool.fee_growth_global_1_q128)
}

// ---------------------------------------------------------------------------
// Laws
// ---------------------------------------------------------------------------

/// While the contract is paused, mint, burn and swap are refused with
/// `Paused` and leave the state as it was.
pub proof fn lemma_pause_freezes_pool(
    s: ContractState,
    n: ContractState,
    lower: i32,
    upper: i32,
    amount: u128,
    amount_in: u64,
    min_amount_out: u64,
    zero_for_one: bool,
    sqrt_price_limit: u128,
)
    requires
        s.config.paused,
    ensures
        mint_result(s, lower, upper, amount) == Err::<(u128, u128), ContractError>(
            ContractError::Paused,
        ),
        mint_effect(s, n, lower, upper, amount) ==> n == s,
        burn_result(s, lower, upper, amount) == Err::<(u128, u128), ContractError>(
            ContractError::Paused,
        ),
        burn_effect(s, n, lower, upper, amount) ==> n == s,
        swap_exact_in_result(s, amount_in, min_amount_out, zero_for_one, sqrt_price_limit)
            == Err::<u64, ContractError>(ContractError::Paused),
        swap_exact_in_effect(s, n, amount_in, min_amount_out, zero_for_one, sqrt_price_limit)
            ==> n == s,
{
}

/// A swap never moves the price against its direction: after a zero-for-one
/// swap (token0 in) the price is at most what it was, after a one-for-zero
/// swap at least what it was, whether the swap succeeds or fails.
pub proof fn lemma_swap_moves_price_its_way(
    s: ContractState,
    n: ContractState,
    amount_in: u64,
    min_amount_out: u64,
    zero_for_one: bool,
    sqrt_price_limit: u128,
)
    requires
        s.wf(),
        swap_exact_in_effect(s, n, amount_in, min_amount_out, zero_for_one, sqrt_price_limit),
    ensures
        if zero_for_one {
            n.pool.sqrt_price_q64_64 <= s.pool.sqrt_price_q64_64
        } else {
            n.pool.sqrt_price_q64_64 >= s.pool.sqrt_price_q64_64
        },
{
    let p = swap_params(
        s.pool.fee_bps,
        s.pool.protocol_fee_share_bps,
        input_fee_growth(s, zero_for_one),
        zero_for_one,
        sqrt_price_limit,
        s.config.tick_spacing,
        0,
        0,
        0,
    );
    let start = swap_start(
        p,
        s.pool.sqrt_price_q64_64,
        s.pool.current_tick,
        s.pool.liquidity_active,
        amount_in,
    );
    lemma_swap_run_direction(
        s.bitmap,
        p,
        start,
        tick_states(s.ticks),
        crate::swap::swap_measure(start) + 1,
    );
}

/// A swap that succeeds pays out at least the requested minimum, and that
/// minimum is within the configured slippage of a non-zero input.
pub proof fn lemma_swap_honours_minimum(
    s: ContractState,
    amount_in: u64,
    min_amount_out: u64,
    zero_for_one: bool,
    sqrt_price_limit: u128,
)
    requires
        swap_exact_in_result(s, amount_in, min_amount_out, zero_for_one, sqrt_price_limit) is Ok,
    ensures
        ({
            let out = swap_exact_in_result(
                s,
                amount_in,
                min_amount_out,
                zero_for_one,
                sqrt_price_limit,
            )->Ok_0;
            &&& out >= min_amount_out
            &&& amount_in > 0
            &&& min_amount_out >= amount_in as int * (10_000 - s.config.max_slippage_bps) / 10_000
            &&& !s.config.paused
            &&& s.pool.initialized
        }),
{
}

/// Minting over a range that does not hold the current tick leaves the
/// active liquidity unchanged, whether the mint succeeds or not.
pub proof fn lemma_out_of_range_mint_keeps_active(
    s: ContractState,
    n: ContractState,
    lower: i32,
    upper: i32,
    amount: u128,
)
    requires
        mint_effect(s, n, lower, upper, amount),
        !(lower <= s.pool.current_tick < upper),
    ensures
        n.pool.liquidity_active == s.pool.liquidity_active,
        n.pool.sqrt_price_q64_64 == s.pool.sqrt_price_q64_64,
        n.pool.current_tick == s.pool.current_tick,
{
}

/// Minting liquidity over a range that holds the current tick and then
/// burning the same liquidity over it leaves the active liquidity, the
/// price and the current tick as they were (when the sum fits in 128 bits).
pub proof fn lemma_mint_then_burn_restores_active(
    s: ContractState,
    m: ContractState,
    n: ContractState,
    lower: i32,
    upper: i32,
    amount: u128,
)
    requires
        mint_result(s, lower, upper, amount) is Ok,
        mint_effect(s, m, lower, upper, amount),
        burn_result(m, lower, upper, amount) is Ok,
        burn_effect(m, n, lower, upper, amount),
        s.pool.liquidity_active + amount <= u128::MAX,
    ensures
        n.pool.liquidity_active == s.pool.liquidity_active,
        n.pool.sqrt_price_q64_64 == s.pool.sqrt_price_q64_64,
        n.pool.current_tick == s.pool.current_tick,
{
}

} // verus!
