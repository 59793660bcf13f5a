//! Swap volume replay: rebuilds the global fee growth accumulators from a
//! history of swaps.
//!
//! For each swap with liquidity in range:
//! 1. `fee_amount = amount_in * fee_bps / 10_000`;
//! 2. the traded token's global fee growth grows by
//!    `fee_growth_per_unit_q128(fee_amount, active_liquidity)`;
//! 3. the nearest initialised tick in the direction of the price move is
//!    crossed: its outside accumulators flip and the active liquidity moves
//!    by its net liquidity (saturating).
use vstd::prelude::*;
use std::collections::BTreeMap;
use vstd::std_specs::iter::IteratorSpec;
use vstd::wrapping::u128_specs::{wrapping_add, wrapping_sub};
use crate::fixed::{sat128, two128};
use crate::quant_math::{fee_growth_per_unit_q128, fee_growth_per_unit_q128_spec};

verus! {

broadcast use vstd::std_specs::btree::group_btree_axioms;

// ---------------------------------------------------------------------------
// Input types
// ---------------------------------------------------------------------------

/// A single historical AMM swap event extracted from XRPL `account_tx`.
#[derive(Debug, Clone)]
pub struct SwapEvent {
    pub timestamp_secs: u64,
    /// Amount of token0 (XRP drops) or token1 raw units sent into the pool.
    pub amount_in: u128,
    /// Pool trading fee in basis points.
    pub fee_bps: u16,
    /// true → token0 in, token1 out (XRP → USD-like).
    pub zero_for_one: bool,
}

// ---------------------------------------------------------------------------
// Mutable replay state
// ---------------------------------------------------------------------------

/// Tick data needed during replay.
#[derive(Debug, Clone)]
pub struct ReplayTick {
    /// Net liquidity change when crossed left-to-right.
    pub liquidity_net: i128,
    /// fee_growth_outside for token0, Q128.
    pub fee_growth_outside_0: u128,
    /// fee_growth_outside for token1, Q128.
    pub fee_growth_outside_1: u128,
}

/// A tick with no liquidity and no fee growth recorded.
pub open spec fn blank_tick() -> ReplayTick {
    ReplayTick { liquidity_net: 0, fee_growth_outside_0: 0, fee_growth_outside_1: 0 }
}

impl Default for ReplayTick {
    fn default() -> (r: Self)
        ensures
            r == blank_tick(),
    {
        ReplayTick { liquidity_net: 0, fee_growth_outside_0: 0, fee_growth_outside_1: 0 }
    }
}

/// Mutable state carried through the replay.
#[derive(Debug, Clone)]
pub struct ReplayState {
    /// Global fee growth accumulator for token0, Q128.
    pub fee_growth_global_0: u128,
    /// Global fee growth accumulator for token1, Q128.
    pub fee_growth_global_1: u128,
    /// Active liquidity at the current tick.
    pub active_liquidity: u128,
    /// Current tick index.
    pub current_tick: i32,
    /// Sorted tick data (key = tick index).
    pub ticks: BTreeMap<i32, ReplayTick>,
}

/// The replay state as a mathematical value.
pub ghost struct ReplayModel {
    pub fee_growth_global_0: u128,
    pub fee_growth_global_1: u128,
    pub active_liquidity: u128,
    pub current_tick: i32,
    pub ticks: Map<i32, ReplayTick>,
}

impl ReplayState {
    /// The state's model: its accumulators and the contents of its tick map.
    pub open spec fn model(&self) -> ReplayModel {
        ReplayModel {
            fee_growth_global_0: self.fee_growth_global_0,
            fee_growth_global_1: self.fee_growth_global_1,
            active_liquidity: self.active_liquidity,
            current_tick: self.current_tick,
            ticks: self.ticks@,
        }
    }
}

// ---------------------------------------------------------------------------
// The replay, stated
// ---------------------------------------------------------------------------

/// The tick stored at `t`, or a blank one.
pub open spec fn tick_or_blank(ticks: Map<i32, ReplayTick>, t: i32) -> ReplayTick {
    if ticks.contains_key(t) {
        ticks[t]
    } else {
        blank_tick()
    }
}

/// A tick after a crossing: each outside accumulator becomes the global
/// one minus itself (wrapping).
pub open spec fn flipped(t: ReplayTick, global_0: u128, global_1: u128) -> ReplayTick {
    ReplayTick {
        liquidity_net: t.liquidity_net,
        fee_growth_outside_0: wrapping_sub(global_0, t.fee_growth_outside_0),
        fee_growth_outside_1: wrapping_sub(global_1, t.fee_growth_outside_1),
    }
}

/// The tick map after crossing `t`.
pub open spec fn crossed_ticks(m: ReplayModel, t: i32) -> Map<i32, ReplayTick> {
    m.ticks.insert(
        t,
        flipped(tick_or_blank(m.ticks, t), m.fee_growth_global_0, m.fee_growth_global_1),
    )
}

/// The largest key at or below `t`, searching down to `i32::MIN`.
pub open spec fn key_at_or_below(ticks: Map<i32, ReplayTick>, t: int) -> Option<i32>
    decreases t - i32::MIN + 1,
{
    if t < i32::MIN {
        None
    } else if ticks.contains_key(t as i32) {
        Some(t as i32)
    } else {
        key_at_or_below(ticks, t - 1)
    }
}

/// The smallest key at or above `t`, searching up to `i32::MAX`.
pub open spec fn key_at_or_above(ticks: Map<i32, ReplayTick>, t: int) -> Option<i32>
    decreases i32::MAX + 1 - t,
{
    if t > i32::MAX {
        None
    } else if ticks.contains_key(t as i32) {
        Some(t as i32)
    } else {
        key_at_or_above(ticks, t + 1)
    }
}

/// The tick a swap crosses: the largest initialised tick below the current
/// one when the price moves down, the smallest at or above it otherwise.
pub open spec fn tick_to_cross(m: ReplayModel, zero_for_one: bool) -> Option<i32> {
    if zero_for_one {
        key_at_or_below(m.ticks, m.current_tick - 1)
    } else {
        key_at_or_above(m.ticks, m.current_tick as int)
    }
}

/// Active liquidity after crossing a tick with net liquidity `net`: moving
/// down subtracts it, moving up adds it, saturating at both ends.
pub open spec fn liquidity_after(liquidity: u128, net: i128, zero_for_one: bool) -> u128 {
    if zero_for_one {
        sat128(liquidity - net)
    } else {
        sat128(liquidity + net)
    }
}

/// The fee a swap contributes: `amount_in * fee_bps / 10_000`.
pub open spec fn swap_fee(swap: SwapEvent) -> int {
    swap.amount_in * swap.fee_bps / 10_000
}

/// The model after accumulating one swap's fee, before any crossing.
pub open spec fn with_fee(m: ReplayModel, swap: SwapEvent) -> ReplayModel {
    let delta = fee_growth_per_unit_q128_spec(swap_fee(swap) as u128, m.active_liquidity);
    if swap.zero_for_one {
        ReplayModel { fee_growth_global_0: wrapping_add(m.fee_growth_global_0, delta), ..m }
    } else {
        ReplayModel { fee_growth_global_1: wrapping_add(m.fee_growth_global_1, delta), ..m }
    }
}

/// One swap of the replay.  A swap with no active liquidity changes nothing.
pub open spec fn replay_step(m: ReplayModel, swap: SwapEvent) -> ReplayModel {
    if m.active_liquidity == 0 {
        m
    } else {
        let m1 = with_fee(m, swap);
        match tick_to_cross(m1, swap.zero_for_one) {
            None => m1,
            Some(t) => ReplayModel {
                ticks: crossed_ticks(m1, t),
                active_liquidity: liquidity_after(
                    m1.active_liquidity,
                    tick_or_blank(m1.ticks, t).liquidity_net,
                    swap.zero_for_one,
                ),
                current_tick: t,
                ..m1
            },
        }
    }
}

/// The model after replaying `swaps` in order.
pub open spec fn replay_spec(m: ReplayModel, swaps: Seq<SwapEvent>) -> ReplayModel
    decreases swaps.len(),
{
    if swaps.len() == 0 {
        m
    } else {
        replay_step(replay_spec(m, swaps.drop_last()), swaps.last())
    }
}

/// A swap that the replay can take from `m` without arithmetic overflow:
/// its fee product fits in 128 bits, and the net liquidity of the tick it
/// crosses can be negated.
pub open spec fn step_defined(m: ReplayModel, swap: SwapEvent) -> bool {
    m.active_liquidity == 0 || {
        &&& swap.amount_in * swap.fee_bps <= u128::MAX
        &&& match tick_to_cross(m, swap.zero_for_one) {
            Some(t) => tick_or_blank(m.ticks, t).liquidity_net != i128::MIN,
            None => true,
        }
    }
}

/// Every swap of the replay is defined at the model it meets.
pub open spec fn replay_defined(m: ReplayModel, swaps: Seq<SwapEvent>) -> bool
    decreases swaps.len(),
{
    if swaps.len() == 0 {
        true
    } else {
        replay_defined(m, swaps.drop_last()) && step_defined(
            replay_spec(m, swaps.drop_last()),
            swaps.last(),
        )
    }
}

// ---------------------------------------------------------------------------
// Proofs about the stated replay
// ---------------------------------------------------------------------------

/// The key orders of the tick map are the integer orders.
proof fn lemma_tick_keys_ordered()
    ensures
        vstd::std_specs::btree::key_obeys_cmp_spec::<i32>(),
{
    broadcast use vstd::laws_cmp::group_laws_cmp;
}

/// `key_at_or_below` is the largest key at or below `t`.
proof fn lemma_key_at_or_below(ticks: Map<i32, ReplayTick>, t: int, r: Option<i32>)
    requires
        i32::MIN - 1 <= t <= i32::MAX,
        match r {
            Some(b) => ticks.contains_key(b) && b <= t && forall|k: i32|
                #[trigger] ticks.contains_key(k) && k <= t ==> k <= b,
            None => forall|k: i32| #[trigger] ticks.contains_key(k) ==> k > t,
        },
    ensures
        key_at_or_below(ticks, t) == r,
    decreases t - i32::MIN + 1,
{
    if t >= i32::MIN && !ticks.contains_key(t as i32) {
        lemma_key_at_or_below(ticks, t - 1, r);
    }
}

/// `key_at_or_above` is the smallest key at or above `t`.
proof fn lemma_key_at_or_above(ticks: Map<i32, ReplayTick>, t: int, r: Option<i32>)
    requires
        i32::MIN <= t <= i32::MAX + 1,
        match r {
            Some(b) => ticks.contains_key(b) && b >= t && forall|k: i32|
                #[trigger] ticks.contains_key(k) && k >= t ==> k >= b,
            None => forall|k: i32| #[trigger] ticks.contains_key(k) ==> k < t,
        },
    ensures
        key_at_or_above(ticks, t) == r,
    decreases i32::MAX + 1 - t,
{
    if t <= i32::MAX && !ticks.contains_key(t as i32) {
        lemma_key_at_or_above(ticks, t + 1, r);
    }
}

/// A defined replay is defined on each of its prefixes.
proof fn lemma_defined_prefix(m: ReplayModel, swaps: Seq<SwapEvent>, n: int)
    requires
        replay_defined(m, swaps),
        0 <= n <= swaps.len(),
    ensures
        replay_defined(m, swaps.take(n)),
    decreases swaps.len(),
{
    if n == swaps.len() {
        assert(swaps.take(n) =~= swaps);
    } else {
        lemma_defined_prefix(m, swaps.drop_last(), n);
        assert(swaps.drop_last().take(n) =~= swaps.take(n));
    }
}

/// With no liquidity in range, a replay changes nothing: every swap is
/// skipped.
pub proof fn lemma_replay_without_liquidity(m: ReplayModel, swaps: Seq<SwapEvent>)
    requires
        m.active_liquidity == 0,
    ensures
        replay_spec(m, swaps) == m,
    decreases swaps.len(),
{
    if swaps.len() > 0 {
        lemma_replay_without_liquidity(m, swaps.drop_last());
    }
}

/// Replaying a history in two batches, the second from where the first
/// ended, is replaying it at once.
pub proof fn lemma_replay_in_batches(m: ReplayModel, first: Seq<SwapEvent>, second: Seq<SwapEvent>)
    ensures
        replay_spec(m, first + second) == replay_spec(replay_spec(m, first), second),
    decreases second.len(),
{
    if second.len() == 0 {
        assert(first + second =~= first);
    } else {
        lemma_replay_in_batches(m, first, second.drop_last());
        assert((first + second).drop_last() =~= first + second.drop_last());
        assert((first + second).last() == second.last());
    }
}

/// Swaps that all sell token0 leave the token1 fee growth unchanged, and
/// swaps that all sell token1 leave the token0 fee growth unchanged.
pub proof fn lemma_replay_one_direction(m: ReplayModel, swaps: Seq<SwapEvent>, zero_for_one: bool)
    requires
        forall|i: int| 0 <= i < swaps.len() ==> (#[trigger] swaps[i]).zero_for_one == zero_for_one,
    ensures
        zero_for_one ==> replay_spec(m, swaps).fee_growth_global_1 == m.fee_growth_global_1,
        !zero_for_one ==> replay_spec(m, swaps).fee_growth_global_0 == m.fee_growth_global_0,
    decreases swaps.len(),
{
    if swaps.len() > 0 {
        let init = swaps.drop_last();
        assert forall|i: int| 0 <= i < init.len() implies (#[trigger] init[i]).zero_for_one
            == zero_for_one by {
            assert(init[i] == swaps[i]);
        }
        lemma_replay_one_direction(m, init, zero_for_one);
        assert(swaps.last() == swaps[swaps.len() - 1]);
    }
}

/// A swap that crosses a tick flips both of its outside accumulators: for
/// each token the new outside value plus the old one make the global fee
/// growth (modulo 2^128).  The tick keeps its net liquidity, becomes the
/// current tick, and no other tick changes.
pub proof fn lemma_crossing_flips_both_tokens(m: ReplayModel, swap: SwapEvent)
    requires
        m.active_liquidity > 0,
        tick_to_cross(m, swap.zero_for_one) is Some,
    ensures
        ({
            let r = replay_step(m, swap);
            let t = tick_to_cross(m, swap.zero_for_one)->Some_0;
            let before = tick_or_blank(m.ticks, t);
            &&& r.current_tick == t
            &&& r.ticks.contains_key(t)
            &&& r.ticks[t].liquidity_net == before.liquidity_net
            &&& (r.ticks[t].fee_growth_outside_0 + before.fee_growth_outside_0
                == r.fee_growth_global_0 || r.ticks[t].fee_growth_outside_0
                + before.fee_growth_outside_0 == r.fee_growth_global_0 + two128())
            &&& (r.ticks[t].fee_growth_outside_1 + before.fee_growth_outside_1
                == r.fee_growth_global_1 || r.ticks[t].fee_growth_outside_1
                + before.fee_growth_outside_1 == r.fee_growth_global_1 + two128())
            &&& forall|u: i32|
                u != t ==> (#[trigger] r.ticks.contains_key(u) == m.ticks.contains_key(u)) && (
                m.ticks.contains_key(u) ==> r.ticks[u] == m.ticks[u])
        }),
{
    let m1 = with_fee(m, swap);
    assert(m1.ticks == m.ticks && m1.current_tick == m.current_tick);
    assert(tick_to_cross(m1, swap.zero_for_one) == tick_to_cross(m, swap.zero_for_one));
    assert(two128() == 0x1_0000_0000_0000_0000_0000_0000_0000_0000int);
}

// ---------------------------------------------------------------------------
// Executable replay
// ---------------------------------------------------------------------------

/// The largest key strictly below `current`.
fn scan_below(ticks: &BTreeMap<i32, ReplayTick>, current: i32) -> (r: Option<i32>)
    ensures
        r == key_at_or_below(ticks@, current - 1),
{
    proof {
        lemma_tick_keys_ordered();
    }
    let keys = ticks.keys();
    let ghost all = keys.remaining();
    assert(all.unref().to_set() == ticks@.dom());
    let mut best: Option<i32> = None;
    for k in it: keys
        invariant
            it.seq() == all,
            all.unref().to_set() == ticks@.dom(),
            match best {
                Some(b) => ticks@.contains_key(b) && b < current && forall|i: int|
                    0 <= i < it.index() && *all[i] < current ==> *all[i] <= b,
                None => forall|i: int| 0 <= i < it.index() ==> *all[i] >= current,
            },
    {
        let key = *k;
        if key < current {
            match best {
                Some(b) => {
                    if key > b {
                        best = Some(key);
                    }
                },
                None => {
                    best = Some(key);
                },
            }
        }
    }
    proof {
        assert forall|k: i32| ticks@.contains_key(k) implies exists|i: int|
            0 <= i < all.len() && *all[i] == k by {
            assert(all.unref().to_set().contains(k));
            let i = choose|i: int| 0 <= i < all.unref().len() && all.unref()[i] == k;
            assert(*all[i] == k);
        }
        lemma_key_at_or_below(ticks@, current - 1, best);
    }
    best
}

/// The smallest key at or above `current`.
fn scan_at_or_above(ticks: &BTreeMap<i32, ReplayTick>, current: i32) -> (r: Option<i32>)
    ensures
        r == key_at_or_above(ticks@, current as int),
{
    proof {
        lemma_tick_keys_ordered();
    }
    let keys = ticks.keys();
    let ghost all = keys.remaining();
    assert(all.unref().to_set() == ticks@.dom());
    let mut best: Option<i32> = None;
    for k in it: keys
        invariant
            it.seq() == all,
            all.unref().to_set() == ticks@.dom(),
            match best {
                Some(b) => ticks@.contains_key(b) && b >= current && forall|i: int|
                    0 <= i < it.index() && *all[i] >= current ==> *all[i] >= b,
                None => forall|i: int| 0 <= i < it.index() ==> *all[i] < current,
            },
    {
        let key = *k;
        if key >= current {
            match best {
                Some(b) => {
                    if key < b {
                        best = Some(key);
                    }
                },
                None => {
                    best = Some(key);
                },
            }
        }
    }
    proof {
        assert forall|k: i32| ticks@.contains_key(k) implies exists|i: int|
            0 <= i < all.len() && *all[i] == k by {
            assert(all.unref().to_set().contains(k));
            let i = choose|i: int| 0 <= i < all.unref().len() && all.unref()[i] == k;
            assert(*all[i] == k);
        }
        lemma_key_at_or_above(ticks@, current as int, best);
    }
    best
}

impl ReplayState {
    /// Cross a tick boundary, flipping its `fee_growth_outside` accumulators
    /// (a tick not yet stored is taken as blank and stored).
    /// Returns the `liquidity_net` at the crossed tick.
    fn cross_tick(&mut self, tick: i32) -> (r: i128)
        ensures
            final(self).model() == (ReplayModel { ticks: crossed_ticks(old(self).model(), tick), ..old(self).model() }),
            r == tick_or_blank(old(self).ticks@, tick).liquidity_net,
    {
        proof {
            lemma_tick_keys_ordered();
        }
        let t = match self.ticks.get(&tick) {
            Some(t) => ReplayTick {
                liquidity_net: t.liquidity_net,
                fee_growth_outside_0: t.fee_growth_outside_0,
                fee_growth_outside_1: t.fee_growth_outside_1,
            },
            None => ReplayTick::default(),
        };
        let updated = ReplayTick {
            liquidity_net: t.liquidity_net,
            fee_growth_outside_0: self.fee_growth_global_0.wrapping_sub(t.fee_growth_outside_0),
            fee_growth_outside_1: self.fee_growth_global_1.wrapping_sub(t.fee_growth_outside_1),
        };
        self.ticks.insert(tick, updated);
        t.liquidity_net
    }
}

/// Replay a sequence of swap events against `state`, updating the fee
/// growth accumulators and tick-crossing state as if the swaps had been
/// processed on-chain.
///
/// `swaps` must be in chronological order (oldest first).  Each swap with
/// liquidity in range crosses at most one tick: the nearest initialised
/// tick in the direction of its price move.
pub fn replay_swaps(state: ReplayState, swaps: &[SwapEvent]) -> (r: ReplayState)
    requires
        replay_defined(state.model(), swaps@),
    ensures
        r.model() == replay_spec(state.model(), swaps@),
{
    let ghost m0 = state.model();
    let mut state = state;
    let mut i: usize = 0;
    while i < swaps.len()
        invariant
            i <= swaps.len(),
            replay_defined(m0, swaps@),
            state.model() == replay_spec(m0, swaps@.take(i as int)),
        decreases swaps.len() - i,
    {
        let swap = &swaps[i];
        proof {
            lemma_defined_prefix(m0, swaps@, i + 1);
            assert(swaps@.take(i + 1).drop_last() =~= swaps@.take(i as int));
            assert(swaps@.take(i + 1).last() == swaps@[i as int]);
        }
        if state.active_liquidity != 0 {
            let fee_amount = swap.amount_in * (swap.fee_bps as u128) / 10_000;
            let delta = fee_growth_per_unit_q128(fee_amount, state.active_liquidity);
            if swap.zero_for_one {
                state.fee_growth_global_0 = state.fee_growth_global_0.wrapping_add(delta);
            } else {
                state.fee_growth_global_1 = state.fee_growth_global_1.wrapping_add(delta);
            }
            if swap.zero_for_one {
                // Price moves down: the largest tick below the current one.
                let crossed = scan_below(&state.ticks, state.current_tick);
                if let Some(tick) = crossed {
                    let lnet = state.cross_tick(tick);
                    // Crossing downward subtracts liquidity_net.
                    state.active_liquidity = if lnet >= 0 {
                        state.active_liquidity.saturating_sub(lnet as u128)
                    } else {
                        state.active_liquidity.saturating_add((-lnet) as u128)
                    };
                    state.current_tick = tick;
                }
            } else {
                // Price moves up: the smallest tick at or above the current one.
                let crossed = scan_at_or_above(&state.ticks, state.current_tick);
                if let Some(tick) = crossed {
                    let lnet = state.cross_tick(tick);
                    state.active_liquidity = if lnet >= 0 {
                        state.active_liquidity.saturating_add(lnet as u128)
                    } else {
                        state.active_liquidity.saturating_sub((-lnet) as u128)
                    };
                    state.current_tick = tick;
                }
            }
        }
        i += 1;
    }
    assert(swaps@.take(swaps.len() as int) =~= swaps@);
    state
}

} // verus!
