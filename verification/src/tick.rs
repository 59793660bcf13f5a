//! Per-tick state and update logic.
use vstd::prelude::*;
use crate::types::ContractError;

verus! {

/// How many ticks the map can hold.
pub const MAX_TICKS: usize = 64;

/// The state kept for one initialized tick.
#[derive(Clone, Copy)]
pub struct TickState {
    pub liquidity_gross: u128,
    pub liquidity_net: i128,
    pub fee_growth_outside_0_q128: u128,
    pub fee_growth_outside_1_q128: u128,
    pub seconds_outside: u64,
    pub tick_cumulative_outside: i64,
    pub seconds_per_liquidity_outside_q128: u128,
}

/// The all-zero tick state.
pub open spec fn zero_tick_state() -> TickState {
    TickState {
        liquidity_gross: 0,
        liquidity_net: 0,
        fee_growth_outside_0_q128: 0,
        fee_growth_outside_1_q128: 0,
        seconds_outside: 0,
        tick_cumulative_outside: 0,
        seconds_per_liquidity_outside_q128: 0,
    }
}

impl Default for TickState {
    fn default() -> (r: Self)
        ensures
            r == zero_tick_state(),
    {
        TickState {
            liquidity_gross: 0,
            liquidity_net: 0,
            fee_growth_outside_0_q128: 0,
            fee_growth_outside_1_q128: 0,
            seconds_outside: 0,
            tick_cumulative_outside: 0,
            seconds_per_liquidity_outside_q128: 0,
        }
    }
}

/// A state that `set` drops rather than stores: no gross liquidity and no
/// token0 fee growth recorded outside.
pub open spec fn droppable(s: TickState) -> bool {
    s.liquidity_gross == 0 && s.fee_growth_outside_0_q128 == 0
}

/// Up to `MAX_TICKS` tick states keyed by tick index.
pub struct TickMap {
    pub keys: [i32; 64],
    pub vals: [TickState; 64],
    pub len: usize,
}

/// What `set` does to the stored state of `tick`: drops a droppable state,
/// stores any other.
pub open spec fn stored_after_set(state: TickState) -> Option<TickState> {
    if droppable(state) {
        None
    } else {
        Some(state)
    }
}

/// How many ticks the map holds after `set(tick, state)`.
pub open spec fn len_after_set(m: TickMap, tick: i32, state: TickState) -> int {
    if droppable(state) {
        if m.holds(tick) {
            m.len - 1
        } else {
            m.len as int
        }
    } else {
        if m.holds(tick) {
            m.len as int
        } else {
            m.len + 1
        }
    }
}

/// The state that `update` writes back, or the error it returns.
pub open spec fn tick_update_spec(
    t: TickState,
    tick: i32,
    current_tick: i32,
    liquidity_delta: i128,
    fee_growth_global_0: u128,
    fee_growth_global_1: u128,
    upper: bool,
) -> Result<TickState, ContractError> {
    let gross_after: int = t.liquidity_gross + liquidity_delta;
    if liquidity_delta >= 0 && gross_after > u128::MAX {
        Err(ContractError::MathOverflow)
    } else if liquidity_delta < 0 && gross_after < 0 {
        Err(ContractError::InvalidLiquidityDelta)
    } else {
        let net_after: int = if upper {
            t.liquidity_net - liquidity_delta
        } else {
            t.liquidity_net + liquidity_delta
        };
        if net_after < i128::MIN || net_after > i128::MAX {
            Err(ContractError::MathOverflow)
        } else {
            let init = t.liquidity_gross == 0 && tick <= current_tick;
            Ok(
                TickState {
                    liquidity_gross: gross_after as u128,
                    liquidity_net: net_after as i128,
                    fee_growth_outside_0_q128: if init {
                        fee_growth_global_0
                    } else {
                        t.fee_growth_outside_0_q128
                    },
                    fee_growth_outside_1_q128: if init {
                        fee_growth_global_1
                    } else {
                        t.fee_growth_outside_1_q128
                    },
                    ..t
                },
            )
        }
    }
}

/// The state that `cross` writes back: every outside accumulator flipped
/// to `global − outside` (wrapping), seconds counted in 32 bits.
pub open spec fn crossed_state(
    t: TickState,
    fee_growth_global_0: u128,
    fee_growth_global_1: u128,
    tick_cumulative: i64,
    seconds_per_liquidity_q128: u128,
    time: u32,
) -> TickState {
    TickState {
        fee_growth_outside_0_q128: vstd::wrapping::u128_specs::wrapping_sub(
            fee_growth_global_0,
            t.fee_growth_outside_0_q128,
        ),
        fee_growth_outside_1_q128: vstd::wrapping::u128_specs::wrapping_sub(
            fee_growth_global_1,
            t.fee_growth_outside_1_q128,
        ),
        tick_cumulative_outside: vstd::wrapping::i64_specs::wrapping_sub(
            tick_cumulative,
            t.tick_cumulative_outside,
        ),
        seconds_per_liquidity_outside_q128: vstd::wrapping::u128_specs::wrapping_sub(
            seconds_per_liquidity_q128,
            t.seconds_per_liquidity_outside_q128,
        ),
        seconds_outside: vstd::wrapping::u32_specs::wrapping_sub(
            time,
            t.seconds_outside as u32,
        ) as u64,
        ..t
    }
}

/// Crossing a tick twice at the same accumulators and time restores it:
/// each outside value is flipped against its global, and flipping twice
/// gives it back (for the seconds outside, which a crossing reads in 32
/// bits, when they fit in 32 bits).
pub proof fn lemma_cross_twice(
    t: TickState,
    fee_growth_global_0: u128,
    fee_growth_global_1: u128,
    tick_cumulative: i64,
    seconds_per_liquidity_q128: u128,
    time: u32,
)
    requires
        t.seconds_outside <= u32::MAX,
    ensures
        crossed_state(
            crossed_state(
                t,
                fee_growth_global_0,
                fee_growth_global_1,
                tick_cumulative,
                seconds_per_liquidity_q128,
                time,
            ),
            fee_growth_global_0,
            fee_growth_global_1,
            tick_cumulative,
            seconds_per_liquidity_q128,
            time,
        ) == t,
{
}

/// Crossing a tick flips each outside value against its global: the new
/// outside value plus the old one make the global (modulo the width), for
/// both tokens' fee growth, the tick cumulative and the seconds per
/// liquidity; the tick's liquidity is untouched.
pub proof fn lemma_cross_flips_each_accumulator(
    t: TickState,
    fee_growth_global_0: u128,
    fee_growth_global_1: u128,
    tick_cumulative: i64,
    seconds_per_liquidity_q128: u128,
    time: u32,
)
    ensures
        ({
            let c = crossed_state(
                t,
                fee_growth_global_0,
                fee_growth_global_1,
                tick_cumulative,
                seconds_per_liquidity_q128,
                time,
            );
            let w128 = 0x1_0000_0000_0000_0000_0000_0000_0000_0000int;
            let w64 = 0x1_0000_0000_0000_0000int;
            &&& (c.fee_growth_outside_0_q128 + t.fee_growth_outside_0_q128 - fee_growth_global_0) % w128 == 0
            &&& (c.fee_growth_outside_1_q128 + t.fee_growth_outside_1_q128 - fee_growth_global_1) % w128 == 0
            &&& (c.seconds_per_liquidity_outside_q128 + t.seconds_per_liquidity_outside_q128
                - seconds_per_liquidity_q128) % w128 == 0
            &&& (c.tick_cumulative_outside + t.tick_cumulative_outside - tick_cumulative) % w64 == 0
            &&& c.liquidity_gross == t.liquidity_gross
            &&& c.liquidity_net == t.liquidity_net
        }),
{
    let c = crossed_state(
        t,
        fee_growth_global_0,
        fee_growth_global_1,
        tick_cumulative,
        seconds_per_liquidity_q128,
        time,
    );
    let w128 = 0x1_0000_0000_0000_0000_0000_0000_0000_0000int;
    let w64 = 0x1_0000_0000_0000_0000int;
    let d0 = c.fee_growth_outside_0_q128 + t.fee_growth_outside_0_q128 - fee_growth_global_0;
    let d1 = c.fee_growth_outside_1_q128 + t.fee_growth_outside_1_q128 - fee_growth_global_1;
    let d2 = c.seconds_per_liquidity_outside_q128 + t.seconds_per_liquidity_outside_q128
        - seconds_per_liquidity_q128;
    let d3 = c.tick_cumulative_outside + t.tick_cumulative_outside - tick_cumulative;
    assert(d0 == 0 || d0 == w128);
    assert(d1 == 0 || d1 == w128);
    assert(d2 == 0 || d2 == w128);
    assert(d3 == 0 || d3 == w64 || d3 == -w64);
    vstd::arithmetic::div_mod::lemma_mod_self_0(w128);
    vstd::arithmetic::div_mod::lemma_mod_self_0(w64);
    vstd::arithmetic::div_mod::lemma_small_mod(0, w128 as nat);
    vstd::arithmetic::div_mod::lemma_small_mod(0, w64 as nat);
    if d3 == -w64 {
        vstd::arithmetic::div_mod::lemma_mod_sub_multiples_vanish(0, w64);
    }
}

/// The fee growth inside a range, against the outside values of its bounds
/// (all modulo 2^128): with the price inside the range, inside plus both
/// outside values make the global growth; with the price below the range,
/// inside is the lower bound's outside value less the upper's; with the
/// price at or above the upper bound, the upper's less the lower's.
pub proof fn lemma_fee_inside_parts(
    lower_tick: i32,
    upper_tick: i32,
    current_tick: i32,
    global: u128,
    lower_outside: u128,
    upper_outside: u128,
)
    requires
        lower_tick < upper_tick,
    ensures
        ({
            let inside = fee_inside_one(
                lower_tick,
                upper_tick,
                current_tick,
                global,
                lower_outside,
                upper_outside,
            ) as int;
            let w = 0x1_0000_0000_0000_0000_0000_0000_0000_0000int;
            &&& lower_tick <= current_tick < upper_tick ==> (inside + lower_outside + upper_outside
                - global) % w == 0
            &&& current_tick < lower_tick ==> (inside - lower_outside + upper_outside) % w == 0
            &&& upper_tick <= current_tick ==> (inside - upper_outside + lower_outside) % w == 0
        }),
{
    let inside = fee_inside_one(
        lower_tick,
        upper_tick,
        current_tick,
        global,
        lower_outside,
        upper_outside,
    ) as int;
    let w = 0x1_0000_0000_0000_0000_0000_0000_0000_0000int;
    vstd::arithmetic::div_mod::lemma_mod_self_0(w);
    vstd::arithmetic::div_mod::lemma_small_mod(0, w as nat);
    vstd::arithmetic::div_mod::lemma_mod_sub_multiples_vanish(0, w);
    vstd::arithmetic::div_mod::lemma_mod_add_multiples_vanish(w, w);
    vstd::arithmetic::div_mod::lemma_mod_sub_multiples_vanish(-w, w);
    if lower_tick <= current_tick < upper_tick {
        let d = inside + lower_outside + upper_outside - global;
        assert(d == 0 || d == w || d == 2 * w);
    } else if current_tick < lower_tick {
        let d = inside - lower_outside + upper_outside;
        assert(d == 0 || d == w || d == -w);
    } else {
        let d = inside - upper_outside + lower_outside;
        assert(d == 0 || d == w || d == -w);
    }
}

/// A liquidity change at a bound: the gross liquidity moves by the delta
/// (failing when it would leave the `u128` range), a lower bound's net
/// liquidity rises by the delta and an upper bound's falls by it, so the two
/// bounds of a range change their net liquidity in opposite ways; a bound
/// that had no liquidity and lies at or below the current tick records the
/// global fee growth as its outside value, any other keeps its outside
/// values.
pub proof fn lemma_tick_update_moves_liquidity(
    t: TickState,
    tick: i32,
    current_tick: i32,
    liquidity_delta: i128,
    fee_growth_global_0: u128,
    fee_growth_global_1: u128,
    upper: bool,
)
    ensures
        ({
            let r = tick_update_spec(
                t,
                tick,
                current_tick,
                liquidity_delta,
                fee_growth_global_0,
                fee_growth_global_1,
                upper,
            );
            &&& (r is Ok) ==> 0 <= t.liquidity_gross + liquidity_delta <= u128::MAX
            &&& (r is Ok) ==> r->Ok_0.liquidity_gross == t.liquidity_gross + liquidity_delta
            &&& (r is Ok) ==> r->Ok_0.liquidity_net == t.liquidity_net + (if upper {
                -liquidity_delta
            } else {
                liquidity_delta as int
            })
            &&& (r is Ok) && t.liquidity_gross == 0 && tick <= current_tick ==> r->Ok_0.fee_growth_outside_0_q128
                == fee_growth_global_0 && r->Ok_0.fee_growth_outside_1_q128 == fee_growth_global_1
            &&& (r is Ok) && !(t.liquidity_gross == 0 && tick <= current_tick)
                ==> r->Ok_0.fee_growth_outside_0_q128 == t.fee_growth_outside_0_q128
                && r->Ok_0.fee_growth_outside_1_q128 == t.fee_growth_outside_1_q128
            &&& t.liquidity_gross + liquidity_delta < 0 ==> r == Err::<TickState, ContractError>(
                ContractError::InvalidLiquidityDelta,
            )
            &&& t.liquidity_gross + liquidity_delta > u128::MAX ==> r == Err::<TickState, ContractError>(
                ContractError::MathOverflow,
            )
        }),
{
}

/// `(below, above, inside)` fee growth for one token.
pub open spec fn fee_inside_one(
    lower_tick: i32,
    upper_tick: i32,
    current_tick: i32,
    global: u128,
    lower_outside: u128,
    upper_outside: u128,
) -> u128 {
    let below = if current_tick >= lower_tick {
        lower_outside
    } else {
        vstd::wrapping::u128_specs::wrapping_sub(global, lower_outside)
    };
    let above = if current_tick < upper_tick {
        upper_outside
    } else {
        vstd::wrapping::u128_specs::wrapping_sub(global, upper_outside)
    };
    vstd::wrapping::u128_specs::wrapping_sub(
        vstd::wrapping::u128_specs::wrapping_sub(global, below),
        above,
    )
}

impl TickMap {
    /// Well-formed: within capacity, and no tick stored twice.
    pub open spec fn wf(self) -> bool {
        &&& self.len <= MAX_TICKS
        &&& forall|i: int, j: int| 0 <= i < j < self.len ==> self.keys[i] != self.keys[j]
    }

    /// No stored state is one that `set` would drop.
    pub open spec fn tidy(self) -> bool {
        forall|i: int| 0 <= i < self.len ==> !droppable(#[trigger] self.vals[i])
    }

    /// Whether `tick` has a stored state.
    pub open spec fn holds(self, tick: i32) -> bool {
        exists|i: int| 0 <= i < self.len && self.keys[i] == tick
    }

    /// The stored state of `tick`, if any.
    pub open spec fn lookup(self, tick: i32) -> Option<TickState> {
        if self.holds(tick) {
            Some(self.vals[choose|i: int| 0 <= i < self.len && self.keys[i] == tick])
        } else {
            None
        }
    }

    /// The state of `tick`: its stored state, or all zeros.
    pub open spec fn state_of(self, tick: i32) -> TickState {
        match self.lookup(tick) {
            Some(s) => s,
            None => zero_tick_state(),
        }
    }

    /// The slot of a stored tick is the one `lookup` reads.
    pub proof fn lemma_slot(self, i: int)
        requires
            self.wf(),
            0 <= i < self.len,
        ensures
            self.lookup(self.keys[i]) == Some(self.vals[i]),
    {
        let t = self.keys[i];
        assert(self.holds(t));
        let k = choose|k: int| 0 <= k < self.len && self.keys[k] == t;
        assert(k == i);
    }

    /// Whether the map is well formed and tidy: within its capacity, no
    /// tick twice, and no stored state that `set` would drop.
    pub fn check_wf(&self) -> (r: bool)
        ensures
            r == (self.wf() && self.tidy()),
    {
        if self.len > 64 {
            return false;
        }
        let mut i: usize = 0;
        while i < self.len
            invariant
                self.len <= 64,
                i <= self.len,
                forall|a: int, b: int| 0 <= a < b < self.len && a < i ==> self.keys[a] != self.keys[b],
                forall|a: int| 0 <= a < i ==> !droppable(#[trigger] self.vals[a]),
            decreases self.len - i,
        {
            let v = self.vals[i];
            if v.liquidity_gross == 0 && v.fee_growth_outside_0_q128 == 0 {
                assert(droppable(self.vals[i as int]));
                return false;
            }
            let mut j: usize = i + 1;
            while j < self.len
                invariant
                    self.len <= 64,
                    i < self.len,
                    i + 1 <= j <= self.len,
                    forall|b: int| i < b < j ==> self.keys[i as int] != self.keys[b],
                decreases self.len - j,
            {
                if self.keys[i] == self.keys[j] {
                    return false;
                }
                j += 1;
            }
            i += 1;
        }
        true
    }

    /// An empty map, every slot zeroed.
    pub fn new() -> (r: Self)
        ensures
            r.wf(),
            r.tidy(),
            r.len == 0,
            forall|t: i32| #[trigger] r.lookup(t) == None::<TickState>,
            forall|i: int| 0 <= i < 64 ==> r.keys[i] == 0 && #[trigger] r.vals[i] == zero_tick_state(),
    {
        let z = TickState::default();
        Self {
            keys: [0i32; 64],
            vals: [z; 64],
            len: 0,
        }
    }

    /// The slot holding `tick`, if any.
    pub(crate) fn find(&self, tick: i32) -> (r: Option<usize>)
        requires
            self.wf(),
        ensures
            match r {
                Some(i) => i < self.len && self.keys[i as int] == tick,
                None => !self.holds(tick),
            },
    {
        let mut i: usize = 0;
        while i < self.len
            invariant
                self.wf(),
                i <= self.len,
                forall|j: int| 0 <= j < i ==> self.keys[j] != tick,
            decreases self.len - i,
        {
            if self.keys[i] == tick {
                return Some(i);
            }
            i += 1;
        }
        None
    }

    /// The state of `tick`, all zeros when it has none.
    pub fn get(&self, tick: i32) -> (r: TickState)
        requires
            self.wf(),
        ensures
            r == self.state_of(tick),
    {
        match self.find(tick) {
            Some(i) => {
                proof {
                    self.lemma_slot(i as int);
                }
                self.vals[i]
            },
            None => TickState::default(),
        }
    }

    /// Stores `state` for `tick`, or removes the tick when `state` has no
    /// gross liquidity and no token0 fee growth outside.
    pub fn set(&mut self, tick: i32, state: TickState)
        requires
            old(self).wf(),
            droppable(state) || old(self).holds(tick) || old(self).len < MAX_TICKS,
        ensures
            final(self).wf(),
            old(self).tidy() ==> final(self).tidy(),
            final(self).len == len_after_set(*old(self), tick, state),
            forall|t: i32| #[trigger]
                final(self).lookup(t) == if t == tick {
                    stored_after_set(state)
                } else {
                    old(self).lookup(t)
                },
    {
        let ghost before = *self;
        if state.liquidity_gross == 0 && state.fee_growth_outside_0_q128 == 0 {
            if let Some(i) = self.find(tick) {
                self.len = self.len - 1;
                let last = self.len;
                self.keys[i] = self.keys[last];
                self.vals[i] = self.vals[last];
                proof {
                    assert forall|t: i32| #[trigger]
                        self.lookup(t) == if t == tick {
                            stored_after_set(state)
                        } else {
                            before.lookup(t)
                        } by {
                        if t == tick {
                            if self.holds(t) {
                                let k = choose|k: int| 0 <= k < self.len && self.keys[k] == t;
                                if k == i {
                                    assert(before.keys[last as int] == tick);
                                } else {
                                    assert(before.keys[k] == tick);
                                }
                            }
                        } else if before.holds(t) {
                            let k = choose|k: int| 0 <= k < before.len && before.keys[k] == t;
                            before.lemma_slot(k);
                            if k == last {
                                self.lemma_slot(i as int);
                            } else {
                                self.lemma_slot(k);
                            }
                        } else {
                            if self.holds(t) {
                                let k = choose|k: int| 0 <= k < self.len && self.keys[k] == t;
                                if k == i {
                                    assert(before.keys[last as int] == t);
                                } else {
                                    assert(before.keys[k] == t);
                                }
                            }
                        }
                    }
                }
            }
        } else {
            match self.find(tick) {
                Some(i) => {
                    self.vals[i] = state;
                    proof {
                        assert forall|t: i32| #[trigger]
                            self.lookup(t) == if t == tick {
                                stored_after_set(state)
                            } else {
                                before.lookup(t)
                            } by {
                            if t == tick {
                                self.lemma_slot(i as int);
                            } else if before.holds(t) {
                                let k = choose|k: int| 0 <= k < before.len && before.keys[k] == t;
                                before.lemma_slot(k);
                                self.lemma_slot(k);
                            } else {
                                if self.holds(t) {
                                    let k = choose|k: int| 0 <= k < self.len && self.keys[k] == t;
                                    assert(before.keys[k] == t);
                                }
                            }
                        }
                    }
                },
                None => {
                    let i = self.len;
                    self.keys[i] = tick;
                    self.vals[i] = state;
                    self.len = self.len + 1;
                    proof {
                        assert forall|t: i32| #[trigger]
                            self.lookup(t) == if t == tick {
                                stored_after_set(state)
                            } else {
                                before.lookup(t)
                            } by {
                            if t == tick {
                                self.lemma_slot(i as int);
                            } else if before.holds(t) {
                                let k = choose|k: int| 0 <= k < before.len && before.keys[k] == t;
                                before.lemma_slot(k);
                                self.lemma_slot(k);
                            } else {
                                if self.holds(t) {
                                    let k = choose|k: int| 0 <= k < self.len && self.keys[k] == t;
                                    assert(before.keys[k] == t);
                                }
                            }
                        }
                    }
                },
            }
        }
    }

    /// Applies a liquidity change at `tick` (a lower bound adds it to the net
    /// liquidity, an upper bound subtracts it).  A tick that had no gross
    /// liquidity and lies at or below the current tick takes the global fee
    /// growth as its outside value.  Returns the new gross liquidity and
    /// whether the tick flipped between empty and non-empty; on an error the
    /// map is unchanged.
    pub fn update(
        &mut self,
        tick: i32,
        current_tick: i32,
        liquidity_delta: i128,
        fee_growth_global_0: u128,
        fee_growth_global_1: u128,
        upper: bool,
    ) -> (r: Result<(u128, bool), ContractError>)
        requires
            old(self).wf(),
            liquidity_delta != i128::MIN,
            match tick_update_spec(
                old(self).state_of(tick),
                tick,
                current_tick,
                liquidity_delta,
                fee_growth_global_0,
                fee_growth_global_1,
                upper,
            ) {
                Ok(s) => droppable(s) || old(self).holds(tick) || old(self).len < MAX_TICKS,
                Err(_) => true,
            },
        ensures
            final(self).wf(),
            old(self).tidy() ==> final(self).tidy(),
            match tick_update_spec(
                old(self).state_of(tick),
                tick,
                current_tick,
                liquidity_delta,
                fee_growth_global_0,
                fee_growth_global_1,
                upper,
            ) {
                Ok(s) => {
                    &&& final(self).len == len_after_set(*old(self), tick, s)
                    &&& r == Ok::<(u128, bool), ContractError>(
                        (
                            s.liquidity_gross,
                            (s.liquidity_gross == 0) != (old(self).state_of(
                                tick,
                            ).liquidity_gross == 0),
                        ),
                    )
                    &&& forall|t: i32| #[trigger]
                        final(self).lookup(t) == if t == tick {
                            stored_after_set(s)
                        } else {
                            old(self).lookup(t)
                        }
                },
                Err(e) => r == Err::<(u128, bool), ContractError>(e) && *final(self) == *old(
                    self,
                ),
            },
    {
        let mut t = self.get(tick);
        let liquidity_gross_before = t.liquidity_gross;
        let liquidity_gross_after = if liquidity_delta >= 0 {
            match t.liquidity_gross.checked_add(liquidity_delta as u128) {
                Some(v) => v,
                None => return Err(ContractError::MathOverflow),
            }
        } else {
            match t.liquidity_gross.checked_sub((-liquidity_delta) as u128) {
                Some(v) => v,
                None => return Err(ContractError::InvalidLiquidityDelta),
            }
        };
        let flipped = (liquidity_gross_after == 0) != (liquidity_gross_before == 0);
        if liquidity_gross_before == 0 {
            if tick <= current_tick {
                t.fee_growth_outside_0_q128 = fee_growth_global_0;
                t.fee_growth_outside_1_q128 = fee_growth_global_1;
            }
        }
        t.liquidity_gross = liquidity_gross_after;
        if upper {
            t.liquidity_net = match t.liquidity_net.checked_sub(liquidity_delta) {
                Some(v) => v,
                None => return Err(ContractError::MathOverflow),
            };
        } else {
            t.liquidity_net = match t.liquidity_net.checked_add(liquidity_delta) {
                Some(v) => v,
                None => return Err(ContractError::MathOverflow),
            };
        }
        self.set(tick, t);
        Ok((liquidity_gross_after, flipped))
    }

    /// Crosses `tick`: flips its outside accumulators against the given
    /// globals and returns its net liquidity.
    pub fn cross(
        &mut self,
        tick: i32,
        fee_growth_global_0: u128,
        fee_growth_global_1: u128,
        tick_cumulative: i64,
        seconds_per_liquidity_q128: u128,
        time: u32,
    ) -> (r: i128)
        requires
            old(self).wf(),
            droppable(
                crossed_state(
                    old(self).state_of(tick),
                    fee_growth_global_0,
                    fee_growth_global_1,
                    tick_cumulative,
                    seconds_per_liquidity_q128,
                    time,
                ),
            ) || old(self).holds(tick) || old(self).len < MAX_TICKS,
        ensures
            final(self).wf(),
            old(self).tidy() ==> final(self).tidy(),
            r == old(self).state_of(tick).liquidity_net,
            final(self).len == len_after_set(
                *old(self),
                tick,
                crossed_state(
                    old(self).state_of(tick),
                    fee_growth_global_0,
                    fee_growth_global_1,
                    tick_cumulative,
                    seconds_per_liquidity_q128,
                    time,
                ),
            ),
            forall|t: i32| #[trigger]
                final(self).lookup(t) == if t == tick {
                    stored_after_set(
                        crossed_state(
                            old(self).state_of(tick),
                            fee_growth_global_0,
                            fee_growth_global_1,
                            tick_cumulative,
                            seconds_per_liquidity_q128,
                            time,
                        ),
                    )
                } else {
                    old(self).lookup(t)
                },
    {
        let mut t = self.get(tick);
        t.fee_growth_outside_0_q128 = fee_growth_global_0.wrapping_sub(t.fee_growth_outside_0_q128);
        t.fee_growth_outside_1_q128 = fee_growth_global_1.wrapping_sub(t.fee_growth_outside_1_q128);
        t.tick_cumulative_outside = tick_cumulative.wrapping_sub(t.tick_cumulative_outside);
        t.seconds_per_liquidity_outside_q128 = seconds_per_liquidity_q128.wrapping_sub(
            t.seconds_per_liquidity_outside_q128,
        );
        t.seconds_outside = time.wrapping_sub(t.seconds_outside as u32) as u64;
        self.set(tick, t);
        t.liquidity_net
    }

    /// Fee growth inside `[lower_tick, upper_tick]` for both tokens:
    /// `global − below − above`, all wrapping, where below/above are the
    /// boundary ticks' outside values flipped to the side of the current tick.
    pub fn fee_growth_inside(
        &self,
        lower_tick: i32,
        upper_tick: i32,
        current_tick: i32,
        fee_growth_global_0: u128,
        fee_growth_global_1: u128,
    ) -> (r: (u128, u128))
        requires
            self.wf(),
        ensures
            r.0 == fee_inside_one(
                lower_tick,
                upper_tick,
                current_tick,
                fee_growth_global_0,
                self.state_of(lower_tick).fee_growth_outside_0_q128,
                self.state_of(upper_tick).fee_growth_outside_0_q128,
            ),
            r.1 == fee_inside_one(
                lower_tick,
                upper_tick,
                current_tick,
                fee_growth_global_1,
                self.state_of(lower_tick).fee_growth_outside_1_q128,
                self.state_of(upper_tick).fee_growth_outside_1_q128,
            ),
    {
        let lower = self.get(lower_tick);
        let upper = self.get(upper_tick);
        let (fgb0, fgb1) = if current_tick >= lower_tick {
            (lower.fee_growth_outside_0_q128, lower.fee_growth_outside_1_q128)
        } else {
            (
                fee_growth_global_0.wrapping_sub(lower.fee_growth_outside_0_q128),
                fee_growth_global_1.wrapping_sub(lower.fee_growth_outside_1_q128),
            )
        };
        let (fga0, fga1) = if current_tick < upper_tick {
            (upper.fee_growth_outside_0_q128, upper.fee_growth_outside_1_q128)
        } else {
            (
                fee_growth_global_0.wrapping_sub(upper.fee_growth_outside_0_q128),
                fee_growth_global_1.wrapping_sub(upper.fee_growth_outside_1_q128),
            )
        };
        (
            fee_growth_global_0.wrapping_sub(fgb0).wrapping_sub(fga0),
            fee_growth_global_1.wrapping_sub(fgb1).wrapping_sub(fga1),
        )
    }
}

} // verus!
