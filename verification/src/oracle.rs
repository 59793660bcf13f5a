//! TWAP oracle: a ring buffer of price and liquidity observations.
//!
//! Each swap writes at most one observation per block, recording the
//! timestamp, the tick cumulative and the seconds-per-liquidity cumulative;
//! `observe` answers for past timestamps by interpolating between them.
use vstd::prelude::*;
use crate::tick_bitmap::trunc_div;

verus! {

/// Hard cap on the ring's size.
pub const MAX_CARDINALITY: u16 = 65_535;

/// A single price/liquidity checkpoint.
#[derive(Clone, Copy)]
pub struct Observation {
    /// Block timestamp (seconds, wraps at 2^32).
    pub timestamp: u32,
    /// Cumulative sum of current_tick × elapsed_seconds up to this point.
    pub tick_cumulative: i64,
    /// Cumulative sum of elapsed_seconds / active_liquidity, in Q128.
    pub seconds_per_liquidity_q128: u128,
    /// Whether this slot has been written.
    pub initialized: bool,
}

/// The empty slot.
pub open spec fn empty_observation() -> Observation {
    Observation { timestamp: 0, tick_cumulative: 0, seconds_per_liquidity_q128: 0, initialized: false }
}

impl Default for Observation {
    fn default() -> (r: Self)
        ensures
            r == empty_observation(),
    {
        Observation { timestamp: 0, tick_cumulative: 0, seconds_per_liquidity_q128: 0, initialized: false }
    }
}

/// Ring buffer of oracle observations.
pub struct OracleBuffer {
    /// Ring storage; grows to `cardinality_next` on the next write.
    pub data: Vec<Observation>,
    /// Index of the most recently written slot.
    pub index: u16,
    /// Number of written observations.
    pub cardinality: u16,
    /// Requested capacity.
    pub cardinality_next: u16,
}

/// The result of `observe`: the cumulatives at each requested time, or a
/// failure when some time lies before the oldest observation.
pub enum ObserveResult {
    Observed { tick_cumulatives: Vec<i64>, seconds_per_liquidity: Vec<u128> },
    Unavailable,
}

/// `last` extended by `delta` seconds at `tick` and `liquidity`, stamped
/// `time`: the tick cumulative grows by `tick·delta` (wrapping) and, with
/// liquidity and elapsed time, the seconds-per-liquidity cumulative by
/// `(delta << 64) / liquidity` (wrapping).
pub open spec fn transform_spec(last: Observation, time: u32, tick: i32, liquidity: u128, delta: u32) -> Observation {
    Observation {
        timestamp: time,
        tick_cumulative: vstd::wrapping::i64_specs::wrapping_add(
            last.tick_cumulative,
            (tick * delta) as i64,
        ),
        seconds_per_liquidity_q128: if liquidity > 0 && delta > 0 {
            vstd::wrapping::u128_specs::wrapping_add(
                last.seconds_per_liquidity_q128,
                ((delta as int * 0x1_0000_0000_0000_0000int) / (liquidity as int)) as u128,
            )
        } else {
            last.seconds_per_liquidity_q128
        },
        initialized: true,
    }
}

/// Extends an observation forward by `delta` seconds.
pub fn transform(last: &Observation, time: u32, tick: i32, liquidity: u128, delta: u32) -> (r: Observation)
    ensures
        r == transform_spec(*last, time, tick, liquidity, delta),
{
    proof {
        assert(-0x8000_0000int * 0xFFFF_FFFFint <= tick as int * delta as int <= 0x7FFF_FFFFint
            * 0xFFFF_FFFFint) by (nonlinear_arith)
            requires
                -0x8000_0000int <= tick <= 0x7FFF_FFFFint,
                0 <= delta <= 0xFFFF_FFFFint,
        ;
    }
    let tick_cumulative = last.tick_cumulative.wrapping_add(tick as i64 * delta as i64);
    let seconds_per_liquidity_q128 = if liquidity > 0 && delta > 0 {
        let d = delta as u128;
        // d < 2^32, so d << 64 < 2^96.
        proof {
            crate::fixed::lemma_shl64(d);
            vstd::arithmetic::div_mod::lemma_small_mod(d as nat, 0x1_0000_0000_0000_0000nat);
        }
        let increment = (d << 64u32) / liquidity;
        last.seconds_per_liquidity_q128.wrapping_add(increment)
    } else {
        last.seconds_per_liquidity_q128
    };
    Observation { timestamp: time, tick_cumulative, seconds_per_liquidity_q128, initialized: true }
}

/// Extending an observation by `delta` seconds stamps it `time`, adds
/// `tick·delta` to the tick cumulative (modulo 2^64) and, with liquidity,
/// `⌊delta·2^64 / liquidity⌋` to the seconds-per-liquidity cumulative
/// (modulo 2^128); without liquidity or elapsed time that cumulative stays.
/// So the seconds-per-liquidity cumulative moves whenever some time passes
/// at a liquidity of at most `delta·2^64`.
pub proof fn lemma_transform_accumulates(last: Observation, time: u32, tick: i32, liquidity: u128, delta: u32)
    ensures
        ({
            let r = transform_spec(last, time, tick, liquidity, delta);
            let w64 = 0x1_0000_0000_0000_0000int;
            let w128 = 0x1_0000_0000_0000_0000_0000_0000_0000_0000int;
            &&& r.timestamp == time
            &&& r.initialized
            &&& (r.tick_cumulative - last.tick_cumulative - tick * delta) % w64 == 0
            &&& liquidity > 0 ==> (r.seconds_per_liquidity_q128 - last.seconds_per_liquidity_q128
                - (delta * w64) / (liquidity as int)) % w128 == 0
            &&& liquidity == 0 ==> r.seconds_per_liquidity_q128 == last.seconds_per_liquidity_q128
            &&& 0 < liquidity <= delta * w64 ==> r.seconds_per_liquidity_q128
                != last.seconds_per_liquidity_q128
        }),
{
    let r = transform_spec(last, time, tick, liquidity, delta);
    let w64 = 0x1_0000_0000_0000_0000int;
    let w128 = 0x1_0000_0000_0000_0000_0000_0000_0000_0000int;
    assert(-0x8000_0000int * 0xFFFF_FFFFint <= tick as int * delta as int <= 0x7FFF_FFFFint
        * 0xFFFF_FFFFint) by (nonlinear_arith)
        requires
            -0x8000_0000int <= tick <= 0x7FFF_FFFFint,
            0 <= delta <= 0xFFFF_FFFFint,
    ;
    let dt = r.tick_cumulative - last.tick_cumulative - tick * delta;
    assert(dt == 0 || dt == w64 || dt == -w64);
    vstd::arithmetic::div_mod::lemma_mod_self_0(w64);
    vstd::arithmetic::div_mod::lemma_small_mod(0, w64 as nat);
    if dt == -w64 {
        vstd::arithmetic::div_mod::lemma_mod_sub_multiples_vanish(0, w64);
    }
    if liquidity > 0 {
        let inc = (delta * w64) / (liquidity as int);
        assert(0 <= delta * w64 <= 0xFFFF_FFFFint * w64) by (nonlinear_arith)
            requires
                0 <= delta <= 0xFFFF_FFFFint,
                w64 > 0,
        ;
        vstd::arithmetic::div_mod::lemma_div_pos_is_pos(delta * w64, liquidity as int);
        vstd::arithmetic::div_mod::lemma_div_is_ordered_by_denominator(delta * w64, 1, liquidity as int);
        assert(0 <= inc < w128);
        let ds = r.seconds_per_liquidity_q128 - last.seconds_per_liquidity_q128 - inc;
        vstd::arithmetic::div_mod::lemma_mod_self_0(w128);
        vstd::arithmetic::div_mod::lemma_small_mod(0, w128 as nat);
        if delta > 0 {
            assert(ds == 0 || ds == -w128);
            if ds == -w128 {
                vstd::arithmetic::div_mod::lemma_mod_sub_multiples_vanish(0, w128);
            }
            if liquidity <= delta * w64 {
                vstd::arithmetic::div_mod::lemma_div_is_ordered(liquidity as int, delta * w64, liquidity as int);
                vstd::arithmetic::div_mod::lemma_div_by_self(liquidity as int);
                assert(inc >= 1);
            }
        } else {
            assert(delta * w64 == 0);
            assert(inc == 0);
        }
    }
}

impl OracleBuffer {
    /// Well-formed: the ring has a slot, the last write is inside it, the
    /// written count fits it, and the requested capacity covers it and stays
    /// within `MAX_CARDINALITY`.
    pub open spec fn wf(&self) -> bool {
        &&& 1 <= self.data@.len() <= self.cardinality_next
        &&& self.index < self.cardinality_next
        &&& self.index < self.data@.len()
        &&& self.cardinality <= self.data@.len()
    }

    /// One empty slot, nothing written.
    pub fn new() -> (r: Self)
        ensures
            r.wf(),
            r.data@ == seq![empty_observation()],
            r.index == 0,
            r.cardinality == 0,
            r.cardinality_next == 1,
    {
        let mut data = Vec::with_capacity(1);
        data.push(Observation::default());
        OracleBuffer { data, index: 0, cardinality: 0, cardinality_next: 1 }
    }

    /// Writes the first observation at pool initialization.
    pub fn initialize(&mut self, time: u32)
        requires
            old(self).wf(),
        ensures
            final(self).wf(),
            final(self).data@ == old(self).data@.update(
                0,
                Observation {
                    timestamp: time,
                    tick_cumulative: 0,
                    seconds_per_liquidity_q128: 0,
                    initialized: true,
                },
            ),
            final(self).index == 0,
            final(self).cardinality == 1,
            final(self).cardinality_next == old(self).cardinality_next,
    {
        self.data.set(
            0,
            Observation {
                timestamp: time,
                tick_cumulative: 0,
                seconds_per_liquidity_q128: 0,
                initialized: true,
            },
        );
        self.index = 0;
        self.cardinality = 1;
    }

    /// Records an observation at `time` (at most one per block: once some
    /// observation exists, the newest one afterwards is at `time`, so a
    /// second write in the same block changes nothing) and returns the
    /// cumulatives at this moment.  With nothing written yet it does
    /// nothing and returns zeros; at the last observation's own timestamp it
    /// returns that observation's cumulatives.  Otherwise the ring first
    /// grows to the requested capacity, the next slot receives the last
    /// observation extended to `time`, and the written count covers it.
    pub fn write(&mut self, time: u32, tick: i32, liquidity: u128) -> (r: (i64, u128))
        requires
            old(self).wf(),
        ensures
            final(self).wf(),
            final(self).cardinality_next == old(self).cardinality_next,
            old(self).cardinality > 0 ==> final(self).data@[final(self).index as int].initialized
                && final(self).data@[final(self).index as int].timestamp == time,
            ({
                let last = old(self).data@[old(self).index as int];
                if old(self).cardinality == 0 {
                    r == (0i64, 0u128) && *final(self) == *old(self)
                } else if last.initialized && last.timestamp == time {
                    r == (last.tick_cumulative, last.seconds_per_liquidity_q128) && *final(self)
                        == *old(self)
                } else {
                    let next = (old(self).index + 1) % (old(self).cardinality_next as int);
                    let obs = transform_spec(
                        last,
                        time,
                        tick,
                        liquidity,
                        vstd::wrapping::u32_specs::wrapping_sub(time, last.timestamp),
                    );
                    let grown = if old(self).data@.len() < old(self).cardinality_next {
                        old(self).data@ + Seq::new(
                            (old(self).cardinality_next - old(self).data@.len()) as nat,
                            |i: int| empty_observation(),
                        )
                    } else {
                        old(self).data@
                    };
                    &&& r == (obs.tick_cumulative, obs.seconds_per_liquidity_q128)
                    &&& final(self).data@ == grown.update(next, obs)
                    &&& final(self).index == next
                    &&& final(self).cardinality == if next >= old(self).cardinality {
                        next + 1
                    } else {
                        old(self).cardinality as int
                    }
                }
            }),
    {
        if self.cardinality == 0 {
            return (0, 0);
        }
        let last = self.data[self.index as usize];
        // Same block: don't advance the ring.
        if last.initialized && last.timestamp == time {
            return (last.tick_cumulative, last.seconds_per_liquidity_q128);
        }
        // Make the storage cover the requested capacity.
        if self.data.len() < self.cardinality_next as usize {
            self.data.resize(self.cardinality_next as usize, Observation::default());
            assert(self.data@ =~= old(self).data@ + Seq::new(
                (old(self).cardinality_next - old(self).data@.len()) as nat,
                |i: int| empty_observation(),
            ));
        }
        // Advance the ring pointer within the requested capacity.
        let next_index = (self.index + 1) % self.cardinality_next;
        let delta = time.wrapping_sub(last.timestamp);
        let obs = transform(&last, time, tick, liquidity, delta);
        self.data.set(next_index as usize, obs);
        self.index = next_index;
        // The written count grows one slot at a time.
        if next_index >= self.cardinality {
            self.cardinality = next_index + 1;
        }
        (obs.tick_cumulative, obs.seconds_per_liquidity_q128)
    }

    /// Requests the ring to grow to `next` slots (at most `MAX_CARDINALITY`)
    /// on the next write; a smaller request changes nothing.
    pub fn grow(&mut self, next: u16)
        requires
            old(self).wf(),
        ensures
            final(self).wf(),
            final(self).data@ == old(self).data@,
            final(self).index == old(self).index,
            final(self).cardinality == old(self).cardinality,
            final(self).cardinality_next == if next > old(self).cardinality_next {
                next
            } else {
                old(self).cardinality_next
            },
    {
        let next = if next < MAX_CARDINALITY {
            next
        } else {
            MAX_CARDINALITY
        };
        if next > self.cardinality_next {
            self.cardinality_next = next;
        }
    }
}

/// The offset (from the oldest slot) of the last observation that the
/// binary search over `[lo, hi]` finds at or before `target`; `before` when
/// it finds none.
pub open spec fn search_before(
    data: Seq<Observation>,
    target: u32,
    index: int,
    cardinality: int,
    lo: int,
    hi: int,
    before: int,
) -> int
    decreases hi + 1 - lo,
{
    if lo > hi {
        before
    } else {
        let mid = lo + (hi - lo) / 2;
        let obs = data[(index + 1 + mid) % cardinality];
        if obs.initialized && obs.timestamp <= target {
            search_before(data, target, index, cardinality, mid + 1, hi, mid)
        } else if mid == 0 {
            before
        } else {
            search_before(data, target, index, cardinality, lo, mid - 1, before)
        }
    }
}

/// The cumulatives at `target`, between the observations `before` and
/// `after`: `before`'s own when it is at `target`, when `after` was never
/// written, or when they share a timestamp; otherwise linear interpolation,
/// the products wrapping and the quotients truncated.
pub open spec fn interpolate(before: Observation, after: Observation, target: u32) -> (i64, u128) {
    let dt = vstd::wrapping::u32_specs::wrapping_sub(after.timestamp, before.timestamp);
    let dt_target = vstd::wrapping::u32_specs::wrapping_sub(target, before.timestamp);
    if before.timestamp == target || !after.initialized || dt == 0 {
        (before.tick_cumulative, before.seconds_per_liquidity_q128)
    } else {
        let dtc = vstd::wrapping::i64_specs::wrapping_sub(
            after.tick_cumulative,
            before.tick_cumulative,
        );
        let dspl = vstd::wrapping::u128_specs::wrapping_sub(
            after.seconds_per_liquidity_q128,
            before.seconds_per_liquidity_q128,
        );
        (
            vstd::wrapping::i64_specs::wrapping_add(
                before.tick_cumulative,
                trunc_div(
                    vstd::wrapping::i64_specs::wrapping_mul(dtc, dt_target as i64) as int,
                    dt as int,
                ) as i64,
            ),
            vstd::wrapping::u128_specs::wrapping_add(
                before.seconds_per_liquidity_q128,
                (vstd::wrapping::u128_specs::wrapping_mul(dspl, dt_target as u128) / (dt as u128)) as u128,
            ),
        )
    }
}

/// The cumulatives at `target` found in the ring between its oldest and
/// newest observations.
pub open spec fn observe_in_range_spec(data: Seq<Observation>, target: u32, index: int, cardinality: int) -> (i64, u128) {
    let before_off = search_before(data, target, index, cardinality, 0, cardinality - 1, 0);
    interpolate(
        data[(index + 1 + before_off) % cardinality],
        data[(index + 1 + before_off + 1) % cardinality],
        target,
    )
}

/// The cumulatives `seconds_ago` before `time`: extended from the newest
/// observation for now or any time after it, searched in the ring for an
/// earlier time, `None` before the oldest observation.
pub open spec fn observe_single_spec(
    data: Seq<Observation>,
    time: u32,
    seconds_ago: u32,
    tick: i32,
    index: int,
    liquidity: u128,
    cardinality: int,
) -> Option<(i64, u128)> {
    let target = vstd::wrapping::u32_specs::wrapping_sub(time, seconds_ago);
    let last = data[index];
    if seconds_ago == 0 {
        let delta = vstd::wrapping::u32_specs::wrapping_sub(time, last.timestamp);
        if delta == 0 {
            Some((last.tick_cumulative, last.seconds_per_liquidity_q128))
        } else {
            let obs = transform_spec(last, time, tick, liquidity, delta);
            Some((obs.tick_cumulative, obs.seconds_per_liquidity_q128))
        }
    } else if target >= last.timestamp {
        let obs = transform_spec(last, target, tick, liquidity, (target - last.timestamp) as u32);
        Some((obs.tick_cumulative, obs.seconds_per_liquidity_q128))
    } else if cardinality == 1 {
        None
    } else {
        let oldest = data[(index + 1) % cardinality];
        if !oldest.initialized || target < oldest.timestamp {
            None
        } else {
            Some(observe_in_range_spec(data, target, index, cardinality))
        }
    }
}

fn observe_single(
    observations: &[Observation],
    time: u32,
    seconds_ago: u32,
    tick: i32,
    index: u16,
    liquidity: u128,
    cardinality: u16,
) -> (r: Option<(i64, u128)>)
    requires
        index < observations@.len(),
        1 <= cardinality <= observations@.len(),
    ensures
        r == observe_single_spec(
            observations@,
            time,
            seconds_ago,
            tick,
            index as int,
            liquidity,
            cardinality as int,
        ),
{
    let target = time.wrapping_sub(seconds_ago);
    let last = &observations[index as usize];
    // Live state, or a target at or after the last observation.
    if seconds_ago == 0 {
        let delta = time.wrapping_sub(last.timestamp);
        if delta == 0 {
            return Some((last.tick_cumulative, last.seconds_per_liquidity_q128));
        }
        let obs = transform(last, time, tick, liquidity, delta);
        return Some((obs.tick_cumulative, obs.seconds_per_liquidity_q128));
    }
    if target >= last.timestamp {
        let delta = target.wrapping_sub(last.timestamp);
        let obs = transform(last, target, tick, liquidity, delta);
        return Some((obs.tick_cumulative, obs.seconds_per_liquidity_q128));
    }
    // The target is strictly before the last observation.
    if cardinality == 1 {
        return None;
    }
    let oldest_idx = (index as usize + 1) % cardinality as usize;
    let oldest = &observations[oldest_idx];
    if !oldest.initialized || target < oldest.timestamp {
        return None;
    }
    observe_in_range(observations, target, index, cardinality)
}

/// Binary search in the ring for `target`, then interpolation.
fn observe_in_range(observations: &[Observation], target: u32, index: u16, cardinality: u16) -> (r:
    Option<(i64, u128)>)
    requires
        index < observations@.len(),
        2 <= cardinality <= observations@.len(),
    ensures
        r == Some(observe_in_range_spec(observations@, target, index as int, cardinality as int)),
{
    let ghost data = observations@;
    let card = cardinality as usize;
    let mut lo: usize = 0;
    let mut hi: usize = card - 1;
    // Find the last offset whose timestamp is at most the target.
    let mut before_off: usize = 0;
    while lo <= hi
        invariant
            data == observations@,
            2 <= card <= observations@.len(),
            card == cardinality,
            index < observations@.len(),
            hi < card,
            lo <= hi + 1,
            before_off < card,
            search_before(data, target, index as int, card as int, lo as int, hi as int, before_off as int)
                == search_before(data, target, index as int, card as int, 0, card - 1, 0),
        ensures
            before_off < card,
            before_off as int == search_before(data, target, index as int, card as int, 0, card - 1, 0),
        decreases hi + 1 - lo,
    {
        let mid = lo + (hi - lo) / 2;
        let idx = (index as usize + 1 + mid) % card;
        let obs = &observations[idx];
        if obs.initialized && obs.timestamp <= target {
            before_off = mid;
            lo = mid + 1;
        } else {
            if mid == 0 {
                assert(search_before(data, target, index as int, card as int, lo as int, hi as int, before_off as int)
                    == before_off as int);
                break;
            }
            hi = mid - 1;
        }
    }
    let before_idx = (index as usize + 1 + before_off) % card;
    let after_idx = (index as usize + 1 + before_off + 1) % card;
    let before = &observations[before_idx];
    let after = &observations[after_idx];
    if before.timestamp == target {
        return Some((before.tick_cumulative, before.seconds_per_liquidity_q128));
    }
    if !after.initialized {
        return Some((before.tick_cumulative, before.seconds_per_liquidity_q128));
    }
    // Linear interpolation between before and after.
    let dt = after.timestamp.wrapping_sub(before.timestamp) as i64;
    let dt_target = target.wrapping_sub(before.timestamp) as i64;
    if dt == 0 {
        return Some((before.tick_cumulative, before.seconds_per_liquidity_q128));
    }
    let tc = before.tick_cumulative.wrapping_add(
        after.tick_cumulative.wrapping_sub(before.tick_cumulative).wrapping_mul(dt_target) / dt,
    );
    let spl_delta = after.seconds_per_liquidity_q128.wrapping_sub(
        before.seconds_per_liquidity_q128,
    );
    let spl = before.seconds_per_liquidity_q128.wrapping_add(
        spl_delta.wrapping_mul(dt_target as u128) / dt as u128,
    );
    Some((tc, spl))
}

impl OracleBuffer {
    /// The cumulatives at each of `seconds_agos` before `time`, given the
    /// live tick and liquidity; `Unavailable` before the first write or when
    /// some time lies before the oldest observation.
    pub fn observe(&self, time: u32, seconds_agos: &[u32], tick: i32, liquidity: u128) -> (r:
        ObserveResult)
        requires
            self.wf(),
        ensures
            match r {
                ObserveResult::Observed { tick_cumulatives, seconds_per_liquidity } => {
                    &&& self.cardinality > 0
                    &&& tick_cumulatives@.len() == seconds_agos@.len()
                    &&& seconds_per_liquidity@.len() == seconds_agos@.len()
                    &&& forall|i: int|
                        0 <= i < seconds_agos@.len() ==> observe_single_spec(
                            self.data@,
                            time,
                            #[trigger] seconds_agos@[i],
                            tick,
                            self.index as int,
                            liquidity,
                            self.cardinality as int,
                        ) == Some((tick_cumulatives@[i], seconds_per_liquidity@[i]))
                },
                ObserveResult::Unavailable => self.cardinality == 0 || exists|i: int|
                    0 <= i < seconds_agos@.len() && observe_single_spec(
                        self.data@,
                        time,
                        #[trigger] seconds_agos@[i],
                        tick,
                        self.index as int,
                        liquidity,
                        self.cardinality as int,
                    ) is None,
            },
    {
        if self.cardinality == 0 {
            return ObserveResult::Unavailable;
        }
        let mut tick_cumulatives: Vec<i64> = Vec::with_capacity(seconds_agos.len());
        let mut spls: Vec<u128> = Vec::with_capacity(seconds_agos.len());
        let mut i: usize = 0;
        while i < seconds_agos.len()
            invariant
                self.wf(),
                self.cardinality > 0,
                i <= seconds_agos@.len(),
                tick_cumulatives@.len() == i,
                spls@.len() == i,
                forall|j: int|
                    0 <= j < i ==> observe_single_spec(
                        self.data@,
                        time,
                        #[trigger] seconds_agos@[j],
                        tick,
                        self.index as int,
                        liquidity,
                        self.cardinality as int,
                    ) == Some((tick_cumulatives@[j], spls@[j])),
            decreases seconds_agos@.len() - i,
        {
            let seconds_ago = seconds_agos[i];
            match observe_single(
                self.data.as_slice(),
                time,
                seconds_ago,
                tick,
                self.index,
                liquidity,
                self.cardinality,
            ) {
                Some((tc, spl)) => {
                    tick_cumulatives.push(tc);
                    spls.push(spl);
                },
                None => return ObserveResult::Unavailable,
            }
            i += 1;
        }
        ObserveResult::Observed { tick_cumulatives, seconds_per_liquidity: spls }
    }
}

} // verus!
