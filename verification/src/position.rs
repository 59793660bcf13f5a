//! Per-position state and fee-collection logic.
use vstd::prelude::*;
use vstd::arithmetic::div_mod::*;
use vstd::arithmetic::mul::*;
use crate::fixed::{two64, two128, lemma_split128, lemma_half_product};
use crate::types::{AccountId, ContractError, same_account};

verus! {

/// How many positions the map can hold.
pub const MAX_POSITIONS: usize = 32;

/// A position is identified by its owner and its tick range.
#[derive(Clone, Copy, PartialEq, Eq)]
pub struct PositionKey {
    pub owner: AccountId,
    pub lower_tick: i32,
    pub upper_tick: i32,
}

/// The state of one position.
#[derive(Clone, Copy, Debug)]
pub struct PositionState {
    pub liquidity: u128,
    pub fee_growth_inside_0_last_q128: u128,
    pub fee_growth_inside_1_last_q128: u128,
    pub tokens_owed_0: u128,
    pub tokens_owed_1: u128,
}

/// The all-zero position state.
pub open spec fn zero_position() -> PositionState {
    PositionState {
        liquidity: 0,
        fee_growth_inside_0_last_q128: 0,
        fee_growth_inside_1_last_q128: 0,
        tokens_owed_0: 0,
        tokens_owed_1: 0,
    }
}

impl Default for PositionState {
    fn default() -> (r: Self)
        ensures
            r == zero_position(),
    {
        PositionState {
            liquidity: 0,
            fee_growth_inside_0_last_q128: 0,
            fee_growth_inside_1_last_q128: 0,
            tokens_owed_0: 0,
            tokens_owed_1: 0,
        }
    }
}

/// A position that is dropped rather than stored: no liquidity and nothing owed.
pub open spec fn spent(p: PositionState) -> bool {
    p.liquidity == 0 && p.tokens_owed_0 == 0 && p.tokens_owed_1 == 0
}

/// What the map stores for a position after an update.
pub open spec fn kept(p: PositionState) -> Option<PositionState> {
    if spent(p) {
        None
    } else {
        Some(p)
    }
}

/// `⌊a·b / 2^128⌋`: the high word of the 256-bit product.
pub open spec fn mul_shift128_spec(a: u128, b: u128) -> u128 {
    (((a as int) * (b as int)) / two128()) as u128
}

/// The fees owed on `liquidity` for the fee growth since `fg_last`.
pub open spec fn tokens_owed_spec(liquidity: u128, fg_now: u128, fg_last: u128) -> u128 {
    mul_shift128_spec(liquidity, vstd::wrapping::u128_specs::wrapping_sub(fg_now, fg_last))
}

/// The position after `update`, or the error it returns.
pub open spec fn position_update_spec(
    pos: PositionState,
    liquidity_delta: i128,
    fee_growth_inside_0: u128,
    fee_growth_inside_1: u128,
) -> Result<PositionState, ContractError> {
    let liq: int = pos.liquidity + liquidity_delta;
    if liquidity_delta >= 0 && liq > u128::MAX {
        Err(ContractError::MathOverflow)
    } else if liquidity_delta < 0 && liq < 0 {
        Err(ContractError::InvalidLiquidityDelta)
    } else {
        let owed_0 = tokens_owed_spec(
            pos.liquidity,
            fee_growth_inside_0,
            pos.fee_growth_inside_0_last_q128,
        );
        let owed_1 = tokens_owed_spec(
            pos.liquidity,
            fee_growth_inside_1,
            pos.fee_growth_inside_1_last_q128,
        );
        Ok(
            PositionState {
                liquidity: liq as u128,
                fee_growth_inside_0_last_q128: fee_growth_inside_0,
                fee_growth_inside_1_last_q128: fee_growth_inside_1,
                tokens_owed_0: pos.tokens_owed_0.saturating_add(owed_0),
                tokens_owed_1: pos.tokens_owed_1.saturating_add(owed_1),
            },
        )
    }
}

/// The growth since `last`, modulo 2^128, is the wrapping difference.
proof fn lemma_growth_since(now: u128, last: u128)
    ensures
        vstd::wrapping::u128_specs::wrapping_sub(now, last) as int == (now - last) % two128(),
{
    assert(two128() == 0x1_0000_0000_0000_0000_0000_0000_0000_0000int);
    if now >= last {
        lemma_small_mod((now - last) as nat, two128() as nat);
    } else {
        lemma_mod_add_multiples_vanish(now - last, two128());
        lemma_small_mod((two128() + (now - last)) as nat, two128() as nat);
    }
}

/// An update accrues fees on the liquidity the position held while they
/// grew: each token's owed amount grows by
/// `⌊liquidity_before · (growth_now − growth_last mod 2^128) / 2^128⌋`
/// (saturating), whatever the liquidity change; then the liquidity moves
/// by the delta and the checkpoints move to the growth given.
pub proof fn lemma_update_accrues_on_held_liquidity(
    pos: PositionState,
    liquidity_delta: i128,
    fee_growth_inside_0: u128,
    fee_growth_inside_1: u128,
)
    requires
        position_update_spec(pos, liquidity_delta, fee_growth_inside_0, fee_growth_inside_1) is Ok,
    ensures
        ({
            let p = position_update_spec(
                pos,
                liquidity_delta,
                fee_growth_inside_0,
                fee_growth_inside_1,
            )->Ok_0;
            let earned_0 = (pos.liquidity as int * ((fee_growth_inside_0
                - pos.fee_growth_inside_0_last_q128) % two128())) / two128();
            let earned_1 = (pos.liquidity as int * ((fee_growth_inside_1
                - pos.fee_growth_inside_1_last_q128) % two128())) / two128();
            &&& p.tokens_owed_0 == if pos.tokens_owed_0 + earned_0 > u128::MAX {
                u128::MAX as int
            } else {
                pos.tokens_owed_0 + earned_0
            }
            &&& p.tokens_owed_1 == if pos.tokens_owed_1 + earned_1 > u128::MAX {
                u128::MAX as int
            } else {
                pos.tokens_owed_1 + earned_1
            }
            &&& p.liquidity == pos.liquidity + liquidity_delta
            &&& p.fee_growth_inside_0_last_q128 == fee_growth_inside_0
            &&& p.fee_growth_inside_1_last_q128 == fee_growth_inside_1
        }),
{
    lemma_growth_since(fee_growth_inside_0, pos.fee_growth_inside_0_last_q128);
    lemma_growth_since(fee_growth_inside_1, pos.fee_growth_inside_1_last_q128);
    lemma_high_word_fits(
        pos.liquidity,
        vstd::wrapping::u128_specs::wrapping_sub(fee_growth_inside_0, pos.fee_growth_inside_0_last_q128),
    );
    lemma_high_word_fits(
        pos.liquidity,
        vstd::wrapping::u128_specs::wrapping_sub(fee_growth_inside_1, pos.fee_growth_inside_1_last_q128),
    );
}

/// The high word of a 256-bit product fits in 128 bits.
proof fn lemma_high_word_fits(a: u128, b: u128)
    ensures
        0 <= ((a as int) * (b as int)) / two128() < two128(),
        mul_shift128_spec(a, b) as int == (a as int * b as int) / two128(),
{
    assert(two128() == 0x1_0000_0000_0000_0000_0000_0000_0000_0000int);
    assert(0 <= (a as int) * (b as int) < two128() * two128()) by (nonlinear_arith)
        requires
            0 <= a < two128(),
            0 <= b < two128(),
    ;
    lemma_div_pos_is_pos(a as int * b as int, two128());
    lemma_div_strictly_bounded_helper((a as int) * (b as int), two128());
}

/// Two updates of one position at the same fee growth accrue the same fees,
/// whatever liquidity changes they make.
pub proof fn lemma_accrual_ignores_delta(
    pos: PositionState,
    delta_a: i128,
    delta_b: i128,
    fee_growth_inside_0: u128,
    fee_growth_inside_1: u128,
)
    requires
        position_update_spec(pos, delta_a, fee_growth_inside_0, fee_growth_inside_1) is Ok,
        position_update_spec(pos, delta_b, fee_growth_inside_0, fee_growth_inside_1) is Ok,
    ensures
        position_update_spec(pos, delta_a, fee_growth_inside_0, fee_growth_inside_1)->Ok_0.tokens_owed_0
            == position_update_spec(pos, delta_b, fee_growth_inside_0, fee_growth_inside_1)->Ok_0.tokens_owed_0,
        position_update_spec(pos, delta_a, fee_growth_inside_0, fee_growth_inside_1)->Ok_0.tokens_owed_1
            == position_update_spec(pos, delta_b, fee_growth_inside_0, fee_growth_inside_1)->Ok_0.tokens_owed_1,
{
    lemma_update_accrues_on_held_liquidity(pos, delta_a, fee_growth_inside_0, fee_growth_inside_1);
    lemma_update_accrues_on_held_liquidity(pos, delta_b, fee_growth_inside_0, fee_growth_inside_1);
}

/// Up to `MAX_POSITIONS` position states keyed by owner and range.
pub struct PositionMap {
    pub keys: [PositionKey; 32],
    pub vals: [PositionState; 32],
    pub len: usize,
}

/// Two keys are the same position.
fn same_key(a: &PositionKey, b: &PositionKey) -> (r: bool)
    ensures
        r == (*a == *b),
{
    if a.lower_tick != b.lower_tick || a.upper_tick != b.upper_tick {
        return false;
    }
    let mut i: usize = 0;
    while i < 20
        invariant
            i <= 20,
            forall|j: int| 0 <= j < i ==> a.owner[j] == b.owner[j],
        decreases 20 - i,
    {
        if a.owner[i] != b.owner[i] {
            return false;
        }
        i += 1;
    }
    assert(a.owner =~= b.owner);
    true
}

impl PositionMap {
    /// Well-formed: within capacity, and no key stored twice.
    pub open spec fn wf(self) -> bool {
        &&& self.len <= MAX_POSITIONS
        &&& forall|i: int, j: int| 0 <= i < j < self.len ==> self.keys[i] != self.keys[j]
    }

    /// Whether `key` has a stored state.
    pub open spec fn holds(self, key: PositionKey) -> bool {
        exists|i: int| 0 <= i < self.len && self.keys[i] == key
    }

    /// The stored state of `key`, if any.
    pub open spec fn lookup(self, key: PositionKey) -> Option<PositionState> {
        if self.holds(key) {
            Some(self.vals[choose|i: int| 0 <= i < self.len && self.keys[i] == key])
        } else {
            None
        }
    }

    /// The state of `key`: its stored state, or all zeros.
    pub open spec fn state_of(self, key: PositionKey) -> PositionState {
        match self.lookup(key) {
            Some(s) => s,
            None => zero_position(),
        }
    }

    /// The slot of a stored key is the one `lookup` reads.
    pub proof fn lemma_slot(self, i: int)
        requires
            self.wf(),
            0 <= i < self.len,
        ensures
            self.lookup(self.keys[i]) == Some(self.vals[i]),
    {
        let t = self.keys[i];
        assert(self.holds(t));
        let k = choose|k: int| 0 <= k < self.len && self.keys[k] == t;
        assert(k == i);
    }

    /// Whether the map is well formed: within its capacity, no key twice.
    pub fn check_wf(&self) -> (r: bool)
        ensures
            r == self.wf(),
    {
        if self.len > 32 {
            return false;
        }
        let mut i: usize = 0;
        while i < self.len
            invariant
                self.len <= 32,
                i <= self.len,
                forall|a: int, b: int| 0 <= a < b < self.len && a < i ==> self.keys[a] != self.keys[b],
            decreases self.len - i,
        {
            let mut j: usize = i + 1;
            while j < self.len
                invariant
                    self.len <= 32,
                    i < self.len,
                    i + 1 <= j <= self.len,
                    forall|b: int| i < b < j ==> self.keys[i as int] != self.keys[b],
                decreases self.len - j,
            {
                let a = self.keys[i];
                let b = self.keys[j];
                if same_account(&a.owner, &b.owner) && a.lower_tick == b.lower_tick && a.upper_tick
                    == b.upper_tick {
                    return false;
                }
                j += 1;
            }
            i += 1;
        }
        true
    }

    /// An empty map, every slot holding the zero key and a zero position.
    pub fn new() -> (r: Self)
        ensures
            r.wf(),
            r.len == 0,
            forall|k: PositionKey| #[trigger] r.lookup(k) == None::<PositionState>,
            forall|i: int|
                0 <= i < 32 ==> #[trigger] r.keys[i] == (PositionKey {
                    owner: vstd::array::spec_array_fill_for_copy_type::<u8, 20>(0u8),
                    lower_tick: 0,
                    upper_tick: 0,
                }) && r.vals[i] == zero_position(),
    {
        let k = PositionKey { owner: [0u8; 20], lower_tick: 0, upper_tick: 0 };
        let v = PositionState::default();
        Self { keys: [k; 32], vals: [v; 32], len: 0 }
    }

    /// The slot holding `key`, if any.
    pub(crate) fn find(&self, key: &PositionKey) -> (r: Option<usize>)
        requires
            self.wf(),
        ensures
            match r {
                Some(i) => i < self.len && self.keys[i as int] == *key,
                None => !self.holds(*key),
            },
    {
        let mut i: usize = 0;
        while i < self.len
            invariant
                self.wf(),
                i <= self.len,
                forall|j: int| 0 <= j < i ==> self.keys[j] != *key,
            decreases self.len - i,
        {
            if same_key(&self.keys[i], key) {
                return Some(i);
            }
            i += 1;
        }
        None
    }

    /// The state of `key`, all zeros when it has none.
    pub fn get(&self, key: &PositionKey) -> (r: PositionState)
        requires
            self.wf(),
        ensures
            r == self.state_of(*key),
    {
        match self.find(key) {
            Some(i) => {
                proof {
                    self.lemma_slot(i as int);
                }
                self.vals[i]
            },
            None => PositionState::default(),
        }
    }

    /// Removes `key` if stored, or stores `pos` for it.
    fn store(&mut self, key: PositionKey, pos: PositionState, remove: bool)
        requires
            old(self).wf(),
            remove || old(self).holds(key) || old(self).len < MAX_POSITIONS,
        ensures
            final(self).wf(),
            forall|k: PositionKey| #[trigger]
                final(self).lookup(k) == if k == key {
                    if remove {
                        None
                    } else {
                        Some(pos)
                    }
                } else {
                    old(self).lookup(k)
                },
    {
        let ghost before = *self;
        if remove {
            if let Some(i) = self.find(&key) {
                self.len = self.len - 1;
                let last = self.len;
                self.keys[i] = self.keys[last];
                self.vals[i] = self.vals[last];
                proof {
                    assert forall|t: PositionKey| #[trigger]
                        self.lookup(t) == if t == key {
                            None
                        } else {
                            before.lookup(t)
                        } by {
                        if t == key {
                            if self.holds(t) {
                                let k = choose|k: int| 0 <= k < self.len && self.keys[k] == t;
                                if k == i {
                                    assert(before.keys[last as int] == key);
                                } else {
                                    assert(before.keys[k] == key);
                                }
                            }
                        } else if before.holds(t) {
                            let k = choose|k: int| 0 <= k < before.len && before.keys[k] == t;
                            before.lemma_slot(k);
                            if k == last {
                                self.lemma_slot(i as int);
                            } else {
                                self.lemma_slot(k);
                            }
                        } else {
                            if self.holds(t) {
                                let k = choose|k: int| 0 <= k < self.len && self.keys[k] == t;
                                if k == i {
                                    assert(before.keys[last as int] == t);
                                } else {
                                    assert(before.keys[k] == t);
                                }
                            }
                        }
                    }
                }
            }
        } else {
            match self.find(&key) {
                Some(i) => {
                    self.vals[i] = pos;
                    proof {
                        assert forall|t: PositionKey| #[trigger]
                            self.lookup(t) == if t == key {
                                Some(pos)
                            } else {
                                before.lookup(t)
                            } by {
                            if t == key {
                                self.lemma_slot(i as int);
                            } else if before.holds(t) {
                                let k = choose|k: int| 0 <= k < before.len && before.keys[k] == t;
                                before.lemma_slot(k);
                                self.lemma_slot(k);
                            } else {
                                if self.holds(t) {
                                    let k = choose|k: int| 0 <= k < self.len && self.keys[k] == t;
                                    assert(before.keys[k] == t);
                                }
                            }
                        }
                    }
                },
                None => {
                    let i = self.len;
                    self.keys[i] = key;
                    self.vals[i] = pos;
                    self.len = self.len + 1;
                    proof {
                        assert forall|t: PositionKey| #[trigger]
                            self.lookup(t) == if t == key {
                                Some(pos)
                            } else {
                                before.lookup(t)
                            } by {
                            if t == key {
                                self.lemma_slot(i as int);
                            } else if before.holds(t) {
                                let k = choose|k: int| 0 <= k < before.len && before.keys[k] == t;
                                before.lemma_slot(k);
                                self.lemma_slot(k);
                            } else {
                                if self.holds(t) {
                                    let k = choose|k: int| 0 <= k < self.len && self.keys[k] == t;
                                    assert(before.keys[k] == t);
                                }
                            }
                        }
                    }
                },
            }
        }
    }

    /// Accrues the fees owed since the last checkpoint, applies the
    /// liquidity change and moves the checkpoint to the given fee growth.
    /// A position left with no liquidity and nothing owed is removed.
    /// Returns the new state; on an error the map is unchanged.
    pub fn update(
        &mut self,
        key: PositionKey,
        liquidity_delta: i128,
        fee_growth_inside_0: u128,
        fee_growth_inside_1: u128,
    ) -> (r: Result<PositionState, ContractError>)
        requires
            old(self).wf(),
            liquidity_delta != i128::MIN,
            match position_update_spec(
                old(self).state_of(key),
                liquidity_delta,
                fee_growth_inside_0,
                fee_growth_inside_1,
            ) {
                Ok(p) => spent(p) || old(self).holds(key) || old(self).len < MAX_POSITIONS,
                Err(_) => true,
            },
        ensures
            final(self).wf(),
            r == position_update_spec(
                old(self).state_of(key),
                liquidity_delta,
                fee_growth_inside_0,
                fee_growth_inside_1,
            ),
            match r {
                Ok(p) => forall|k: PositionKey| #[trigger]
                    final(self).lookup(k) == if k == key {
                        kept(p)
                    } else {
                        old(self).lookup(k)
                    },
                Err(_) => *final(self) == *old(self),
            },
    {
        let mut pos = self.get(&key);
        let owed_0 = tokens_owed(pos.liquidity, fee_growth_inside_0, pos.fee_growth_inside_0_last_q128);
        let owed_1 = tokens_owed(pos.liquidity, fee_growth_inside_1, pos.fee_growth_inside_1_last_q128);
        pos.tokens_owed_0 = pos.tokens_owed_0.saturating_add(owed_0);
        pos.tokens_owed_1 = pos.tokens_owed_1.saturating_add(owed_1);
        pos.liquidity = if liquidity_delta >= 0 {
            match pos.liquidity.checked_add(liquidity_delta as u128) {
                Some(v) => v,
                None => return Err(ContractError::MathOverflow),
            }
        } else {
            match pos.liquidity.checked_sub((-liquidity_delta) as u128) {
                Some(v) => v,
                None => return Err(ContractError::InvalidLiquidityDelta),
            }
        };
        pos.fee_growth_inside_0_last_q128 = fee_growth_inside_0;
        pos.fee_growth_inside_1_last_q128 = fee_growth_inside_1;
        let remove = pos.liquidity == 0 && pos.tokens_owed_0 == 0 && pos.tokens_owed_1 == 0;
        self.store(key, pos, remove);
        Ok(pos)
    }

    /// Pays out up to `max_0` / `max_1` of the tokens owed to `key`: returns
    /// `min(owed, max)` for each token and deducts it.  A position left with
    /// no liquidity and nothing owed is removed; an unknown key yields (0, 0).
    pub fn collect(&mut self, key: PositionKey, max_0: u64, max_1: u64) -> (r: (u64, u64))
        requires
            old(self).wf(),
        ensures
            final(self).wf(),
            r.0 as int == if old(self).state_of(key).tokens_owed_0 < max_0 {
                old(self).state_of(key).tokens_owed_0 as int
            } else {
                max_0 as int
            },
            r.1 as int == if old(self).state_of(key).tokens_owed_1 < max_1 {
                old(self).state_of(key).tokens_owed_1 as int
            } else {
                max_1 as int
            },
            forall|k: PositionKey| #[trigger]
                final(self).lookup(k) == if k == key && old(self).holds(key) {
                    kept(
                        PositionState {
                            tokens_owed_0: (old(self).state_of(key).tokens_owed_0 - r.0) as u128,
                            tokens_owed_1: (old(self).state_of(key).tokens_owed_1 - r.1) as u128,
                            ..old(self).state_of(key)
                        },
                    )
                } else {
                    old(self).lookup(k)
                },
    {
        let mut pos = self.get(&key);
        let collect_0 = (pos.tokens_owed_0.min(max_0 as u128)) as u64;
        let collect_1 = (pos.tokens_owed_1.min(max_1 as u128)) as u64;
        pos.tokens_owed_0 = pos.tokens_owed_0 - collect_0 as u128;
        pos.tokens_owed_1 = pos.tokens_owed_1 - collect_1 as u128;
        let remove = pos.liquidity == 0 && pos.tokens_owed_0 == 0 && pos.tokens_owed_1 == 0;
        if remove {
            self.store(key, pos, true);
        } else if let Some(_) = self.find(&key) {
            self.store(key, pos, false);
        }
        (collect_0, collect_1)
    }
}

/// Fees owed on `liquidity` for the fee growth `fg_now − fg_last` (wrapping).
pub fn tokens_owed(liquidity: u128, fg_now: u128, fg_last: u128) -> (r: u128)
    ensures
        r == tokens_owed_spec(liquidity, fg_now, fg_last),
{
    let delta = fg_now.wrapping_sub(fg_last);
    mul_shift128(liquidity, delta)
}

/// The high word of a 256-bit product, assembled from half-word partial
/// products with carries.
proof fn lemma_mul_shift128(a: int, b: int, ah: int, al: int, bh: int, bl: int)
    requires
        0 <= ah < two64(),
        0 <= al < two64(),
        0 <= bh < two64(),
        0 <= bl < two64(),
        a == two64() * ah + al,
        b == two64() * bh + bl,
    ensures
        ({
            let B = two64();
            let ll = al * bl;
            let lh = al * bh;
            let hl = ah * bl;
            let hh = ah * bh;
            let mid = ll / B + lh % B + hl % B;
            (a * b) / (B * B) == hh + lh / B + hl / B + mid / B
        }),
{
    let B = two64();
    let ll = al * bl;
    let lh = al * bh;
    let hl = ah * bl;
    let hh = ah * bh;
    let mid = ll / B + lh % B + hl % B;
    lemma_fundamental_div_mod(ll, B);
    lemma_fundamental_div_mod(lh, B);
    lemma_fundamental_div_mod(hl, B);
    lemma_fundamental_div_mod(mid, B);
    lemma_mul_nonnegative(al, bl);
    lemma_mul_nonnegative(al, bh);
    lemma_mul_nonnegative(ah, bl);
    lemma_mul_nonnegative(ah, bh);
    crate::math::lemma_expand_halves(B, ah, al, bh, bl);
    assert(a * b == B * (hh * B + hl + lh) + ll);
    let q = hh + lh / B + hl / B + mid / B;
    let r = (mid % B) * B + ll % B;
    assert(0 <= r < B * B) by (nonlinear_arith)
        requires
            0 <= mid % B < B,
            0 <= ll % B < B,
            r == (mid % B) * B + ll % B,
    ;
    lemma_recombine(B, a * b, hh, hl, lh, ll, hl / B, hl % B, lh / B, lh % B, ll / B, ll % B,
        mid / B, mid % B);
    lemma_fundamental_div_mod_converse(a * b, B * B, q, r);
}

/// Regrouping of the partial products by powers of the base.
proof fn lemma_recombine(
    B: int,
    ab: int,
    hh: int,
    hl: int,
    lh: int,
    ll: int,
    qhl: int,
    rhl: int,
    qlh: int,
    rlh: int,
    qll: int,
    rll: int,
    qm: int,
    rm: int,
)
    by (nonlinear_arith)
    requires
        ab == B * (hh * B + hl + lh) + ll,
        hl == B * qhl + rhl,
        lh == B * qlh + rlh,
        ll == B * qll + rll,
        qll + rlh + rhl == B * qm + rm,
    ensures
        ab == (hh + qlh + qhl + qm) * (B * B) + (rm * B + rll),
{
}

/// `⌊a·b / 2^128⌋`, computed from 64-bit halves.
pub fn mul_shift128(a: u128, b: u128) -> (r: u128)
    ensures
        r == mul_shift128_spec(a, b),
{
    proof {
        lemma_split128(a);
        lemma_split128(b);
    }
    let a_lo = a & 0xFFFF_FFFF_FFFF_FFFFu128;
    let a_hi = a >> 64;
    let b_lo = b & 0xFFFF_FFFF_FFFF_FFFFu128;
    let b_hi = b >> 64;
    proof {
        lemma_half_product(a_lo as int, b_lo as int);
        lemma_half_product(a_lo as int, b_hi as int);
        lemma_half_product(a_hi as int, b_lo as int);
        lemma_half_product(a_hi as int, b_hi as int);
        lemma_fundamental_div_mod(a as int, two64());
        lemma_fundamental_div_mod(b as int, two64());
    }
    let ll = a_lo * b_lo;
    let lh = a_lo * b_hi;
    let hl = a_hi * b_lo;
    let hh = a_hi * b_hi;
    proof {
        lemma_split128(ll);
        lemma_split128(lh);
        lemma_split128(hl);
    }
    let mid = (ll >> 64).wrapping_add(lh & 0xFFFF_FFFF_FFFF_FFFFu128).wrapping_add(
        hl & 0xFFFF_FFFF_FFFF_FFFFu128,
    );
    proof {
        lemma_split128(mid);
        lemma_mul_shift128(a as int, b as int, a_hi as int, a_lo as int, b_hi as int, b_lo as int);
        let B = two64();
        assert(B * B == two128());
        assert((a as int) * (b as int) < (B * B) * (B * B)) by (nonlinear_arith)
            requires
                0 <= a < B * B,
                0 <= b < B * B,
        ;
        assert((a as int) * (b as int) >= 0) by (nonlinear_arith)
            requires
                0 <= a,
                0 <= b,
        ;
        lemma_div_strictly_bounded_helper((a as int) * (b as int), B * B);
    }
    let carry = mid >> 64;
    hh.wrapping_add(lh >> 64).wrapping_add(hl >> 64).wrapping_add(carry)
}

/// A value below `d·d` divided by `d` stays below `d`.
proof fn lemma_div_strictly_bounded_helper(x: int, d: int)
    requires
        0 < d,
        0 <= x < d * d,
    ensures
        x / d < d,
{
    lemma_fundamental_div_mod(x, d);
    assert(x / d < d) by (nonlinear_arith)
        requires
            x == d * (x / d) + x % d,
            0 <= x % d,
            x < d * d,
            0 < d,
    ;
}

} // verus!
