//! A minimal contract with the ABI's shape: owner-gated administration,
//! pause and tick-range guards, and a flat-fee swap quote.
use vstd::prelude::*;
use crate::types::same_account;

verus! {

/// The least minimum output a swap may ask for: the input less the slippage
/// cap (`max_slippage_bps`, at most 100%).
pub open spec fn slippage_floor(amount_in: u64, max_slippage_bps: u16) -> int {
    let bps: int = if max_slippage_bps > 10_000 { 10_000 } else { max_slippage_bps as int };
    amount_in as int * (10_000 - bps) / 10_000
}

pub type AccountId = [u8; 20];

#[derive(Clone, Copy, PartialEq, Eq, Structural)]
pub enum AssetKind {
    Xrp,
    Issued,
}

#[derive(Clone, Copy)]
pub struct Asset {
    pub kind: AssetKind,
    pub code: [u8; 20],
    pub issuer: AccountId,
}

#[derive(Clone, Copy)]
pub struct PoolKey {
    pub asset0: Asset,
    pub asset1: Asset,
    pub fee_bps: u16,
}

#[derive(Clone, Copy)]
pub struct PoolState {
    pub sqrt_price_q64_64: u128,
    pub current_tick: i32,
    pub liquidity_active: u128,
    pub protocol_fee_share_bps: u16,
    pub fee_growth_global_0_q128: u128,
    pub fee_growth_global_1_q128: u128,
    pub protocol_fees_0: u128,
    pub protocol_fees_1: u128,
}

#[derive(Clone, Copy)]
pub struct TickState {
    pub liquidity_gross: u128,
    pub liquidity_net: i128,
    pub fee_growth_outside_0_q128: u128,
    pub fee_growth_outside_1_q128: u128,
    pub seconds_outside: u64,
    pub tick_cumulative_outside: i128,
    pub seconds_per_liquidity_outside_q128: u128,
}

#[derive(Clone, Copy)]
pub struct PositionState {
    pub owner: AccountId,
    pub lower_tick: i32,
    pub upper_tick: i32,
    pub liquidity: u128,
    pub fee_growth_inside_0_last_q128: u128,
    pub fee_growth_inside_1_last_q128: u128,
    pub tokens_owed_0: u128,
    pub tokens_owed_1: u128,
}

#[derive(PartialEq, Eq, Structural, Debug, Clone, Copy)]
pub enum ContractError {
    InvalidTickRange,
    TickSpacingViolation,
    SlippageLimitExceeded,
    NotAuthorized,
    Paused,
    MathOverflow,
    InvalidLiquidityDelta,
}

pub struct SwapQuote {
    pub amount_in: u64,
    pub amount_out: u64,
    pub end_sqrt_price_q64_64: u128,
    pub crossed_ticks: u32,
}

pub struct ContractConfig {
    pub owner: AccountId,
    pub paused: bool,
    pub max_slippage_bps: u16,
    pub tick_spacing: i32,
}

pub struct UniswapV3XrplContract {
    pub config: ContractConfig,
    pub pool: PoolState,
}

/// The checks of a range: ordered, then on the spacing.
pub open spec fn range_check(lower_tick: i32, upper_tick: i32, tick_spacing: i32) -> Result<(), ContractError> {
    if lower_tick >= upper_tick {
        Err(ContractError::InvalidTickRange)
    } else if lower_tick % tick_spacing != 0 || upper_tick % tick_spacing != 0 {
        Err(ContractError::TickSpacingViolation)
    } else {
        Ok(())
    }
}

/// The quoted output: the input less 0.3% of each whole thousand.
pub open spec fn quoted_out(amount_in: u64) -> u64 {
    (amount_in - (amount_in / 1000) * 3) as u64
}

/// Rust's remainder by a positive divisor is zero exactly when the
/// Euclidean one is.
proof fn lemma_rem_zero(t: i32, d: i32, m: i32)
    requires
        d > 0,
        t >= 0 ==> m == t % d,
        t < 0 ==> m == -((-(t as int)) % (d as int)),
    ensures
        (m == 0) == (t % d == 0),
{
    if t < 0 {
        let u = -(t as int);
        vstd::arithmetic::div_mod::lemma_fundamental_div_mod(t as int, d as int);
        vstd::arithmetic::div_mod::lemma_fundamental_div_mod(u, d as int);
        if t % d == 0 {
            let q = t as int / d as int;
            assert(u == (-q) * d) by (nonlinear_arith)
                requires
                    t == d * q,
                    u == -(t as int),
            ;
            vstd::arithmetic::div_mod::lemma_mod_multiples_basic(-q, d as int);
        }
        if u % (d as int) == 0 {
            let q = u / (d as int);
            assert(t == (-q) * d) by (nonlinear_arith)
                requires
                    u == d * q,
                    u == -(t as int),
            ;
            vstd::arithmetic::div_mod::lemma_mod_multiples_basic(-q, d as int);
        }
    }
}

impl UniswapV3XrplContract {
    /// A contract owned by `owner` at price 1.0, unpaused, with a 1% cap.
    pub fn new(owner: AccountId, tick_spacing: i32) -> (r: Self)
        ensures
            r.config.owner == owner,
            !r.config.paused,
            r.config.max_slippage_bps == 100,
            r.config.tick_spacing == tick_spacing,
            r.pool == (PoolState {
                sqrt_price_q64_64: 0x1_0000_0000_0000_0000u128,
                current_tick: 0,
                liquidity_active: 0,
                protocol_fee_share_bps: 0,
                fee_growth_global_0_q128: 0,
                fee_growth_global_1_q128: 0,
                protocol_fees_0: 0,
                protocol_fees_1: 0,
            }),
    {
        assert(1u128 << 64u32 == 0x1_0000_0000_0000_0000u128) by (bit_vector);
        Self {
            config: ContractConfig { owner, paused: false, max_slippage_bps: 100, tick_spacing },
            pool: PoolState {
                sqrt_price_q64_64: 1u128 << 64u32,
                current_tick: 0,
                liquidity_active: 0,
                protocol_fee_share_bps: 0,
                fee_growth_global_0_q128: 0,
                fee_growth_global_1_q128: 0,
                protocol_fees_0: 0,
                protocol_fees_1: 0,
            },
        }
    }

    fn require_not_paused(&self) -> (r: Result<(), ContractError>)
        ensures
            r == if self.config.paused {
                Err(ContractError::Paused)
            } else {
                Ok::<(), ContractError>(())
            },
    {
        if self.config.paused {
            return Err(ContractError::Paused);
        }
        Ok(())
    }

    fn require_owner(&self, sender: AccountId) -> (r: Result<(), ContractError>)
        ensures
            r == if sender != self.config.owner {
                Err(ContractError::NotAuthorized)
            } else {
                Ok::<(), ContractError>(())
            },
    {
        if !same_account(&sender, &self.config.owner) {
            return Err(ContractError::NotAuthorized);
        }
        Ok(())
    }

    fn validate_ticks(&self, lower_tick: i32, upper_tick: i32) -> (r: Result<(), ContractError>)
        requires
            lower_tick < upper_tick ==> self.config.tick_spacing > 0,
        ensures
            r == range_check(lower_tick, upper_tick, self.config.tick_spacing),
    {
        if lower_tick >= upper_tick {
            return Err(ContractError::InvalidTickRange);
        }
        let lower_rem = lower_tick % self.config.tick_spacing;
        let upper_rem = upper_tick % self.config.tick_spacing;
        proof {
            lemma_rem_zero(lower_tick, self.config.tick_spacing, lower_rem);
            lemma_rem_zero(upper_tick, self.config.tick_spacing, upper_rem);
        }
        if lower_rem != 0 || upper_rem != 0 {
            return Err(ContractError::TickSpacingViolation);
        }
        Ok(())
    }

    /// Position accounting is not kept: always succeeds.
    fn update_position_accounting(
        &mut self,
        _owner: AccountId,
        _lower_tick: i32,
        _upper_tick: i32,
        _liquidity_delta: i128,
    ) -> (r: Result<(), ContractError>)
        ensures
            r == Ok::<(), ContractError>(()),
            final(self).config == old(self).config,
            final(self).pool == old(self).pool,
    {
        Ok(())
    }

    /// A flat 0.3%-per-thousand quote; no input is an error.
    fn execute_swap_math(&mut self, amount_in: u64, _zero_for_one: bool, _sqrt_price_limit_q64_64: u128) -> (r:
        Result<SwapQuote, ContractError>)
        ensures
            final(self).config == old(self).config,
            final(self).pool == old(self).pool,
            amount_in == 0 ==> r == Err::<SwapQuote, ContractError>(ContractError::InvalidLiquidityDelta),
            amount_in != 0 ==> r is Ok && r->Ok_0.amount_in == amount_in && r->Ok_0.amount_out
                == quoted_out(amount_in) && r->Ok_0.end_sqrt_price_q64_64
                == old(self).pool.sqrt_price_q64_64 && r->Ok_0.crossed_ticks == 0,
    {
        if amount_in == 0 {
            return Err(ContractError::InvalidLiquidityDelta);
        }
        let amount_out = amount_in.saturating_sub((amount_in / 1000) * 3);
        Ok(
            SwapQuote {
                amount_in,
                amount_out,
                end_sqrt_price_q64_64: self.pool.sqrt_price_q64_64,
                crossed_ticks: 0,
            },
        )
    }

    /// Owner only: sets the price (at least 2^32) and the protocol share
    /// (at most 2_500 bps).
    pub fn initialize_pool(&mut self, sender: AccountId, sqrt_price_q64_64: u128, protocol_fee_share_bps: u16) -> (r:
        Result<u32, ContractError>)
        ensures
            final(self).config == old(self).config,
            sender != old(self).config.owner ==> r == Err::<u32, ContractError>(
                ContractError::NotAuthorized,
            ) && final(self).pool == old(self).pool,
            sender == old(self).config.owner ==> r == Ok::<u32, ContractError>(0) && final(self).pool
                == (PoolState {
                sqrt_price_q64_64: if sqrt_price_q64_64 < 0x1_0000_0000u128 {
                    0x1_0000_0000u128
                } else {
                    sqrt_price_q64_64
                },
                protocol_fee_share_bps: if protocol_fee_share_bps < 2500 {
                    protocol_fee_share_bps
                } else {
                    2500
                },
                ..old(self).pool
            }),
    {
        match self.require_owner(sender) {
            Ok(_) => {},
            Err(e) => return Err(e),
        }
        assert(1u128 << 32u32 == 0x1_0000_0000u128) by (bit_vector);
        self.pool.sqrt_price_q64_64 = (1u128 << 32u32).max(sqrt_price_q64_64);
        self.pool.protocol_fee_share_bps = protocol_fee_share_bps.min(2500);
        Ok(0)
    }

    /// Adds positive liquidity over a valid range.
    pub fn mint(&mut self, sender: AccountId, lower_tick: i32, upper_tick: i32, liquidity_delta: i128) -> (r:
        Result<u32, ContractError>)
        requires
            !old(self).config.paused && lower_tick < upper_tick ==> old(self).config.tick_spacing > 0,
        ensures
            final(self).config == old(self).config,
            r == if old(self).config.paused {
                Err(ContractError::Paused)
            } else if range_check(lower_tick, upper_tick, old(self).config.tick_spacing) is Err {
                Err(range_check(lower_tick, upper_tick, old(self).config.tick_spacing)->Err_0)
            } else if liquidity_delta <= 0 {
                Err(ContractError::InvalidLiquidityDelta)
            } else {
                Ok::<u32, ContractError>(0)
            },
            r is Ok ==> final(self).pool == (PoolState {
                liquidity_active: old(self).pool.liquidity_active.saturating_add(
                    liquidity_delta as u128,
                ),
                ..old(self).pool
            }),
            r is Err ==> final(self).pool == old(self).pool,
    {
        match self.require_not_paused() {
            Ok(_) => {},
            Err(e) => return Err(e),
        }
        match self.validate_ticks(lower_tick, upper_tick) {
            Ok(_) => {},
            Err(e) => return Err(e),
        }
        if liquidity_delta <= 0 {
            return Err(ContractError::InvalidLiquidityDelta);
        }
        match self.update_position_accounting(sender, lower_tick, upper_tick, liquidity_delta) {
            Ok(_) => {},
            Err(e) => return Err(e),
        }
        self.pool.liquidity_active = self.pool.liquidity_active.saturating_add(liquidity_delta as u128);
        Ok(0)
    }

    /// Removes liquidity (a negative delta) over a valid range.
    pub fn burn(&mut self, sender: AccountId, lower_tick: i32, upper_tick: i32, liquidity_delta: i128) -> (r:
        Result<u32, ContractError>)
        requires
            !old(self).config.paused && lower_tick < upper_tick ==> old(self).config.tick_spacing > 0,
            !old(self).config.paused && range_check(lower_tick, upper_tick, old(self).config.tick_spacing)
                is Ok ==> liquidity_delta != i128::MIN,
        ensures
            final(self).config == old(self).config,
            r == if old(self).config.paused {
                Err(ContractError::Paused)
            } else if range_check(lower_tick, upper_tick, old(self).config.tick_spacing) is Err {
                Err(range_check(lower_tick, upper_tick, old(self).config.tick_spacing)->Err_0)
            } else if liquidity_delta >= 0 {
                Err(ContractError::InvalidLiquidityDelta)
            } else {
                Ok::<u32, ContractError>(0)
            },
            r is Ok ==> final(self).pool == (PoolState {
                liquidity_active: old(self).pool.liquidity_active.saturating_sub(
                    (-liquidity_delta) as u128,
                ),
                ..old(self).pool
            }),
            r is Err ==> final(self).pool == old(self).pool,
    {
        match self.require_not_paused() {
            Ok(_) => {},
            Err(e) => return Err(e),
        }
        match self.validate_ticks(lower_tick, upper_tick) {
            Ok(_) => {},
            Err(e) => return Err(e),
        }
        if liquidity_delta >= 0 {
            return Err(ContractError::InvalidLiquidityDelta);
        }
        match self.update_position_accounting(sender, lower_tick, upper_tick, liquidity_delta) {
            Ok(_) => {},
            Err(e) => return Err(e),
        }
        self.pool.liquidity_active = self.pool.liquidity_active.saturating_sub(
            (-liquidity_delta) as u128,
        );
        Ok(0)
    }

    /// Collects nothing; fails only while paused.
    pub fn collect(
        &mut self,
        _sender: AccountId,
        _lower_tick: i32,
        _upper_tick: i32,
        _max_amount_0: u64,
        _max_amount_1: u64,
    ) -> (r: Result<u32, ContractError>)
        ensures
            final(self).config == old(self).config,
            final(self).pool == old(self).pool,
            r == if old(self).config.paused {
                Err(ContractError::Paused)
            } else {
                Ok::<u32, ContractError>(0)
            },
    {
        match self.require_not_paused() {
            Ok(_) => {},
            Err(e) => return Err(e),
        }
        Ok(0)
    }

    /// Swaps at the flat quote; fails while paused, without input, or below
    /// the minimum output.
    pub fn swap_exact_in(
        &mut self,
        _sender: AccountId,
        amount_in: u64,
        min_amount_out: u64,
        zero_for_one: u8,
        sqrt_price_limit_q64_64: u128,
    ) -> (r: Result<u64, ContractError>)
        ensures
            final(self).config == old(self).config,
            final(self).pool == old(self).pool,
            r == if old(self).config.paused {
                Err(ContractError::Paused)
            } else if amount_in == 0 {
                Err(ContractError::InvalidLiquidityDelta)
            } else if min_amount_out < slippage_floor(amount_in, old(self).config.max_slippage_bps) {
                Err(ContractError::SlippageLimitExceeded)
            } else if quoted_out(amount_in) < min_amount_out {
                Err(ContractError::SlippageLimitExceeded)
            } else {
                Ok::<u64, ContractError>(quoted_out(amount_in))
            },
    {
        match self.require_not_paused() {
            Ok(_) => {},
            Err(e) => return Err(e),
        }
        let quote = match self.execute_swap_math(amount_in, zero_for_one == 1, sqrt_price_limit_q64_64) {
            Ok(q) => q,
            Err(e) => return Err(e),
        };
        // The hard slippage cap: the minimum output may not be below
        // `1 - max_slippage` of the input.
        let bps: u128 = if self.config.max_slippage_bps > 10_000 {
            10_000
        } else {
            self.config.max_slippage_bps as u128
        };
        assert(amount_in as u128 * (10_000 - bps) <= u64::MAX as u128 * 10_000) by (nonlinear_arith)
            requires
                bps <= 10_000,
        ;
        let floor = amount_in as u128 * (10_000 - bps) / 10_000;
        if (min_amount_out as u128) < floor {
            return Err(ContractError::SlippageLimitExceeded);
        }
        if quote.amount_out < min_amount_out {
            return Err(ContractError::SlippageLimitExceeded);
        }
        Ok(quote.amount_out)
    }

    /// Owner only: sets the protocol share, at most 2_500 bps.
    pub fn set_protocol_fee(&mut self, sender: AccountId, protocol_fee_share_bps: u16) -> (r: Result<u32, ContractError>)
        ensures
            final(self).config == old(self).config,
            sender != old(self).config.owner ==> r == Err::<u32, ContractError>(
                ContractError::NotAuthorized,
            ) && final(self).pool == old(self).pool,
            sender == old(self).config.owner ==> r == Ok::<u32, ContractError>(0) && final(self).pool
                == (PoolState {
                protocol_fee_share_bps: if protocol_fee_share_bps < 2500 {
                    protocol_fee_share_bps
                } else {
                    2500
                },
                ..old(self).pool
            }),
    {
        match self.require_owner(sender) {
            Ok(_) => {},
            Err(e) => return Err(e),
        }
        self.pool.protocol_fee_share_bps = protocol_fee_share_bps.min(2500);
        Ok(0)
    }

    /// Owner only: pauses on 1, unpauses on anything else.
    pub fn set_pause(&mut self, sender: AccountId, paused: u8) -> (r: Result<u32, ContractError>)
        ensures
            final(self).pool == old(self).pool,
            sender != old(self).config.owner ==> r == Err::<u32, ContractError>(
                ContractError::NotAuthorized,
            ) && final(self).config == old(self).config,
            sender == old(self).config.owner ==> r == Ok::<u32, ContractError>(0) && final(self).config
                == (ContractConfig { paused: paused == 1, ..old(self).config }),
    {
        match self.require_owner(sender) {
            Ok(_) => {},
            Err(e) => return Err(e),
        }
        self.config.paused = paused == 1;
        Ok(0)
    }
}

} // verus!
