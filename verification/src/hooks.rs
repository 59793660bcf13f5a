//! Lifecycle hooks: checks that may veto a swap, mint or burn before it
//! touches any state.
//!
//! A hook is chosen by `HookId`; every method of `Hook` defaults to allowing
//! the operation.
use vstd::prelude::*;
use crate::types::ContractError;

verus! {

/// Read-only pool state snapshot passed into every hook call.
#[derive(Clone, Copy)]
pub struct HookContext {
    pub current_tick: i32,
    pub sqrt_price: u128,
    pub liquidity: u128,
    pub fee_bps: u16,
}

/// Swap outcome passed to `after_swap`.
#[derive(Clone, Copy)]
pub struct SwapOutcome {
    pub amount_in: u64,
    pub amount_out: u64,
    pub sqrt_price_after: u128,
    pub tick_after: i32,
    pub ticks_crossed: u32,
}

/// Lifecycle callbacks; each allows the operation unless overridden: the
/// provided methods return `Ok`.
pub trait Hook {
    fn before_swap(&self, ctx: &HookContext, zero_for_one: bool, amount_in: u64) -> (r: Result<(), ContractError>)
        default_ensures
            r == Ok::<(), ContractError>(()),
    {
        Ok(())
    }

    fn after_swap(&self, ctx: &HookContext, outcome: &SwapOutcome) -> (r: Result<(), ContractError>)
        default_ensures
            r == Ok::<(), ContractError>(()),
    {
        Ok(())
    }

    fn before_mint(&self, ctx: &HookContext, lower: i32, upper: i32, liquidity_delta: u128) -> (r: Result<(), ContractError>)
        default_ensures
            r == Ok::<(), ContractError>(()),
    {
        Ok(())
    }

    fn after_mint(&self, ctx: &HookContext, lower: i32, upper: i32, liquidity_delta: u128) -> (r: Result<(), ContractError>)
        default_ensures
            r == Ok::<(), ContractError>(()),
    {
        Ok(())
    }

    fn before_burn(&self, ctx: &HookContext, lower: i32, upper: i32, liquidity_delta: u128) -> (r: Result<(), ContractError>)
        default_ensures
            r == Ok::<(), ContractError>(()),
    {
        Ok(())
    }

    fn after_burn(&self, ctx: &HookContext, lower: i32, upper: i32, liquidity_delta: u128) -> (r: Result<(), ContractError>)
        default_ensures
            r == Ok::<(), ContractError>(()),
    {
        Ok(())
    }
}

/// Which hook a pool runs; stored in one byte.
#[derive(Clone, Copy, PartialEq, Eq, Structural, Debug, Default)]
pub enum HookId {
    /// No hook. All lifecycle calls are no-ops.
    #[default]
    NoHook,
    /// Rejects swaps larger than 5% of active liquidity and positions narrower
    /// than 200 ticks.
    ConservativeHedge,
    /// Requires new positions to straddle the current tick so liquidity is
    /// immediately active.
    YieldRebalance,
}

/// The byte of each hook id.
pub open spec fn hook_byte(id: HookId) -> u8 {
    match id {
        HookId::NoHook => 0,
        HookId::ConservativeHedge => 1,
        HookId::YieldRebalance => 2,
    }
}

/// The hook id a byte names: unknown bytes name no hook.
pub open spec fn hook_of_byte(v: u8) -> HookId {
    if v == 1 {
        HookId::ConservativeHedge
    } else if v == 2 {
        HookId::YieldRebalance
    } else {
        HookId::NoHook
    }
}

impl HookId {
    pub fn from_u8(v: u8) -> (r: Self)
        ensures
            r == hook_of_byte(v),
    {
        match v {
            1 => HookId::ConservativeHedge,
            2 => HookId::YieldRebalance,
            _ => HookId::NoHook,
        }
    }

    pub fn to_u8(self) -> (r: u8)
        ensures
            r == hook_byte(self),
    {
        match self {
            HookId::NoHook => 0,
            HookId::ConservativeHedge => 1,
            HookId::YieldRebalance => 2,
        }
    }
}

/// Reading back the byte of a hook id gives the id.
pub proof fn lemma_hook_id_round_trip(id: HookId)
    ensures
        hook_of_byte(hook_byte(id)) == id,
{
}

/// What the conservative hook says to a swap: too large when the pool has
/// liquidity and the input exceeds a twentieth (5%) of it.
pub open spec fn conservative_swap(ctx: HookContext, amount_in: u64) -> Result<(), ContractError> {
    if ctx.liquidity > 0 && amount_in > ctx.liquidity / 20 {
        Err(ContractError::SlippageLimitExceeded)
    } else {
        Ok(())
    }
}

/// What the conservative hook says to a mint: narrower than 200 ticks fails.
pub open spec fn conservative_mint(lower: i32, upper: i32) -> Result<(), ContractError> {
    if upper - lower < 200 {
        Err(ContractError::InvalidTickRange)
    } else {
        Ok(())
    }
}

/// What the yield hook says to a mint: the range must strictly straddle the
/// current tick.
pub open spec fn yield_mint(ctx: HookContext, lower: i32, upper: i32) -> Result<(), ContractError> {
    if ctx.current_tick <= lower || ctx.current_tick >= upper {
        Err(ContractError::InvalidTickRange)
    } else {
        Ok(())
    }
}

/// The hook that allows everything.
pub struct NoopHook;

impl Hook for NoopHook {

}

/// Caps swaps at 5% of active liquidity and positions at 200 ticks' width.
pub struct ConservativeHedgeHook;

impl Hook for ConservativeHedgeHook {
    fn before_swap(&self, ctx: &HookContext, zero_for_one: bool, amount_in: u64) -> (r: Result<(), ContractError>)
        ensures
            r == conservative_swap(*ctx, amount_in),
    {
        if ctx.liquidity > 0 {
            // 5% of liquidity.
            let cap = ctx.liquidity / 20;
            if amount_in as u128 > cap {
                return Err(ContractError::SlippageLimitExceeded);
            }
        }
        Ok(())
    }

    fn before_mint(&self, ctx: &HookContext, lower: i32, upper: i32, liquidity_delta: u128) -> (r: Result<(), ContractError>)
        ensures
            r == conservative_mint(lower, upper),
    {
        if (upper as i64) - (lower as i64) < 200 {
            return Err(ContractError::InvalidTickRange);
        }
        Ok(())
    }
}

/// Requires new positions to straddle the current tick.
pub struct YieldRebalanceHook;

impl Hook for YieldRebalanceHook {
    fn before_mint(&self, ctx: &HookContext, lower: i32, upper: i32, liquidity_delta: u128) -> (r: Result<(), ContractError>)
        ensures
            r == yield_mint(*ctx, lower, upper),
    {
        if ctx.current_tick <= lower || ctx.current_tick >= upper {
            return Err(ContractError::InvalidTickRange);
        }
        Ok(())
    }
}

/// The hook a pool runs, chosen by its id.
pub struct SelectedHook {
    pub id: HookId,
}

impl Hook for SelectedHook {
    fn before_swap(&self, ctx: &HookContext, zero_for_one: bool, amount_in: u64) -> (r: Result<(), ContractError>)
        ensures
            r == if self.id == HookId::ConservativeHedge {
                conservative_swap(*ctx, amount_in)
            } else {
                Ok(())
            },
    {
        match self.id {
            HookId::ConservativeHedge => ConservativeHedgeHook.before_swap(ctx, zero_for_one, amount_in),
            HookId::YieldRebalance => Ok(()),
            HookId::NoHook => Ok(()),
        }
    }

    fn after_swap(&self, ctx: &HookContext, outcome: &SwapOutcome) -> (r: Result<(), ContractError>)
        ensures
            r == Ok::<(), ContractError>(()),
    {
        Ok(())
    }

    fn before_mint(&self, ctx: &HookContext, lower: i32, upper: i32, liquidity_delta: u128) -> (r: Result<(), ContractError>)
        ensures
            r == match self.id {
                HookId::ConservativeHedge => conservative_mint(lower, upper),
                HookId::YieldRebalance => yield_mint(*ctx, lower, upper),
                HookId::NoHook => Ok(()),
            },
    {
        match self.id {
            HookId::ConservativeHedge => ConservativeHedgeHook.before_mint(ctx, lower, upper, liquidity_delta),
            HookId::YieldRebalance => YieldRebalanceHook.before_mint(ctx, lower, upper, liquidity_delta),
            HookId::NoHook => Ok(()),
        }
    }

    fn after_mint(&self, ctx: &HookContext, lower: i32, upper: i32, liquidity_delta: u128) -> (r: Result<(), ContractError>)
        ensures
            r == Ok::<(), ContractError>(()),
    {
        Ok(())
    }

    fn before_burn(&self, ctx: &HookContext, lower: i32, upper: i32, liquidity_delta: u128) -> (r: Result<(), ContractError>)
        ensures
            r == Ok::<(), ContractError>(()),
    {
        Ok(())
    }

    fn after_burn(&self, ctx: &HookContext, lower: i32, upper: i32, liquidity_delta: u128) -> (r: Result<(), ContractError>)
        ensures
            r == Ok::<(), ContractError>(()),
    {
        Ok(())
    }
}

/// The hook for the given id.
pub fn get(id: HookId) -> (r: SelectedHook)
    ensures
        r.id == id,
{
    SelectedHook { id }
}

} // verus!
