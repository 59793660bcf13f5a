//! Types shared by every contract module.
use vstd::prelude::*;

verus! {

/// A 20-byte XRPL account identifier.
pub type AccountId = [u8; 20];

/// The kind of asset on one side of a pool.
#[derive(Clone, Copy, PartialEq, Eq, Structural)]
pub enum AssetKind {
    Xrp,
    Issued,
}

/// One side of a pool: its kind, currency code and issuer.
#[derive(Clone, Copy)]
pub struct Asset {
    pub kind: AssetKind,
    pub code: [u8; 20],
    pub issuer: AccountId,
}

/// The identity of a pool: its two assets and fee tier.
#[derive(Clone, Copy)]
pub struct PoolKey {
    pub asset0: Asset,
    pub asset1: Asset,
    pub fee_bps: u16,
}

/// Errors returned by the contract's operations.
#[derive(Debug, PartialEq, Eq, Structural, Clone, Copy)]
pub enum ContractError {
    InvalidTickRange,
    TickSpacingViolation,
    SlippageLimitExceeded,
    NotAuthorized,
    Paused,
    MathOverflow,
    InvalidLiquidityDelta,
    PoolNotInitialized,
}

/// The ABI error code of each error.
pub open spec fn error_code(e: ContractError) -> u32 {
    match e {
        ContractError::InvalidTickRange => 1,
        ContractError::TickSpacingViolation => 2,
        ContractError::SlippageLimitExceeded => 3,
        ContractError::NotAuthorized => 4,
        ContractError::Paused => 5,
        ContractError::MathOverflow => 6,
        ContractError::InvalidLiquidityDelta => 7,
        ContractError::PoolNotInitialized => 8,
    }
}

/// Whether two accounts are the same.
pub fn same_account(a: &AccountId, b: &AccountId) -> (r: bool)
    ensures
        r == (*a == *b),
{
    let mut i: usize = 0;
    while i < 20
        invariant
            i <= 20,
            forall|j: int| 0 <= j < i ==> a[j] == b[j],
        decreases 20 - i,
    {
        if a[i] != b[i] {
            return false;
        }
        i += 1;
    }
    assert(*a =~= *b);
    true
}

impl ContractError {
    /// Error code mapping for ABI return values.
    pub fn code(&self) -> (c: u32)
        ensures
            c == error_code(*self),
            1 <= c <= 8,
    {
        match self {
            ContractError::InvalidTickRange => 1,
            ContractError::TickSpacingViolation => 2,
            ContractError::SlippageLimitExceeded => 3,
            ContractError::NotAuthorized => 4,
            ContractError::Paused => 5,
            ContractError::MathOverflow => 6,
            ContractError::InvalidLiquidityDelta => 7,
            ContractError::PoolNotInitialized => 8,
        }
    }
}

} // verus!
