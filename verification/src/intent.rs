//! The structured intent that the router model emits for a user request.
use vstd::prelude::*;

verus! {

/// What the user asks for.
#[derive(Debug, Clone, Copy, PartialEq, Eq)]
pub enum IntentAction {
    AnalyzeRisk,
    ExecuteStrategy,
    CheckPosition,
    GetPrice,
}

/// What the request is about.
#[derive(Debug, Clone, Copy, PartialEq, Eq)]
pub enum IntentScope {
    Portfolio,
    SpecificAsset,
    SpecificPool,
}

/// The parameters the router extracted.
#[derive(Debug, Clone, PartialEq)]
pub struct IntentParameters {
    /// XRPL wallet address of the user (r-address).
    pub wallet_address: Option<String>,
    /// Pool label, e.g. "XRP/USD".
    pub pool: Option<String>,
    /// Optional focus area, e.g. "impermanent_loss".
    pub focus: Option<String>,
}

impl Default for IntentParameters {
    /// No parameters.
    fn default() -> (r: Self)
        ensures
            r.wallet_address is None,
            r.pool is None,
            r.focus is None,
    {
        IntentParameters { wallet_address: None, pool: None, focus: None }
    }
}

} // verus!
