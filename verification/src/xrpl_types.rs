//! XRPL JSON-RPC response shapes, as plain values.
//!
//! These map 1-to-1 to the XRPL wire format.
use vstd::prelude::*;
use vstd::utf8::encode_utf8;
use crate::decimal::{parse_u128, parse_u128_spec, scaled_micro, scaled_micro_spec};

verus! {

/// XRPL amounts are polymorphic: XRP is a decimal string (drops), issued
/// tokens are an object `{ value, currency, issuer }`.
#[derive(Debug, Clone)]
pub enum AmountField {
    /// XRP in drops, represented as a decimal string.
    Xrp(String),
    /// Issued token.
    Token { value: String, currency: String, issuer: String },
}

impl AmountField {
    /// What `parse_raw` gives: the drops for XRP (zero when the text is not
    /// an unsigned integer that fits), the token value scaled by 10^6 for a
    /// token.
    pub open spec fn raw_value(&self) -> u128 {
        match self {
            AmountField::Xrp(s) => match parse_u128_spec(encode_utf8(s@)) {
                Some(v) => v,
                None => 0,
            },
            AmountField::Token { value, .. } => scaled_micro_spec(encode_utf8(value@)),
        }
    }

    /// Parse the value as a `u128` of smallest units (drops for XRP,
    /// the value scaled by 10^6 for tokens: six decimal places).
    ///
    /// A token value is scaled exactly from its decimal text, `⌊v · 10^6⌋`.
    /// Reading it as an `f64` and truncating the float product instead can
    /// land one unit lower where that product falls just below an integer
    /// ("0.031373" gives 31373 here, 31372 through `f64`).
    pub fn parse_raw(&self) -> (r: u128)
        ensures
            r == self.raw_value(),
    {
        match self {
            AmountField::Xrp(s) => match parse_u128(s.as_str().as_bytes()) {
                Some(v) => v,
                None => 0,
            },
            AmountField::Token { value, .. } => scaled_micro(value.as_str().as_bytes()),
        }
    }

    /// The currency code: `XRP` for XRP.
    pub fn currency(&self) -> (r: &str)
        ensures
            r@ == match self {
                AmountField::Xrp(_) => "XRP"@,
                AmountField::Token { currency, .. } => currency@,
            },
    {
        match self {
            AmountField::Xrp(_) => "XRP",
            AmountField::Token { currency, .. } => currency.as_str(),
        }
    }

    /// The issuer, absent for XRP.
    pub fn issuer(&self) -> (r: Option<&str>)
        ensures
            match self {
                AmountField::Xrp(_) => r is None,
                AmountField::Token { issuer, .. } => r is Some && r->0@ == issuer@,
            },
    {
        match self {
            AmountField::Xrp(_) => None,
            AmountField::Token { issuer, .. } => Some(issuer.as_str()),
        }
    }
}

/// The LP token of an AMM pool.
#[derive(Debug, Clone)]
pub struct LpTokenInfo {
    pub value: String,
    pub currency: String,
    pub issuer: String,
}

/// The AMM's auction slot.
#[derive(Debug, Clone)]
pub struct AuctionSlot {
    pub price: AmountField,
    pub time_interval: Option<u32>,
    pub expiration: Option<u32>,
}

/// A trust line of an account.
#[derive(Debug, Clone)]
pub struct TrustLine {
    pub currency: String,
    /// The counterparty address (the wire field is `account`).
    pub issuer: String,
    /// Positive = asset held, negative = liability.
    pub balance: String,
    pub limit: String,
    pub limit_peer: Option<String>,
}

} // verus!
