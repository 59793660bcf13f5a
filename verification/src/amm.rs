//! AMM swap events from raw XRPL transactions.
use vstd::prelude::*;
use vstd::string::StringSliceAdditionalSpecFns;
use vstd::utf8::encode_utf8;
use crate::decimal::{parse_u128, parse_u128_spec};
use crate::replay;
use crate::xrpl_types::AmountField;

verus! {

broadcast use {vstd::utf8::encode_utf8_decode_utf8, vstd::utf8::encode_utf8_valid_utf8};

/// Seconds between the Unix epoch and the XRPL epoch (2000-01-01).
pub const XRPL_EPOCH_OFFSET: u64 = 946_684_800u64;

/// A minimal swap event parsed from a raw XRPL transaction.
#[derive(Debug, Clone)]
pub struct SwapEvent {
    pub timestamp_secs: u64,
    pub amount_in: u128,
    pub fee_bps: u16,
    pub zero_for_one: bool,
}

/// The fields of a raw XRPL transaction that swap extraction reads, each
/// present when the transaction holds it with the expected JSON type
/// (strings for the first four, an unsigned integer for `date`).
#[derive(Debug, Clone)]
pub struct TxFields {
    /// `Destination`.
    pub destination: Option<String>,
    /// `Account`.
    pub account: Option<String>,
    /// `Amount`, when it is a string (XRP drops).
    pub amount: Option<String>,
    /// `TransactionType`.
    pub transaction_type: Option<String>,
    /// `date`, seconds since the XRPL epoch.
    pub date: Option<u64>,
}

/// The text is present and equal to `s`.
pub open spec fn is_text(field: Option<String>, s: Seq<char>) -> bool {
    field matches Some(f) && f@ == s
}

/// The amount a transaction sends: its `Amount` read as drops, zero when it
/// is absent or not an unsigned integer.
pub open spec fn amount_of(tx: TxFields) -> u128 {
    match tx.amount {
        Some(a) => match parse_u128_spec(encode_utf8(a@)) {
            Some(v) => v,
            None => 0,
        },
        None => 0,
    }
}

/// The transaction goes to or comes from the pool and sends a non-zero
/// amount.
pub open spec fn is_pool_swap(tx: TxFields, pool_account: Seq<char>) -> bool {
    (is_text(tx.destination, pool_account) || is_text(tx.account, pool_account)) && amount_of(tx)
        != 0
}

/// The swap event a transaction yields, if it is a swap through the pool:
/// payments and deposits sell token0; the XRPL date is moved to the Unix
/// epoch.
pub open spec fn event_of(tx: TxFields, pool_account: Seq<char>, fee_bps: u16) -> Option<
    replay::SwapEvent,
> {
    if is_pool_swap(tx, pool_account) {
        let date = match tx.date {
            Some(d) => d,
            None => 0,
        };
        Some(
            replay::SwapEvent {
                timestamp_secs: (date + XRPL_EPOCH_OFFSET) as u64,
                amount_in: amount_of(tx),
                fee_bps,
                zero_for_one: is_text(tx.transaction_type, "Payment"@) || is_text(
                    tx.transaction_type,
                    "AMMDeposit"@,
                ),
            },
        )
    } else {
        None
    }
}

/// The swap events of a list of transactions, in order.
pub open spec fn events_of(txs: Seq<TxFields>, pool_account: Seq<char>, fee_bps: u16) -> Seq<
    replay::SwapEvent,
>
    decreases txs.len(),
{
    if txs.len() == 0 {
        Seq::empty()
    } else {
        let before = events_of(txs.drop_last(), pool_account, fee_bps);
        match event_of(txs.last(), pool_account, fee_bps) {
            Some(e) => before.push(e),
            None => before,
        }
    }
}

/// The date of a pool swap can be moved to the Unix epoch.
pub open spec fn date_fits(tx: TxFields, pool_account: Seq<char>) -> bool {
    is_pool_swap(tx, pool_account) ==> match tx.date {
        Some(d) => d + XRPL_EPOCH_OFFSET <= u64::MAX,
        None => true,
    }
}

/// Whether two texts are equal.
fn same_text(a: &str, b: &str) -> (r: bool)
    ensures
        r == (a@ == b@),
{
    let x = a.as_bytes();
    let y = b.as_bytes();
    proof {
        assert(vstd::utf8::decode_utf8(encode_utf8(a@)) == a@);
        assert(vstd::utf8::decode_utf8(encode_utf8(b@)) == b@);
        assert(x@ == a.spec_bytes());
        assert(y@ == b.spec_bytes());
        assert(a@ == b@ ==> x@ == y@);
    }
    if x.len() != y.len() {
        return false;
    }
    let mut i: usize = 0;
    while i < x.len()
        invariant
            i <= x.len(),
            x.len() == y.len(),
            a@ == b@ ==> x@ == y@,
            forall|k: int| 0 <= k < i ==> x@[k] == y@[k],
        decreases x.len() - i,
    {
        if x[i] != y[i] {
            assert(x@ != y@);
            return false;
        }
        i += 1;
    }
    assert(x@ =~= y@);
    true
}

/// Whether an optional text is present and equal to `s`.
fn text_is(field: &Option<String>, s: &str) -> (r: bool)
    ensures
        r == is_text(*field, s@),
{
    match field {
        Some(f) => same_text(f.as_str(), s),
        None => false,
    }
}

/// Extract AMM swap events from raw `account_tx` transactions.
///
/// A transaction is a swap through the pool when it goes to or comes from
/// `pool_account` and its `Amount` is a non-zero number of drops.
/// Payments and deposits count as selling token0.
pub fn extract_swap_events(txs: &[TxFields], pool_account: &str, fee_bps: u16) -> (r: Vec<
    replay::SwapEvent,
>)
    requires
        forall|i: int| 0 <= i < txs@.len() ==> date_fits(#[trigger] txs@[i], pool_account@),
    ensures
        r@ == events_of(txs@, pool_account@, fee_bps),
{
    let mut out: Vec<replay::SwapEvent> = Vec::new();
    let mut i: usize = 0;
    while i < txs.len()
        invariant
            i <= txs.len(),
            forall|j: int| 0 <= j < txs@.len() ==> date_fits(#[trigger] txs@[j], pool_account@),
            out@ == events_of(txs@.take(i as int), pool_account@, fee_bps),
        decreases txs.len() - i,
    {
        let tx = &txs[i];
        proof {
            assert(txs@.take(i + 1).drop_last() =~= txs@.take(i as int));
            assert(txs@.take(i + 1).last() == txs@[i as int]);
            assert(date_fits(txs@[i as int], pool_account@));
        }
        // Only transactions that interact with this AMM.
        let touches = text_is(&tx.destination, pool_account) || text_is(&tx.account, pool_account);
        let amount_in: u128 = match &tx.amount {
            Some(a) => match parse_u128(a.as_str().as_bytes()) {
                Some(v) => v,
                None => 0,
            },
            None => 0,
        };
        if touches && amount_in != 0 {
            // Direction from the transaction type.
            let zero_for_one = text_is(&tx.transaction_type, "Payment") || text_is(
                &tx.transaction_type,
                "AMMDeposit",
            );
            let date: u64 = match tx.date {
                Some(d) => d,
                None => 0,
            };
            out.push(
                replay::SwapEvent {
                    timestamp_secs: date + XRPL_EPOCH_OFFSET,
                    amount_in,
                    fee_bps,
                    zero_for_one,
                },
            );
        }
        i += 1;
    }
    assert(txs@.take(txs.len() as int) =~= txs@);
    out
}

/// What `parse_reserves` gives for a pool's two amounts: the XRP drops and
/// the token's scaled value with the token's currency and issuer, whichever
/// side the XRP is on; for two tokens the first token's value, then the
/// second's value, currency and issuer; zeros and empty texts for two XRP
/// amounts.
pub open spec fn reserves_of(amount: AmountField, amount2: AmountField) -> (
    u128,
    u128,
    Seq<char>,
    Seq<char>,
) {
    match (amount, amount2) {
        (AmountField::Xrp(_), AmountField::Token { currency, issuer, .. }) => (
            amount.raw_value(),
            amount2.raw_value(),
            currency@,
            issuer@,
        ),
        (AmountField::Token { currency, issuer, .. }, AmountField::Xrp(_)) => (
            amount2.raw_value(),
            amount.raw_value(),
            currency@,
            issuer@,
        ),
        (AmountField::Token { .. }, AmountField::Token { currency, issuer, .. }) => (
            amount.raw_value(),
            amount2.raw_value(),
            currency@,
            issuer@,
        ),
        (AmountField::Xrp(_), AmountField::Xrp(_)) => (0, 0, Seq::empty(), Seq::empty()),
    }
}

/// Splits a pool's two amounts into XRP drops, token raw units (scaled by
/// 10^6), token currency and token issuer.
pub fn parse_reserves(amount: &AmountField, amount2: &AmountField) -> (r: (u128, u128, String, String))
    ensures
        (r.0, r.1, r.2@, r.3@) == reserves_of(*amount, *amount2),
{
    match (amount, amount2) {
        (AmountField::Xrp(_), AmountField::Token { currency, issuer, .. }) => {
            (amount.parse_raw(), amount2.parse_raw(), currency.clone(), issuer.clone())
        },
        (AmountField::Token { currency, issuer, .. }, AmountField::Xrp(_)) => {
            (amount2.parse_raw(), amount.parse_raw(), currency.clone(), issuer.clone())
        },
        (AmountField::Token { .. }, AmountField::Token { currency, issuer, .. }) => {
            (amount.parse_raw(), amount2.parse_raw(), currency.clone(), issuer.clone())
        },
        (AmountField::Xrp(_), AmountField::Xrp(_)) => (0, 0, String::new(), String::new()),
    }
}

} // verus!
