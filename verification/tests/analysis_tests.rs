use xrpl_amm::amm::{extract_swap_events, parse_reserves, TxFields};
use xrpl_amm::decimal::{parse_u128, scaled_micro};
use xrpl_amm::intent::IntentParameters;
use xrpl_amm::xrpl_types::AmountField;

// ---------------------------------------------------------------------------
// AmountField parsing
// ---------------------------------------------------------------------------

#[test]
fn amount_field_xrp_parses_drops() {
    let field = AmountField::Xrp("1000000".to_string());
    match &field {
        AmountField::Xrp(s) => assert_eq!(s, "1000000"),
        _ => panic!("expected Xrp variant"),
    }
    assert_eq!(field.parse_raw(), 1_000_000u128);
    assert_eq!(field.currency(), "XRP");
    assert!(field.issuer().is_none());
}

#[test]
fn amount_field_token_parses_object() {
    let field = AmountField::Token {
        value: "500.123456".to_string(),
        currency: "USD".to_string(),
        issuer: "rHb9CJAWyB4rj91VRWn96DkukG4bwdtyTh".to_string(),
    };
    match &field {
        AmountField::Token { currency, issuer, .. } => {
            assert_eq!(currency, "USD");
            assert_eq!(issuer, "rHb9CJAWyB4rj91VRWn96DkukG4bwdtyTh");
        }
        _ => panic!("expected Token variant"),
    }
    // 500.123456 * 1_000_000 = 500_123_456
    assert_eq!(field.parse_raw(), 500_123_456u128);
    assert_eq!(field.currency(), "USD");
    assert!(field.issuer().is_some());
}

#[test]
fn amount_field_bad_text_reads_as_zero() {
    assert_eq!(AmountField::Xrp("12a".to_string()).parse_raw(), 0);
    assert_eq!(AmountField::Xrp("".to_string()).parse_raw(), 0);
    let token = AmountField::Token { value: "abc".to_string(), currency: "USD".to_string(), issuer: "r".to_string() };
    assert_eq!(token.parse_raw(), 0);
}

// ---------------------------------------------------------------------------
// Decimal text
// ---------------------------------------------------------------------------

#[test]
fn parse_u128_accepts_what_integer_parsing_accepts() {
    assert_eq!(parse_u128(b"0"), Some(0));
    assert_eq!(parse_u128(b"+42"), Some(42));
    assert_eq!(parse_u128(b"340282366920938463463374607431768211455"), Some(u128::MAX));
    assert_eq!(parse_u128(b"340282366920938463463374607431768211456"), None);
    assert_eq!(parse_u128(b""), None);
    assert_eq!(parse_u128(b"+"), None);
    assert_eq!(parse_u128(b"-1"), None);
    assert_eq!(parse_u128(b" 1"), None);
    for text in ["7", "1000000", "18446744073709551616", "+99"] {
        assert_eq!(parse_u128(text.as_bytes()), text.parse::<u128>().ok());
    }
}

#[test]
fn scaled_micro_values() {
    assert_eq!(scaled_micro(b"1"), 1_000_000);
    assert_eq!(scaled_micro(b"0.5"), 500_000);
    assert_eq!(scaled_micro(b".25"), 250_000);
    assert_eq!(scaled_micro(b"2."), 2_000_000);
    assert_eq!(scaled_micro(b"1.2345678"), 1_234_567);
    assert_eq!(scaled_micro(b"+3"), 3_000_000);
    assert_eq!(scaled_micro(b"-3"), 0);
    assert_eq!(scaled_micro(b"1e3"), 1_000_000_000);
    assert_eq!(scaled_micro(b"1.5E-2"), 15_000);
    assert_eq!(scaled_micro(b"5e-7"), 0);
    assert_eq!(scaled_micro(b"1e40"), u128::MAX);
    assert_eq!(scaled_micro(b"1e-99999999999999999999999999"), 0);
    assert_eq!(scaled_micro(b"0e99999999999999999999999999"), 0);
    assert_eq!(scaled_micro(b"inf"), u128::MAX);
    assert_eq!(scaled_micro(b"+Infinity"), u128::MAX);
    assert_eq!(scaled_micro(b"-inf"), 0);
    assert_eq!(scaled_micro(b"NaN"), 0);
    assert_eq!(scaled_micro(b"."), 0);
    assert_eq!(scaled_micro(b"1e"), 0);
    assert_eq!(scaled_micro(b"e5"), 0);
    assert_eq!(scaled_micro(b""), 0);
}

// ---------------------------------------------------------------------------
// Reserves and swap extraction
// ---------------------------------------------------------------------------

fn token(value: &str) -> AmountField {
    AmountField::Token { value: value.to_string(), currency: "USD".to_string(), issuer: "rIssuer".to_string() }
}

#[test]
fn reserves_put_xrp_first_whichever_side_it_is_on() {
    let xrp = AmountField::Xrp("2500000".to_string());
    let (x, t, c, i) = parse_reserves(&xrp, &token("1.5"));
    assert_eq!((x, t, c.as_str(), i.as_str()), (2_500_000, 1_500_000, "USD", "rIssuer"));
    let (x, t, c, i) = parse_reserves(&token("1.5"), &xrp);
    assert_eq!((x, t, c.as_str(), i.as_str()), (2_500_000, 1_500_000, "USD", "rIssuer"));
    let (a, b, _, _) = parse_reserves(&token("2"), &token("3"));
    assert_eq!((a, b), (2_000_000, 3_000_000));
    let (a, b, c, i) = parse_reserves(&xrp, &xrp);
    assert_eq!((a, b, c.as_str(), i.as_str()), (0, 0, "", ""));
}

fn tx(destination: Option<&str>, account: Option<&str>, amount: Option<&str>, ty: Option<&str>, date: Option<u64>) -> TxFields {
    TxFields {
        destination: destination.map(|s| s.to_string()),
        account: account.map(|s| s.to_string()),
        amount: amount.map(|s| s.to_string()),
        transaction_type: ty.map(|s| s.to_string()),
        date,
    }
}

#[test]
fn extract_swap_events_keeps_pool_swaps_in_order() {
    let pool = "rPool";
    let txs = vec![
        tx(Some("rPool"), Some("rAlice"), Some("1000"), Some("Payment"), Some(10)),
        tx(Some("rBob"), Some("rAlice"), Some("2000"), Some("Payment"), Some(11)),
        tx(None, Some("rPool"), Some("3000"), Some("AMMWithdraw"), None),
        tx(Some("rPool"), None, Some("0"), Some("Payment"), Some(12)),
        tx(Some("rPool"), None, Some("12x"), Some("Payment"), Some(13)),
        tx(Some("rPool"), None, Some("4000"), Some("AMMDeposit"), Some(14)),
    ];
    let events = extract_swap_events(&txs, pool, 30);
    assert_eq!(events.len(), 3);
    assert_eq!(events[0].amount_in, 1000);
    assert!(events[0].zero_for_one);
    assert_eq!(events[0].timestamp_secs, 10 + 946_684_800);
    assert_eq!(events[0].fee_bps, 30);
    assert_eq!(events[1].amount_in, 3000);
    assert!(!events[1].zero_for_one);
    assert_eq!(events[1].timestamp_secs, 946_684_800);
    assert_eq!(events[2].amount_in, 4000);
    assert!(events[2].zero_for_one);
}

#[test]
fn intent_parameters_default_is_empty() {
    let p = IntentParameters::default();
    assert!(p.wallet_address.is_none());
    assert!(p.pool.is_none());
    assert!(p.focus.is_none());
}

// ---------------------------------------------------------------------------
// Pool labels
// ---------------------------------------------------------------------------

use xrpl_amm::labels::{distinct_currencies, pool_currencies, split_label};

#[test]
fn split_label_matches_str_split() {
    for label in ["XRP/USD", "", "/", "a/", "/b", "XRP", "A/B/C", "€/¥"] {
        let expected: Vec<String> = label.split('/').map(|p| p.to_string()).collect();
        assert_eq!(split_label(label), expected);
    }
}

#[test]
fn pool_currencies_needs_exactly_two_parts() {
    assert_eq!(pool_currencies("XRP/USD"), Some(("XRP".to_string(), "USD".to_string())));
    assert_eq!(pool_currencies("XRP"), None);
    assert_eq!(pool_currencies("A/B/C"), None);
    assert_eq!(pool_currencies("/"), Some((String::new(), String::new())));
}

#[test]
fn distinct_currencies_keep_first_occurrence_order() {
    let labels = vec!["XRP/USD".to_string(), "XRP/BTC".to_string(), "USD/EUR".to_string()];
    assert_eq!(distinct_currencies(&labels), vec!["XRP", "USD", "BTC", "EUR"]);
    assert!(distinct_currencies(&[]).is_empty());
}

// ---------------------------------------------------------------------------
// Calling convention
// ---------------------------------------------------------------------------

use xrpl_amm::abi::{abi_params, classify_param, return_needs_cast, AbiParam};

#[test]
fn abi_params_number_slots_skipping_the_sender() {
    let types: Vec<String> = ["AccountId", "u32", "u16", "[u8;20]", "u8", "i64"].iter().map(|s| s.to_string()).collect();
    assert_eq!(
        abi_params(&types),
        vec![
            AbiParam::Sender,
            AbiParam::Slot { index: 0, type_code: 2, width: 4 },
            AbiParam::Slot { index: 1, type_code: 1, width: 2 },
            AbiParam::Sender,
            AbiParam::Slot { index: 2, type_code: 16, width: 1 },
            AbiParam::Slot { index: 3, type_code: 3, width: 8 },
        ]
    );
    assert_eq!(classify_param("u128", 0), AbiParam::Unsupported);
    assert_eq!(classify_param("i32", 5), AbiParam::Slot { index: 5, type_code: 2, width: 4 });
}

#[test]
fn only_non_i32_results_are_cast() {
    assert!(return_needs_cast(Some("u32")));
    assert!(!return_needs_cast(Some("i32")));
    assert!(!return_needs_cast(None));
}

#[test]
fn truncate_body_quotes_at_most_240_chars() {
    assert_eq!(xrpl_amm::price_feed::truncate_body("short"), "short");
    let exact: String = "x".repeat(240);
    assert_eq!(xrpl_amm::price_feed::truncate_body(&exact), exact);
    let long: String = "é".repeat(241);
    let cut = xrpl_amm::price_feed::truncate_body(&long);
    assert_eq!(cut.chars().count(), 243);
    assert!(cut.ends_with("..."));
    assert_eq!(&cut[..cut.len() - 3], "é".repeat(240));
}

#[test]
fn only_missing_accounts_count_as_empty() {
    use_account_check();
}

fn use_account_check() {
    assert!(xrpl_amm::price_feed::is_account_not_found("Account not found."));
    assert!(xrpl_amm::price_feed::is_account_not_found("actNotFound"));
    assert!(!xrpl_amm::price_feed::is_account_not_found("internalError: upstream timeout"));
    assert!(!xrpl_amm::price_feed::is_account_not_found(""));
}
