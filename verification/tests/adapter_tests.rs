use xrpl_amm::adapter::{AdapterError, DualPathAdapter, ExecutionPath, SwapRequest};
use xrpl_amm::math::Q64;
use xrpl_amm::pool::{initialize_pool, mint, test_setup, ContractState};

fn owner() -> [u8; 20] {
    [1u8; 20]
}

fn alice() -> [u8; 20] {
    [2u8; 20]
}

/// A pool with liquidity ready for adapter-level swap tests.
fn setup_pool() -> ContractState {
    let mut s = ContractState::new();
    test_setup(&mut s, owner(), 10);
    initialize_pool(&mut s, 0u32, 30, 0);
    // Add liquidity so swaps produce output.
    mint(&mut s, (-1000_i32) as u32, 1000, 1_000_000_000);
    s
}

fn req(amount_in: u64, zero_for_one: bool) -> SwapRequest {
    SwapRequest {
        sender: owner(),
        amount_in,
        min_amount_out: amount_in * 99 / 100,
        zero_for_one,
        sqrt_price_limit: if zero_for_one { Q64 / 2 } else { Q64 * 2 },
    }
}

/// A request with no price limit beyond the contract's own bounds.
fn swap_req(amount_in: u64, zero_for_one: bool) -> SwapRequest {
    SwapRequest {
        sender: alice(),
        amount_in,
        min_amount_out: amount_in * 99 / 100,
        zero_for_one,
        sqrt_price_limit: if zero_for_one { 1 } else { u128::MAX },
    }
}

#[test]
fn bedrock_path_executes() {
    let mut s = setup_pool();
    let adapter = DualPathAdapter::new(true, true, false);
    let receipt = adapter.execute_with_fallback(&mut s, &req(10_000, false)).unwrap();
    assert_eq!(receipt.path, ExecutionPath::BedrockDirect);
    assert!(receipt.amount_out > 0);
}

#[test]
fn falls_back_to_direct_xrpl() {
    let mut s = setup_pool();
    let adapter = DualPathAdapter::new(true, false, true);
    let receipt = adapter.execute_with_fallback(&mut s, &req(10_000, false)).unwrap();
    assert_eq!(receipt.path, ExecutionPath::DirectXrpl);
}

#[test]
fn no_paths_available_errors() {
    let mut s = ContractState::new();
    let adapter = DualPathAdapter::new(true, false, false);
    let err = adapter.execute_with_fallback(&mut s, &req(1_000, false)).unwrap_err();
    assert_eq!(err, AdapterError::Unsupported);
}

#[test]
fn slippage_cap_rejected_before_submission() {
    let mut s = setup_pool();
    let adapter = DualPathAdapter::new(true, true, false);
    let bad_req = SwapRequest {
        sender: owner(),
        amount_in: 10_000,
        min_amount_out: 1, // essentially no slippage protection → should fail our guard
        zero_for_one: false,
        sqrt_price_limit: Q64 * 2,
    };
    let err = adapter.execute_with_fallback(&mut s, &bad_req).unwrap_err();
    assert!(matches!(err, AdapterError::ContractError(_)));
}

#[test]
fn zero_input_rejected() {
    let mut s = ContractState::new();
    let adapter = DualPathAdapter::new(true, true, false);
    let err = adapter
        .execute_with_fallback(
            &mut s,
            &SwapRequest {
                sender: owner(),
                amount_in: 0,
                min_amount_out: 0,
                zero_for_one: false,
                sqrt_price_limit: Q64 * 2,
            },
        )
        .unwrap_err();
    assert!(matches!(err, AdapterError::ContractError(_)));
}

// ---------------------------------------------------------------------------
// Path selection
// ---------------------------------------------------------------------------

#[test]
fn bedrock_path_used_when_preferred_and_available() {
    let mut s = setup_pool();
    let adapter = DualPathAdapter::new(true, true, false);
    let receipt = adapter.execute_with_fallback(&mut s, &swap_req(10_000, false)).unwrap();
    assert_eq!(receipt.path, ExecutionPath::BedrockDirect);
    assert!(receipt.amount_out > 0);
}

#[test]
fn xrpl_path_used_when_bedrock_not_preferred() {
    let mut s = setup_pool();
    let adapter = DualPathAdapter::new(false, false, true);
    let receipt = adapter.execute_with_fallback(&mut s, &swap_req(10_000, false)).unwrap();
    assert_eq!(receipt.path, ExecutionPath::DirectXrpl);
    assert!(receipt.amount_out > 0);
}

#[test]
fn both_paths_available_uses_preferred() {
    let mut s = setup_pool();
    let bedrock_adapter = DualPathAdapter::new(true, true, true);
    let xrpl_adapter = DualPathAdapter::new(false, true, true);
    let r1 = bedrock_adapter.execute_with_fallback(&mut s, &swap_req(10_000, false)).unwrap();
    let r2 = xrpl_adapter.execute_with_fallback(&mut s, &swap_req(10_000, false)).unwrap();
    assert_eq!(r1.path, ExecutionPath::BedrockDirect);
    assert_eq!(r2.path, ExecutionPath::DirectXrpl);
}

// ---------------------------------------------------------------------------
// Automatic fallback
// ---------------------------------------------------------------------------

#[test]
fn falls_back_to_xrpl_when_bedrock_unavailable() {
    let mut s = setup_pool();
    // prefer_bedrock=true but bedrock_available=false → must use XRPL.
    let adapter = DualPathAdapter::new(true, false, true);
    let receipt = adapter.execute_with_fallback(&mut s, &swap_req(10_000, false)).unwrap();
    assert_eq!(receipt.path, ExecutionPath::DirectXrpl);
    assert!(receipt.amount_out > 0);
}

#[test]
fn no_paths_available_returns_unsupported() {
    let mut s = ContractState::new();
    let adapter = DualPathAdapter::new(true, false, false);
    let err = adapter.execute_with_fallback(&mut s, &swap_req(10_000, false)).unwrap_err();
    assert_eq!(err, AdapterError::Unsupported);
}

// ---------------------------------------------------------------------------
// Pre-submission validation (fires before reaching the contract)
// ---------------------------------------------------------------------------

#[test]
fn zero_input_rejected_before_submission() {
    let mut s = ContractState::new();
    let adapter = DualPathAdapter::new(true, true, false);
    let req = SwapRequest {
        sender: alice(),
        amount_in: 0,
        min_amount_out: 0,
        zero_for_one: false,
        sqrt_price_limit: u128::MAX,
    };
    let err = adapter.execute_with_fallback(&mut s, &req).unwrap_err();
    assert!(
        matches!(err, AdapterError::ContractError(_)),
        "zero input should produce a ContractError, not Unsupported"
    );
}

#[test]
fn insufficient_min_out_rejected_before_submission() {
    let mut s = setup_pool();
    let adapter = DualPathAdapter::new(true, true, false);
    // min_out = 1 is far below the 99% floor for 10_000 input.
    let req = SwapRequest {
        sender: alice(),
        amount_in: 10_000,
        min_amount_out: 1,
        zero_for_one: false,
        sqrt_price_limit: u128::MAX,
    };
    let err = adapter.execute_with_fallback(&mut s, &req).unwrap_err();
    assert!(matches!(err, AdapterError::ContractError(_)));
}

#[test]
fn exact_99pct_min_out_is_accepted() {
    let mut s = setup_pool();
    let adapter = DualPathAdapter::new(true, true, false);
    // 9_900 / 10_000 = 99% — right at the floor.
    let req = SwapRequest {
        sender: alice(),
        amount_in: 10_000,
        min_amount_out: 9_900,
        zero_for_one: false,
        sqrt_price_limit: u128::MAX,
    };
    let receipt = adapter.execute_with_fallback(&mut s, &req).unwrap();
    assert!(receipt.amount_out > 0);
}

// ---------------------------------------------------------------------------
// Swap direction correctness through the adapter
// ---------------------------------------------------------------------------

#[test]
fn adapter_swap_both_directions_produce_output() {
    let mut s = setup_pool();
    let adapter = DualPathAdapter::new(true, true, false);
    // token1 → token0 (price up).
    let out_up = adapter.execute_with_fallback(&mut s, &swap_req(10_000, false)).unwrap().amount_out;
    assert!(out_up > 0, "upward swap through adapter should produce output");
    // token0 → token1 (price down).
    let out_down = adapter.execute_with_fallback(&mut s, &swap_req(10_000, true)).unwrap().amount_out;
    assert!(out_down > 0, "downward swap through adapter should produce output");
}

// ---------------------------------------------------------------------------
// Large swap depletes liquidity — adapter handles gracefully
// ---------------------------------------------------------------------------

#[test]
fn swap_larger_than_pool_returns_partial_fill() {
    let mut s = setup_pool();
    let adapter = DualPathAdapter::new(true, true, false);
    let req = SwapRequest {
        sender: alice(),
        amount_in: 100_000,
        min_amount_out: 99_000,
        zero_for_one: false,
        sqrt_price_limit: u128::MAX,
    };
    // Either succeeds with meaningful output, or fails the slippage check
    // (price impact is large). Either way it must not panic.
    let _ = adapter.execute_with_fallback(&mut s, &req);
}

#[test]
fn choose_path_prefers_then_falls_back() {
    assert_eq!(DualPathAdapter::new(true, true, true).choose_path(), Ok(ExecutionPath::BedrockDirect));
    assert_eq!(DualPathAdapter::new(false, true, true).choose_path(), Ok(ExecutionPath::DirectXrpl));
    assert_eq!(DualPathAdapter::new(false, true, false).choose_path(), Ok(ExecutionPath::BedrockDirect));
    assert_eq!(DualPathAdapter::new(false, false, false).choose_path(), Err(AdapterError::Unsupported));
}

#[test]
fn both_paths_answer_alike() {
    for r in [req(10_000, false), req(10_000, true), req(0, false), swap_req(50_000, true)] {
        let mut a = setup_pool();
        let mut b = setup_pool();
        let via_bedrock = DualPathAdapter::new(true, true, false).execute_with_fallback(&mut a, &r);
        let via_xrpl = DualPathAdapter::new(false, false, true).execute_with_fallback(&mut b, &r);
        match (via_bedrock, via_xrpl) {
            (Ok(x), Ok(y)) => {
                assert_eq!(x.path, ExecutionPath::BedrockDirect);
                assert_eq!(y.path, ExecutionPath::DirectXrpl);
                assert_eq!(x.amount_out, y.amount_out);
                assert!(x.amount_out >= r.min_amount_out);
            }
            (Err(x), Err(y)) => assert_eq!(x, y),
            _ => panic!("the two paths disagree"),
        }
    }
}
