use xrpl_amm::execution_adapter::{DualPathAdapter, SwapRequest};
use xrpl_amm::manager::{get_pool_address, setup, test_setup_manager, ManagerState};
use xrpl_amm::skeleton::{AccountId, ContractError, UniswapV3XrplContract};

fn owner() -> AccountId {
    [7u8; 20]
}

#[test]
fn invariant_tick_range_must_be_ordered() {
    let mut c = UniswapV3XrplContract::new(owner(), 10);
    let result = c.mint(owner(), 10, 10, 1000);
    assert!(matches!(result, Err(ContractError::InvalidTickRange)));
}

#[test]
fn invariant_tick_spacing_enforced() {
    let mut c = UniswapV3XrplContract::new(owner(), 10);
    let result = c.mint(owner(), 11, 21, 1000);
    assert!(matches!(result, Err(ContractError::TickSpacingViolation)));
}

#[test]
fn guard_pause_blocks_state_mutation() {
    let mut c = UniswapV3XrplContract::new(owner(), 10);
    c.set_pause(owner(), 1).unwrap();
    let result = c.mint(owner(), -20, 20, 1000);
    assert!(matches!(result, Err(ContractError::Paused)));
}

#[test]
fn slippage_guard_rejects_low_min_out() {
    let mut c = UniswapV3XrplContract::new(owner(), 10);
    let result = c.swap_exact_in(owner(), 1000, 999, 1, 1u128 << 64);
    assert!(result.is_err());
}

#[test]
fn adapter_falls_back_to_direct_xrpl() {
    let adapter = DualPathAdapter { prefer_bedrock: true, bedrock_available: false, xrpl_available: true };
    let req = SwapRequest { amount_in: 500, min_amount_out: 490, zero_for_one: true };
    let receipt = adapter.execute_with_fallback(&req).unwrap();
    assert_eq!(receipt.amount_out, 498);
}

#[test]
fn skeleton_rejects_non_owner() {
    let mut c = UniswapV3XrplContract::new(owner(), 10);
    let result = c.set_pause([9u8; 20], 1);
    assert!(matches!(result, Err(ContractError::NotAuthorized)));
}

#[test]
fn bedrock_path_costs_one_unit() {
    let adapter = DualPathAdapter { prefer_bedrock: true, bedrock_available: true, xrpl_available: true };
    let req = SwapRequest { amount_in: 500, min_amount_out: 490, zero_for_one: false };
    assert_eq!(adapter.execute_with_fallback(&req).unwrap().amount_out, 499);
}

// ---------------------------------------------------------------------------
// Manager
// ---------------------------------------------------------------------------

#[test]
fn setup_records_pool_address() {
    let mut m = ManagerState::new();
    test_setup_manager(&mut m, [0u8; 20]); // clear
    let pool = [0x99u8; 20];
    let result = setup(&mut m, [0u8; 20], pool);
    assert_eq!(result, 0);
    assert_eq!(get_pool_address(&m), pool);
}

#[test]
fn setup_fails_if_already_configured() {
    let mut m = ManagerState::new();
    test_setup_manager(&mut m, [0u8; 20]);
    setup(&mut m, [0u8; 20], [0x99u8; 20]);
    // Second call should fail
    let result = setup(&mut m, [0u8; 20], [0x88u8; 20]);
    assert_ne!(result, 0, "double setup should be rejected");
    assert_eq!(get_pool_address(&m), [0x99u8; 20]);
}

#[test]
fn skeleton_swap_enforces_one_percent_floor() {
    let mut c = UniswapV3XrplContract::new(owner(), 10);
    assert!(matches!(c.swap_exact_in(owner(), 1000, 0, 1, 1u128 << 64), Err(ContractError::SlippageLimitExceeded)));
    assert!(matches!(c.swap_exact_in(owner(), 1000, 989, 1, 1u128 << 64), Err(ContractError::SlippageLimitExceeded)));
}
