use xrpl_amm::manager::{self, native_dispatch_u32, native_dispatch_u64, test_setup_manager, ManagerState};
use xrpl_amm::pool::{self, get_protocol_fees, get_sqrt_price, test_setup_with_manager, ContractState};

fn owner() -> [u8; 20] {
    [1u8; 20]
}

/// Simulated manager contract address.
fn mgr() -> [u8; 20] {
    [0xAAu8; 20]
}

/// A pool whose owner is `owner()` and whose manager is `mgr()`, and a
/// manager pointed at it.
fn init() -> (ContractState, ManagerState) {
    let mut s = ContractState::new();
    test_setup_with_manager(&mut s, owner(), mgr(), 10);
    let mut m = ManagerState::new();
    test_setup_manager(&mut m, mgr());
    (s, m)
}

#[test]
fn manager_can_initialize_pool() {
    let (mut s, _m) = init();
    let result = native_dispatch_u32(&mut s, &manager::initialize_pool(owner(), 0u64, 1u64, 30, 0));
    assert_eq!(result, 0, "initialize_pool via manager should succeed");
    assert!(get_sqrt_price(&s) > 0);
}

#[test]
fn manager_can_pause_and_unpause() {
    let (mut s, _m) = init();
    native_dispatch_u32(&mut s, &manager::initialize_pool(owner(), 0u64, 1u64, 30, 0));
    assert_eq!(native_dispatch_u32(&mut s, &manager::set_pause(owner(), 1, 0, 0, 0)), 0);
    assert_eq!(native_dispatch_u32(&mut s, &manager::set_pause(owner(), 0, 0, 0, 0)), 0);
}

#[test]
fn manager_can_set_protocol_fee() {
    let (mut s, _m) = init();
    native_dispatch_u32(&mut s, &manager::initialize_pool(owner(), 0u64, 1u64, 30, 0));
    assert_eq!(native_dispatch_u32(&mut s, &manager::set_protocol_fee(owner(), 500, 0, 0, 0)), 0);
}

#[test]
fn manager_can_collect_protocol_fees() {
    let (mut s, _m) = init();
    native_dispatch_u32(&mut s, &manager::initialize_pool(owner(), 0u64, 1u64, 30, 1_000));
    pool::mint(&mut s, (-1000_i32) as u32, 1000, 1_000_000_000);
    pool::swap_exact_in(&mut s, 500_000, 495_000, 0);

    let (pf0, pf1) = get_protocol_fees(&s);
    assert!(pf0 > 0 || pf1 > 0, "fees should have accrued");

    native_dispatch_u64(&mut s, &manager::collect_protocol(owner(), u64::MAX, u64::MAX, 0, 0));
    let (pf0_after, pf1_after) = get_protocol_fees(&s);
    assert_eq!(pf0_after, 0);
    assert_eq!(pf1_after, 0);
}

#[test]
fn non_owner_cannot_use_manager() {
    let (mut s, _m) = init();
    native_dispatch_u32(&mut s, &manager::initialize_pool(owner(), 0u64, 1u64, 30, 0));
    let alice = [2u8; 20];
    let result = native_dispatch_u32(&mut s, &manager::set_pause(alice, 1, 0, 0, 0));
    assert_ne!(result, 0, "alice should be rejected by pool");
    assert!(!s.config.paused);
}

#[test]
fn manager_account_may_call_and_others_may_not_collect() {
    let (mut s, _m) = init();
    assert_eq!(native_dispatch_u32(&mut s, &manager::set_pause(mgr(), 1, 0, 0, 0)), 0);
    assert!(s.config.paused);
    assert_eq!(native_dispatch_u64(&mut s, &manager::collect_protocol([9u8; 20], 1, 1, 0, 0)), 4);
}
