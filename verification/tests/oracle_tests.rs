use xrpl_amm::oracle::{ObserveResult, OracleBuffer};

fn buf_with(timestamps: &[(u32, i32, u128)]) -> OracleBuffer {
    let mut b = OracleBuffer::new();
    b.grow(timestamps.len() as u16 + 1);
    if let Some(&(t0, _, _)) = timestamps.first() {
        b.initialize(t0);
        for &(t, tick, liq) in &timestamps[1..] {
            b.write(t, tick, liq);
        }
    }
    b
}

#[test]
fn initialize_writes_first_slot() {
    let mut b = OracleBuffer::new();
    b.initialize(1000);
    assert_eq!(b.cardinality, 1);
    assert!(b.data[0].initialized);
    assert_eq!(b.data[0].timestamp, 1000);
}

#[test]
fn write_advances_index() {
    let b = buf_with(&[(1000, 100, 1_000_000), (1060, 100, 1_000_000)]);
    // tick_cumulative at t=1060: 100 * 60 = 6000
    assert_eq!(b.data[b.index as usize].tick_cumulative, 6000);
}

#[test]
fn observe_now_seconds_ago_zero() {
    let b = buf_with(&[(1000, 100, 1_000_000), (1060, 100, 1_000_000)]);
    match b.observe(1060, &[0], 100, 1_000_000) {
        ObserveResult::Observed { tick_cumulatives, .. } => {
            assert_eq!(tick_cumulatives[0], 6000);
        }
        ObserveResult::Unavailable => panic!("observe failed"),
    }
}

#[test]
fn observe_past_exact_match() {
    let b = buf_with(&[(1000, 100, 1_000_000), (1060, 100, 1_000_000), (1120, 100, 1_000_000)]);
    // At t=1060 tick_cumulative = 6000
    match b.observe(1120, &[60], 100, 1_000_000) {
        ObserveResult::Observed { tick_cumulatives, .. } => {
            assert_eq!(tick_cumulatives[0], 6000);
        }
        ObserveResult::Unavailable => panic!("observe failed"),
    }
}

#[test]
fn observe_interpolates_between_checkpoints() {
    let b = buf_with(&[
        (1000, 100, 1_000_000),
        (1060, 100, 1_000_000), // tc = 6000
        (1120, 100, 1_000_000), // tc = 12000
    ]);
    // 30s before now (t=1090) should give tc = 6000 + 100*30 = 9000
    match b.observe(1120, &[30], 100, 1_000_000) {
        ObserveResult::Observed { tick_cumulatives, .. } => {
            assert_eq!(tick_cumulatives[0], 9000);
        }
        ObserveResult::Unavailable => panic!("observe failed"),
    }
}

#[test]
fn grow_increases_cardinality_next() {
    let mut b = OracleBuffer::new();
    b.grow(100);
    assert_eq!(b.cardinality_next, 100);
}

#[test]
fn same_timestamp_is_idempotent() {
    let mut b = buf_with(&[(1000, 100, 1_000_000)]);
    let before_idx = b.index;
    b.write(1000, 200, 1_000_000); // same timestamp
    assert_eq!(b.index, before_idx); // index unchanged
}

#[test]
fn observe_before_first_write_is_unavailable() {
    let b = OracleBuffer::new();
    assert!(matches!(b.observe(1000, &[0], 0, 1), ObserveResult::Unavailable));
}

#[test]
fn observe_before_oldest_checkpoint_is_unavailable() {
    let b = buf_with(&[(1000, 100, 1_000_000), (1060, 100, 1_000_000)]);
    assert!(matches!(b.observe(1060, &[100], 100, 1_000_000), ObserveResult::Unavailable));
}

#[test]
fn grow_never_shrinks() {
    let mut b = OracleBuffer::new();
    b.grow(100);
    b.grow(10);
    assert_eq!(b.cardinality_next, 100);
}
