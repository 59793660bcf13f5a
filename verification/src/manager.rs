//! The pool manager: the administrative half of the two-contract design.
//!
//! The manager stores the pool's address once, and turns each admin
//! operation into a call on the pool: a function selector and a parameter
//! block of fixed little-endian fields, the caller's account first.  The
//! call itself is the host's.
use vstd::prelude::*;
use vstd::bytes::*;
use crate::types::{AccountId, ContractError, same_account};
use crate::pool::{self, ContractState, ContractConfig, PoolState, initial_price, capped};
use crate::math::{tick_at_sqrt_price, tick_search, MIN_TICK, MAX_TICK};

verus! {

/// The manager's persistent state: the pool it governs (all zeros until set).
pub struct ManagerState {
    pub pool_address: AccountId,
}

/// The all-zero account.
pub open spec fn zero_account() -> AccountId {
    vstd::array::spec_array_fill_for_copy_type::<u8, 20>(0u8)
}

/// The pool functions the manager calls.
#[derive(Clone, Copy, PartialEq, Eq, Structural, Debug)]
pub enum PoolFunction {
    InitializePool,
    SetPause,
    SetProtocolFee,
    CollectProtocol,
}

/// A call on the pool: which function, with which parameter block.
pub struct PoolCall {
    pub function: PoolFunction,
    pub params: Vec<u8>,
}

impl ManagerState {
    /// A manager with no pool set.
    pub fn new() -> (r: Self)
        ensures
            r.pool_address == zero_account(),
    {
        ManagerState { pool_address: [0u8; 20] }
    }
}

/// The stored pool address.
pub fn get_pool_address(m: &ManagerState) -> (r: AccountId)
    ensures
        r == m.pool_address,
{
    m.pool_address
}

/// Stores the pool address.
pub fn set_pool_address(m: &mut ManagerState, addr: &AccountId)
    ensures
        final(m).pool_address == *addr,
{
    m.pool_address = *addr;
}

/// Records the pool address once: returns 0, or 4 (not authorized) when an
/// address is already set, leaving it unchanged.
pub fn setup(m: &mut ManagerState, sender: AccountId, pool: AccountId) -> (r: u32)
    ensures
        old(m).pool_address != zero_account() ==> r == 4 && final(m).pool_address == old(
            m,
        ).pool_address,
        old(m).pool_address == zero_account() ==> r == 0 && final(m).pool_address == pool,
{
    let zero = [0u8; 20];
    if !same_account(&m.pool_address, &zero) {
        // Already configured.
        return 4;
    }
    let _ = sender;
    set_pool_address(m, &pool);
    0
}

/// Sets the pool address directly.
pub fn test_setup_manager(m: &mut ManagerState, pool_address: AccountId)
    ensures
        final(m).pool_address == pool_address,
{
    set_pool_address(m, &pool_address);
}

// ---------------------------------------------------------------------------
// Little-endian readers: zero when the field runs past the buffer
// ---------------------------------------------------------------------------

/// The byte at `off`, or 0 past the end.
pub fn read_u8(buf: &[u8], off: usize) -> (r: u8)
    ensures
        r == if off < buf@.len() {
            buf@[off as int]
        } else {
            0
        },
{
    if off < buf.len() {
        buf[off]
    } else {
        0
    }
}

/// The `u16` at `off`, or 0 when it runs past the end.
pub fn read_u16(buf: &[u8], off: usize) -> (r: u16)
    ensures
        r == if off + 2 <= buf@.len() {
            spec_u16_from_le_bytes(buf@.subrange(off as int, off + 2))
        } else {
            0
        },
{
    if buf.len() < 2 || off > buf.len() - 2 {
        return 0;
    }
    u16_from_le_bytes(vstd::slice::slice_subrange(buf, off, off + 2))
}

/// The `u32` at `off`, or 0 when it runs past the end.
pub fn read_u32(buf: &[u8], off: usize) -> (r: u32)
    ensures
        r == if off + 4 <= buf@.len() {
            spec_u32_from_le_bytes(buf@.subrange(off as int, off + 4))
        } else {
            0
        },
{
    if buf.len() < 4 || off > buf.len() - 4 {
        return 0;
    }
    u32_from_le_bytes(vstd::slice::slice_subrange(buf, off, off + 4))
}

/// The `u64` at `off`, or 0 when it runs past the end.
pub fn read_u64(buf: &[u8], off: usize) -> (r: u64)
    ensures
        r == if off + 8 <= buf@.len() {
            spec_u64_from_le_bytes(buf@.subrange(off as int, off + 8))
        } else {
            0
        },
{
    if buf.len() < 8 || off > buf.len() - 8 {
        return 0;
    }
    u64_from_le_bytes(vstd::slice::slice_subrange(buf, off, off + 8))
}

/// The `u128` at `off`, or 0 when it runs past the end.
pub fn read_u128(buf: &[u8], off: usize) -> (r: u128)
    ensures
        r == if off + 16 <= buf@.len() {
            spec_u128_from_le_bytes(buf@.subrange(off as int, off + 16))
        } else {
            0
        },
{
    if buf.len() < 16 || off > buf.len() - 16 {
        return 0;
    }
    u128_from_le_bytes(vstd::slice::slice_subrange(buf, off, off + 16))
}

/// The account at `off`, or all zeros when it runs past the end.
pub fn read_account(buf: &[u8], off: usize) -> (r: AccountId)
    ensures
        off + 20 <= buf@.len() ==> r@ == buf@.subrange(off as int, off + 20),
        off + 20 > buf@.len() ==> r == zero_account(),
{
    if buf.len() < 20 || off > buf.len() - 20 {
        return [0u8; 20];
    }
    let mut a = [0u8; 20];
    let mut i: usize = 0;
    while i < 20
        invariant
            i <= 20,
            off + 20 <= buf@.len(),
            buf@.len() == buf.len(),
            forall|j: int| 0 <= j < i ==> a[j] == buf@[off + j],
        decreases 20 - i,
    {
        a[i] = buf[off + i];
        i += 1;
    }
    assert(a@ =~= buf@.subrange(off as int, off + 20));
    a
}

// ---------------------------------------------------------------------------
// Parameter blocks
// ---------------------------------------------------------------------------

/// Appends `bytes` to `out`.
fn append_bytes(out: &mut Vec<u8>, bytes: &[u8])
    ensures
        final(out)@ == old(out)@ + bytes@,
{
    let mut i: usize = 0;
    let ghost start = out@;
    while i < bytes.len()
        invariant
            i <= bytes@.len(),
            out@ == start + bytes@.subrange(0, i as int),
        decreases bytes@.len() - i,
    {
        out.push(bytes[i]);
        proof {
            assert(bytes@.subrange(0, i + 1) =~= bytes@.subrange(0, i as int).push(bytes@[i as int]));
        }
        i += 1;
    }
    assert(bytes@.subrange(0, bytes@.len() as int) =~= bytes@);
}

/// The `initialize_pool` block: sender, the sqrt price's low and high words,
/// the fee and the protocol share (40 bytes).
pub fn params_initialize_pool(
    sender: AccountId,
    sqrt_price_lo: u64,
    sqrt_price_hi: u64,
    fee_bps: u16,
    protocol_fee_share_bps: u16,
) -> (r: Vec<u8>)
    ensures
        r@ == sender@ + spec_u64_to_le_bytes(sqrt_price_lo) + spec_u64_to_le_bytes(sqrt_price_hi)
            + spec_u16_to_le_bytes(fee_bps) + spec_u16_to_le_bytes(protocol_fee_share_bps),
{
    let mut buf: Vec<u8> = Vec::new();
    append_bytes(&mut buf, &sender);
    let mut lo = u64_to_le_bytes(sqrt_price_lo);
    buf.append(&mut lo);
    let mut hi = u64_to_le_bytes(sqrt_price_hi);
    buf.append(&mut hi);
    let mut fee = u16_to_le_bytes(fee_bps);
    buf.append(&mut fee);
    let mut share = u16_to_le_bytes(protocol_fee_share_bps);
    buf.append(&mut share);
    buf
}

/// The `set_pause` block: sender and the flag byte (21 bytes).
pub fn params_set_pause(sender: AccountId, paused: u8) -> (r: Vec<u8>)
    ensures
        r@ == sender@.push(paused),
{
    let mut buf: Vec<u8> = Vec::new();
    append_bytes(&mut buf, &sender);
    buf.push(paused);
    buf
}

/// The `set_protocol_fee` block: sender and the share (22 bytes).
pub fn params_set_protocol_fee(sender: AccountId, protocol_fee_share_bps: u16) -> (r: Vec<u8>)
    ensures
        r@ == sender@ + spec_u16_to_le_bytes(protocol_fee_share_bps),
{
    let mut buf: Vec<u8> = Vec::new();
    append_bytes(&mut buf, &sender);
    let mut share = u16_to_le_bytes(protocol_fee_share_bps);
    buf.append(&mut share);
    buf
}

/// The `collect_protocol` block: sender and the two caps (36 bytes).
pub fn params_collect_protocol(sender: AccountId, max_amount_0: u64, max_amount_1: u64) -> (r: Vec<u8>)
    ensures
        r@ == sender@ + spec_u64_to_le_bytes(max_amount_0) + spec_u64_to_le_bytes(max_amount_1),
{
    let mut buf: Vec<u8> = Vec::new();
    append_bytes(&mut buf, &sender);
    let mut a0 = u64_to_le_bytes(max_amount_0);
    buf.append(&mut a0);
    let mut a1 = u64_to_le_bytes(max_amount_1);
    buf.append(&mut a1);
    buf
}

/// Reading an `initialize_pool` block back gives its fields.
pub proof fn lemma_initialize_params_round_trip(
    sender: AccountId,
    lo: u64,
    hi: u64,
    fee: u16,
    share: u16,
    b: Seq<u8>,
)
    requires
        b == sender@ + spec_u64_to_le_bytes(lo) + spec_u64_to_le_bytes(hi) + spec_u16_to_le_bytes(fee)
            + spec_u16_to_le_bytes(share),
    ensures
        b.len() == 40,
        b.subrange(0, 20) == sender@,
        spec_u64_from_le_bytes(b.subrange(20, 28)) == lo,
        spec_u64_from_le_bytes(b.subrange(28, 36)) == hi,
        spec_u16_from_le_bytes(b.subrange(36, 38)) == fee,
        spec_u16_from_le_bytes(b.subrange(38, 40)) == share,
{
    lemma_auto_spec_u64_to_from_le_bytes();
    lemma_auto_spec_u16_to_from_le_bytes();
    assert(spec_u64_to_le_bytes(lo).len() == 8);
    assert(spec_u64_to_le_bytes(hi).len() == 8);
    assert(spec_u16_to_le_bytes(fee).len() == 2);
    assert(spec_u16_to_le_bytes(share).len() == 2);
    assert(b.subrange(0, 20) =~= sender@);
    assert(b.subrange(20, 28) =~= spec_u64_to_le_bytes(lo));
    assert(b.subrange(28, 36) =~= spec_u64_to_le_bytes(hi));
    assert(b.subrange(36, 38) =~= spec_u16_to_le_bytes(fee));
    assert(b.subrange(38, 40) =~= spec_u16_to_le_bytes(share));
}

/// Reading a `collect_protocol` block back gives its fields.
pub proof fn lemma_collect_params_round_trip(sender: AccountId, a0: u64, a1: u64, b: Seq<u8>)
    requires
        b == sender@ + spec_u64_to_le_bytes(a0) + spec_u64_to_le_bytes(a1),
    ensures
        b.len() == 36,
        b.subrange(0, 20) == sender@,
        spec_u64_from_le_bytes(b.subrange(20, 28)) == a0,
        spec_u64_from_le_bytes(b.subrange(28, 36)) == a1,
{
    lemma_auto_spec_u64_to_from_le_bytes();
    assert(spec_u64_to_le_bytes(a0).len() == 8);
    assert(spec_u64_to_le_bytes(a1).len() == 8);
    assert(b.subrange(0, 20) =~= sender@);
    assert(b.subrange(20, 28) =~= spec_u64_to_le_bytes(a0));
    assert(b.subrange(28, 36) =~= spec_u64_to_le_bytes(a1));
}

// ---------------------------------------------------------------------------
// Admin operations: each is a call on the pool
// ---------------------------------------------------------------------------

/// The pool call that initializes the pool.
pub fn initialize_pool(
    sender: AccountId,
    sqrt_price_lo: u64,
    sqrt_price_hi: u64,
    fee_bps: u16,
    protocol_fee_share_bps: u16,
) -> (r: PoolCall)
    ensures
        r.function == PoolFunction::InitializePool,
        r.params@ == sender@ + spec_u64_to_le_bytes(sqrt_price_lo) + spec_u64_to_le_bytes(
            sqrt_price_hi,
        ) + spec_u16_to_le_bytes(fee_bps) + spec_u16_to_le_bytes(protocol_fee_share_bps),
{
    let params = params_initialize_pool(
        sender,
        sqrt_price_lo,
        sqrt_price_hi,
        fee_bps,
        protocol_fee_share_bps,
    );
    PoolCall { function: PoolFunction::InitializePool, params }
}

/// The pool call that pauses (1) or unpauses (0) the pool.
pub fn set_pause(sender: AccountId, paused: u8, _pad0: u64, _pad1: u64, _pad2: u32) -> (r: PoolCall)
    ensures
        r.function == PoolFunction::SetPause,
        r.params@ == sender@.push(paused),
{
    let params = params_set_pause(sender, paused);
    PoolCall { function: PoolFunction::SetPause, params }
}

/// The pool call that sets the protocol fee share.
pub fn set_protocol_fee(sender: AccountId, protocol_fee_share_bps: u16, _pad0: u64, _pad1: u64, _pad2: u32) -> (r:
    PoolCall)
    ensures
        r.function == PoolFunction::SetProtocolFee,
        r.params@ == sender@ + spec_u16_to_le_bytes(protocol_fee_share_bps),
{
    let params = params_set_protocol_fee(sender, protocol_fee_share_bps);
    PoolCall { function: PoolFunction::SetProtocolFee, params }
}

/// The pool call that collects protocol fees.
pub fn collect_protocol(sender: AccountId, max_amount_0: u64, max_amount_1: u64, _pad0: u64, _pad1: u64) -> (r:
    PoolCall)
    ensures
        r.function == PoolFunction::CollectProtocol,
        r.params@ == sender@ + spec_u64_to_le_bytes(max_amount_0) + spec_u64_to_le_bytes(max_amount_1),
{
    let params = params_collect_protocol(sender, max_amount_0, max_amount_1);
    PoolCall { function: PoolFunction::CollectProtocol, params }
}

/// A 32-bit reply of the pool: its value, or `u32::MAX` when the call failed.
pub fn reply_u32(reply: Result<i32, ()>) -> (r: u32)
    ensures
        r == match reply {
            Ok(v) => v as u32,
            Err(_) => u32::MAX,
        },
{
    match reply {
        Ok(ret) => #[verifier::truncate] (ret as u32),
        Err(_) => u32::MAX,
    }
}

/// A 64-bit reply of the pool: its value, or 0 when the call failed.
pub fn reply_u64(reply: Result<i32, ()>) -> (r: u64)
    ensures
        r == match reply {
            Ok(v) => v as u64,
            Err(_) => 0,
        },
{
    match reply {
        Ok(ret) => #[verifier::truncate] (ret as u64),
        Err(_) => 0,
    }
}


// ---------------------------------------------------------------------------
// Running a call on the pool in process
// ---------------------------------------------------------------------------

/// The byte at `off` of a parameter block, 0 past its end.
pub open spec fn field_u8(p: Seq<u8>, off: int) -> u8 {
    if off < p.len() {
        p[off]
    } else {
        0
    }
}

/// The `u16` at `off` of a parameter block, 0 when it runs past the end.
pub open spec fn field_u16(p: Seq<u8>, off: int) -> u16 {
    if off + 2 <= p.len() {
        spec_u16_from_le_bytes(p.subrange(off, off + 2))
    } else {
        0
    }
}

/// The `u64` at `off` of a parameter block, 0 when it runs past the end.
pub open spec fn field_u64(p: Seq<u8>, off: int) -> u64 {
    if off + 8 <= p.len() {
        spec_u64_from_le_bytes(p.subrange(off, off + 8))
    } else {
        0
    }
}

/// A `u64` limit handed to a pool function that takes 32 bits: capped.
pub open spec fn cap_u32(v: u64) -> u32 {
    if v > u32::MAX {
        u32::MAX
    } else {
        v as u32
    }
}

/// Whether the account `sender` (its 20 bytes) may run admin calls on the
/// pool: its owner, or its manager once one is set.
pub open spec fn admin_allowed(s: ContractState, sender: Seq<u8>) -> bool {
    sender == s.config.owner@ || (s.config.manager != zero_account() && sender
        == s.config.manager@)
}

/// The tick an `initialize_pool` block starts the pool at: the floor tick
/// of its sqrt price (low and high 64-bit halves).
pub open spec fn init_tick(p: Seq<u8>) -> u32 {
    tick_search(
        (field_u64(p, 20) as int + field_u64(p, 28) as int * 0x1_0000_0000_0000_0000int) as u128,
        MIN_TICK as int,
        MAX_TICK as int,
    ) as i32 as u32
}

/// Checks the caller of a call, the account its parameter block starts with.
fn caller_allowed(s: &ContractState, call: &PoolCall) -> (r: bool)
    requires
        call.params@.len() >= 20,
    ensures
        r == admin_allowed(*s, call.params@.subrange(0, 20)),
{
    let sender = read_account(&call.params, 0);
    let zero = [0u8; 20];
    let is_owner = same_account(&sender, &s.config.owner);
    let no_manager = same_account(&s.config.manager, &zero);
    let is_manager = same_account(&sender, &s.config.manager);
    proof {
        assert(zero@ =~= zero_account()@);
        assert(zero == zero_account()) by {
            assert(zero =~= zero_account());
        }
        if sender@ == s.config.owner@ {
            assert(sender =~= s.config.owner);
        }
        if sender@ == s.config.manager@ {
            assert(sender =~= s.config.manager);
        }
    }
    is_owner || (!no_manager && is_manager)
}

/// Runs a manager call returning 32 bits on the pool in process: the caller
/// must be the pool's owner or manager (else 4, not authorized, and nothing
/// changes); `initialize_pool` starts at the floor tick of the given sqrt
/// price; a call that returns 64 bits answers `u32::MAX`.
pub fn native_dispatch_u32(s: &mut ContractState, call: &PoolCall) -> (r: u32)
    requires
        old(s).wf(),
        call.params@.len() >= 20,
    ensures
        final(s).wf(),
        !admin_allowed(*old(s), call.params@.subrange(0, 20)) ==> r == 4 && *final(s) == *old(s),
        admin_allowed(*old(s), call.params@.subrange(0, 20)) ==> match call.function {
            PoolFunction::InitializePool => {
                let fee_bps = field_u16(call.params@, 36);
                let share = field_u16(call.params@, 38);
                &&& r == 0
                &&& final(s).pool == (PoolState {
                    sqrt_price_q64_64: initial_price(init_tick(call.params@) as i32),
                    current_tick: init_tick(call.params@) as i32,
                    fee_bps: if fee_bps < 10_000 {
                        fee_bps
                    } else {
                        10_000
                    },
                    protocol_fee_share_bps: if share < 2_500 {
                        share
                    } else {
                        2_500
                    },
                    initialized: true,
                    ..old(s).pool
                })
                &&& final(s).config == old(s).config
                &&& final(s).ticks == old(s).ticks
                &&& final(s).bitmap == old(s).bitmap
                &&& final(s).positions == old(s).positions
            },
            PoolFunction::SetPause => {
                &&& r == 0
                &&& final(s).config == (ContractConfig {
                    paused: field_u8(call.params@, 20) != 0,
                    ..old(s).config
                })
                &&& final(s).pool == old(s).pool
                &&& final(s).ticks == old(s).ticks
                &&& final(s).bitmap == old(s).bitmap
                &&& final(s).positions == old(s).positions
            },
            PoolFunction::SetProtocolFee => {
                let share = field_u16(call.params@, 20);
                &&& r == 0
                &&& final(s).pool == (PoolState {
                    protocol_fee_share_bps: if share < 2_500 {
                        share
                    } else {
                        2_500
                    },
                    ..old(s).pool
                })
                &&& final(s).config == old(s).config
                &&& final(s).ticks == old(s).ticks
                &&& final(s).bitmap == old(s).bitmap
                &&& final(s).positions == old(s).positions
            },
            PoolFunction::CollectProtocol => r == u32::MAX && *final(s) == *old(s),
        },
{
    if !caller_allowed(s, call) {
        return ContractError::NotAuthorized.code();
    }
    match call.function {
        PoolFunction::InitializePool => {
            let lo = read_u64(&call.params, 20);
            let hi = read_u64(&call.params, 28);
            let price = (hi as u128) * 0x1_0000_0000_0000_0000u128 + lo as u128;
            let tick = tick_at_sqrt_price(price);
            pool::initialize_pool(s, tick as u32, read_u16(&call.params, 36), read_u16(&call.params, 38))
        },
        PoolFunction::SetPause => pool::set_pause(s, read_u8(&call.params, 20)),
        PoolFunction::SetProtocolFee => pool::set_protocol_fee(s, read_u16(&call.params, 20)),
        PoolFunction::CollectProtocol => u32::MAX,
    }
}

/// Runs a manager call returning 64 bits on the pool in process: for
/// `collect_protocol` from the owner or manager, the token0 protocol fees
/// collected (each limit capped to 32 bits); 4 (not authorized) for any
/// other caller; 0 for a call that returns 32 bits.  Only an allowed
/// collection changes the state.
pub fn native_dispatch_u64(s: &mut ContractState, call: &PoolCall) -> (r: u64)
    requires
        old(s).wf(),
        call.params@.len() >= 20,
    ensures
        final(s).wf(),
        !admin_allowed(*old(s), call.params@.subrange(0, 20)) ==> r == 4 && *final(s) == *old(s),
        admin_allowed(*old(s), call.params@.subrange(0, 20)) && call.function
            != PoolFunction::CollectProtocol ==> r == 0 && *final(s) == *old(s),
        admin_allowed(*old(s), call.params@.subrange(0, 20)) && call.function
            == PoolFunction::CollectProtocol ==> {
            let m0 = cap_u32(field_u64(call.params@, 20));
            let m1 = cap_u32(field_u64(call.params@, 28));
            &&& r as int == capped(old(s).pool.protocol_fees_0, m0 as u64)
            &&& final(s).pool == (PoolState {
                protocol_fees_0: (old(s).pool.protocol_fees_0 - capped(
                    old(s).pool.protocol_fees_0,
                    m0 as u64,
                )) as u128,
                protocol_fees_1: (old(s).pool.protocol_fees_1 - capped(
                    old(s).pool.protocol_fees_1,
                    m1 as u64,
                )) as u128,
                ..old(s).pool
            })
            &&& final(s).config == old(s).config
            &&& final(s).ticks == old(s).ticks
            &&& final(s).bitmap == old(s).bitmap
            &&& final(s).positions == old(s).positions
        },
{
    if !caller_allowed(s, call) {
        return ContractError::NotAuthorized.code() as u64;
    }
    match call.function {
        PoolFunction::CollectProtocol => {
            let a0 = read_u64(&call.params, 20);
            let a1 = read_u64(&call.params, 28);
            let m0: u32 = if a0 > 0xFFFF_FFFF {
                0xFFFF_FFFF
            } else {
                a0 as u32
            };
            let m1: u32 = if a1 > 0xFFFF_FFFF {
                0xFFFF_FFFF
            } else {
                a1 as u32
            };
            pool::collect_protocol(s, m0, m1) as u64
        },
        _ => 0,
    }
}

} // verus!
