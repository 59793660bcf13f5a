//! Binary serialization of the contract state.
//!
//! Little-endian, no padding.  Each map is a `u32` entry count followed by
//! its entries in slot order.
use vstd::prelude::*;
use vstd::bytes::*;
use crate::pool::{ContractState, PoolState, ContractConfig};
use crate::position::{PositionKey, PositionMap, PositionState, MAX_POSITIONS};
use crate::tick::{TickMap, TickState, MAX_TICKS, stored_after_set, droppable};
use crate::tick_bitmap::{TickBitmap, Word256, MAX_BITMAP_WORDS};

verus! {

// ---------------------------------------------------------------------------
// Encodings of scalars
// ---------------------------------------------------------------------------

/// The little-endian bytes of an `i16`.
pub open spec fn enc_i16(v: i16) -> Seq<u8> {
    spec_u16_to_le_bytes(v as u16)
}

/// The little-endian bytes of an `i32`.
pub open spec fn enc_i32(v: i32) -> Seq<u8> {
    spec_u32_to_le_bytes(v as u32)
}

/// The little-endian bytes of an `i64`.
pub open spec fn enc_i64(v: i64) -> Seq<u8> {
    spec_u64_to_le_bytes(v as u64)
}

/// The little-endian bytes of an `i128`.
pub open spec fn enc_i128(v: i128) -> Seq<u8> {
    spec_u128_to_le_bytes(v as u128)
}

/// A flag as one byte: 1 or 0.
pub open spec fn enc_bool(b: bool) -> Seq<u8> {
    seq![if b { 1u8 } else { 0u8 }]
}

/// Reinterpreting a signed value as unsigned and back is the identity.
proof fn lemma_signed_round_trips(a: i16, b: i32, c: i64, d: i128)
    ensures
        ((a as u16) as i16) == a,
        ((b as u32) as i32) == b,
        ((c as u64) as i64) == c,
        ((d as u128) as i128) == d,
{
    assert(((a as u16) as i16) == a) by (bit_vector);
    assert(((b as u32) as i32) == b) by (bit_vector);
    assert(((c as u64) as i64) == c) by (bit_vector);
    assert(((d as u128) as i128) == d) by (bit_vector);
}

/// Each scalar encoding has its fixed length and decodes back.
proof fn lemma_scalars()
    ensures
        forall|x: u16| #![trigger spec_u16_to_le_bytes(x)] spec_u16_to_le_bytes(x).len() == 2
            && spec_u16_from_le_bytes(spec_u16_to_le_bytes(x)) == x,
        forall|x: u32| #![trigger spec_u32_to_le_bytes(x)] spec_u32_to_le_bytes(x).len() == 4
            && spec_u32_from_le_bytes(spec_u32_to_le_bytes(x)) == x,
        forall|x: u64| #![trigger spec_u64_to_le_bytes(x)] spec_u64_to_le_bytes(x).len() == 8
            && spec_u64_from_le_bytes(spec_u64_to_le_bytes(x)) == x,
        forall|x: u128| #![trigger spec_u128_to_le_bytes(x)] spec_u128_to_le_bytes(x).len() == 16
            && spec_u128_from_le_bytes(spec_u128_to_le_bytes(x)) == x,
{
    lemma_u16s();
    lemma_u32s();
    lemma_u64s();
    lemma_u128s();
}

#[verifier::spinoff_prover]
proof fn lemma_u16s()
    ensures
        forall|x: u16| #![trigger spec_u16_to_le_bytes(x)] spec_u16_to_le_bytes(x).len() == 2
            && spec_u16_from_le_bytes(spec_u16_to_le_bytes(x)) == x,
{
    lemma_auto_spec_u16_to_from_le_bytes();
}

#[verifier::spinoff_prover]
proof fn lemma_u32s()
    ensures
        forall|x: u32| #![trigger spec_u32_to_le_bytes(x)] spec_u32_to_le_bytes(x).len() == 4
            && spec_u32_from_le_bytes(spec_u32_to_le_bytes(x)) == x,
{
    lemma_auto_spec_u32_to_from_le_bytes();
}

#[verifier::spinoff_prover]
proof fn lemma_u64s()
    ensures
        forall|x: u64| #![trigger spec_u64_to_le_bytes(x)] spec_u64_to_le_bytes(x).len() == 8
            && spec_u64_from_le_bytes(spec_u64_to_le_bytes(x)) == x,
{
    lemma_auto_spec_u64_to_from_le_bytes();
}

#[verifier::spinoff_prover]
proof fn lemma_u128s()
    ensures
        forall|x: u128| #![trigger spec_u128_to_le_bytes(x)] spec_u128_to_le_bytes(x).len() == 16
            && spec_u128_from_le_bytes(spec_u128_to_le_bytes(x)) == x,
{
    lemma_auto_spec_u128_to_from_le_bytes();
}

// ---------------------------------------------------------------------------
// Low-level byte writer / reader
// ---------------------------------------------------------------------------

/// Appends little-endian values to a growing buffer.
pub struct ByteWriter {
    pub buf: Vec<u8>,
}

impl ByteWriter {
    /// An empty writer.
    pub fn new() -> (r: Self)
        ensures
            r.buf@ == Seq::<u8>::empty(),
    {
        ByteWriter { buf: Vec::new() }
    }

    pub fn u8(&mut self, v: u8)
        ensures
            final(self).buf@ == old(self).buf@.push(v),
    {
        self.buf.push(v);
    }

    pub fn u16(&mut self, v: u16)
        ensures
            final(self).buf@ == old(self).buf@ + spec_u16_to_le_bytes(v),
    {
        let mut b = u16_to_le_bytes(v);
        self.buf.append(&mut b);
    }

    pub fn u32(&mut self, v: u32)
        ensures
            final(self).buf@ == old(self).buf@ + spec_u32_to_le_bytes(v),
    {
        let mut b = u32_to_le_bytes(v);
        self.buf.append(&mut b);
    }

    pub fn i32(&mut self, v: i32)
        ensures
            final(self).buf@ == old(self).buf@ + enc_i32(v),
    {
        let mut b = u32_to_le_bytes(#[verifier::truncate] (v as u32));
        self.buf.append(&mut b);
    }

    pub fn i16(&mut self, v: i16)
        ensures
            final(self).buf@ == old(self).buf@ + enc_i16(v),
    {
        let mut b = u16_to_le_bytes(#[verifier::truncate] (v as u16));
        self.buf.append(&mut b);
    }

    pub fn u64(&mut self, v: u64)
        ensures
            final(self).buf@ == old(self).buf@ + spec_u64_to_le_bytes(v),
    {
        let mut b = u64_to_le_bytes(v);
        self.buf.append(&mut b);
    }

    pub fn i64(&mut self, v: i64)
        ensures
            final(self).buf@ == old(self).buf@ + enc_i64(v),
    {
        let mut b = u64_to_le_bytes(#[verifier::truncate] (v as u64));
        self.buf.append(&mut b);
    }

    pub fn u128(&mut self, v: u128)
        ensures
            final(self).buf@ == old(self).buf@ + spec_u128_to_le_bytes(v),
    {
        let mut b = u128_to_le_bytes(v);
        self.buf.append(&mut b);
    }

    pub fn i128(&mut self, v: i128)
        ensures
            final(self).buf@ == old(self).buf@ + enc_i128(v),
    {
        let mut b = u128_to_le_bytes(#[verifier::truncate] (v as u128));
        self.buf.append(&mut b);
    }

    pub fn bytes20(&mut self, v: &[u8; 20])
        ensures
            final(self).buf@ == old(self).buf@ + v@,
    {
        let mut i: usize = 0;
        let ghost start = self.buf@;
        while i < 20
            invariant
                i <= 20,
                self.buf@ == start + v@.subrange(0, i as int),
            decreases 20 - i,
        {
            self.buf.push(v[i]);
            proof {
                assert(v@.subrange(0, i + 1) == v@.subrange(0, i as int).push(v@[i as int]));
            }
            i += 1;
        }
        proof {
            assert(v@.subrange(0, 20) == v@);
        }
    }
}

/// Reads little-endian values from a byte slice, front to back.
pub struct ByteReader<'a> {
    data: &'a [u8],
    pos: usize,
}

impl<'a> ByteReader<'a> {
    /// The bytes being read.
    pub closed spec fn bytes(&self) -> Seq<u8> {
        self.data@
    }

    /// How many bytes have been consumed.
    pub closed spec fn offset(&self) -> int {
        self.pos as int
    }

    /// The consumed count never passes the end.
    pub closed spec fn wf(&self) -> bool {
        self.pos <= self.data@.len()
    }

    /// Whether `n` more bytes are available.
    pub open spec fn has(&self, n: int) -> bool {
        self.offset() + n <= self.bytes().len()
    }

    /// The next `n` bytes.
    pub open spec fn ahead(&self, n: int) -> Seq<u8> {
        self.bytes().subrange(self.offset(), self.offset() + n)
    }

    /// A reader at the start of `data`.
    pub fn new(data: &'a [u8]) -> (r: Self)
        ensures
            r.wf(),
            r.bytes() == data@,
            r.offset() == 0,
    {
        ByteReader { data, pos: 0 }
    }

    fn take(&mut self, n: usize) -> (r: Option<&'a [u8]>)
        requires
            old(self).wf(),
        ensures
            final(self).wf(),
            final(self).bytes() == old(self).bytes(),
            match r {
                Some(s) => old(self).has(n as int) && s@ == old(self).ahead(n as int)
                    && final(self).offset() == old(self).offset() + n,
                None => !old(self).has(n as int) && final(self).offset() == old(self).offset(),
            },
    {
        if n > self.data.len() - self.pos {
            return None;
        }
        let s = vstd::slice::slice_subrange(self.data, self.pos, self.pos + n);
        self.pos = self.pos + n;
        Some(s)
    }

    pub fn u8(&mut self) -> (r: Option<u8>)
        requires
            old(self).wf(),
        ensures
            final(self).wf(),
            final(self).bytes() == old(self).bytes(),
            r == if old(self).has(1) {
                Some(old(self).ahead(1)[0])
            } else {
                None
            },
            r is Some ==> final(self).offset() == old(self).offset() + 1,
    {
        match self.take(1) {
            Some(s) => Some(s[0]),
            None => None,
        }
    }

    pub fn u16(&mut self) -> (r: Option<u16>)
        requires
            old(self).wf(),
        ensures
            final(self).wf(),
            final(self).bytes() == old(self).bytes(),
            r == if old(self).has(2) {
                Some(spec_u16_from_le_bytes(old(self).ahead(2)))
            } else {
                None
            },
            r is Some ==> final(self).offset() == old(self).offset() + 2,
    {
        match self.take(2) {
            Some(s) => Some(u16_from_le_bytes(s)),
            None => None,
        }
    }

    pub fn u32(&mut self) -> (r: Option<u32>)
        requires
            old(self).wf(),
        ensures
            final(self).wf(),
            final(self).bytes() == old(self).bytes(),
            r == if old(self).has(4) {
                Some(spec_u32_from_le_bytes(old(self).ahead(4)))
            } else {
                None
            },
            r is Some ==> final(self).offset() == old(self).offset() + 4,
    {
        match self.take(4) {
            Some(s) => Some(u32_from_le_bytes(s)),
            None => None,
        }
    }

    pub fn i32(&mut self) -> (r: Option<i32>)
        requires
            old(self).wf(),
        ensures
            final(self).wf(),
            final(self).bytes() == old(self).bytes(),
            r == if old(self).has(4) {
                Some(spec_u32_from_le_bytes(old(self).ahead(4)) as i32)
            } else {
                None
            },
            r is Some ==> final(self).offset() == old(self).offset() + 4,
    {
        match self.take(4) {
            Some(s) => Some(#[verifier::truncate] (u32_from_le_bytes(s) as i32)),
            None => None,
        }
    }

    pub fn i16(&mut self) -> (r: Option<i16>)
        requires
            old(self).wf(),
        ensures
            final(self).wf(),
            final(self).bytes() == old(self).bytes(),
            r == if old(self).has(2) {
                Some(spec_u16_from_le_bytes(old(self).ahead(2)) as i16)
            } else {
                None
            },
            r is Some ==> final(self).offset() == old(self).offset() + 2,
    {
        match self.take(2) {
            Some(s) => Some(#[verifier::truncate] (u16_from_le_bytes(s) as i16)),
            None => None,
        }
    }

    pub fn u64(&mut self) -> (r: Option<u64>)
        requires
            old(self).wf(),
        ensures
            final(self).wf(),
            final(self).bytes() == old(self).bytes(),
            r == if old(self).has(8) {
                Some(spec_u64_from_le_bytes(old(self).ahead(8)))
            } else {
                None
            },
            r is Some ==> final(self).offset() == old(self).offset() + 8,
    {
        match self.take(8) {
            Some(s) => Some(u64_from_le_bytes(s)),
            None => None,
        }
    }

    pub fn i64(&mut self) -> (r: Option<i64>)
        requires
            old(self).wf(),
        ensures
            final(self).wf(),
            final(self).bytes() == old(self).bytes(),
            r == if old(self).has(8) {
                Some(spec_u64_from_le_bytes(old(self).ahead(8)) as i64)
            } else {
                None
            },
            r is Some ==> final(self).offset() == old(self).offset() + 8,
    {
        match self.take(8) {
            Some(s) => Some(#[verifier::truncate] (u64_from_le_bytes(s) as i64)),
            None => None,
        }
    }

    pub fn u128(&mut self) -> (r: Option<u128>)
        requires
            old(self).wf(),
        ensures
            final(self).wf(),
            final(self).bytes() == old(self).bytes(),
            r == if old(self).has(16) {
                Some(spec_u128_from_le_bytes(old(self).ahead(16)))
            } else {
                None
            },
            r is Some ==> final(self).offset() == old(self).offset() + 16,
    {
        match self.take(16) {
            Some(s) => Some(u128_from_le_bytes(s)),
            None => None,
        }
    }

    pub fn i128(&mut self) -> (r: Option<i128>)
        requires
            old(self).wf(),
        ensures
            final(self).wf(),
            final(self).bytes() == old(self).bytes(),
            r == if old(self).has(16) {
                Some(spec_u128_from_le_bytes(old(self).ahead(16)) as i128)
            } else {
                None
            },
            r is Some ==> final(self).offset() == old(self).offset() + 16,
    {
        match self.take(16) {
            Some(s) => Some(#[verifier::truncate] (u128_from_le_bytes(s) as i128)),
            None => None,
        }
    }

    pub fn bytes20(&mut self) -> (r: Option<[u8; 20]>)
        requires
            old(self).wf(),
        ensures
            final(self).wf(),
            final(self).bytes() == old(self).bytes(),
            old(self).has(20) <==> r is Some,
            r is Some ==> r->Some_0@ == old(self).ahead(20) && final(self).offset() == old(
                self,
            ).offset() + 20,
    {
        let s = match self.take(20) {
            Some(s) => s,
            None => return None,
        };
        let mut arr = [0u8; 20];
        let mut i: usize = 0;
        while i < 20
            invariant
                i <= 20,
                s@.len() == 20,
                forall|j: int| 0 <= j < i ==> arr[j] == s@[j],
            decreases 20 - i,
        {
            arr[i] = s[i];
            i += 1;
        }
        assert(arr@ =~= s@);
        Some(arr)
    }
}

// ---------------------------------------------------------------------------
// Fixed-size records
// ---------------------------------------------------------------------------

/// The encoding of the pool fields (105 bytes).
pub open spec fn enc_pool(p: PoolState) -> Seq<u8> {
    spec_u128_to_le_bytes(p.sqrt_price_q64_64) + enc_i32(p.current_tick) + spec_u128_to_le_bytes(
        p.liquidity_active,
    ) + spec_u16_to_le_bytes(p.fee_bps) + spec_u16_to_le_bytes(p.protocol_fee_share_bps)
        + spec_u128_to_le_bytes(p.fee_growth_global_0_q128) + spec_u128_to_le_bytes(
        p.fee_growth_global_1_q128,
    ) + spec_u128_to_le_bytes(p.protocol_fees_0) + spec_u128_to_le_bytes(p.protocol_fees_1)
        + enc_bool(p.initialized)
}

/// The pool fields that 105 bytes spell.
pub open spec fn dec_pool(b: Seq<u8>) -> PoolState {
    PoolState {
        sqrt_price_q64_64: spec_u128_from_le_bytes(b.subrange(0, 16)),
        current_tick: spec_u32_from_le_bytes(b.subrange(16, 20)) as i32,
        liquidity_active: spec_u128_from_le_bytes(b.subrange(20, 36)),
        fee_bps: spec_u16_from_le_bytes(b.subrange(36, 38)),
        protocol_fee_share_bps: spec_u16_from_le_bytes(b.subrange(38, 40)),
        fee_growth_global_0_q128: spec_u128_from_le_bytes(b.subrange(40, 56)),
        fee_growth_global_1_q128: spec_u128_from_le_bytes(b.subrange(56, 72)),
        protocol_fees_0: spec_u128_from_le_bytes(b.subrange(72, 88)),
        protocol_fees_1: spec_u128_from_le_bytes(b.subrange(88, 104)),
        initialized: b[104] != 0,
    }
}

/// The encoding of the configuration (47 bytes).
pub open spec fn enc_config(c: ContractConfig) -> Seq<u8> {
    c.owner@ + c.manager@ + enc_bool(c.paused) + spec_u16_to_le_bytes(c.max_slippage_bps) + enc_i32(
        c.tick_spacing,
    )
}

/// The configuration that 47 bytes spell (the accounts as byte sequences).
pub open spec fn dec_config_matches(c: ContractConfig, b: Seq<u8>) -> bool {
    &&& c.owner@ == b.subrange(0, 20)
    &&& c.manager@ == b.subrange(20, 40)
    &&& c.paused == (b[40] != 0)
    &&& c.max_slippage_bps == spec_u16_from_le_bytes(b.subrange(41, 43))
    &&& c.tick_spacing == spec_u32_from_le_bytes(b.subrange(43, 47)) as i32
}

/// The encoding of a tick state (96 bytes).
pub open spec fn enc_tick_state(t: TickState) -> Seq<u8> {
    spec_u128_to_le_bytes(t.liquidity_gross) + enc_i128(t.liquidity_net) + spec_u128_to_le_bytes(
        t.fee_growth_outside_0_q128,
    ) + spec_u128_to_le_bytes(t.fee_growth_outside_1_q128) + spec_u64_to_le_bytes(
        t.seconds_outside,
    ) + enc_i64(t.tick_cumulative_outside) + spec_u128_to_le_bytes(
        t.seconds_per_liquidity_outside_q128,
    )
}

/// The tick state that 96 bytes spell.
pub open spec fn dec_tick_state(b: Seq<u8>) -> TickState {
    TickState {
        liquidity_gross: spec_u128_from_le_bytes(b.subrange(0, 16)),
        liquidity_net: spec_u128_from_le_bytes(b.subrange(16, 32)) as i128,
        fee_growth_outside_0_q128: spec_u128_from_le_bytes(b.subrange(32, 48)),
        fee_growth_outside_1_q128: spec_u128_from_le_bytes(b.subrange(48, 64)),
        seconds_outside: spec_u64_from_le_bytes(b.subrange(64, 72)),
        tick_cumulative_outside: spec_u64_from_le_bytes(b.subrange(72, 80)) as i64,
        seconds_per_liquidity_outside_q128: spec_u128_from_le_bytes(b.subrange(80, 96)),
    }
}

/// The encoding of a position state (80 bytes).
pub open spec fn enc_pos_state(p: PositionState) -> Seq<u8> {
    spec_u128_to_le_bytes(p.liquidity) + spec_u128_to_le_bytes(p.fee_growth_inside_0_last_q128)
        + spec_u128_to_le_bytes(p.fee_growth_inside_1_last_q128) + spec_u128_to_le_bytes(
        p.tokens_owed_0,
    ) + spec_u128_to_le_bytes(p.tokens_owed_1)
}

/// The position state that 80 bytes spell.
pub open spec fn dec_pos_state(b: Seq<u8>) -> PositionState {
    PositionState {
        liquidity: spec_u128_from_le_bytes(b.subrange(0, 16)),
        fee_growth_inside_0_last_q128: spec_u128_from_le_bytes(b.subrange(16, 32)),
        fee_growth_inside_1_last_q128: spec_u128_from_le_bytes(b.subrange(32, 48)),
        tokens_owed_0: spec_u128_from_le_bytes(b.subrange(48, 64)),
        tokens_owed_1: spec_u128_from_le_bytes(b.subrange(64, 80)),
    }
}

/// Decoding the pool's encoding gives the pool back.
pub proof fn lemma_pool_round_trip(p: PoolState)
    ensures
        enc_pool(p).len() == 105,
        dec_pool(enc_pool(p)) == p,
{
    lemma_scalars();
    lemma_signed_round_trips(0, p.current_tick, 0, 0);
    let b = enc_pool(p);
    assert(b.subrange(0, 16) =~= spec_u128_to_le_bytes(p.sqrt_price_q64_64));
    assert(b.subrange(16, 20) =~= enc_i32(p.current_tick));
    assert(b.subrange(20, 36) =~= spec_u128_to_le_bytes(p.liquidity_active));
    assert(b.subrange(36, 38) =~= spec_u16_to_le_bytes(p.fee_bps));
    assert(b.subrange(38, 40) =~= spec_u16_to_le_bytes(p.protocol_fee_share_bps));
    assert(b.subrange(40, 56) =~= spec_u128_to_le_bytes(p.fee_growth_global_0_q128));
    assert(b.subrange(56, 72) =~= spec_u128_to_le_bytes(p.fee_growth_global_1_q128));
    assert(b.subrange(72, 88) =~= spec_u128_to_le_bytes(p.protocol_fees_0));
    assert(b.subrange(88, 104) =~= spec_u128_to_le_bytes(p.protocol_fees_1));
    assert(b[104] == enc_bool(p.initialized)[0]);
}

/// Decoding the configuration's encoding gives the configuration back.
pub proof fn lemma_config_round_trip(c: ContractConfig)
    ensures
        enc_config(c).len() == 47,
        dec_config_matches(c, enc_config(c)),
{
    lemma_scalars();
    lemma_signed_round_trips(0, c.tick_spacing, 0, 0);
    let b = enc_config(c);
    assert(b.subrange(0, 20) =~= c.owner@);
    assert(b.subrange(20, 40) =~= c.manager@);
    assert(b[40] == enc_bool(c.paused)[0]);
    assert(b.subrange(41, 43) =~= spec_u16_to_le_bytes(c.max_slippage_bps));
    assert(b.subrange(43, 47) =~= enc_i32(c.tick_spacing));
}

/// Decoding a tick state's encoding gives the state back.
pub proof fn lemma_tick_state_round_trip(t: TickState)
    ensures
        enc_tick_state(t).len() == 96,
        dec_tick_state(enc_tick_state(t)) == t,
{
    lemma_scalars();
    lemma_signed_round_trips(0, 0, t.tick_cumulative_outside, t.liquidity_net);
    let b = enc_tick_state(t);
    assert(b.subrange(0, 16) =~= spec_u128_to_le_bytes(t.liquidity_gross));
    assert(b.subrange(16, 32) =~= enc_i128(t.liquidity_net));
    assert(b.subrange(32, 48) =~= spec_u128_to_le_bytes(t.fee_growth_outside_0_q128));
    assert(b.subrange(48, 64) =~= spec_u128_to_le_bytes(t.fee_growth_outside_1_q128));
    assert(b.subrange(64, 72) =~= spec_u64_to_le_bytes(t.seconds_outside));
    assert(b.subrange(72, 80) =~= enc_i64(t.tick_cumulative_outside));
    assert(b.subrange(80, 96) =~= spec_u128_to_le_bytes(t.seconds_per_liquidity_outside_q128));
}

/// Decoding a position state's encoding gives the state back.
pub proof fn lemma_pos_state_round_trip(p: PositionState)
    ensures
        enc_pos_state(p).len() == 80,
        dec_pos_state(enc_pos_state(p)) == p,
{
    lemma_scalars();
    let b = enc_pos_state(p);
    assert(b.subrange(0, 16) =~= spec_u128_to_le_bytes(p.liquidity));
    assert(b.subrange(16, 32) =~= spec_u128_to_le_bytes(p.fee_growth_inside_0_last_q128));
    assert(b.subrange(32, 48) =~= spec_u128_to_le_bytes(p.fee_growth_inside_1_last_q128));
    assert(b.subrange(48, 64) =~= spec_u128_to_le_bytes(p.tokens_owed_0));
    assert(b.subrange(64, 80) =~= spec_u128_to_le_bytes(p.tokens_owed_1));
}

/// A read of `n` bytes at `k` into a window at the reader's offset.
proof fn lemma_window(b: Seq<u8>, o: int, len: int, k: int, n: int)
    requires
        0 <= o,
        0 <= k,
        0 <= n,
        k + n <= len,
        o + len <= b.len(),
    ensures
        b.subrange(o, o + len).subrange(k, k + n) == b.subrange(o + k, o + k + n),
{
    assert(b.subrange(o, o + len).subrange(k, k + n) =~= b.subrange(o + k, o + k + n));
}

pub(crate) fn encode_pool(w: &mut ByteWriter, s: &PoolState)
    ensures
        final(w).buf@ == old(w).buf@ + enc_pool(*s),
{
    w.u128(s.sqrt_price_q64_64);
    w.i32(s.current_tick);
    w.u128(s.liquidity_active);
    w.u16(s.fee_bps);
    w.u16(s.protocol_fee_share_bps);
    w.u128(s.fee_growth_global_0_q128);
    w.u128(s.fee_growth_global_1_q128);
    w.u128(s.protocol_fees_0);
    w.u128(s.protocol_fees_1);
    w.u8(s.initialized as u8);
    proof {
        assert(w.buf@ =~= old(w).buf@ + enc_pool(*s));
    }
}

pub(crate) fn decode_pool(r: &mut ByteReader) -> (res: Option<PoolState>)
    requires
        old(r).wf(),
    ensures
        final(r).wf(),
        final(r).bytes() == old(r).bytes(),
        res == if old(r).has(105) {
            Some(dec_pool(old(r).ahead(105)))
        } else {
            None
        },
        res is Some ==> final(r).offset() == old(r).offset() + 105,
{
    let ghost b = r.bytes();
    let ghost o = r.offset();
    proof {
        if o + 105 <= b.len() {
            lemma_window(b, o, 105, 0, 16);
            lemma_window(b, o, 105, 16, 4);
            lemma_window(b, o, 105, 20, 16);
            lemma_window(b, o, 105, 36, 2);
            lemma_window(b, o, 105, 38, 2);
            lemma_window(b, o, 105, 40, 16);
            lemma_window(b, o, 105, 56, 16);
            lemma_window(b, o, 105, 72, 16);
            lemma_window(b, o, 105, 88, 16);
            lemma_window(b, o, 105, 104, 1);
        }
    }
    let sqrt_price_q64_64 = r.u128()?;
    let current_tick = r.i32()?;
    let liquidity_active = r.u128()?;
    let fee_bps = r.u16()?;
    let protocol_fee_share_bps = r.u16()?;
    let fee_growth_global_0_q128 = r.u128()?;
    let fee_growth_global_1_q128 = r.u128()?;
    let protocol_fees_0 = r.u128()?;
    let protocol_fees_1 = r.u128()?;
    let initialized = r.u8()? != 0;
    Some(
        PoolState {
            sqrt_price_q64_64,
            current_tick,
            liquidity_active,
            fee_bps,
            protocol_fee_share_bps,
            fee_growth_global_0_q128,
            fee_growth_global_1_q128,
            protocol_fees_0,
            protocol_fees_1,
            initialized,
        },
    )
}

pub(crate) fn encode_config(w: &mut ByteWriter, c: &ContractConfig)
    ensures
        final(w).buf@ == old(w).buf@ + enc_config(*c),
{
    w.bytes20(&c.owner);
    w.bytes20(&c.manager);
    w.u8(c.paused as u8);
    w.u16(c.max_slippage_bps);
    w.i32(c.tick_spacing);
    proof {
        assert(w.buf@ =~= old(w).buf@ + enc_config(*c));
    }
}

pub(crate) fn decode_config(r: &mut ByteReader) -> (res: Option<ContractConfig>)
    requires
        old(r).wf(),
    ensures
        final(r).wf(),
        final(r).bytes() == old(r).bytes(),
        old(r).has(47) <==> res is Some,
        res is Some ==> dec_config_matches(res->Some_0, old(r).ahead(47)) && final(r).offset()
            == old(r).offset() + 47,
{
    let ghost b = r.bytes();
    let ghost o = r.offset();
    proof {
        if o + 47 <= b.len() {
            lemma_window(b, o, 47, 0, 20);
            lemma_window(b, o, 47, 20, 20);
            lemma_window(b, o, 47, 40, 1);
            lemma_window(b, o, 47, 41, 2);
            lemma_window(b, o, 47, 43, 4);
        }
    }
    let owner = r.bytes20()?;
    let manager = r.bytes20()?;
    let paused = r.u8()? != 0;
    let max_slippage_bps = r.u16()?;
    let tick_spacing = r.i32()?;
    Some(ContractConfig { owner, manager, paused, max_slippage_bps, tick_spacing })
}

/// Writes a tick state (96 bytes).
pub fn encode_tick_state(w: &mut ByteWriter, t: &TickState)
    ensures
        final(w).buf@ == old(w).buf@ + enc_tick_state(*t),
{
    w.u128(t.liquidity_gross);
    w.i128(t.liquidity_net);
    w.u128(t.fee_growth_outside_0_q128);
    w.u128(t.fee_growth_outside_1_q128);
    w.u64(t.seconds_outside);
    w.i64(t.tick_cumulative_outside);
    w.u128(t.seconds_per_liquidity_outside_q128);
    proof {
        assert(w.buf@ =~= old(w).buf@ + enc_tick_state(*t));
    }
}

/// Reads a tick state: `None` when fewer than 96 bytes remain.
pub fn decode_tick_state(r: &mut ByteReader) -> (res: Option<TickState>)
    requires
        old(r).wf(),
    ensures
        final(r).wf(),
        final(r).bytes() == old(r).bytes(),
        res == if old(r).has(96) {
            Some(dec_tick_state(old(r).ahead(96)))
        } else {
            None
        },
        res is Some ==> final(r).offset() == old(r).offset() + 96,
{
    let ghost b = r.bytes();
    let ghost o = r.offset();
    proof {
        if o + 96 <= b.len() {
            lemma_window(b, o, 96, 0, 16);
            lemma_window(b, o, 96, 16, 16);
            lemma_window(b, o, 96, 32, 16);
            lemma_window(b, o, 96, 48, 16);
            lemma_window(b, o, 96, 64, 8);
            lemma_window(b, o, 96, 72, 8);
            lemma_window(b, o, 96, 80, 16);
        }
    }
    let liquidity_gross = r.u128()?;
    let liquidity_net = r.i128()?;
    let fee_growth_outside_0_q128 = r.u128()?;
    let fee_growth_outside_1_q128 = r.u128()?;
    let seconds_outside = r.u64()?;
    let tick_cumulative_outside = r.i64()?;
    let seconds_per_liquidity_outside_q128 = r.u128()?;
    Some(
        TickState {
            liquidity_gross,
            liquidity_net,
            fee_growth_outside_0_q128,
            fee_growth_outside_1_q128,
            seconds_outside,
            tick_cumulative_outside,
            seconds_per_liquidity_outside_q128,
        },
    )
}

fn encode_pos_state(w: &mut ByteWriter, p: &PositionState)
    ensures
        final(w).buf@ == old(w).buf@ + enc_pos_state(*p),
{
    w.u128(p.liquidity);
    w.u128(p.fee_growth_inside_0_last_q128);
    w.u128(p.fee_growth_inside_1_last_q128);
    w.u128(p.tokens_owed_0);
    w.u128(p.tokens_owed_1);
    proof {
        assert(w.buf@ =~= old(w).buf@ + enc_pos_state(*p));
    }
}

fn decode_pos_state(r: &mut ByteReader) -> (res: Option<PositionState>)
    requires
        old(r).wf(),
    ensures
        final(r).wf(),
        final(r).bytes() == old(r).bytes(),
        res == if old(r).has(80) {
            Some(dec_pos_state(old(r).ahead(80)))
        } else {
            None
        },
        res is Some ==> final(r).offset() == old(r).offset() + 80,
{
    let ghost b = r.bytes();
    let ghost o = r.offset();
    proof {
        if o + 80 <= b.len() {
            lemma_window(b, o, 80, 0, 16);
            lemma_window(b, o, 80, 16, 16);
            lemma_window(b, o, 80, 32, 16);
            lemma_window(b, o, 80, 48, 16);
            lemma_window(b, o, 80, 64, 16);
        }
    }
    let liquidity = r.u128()?;
    let fee_growth_inside_0_last_q128 = r.u128()?;
    let fee_growth_inside_1_last_q128 = r.u128()?;
    let tokens_owed_0 = r.u128()?;
    let tokens_owed_1 = r.u128()?;
    Some(
        PositionState {
            liquidity,
            fee_growth_inside_0_last_q128,
            fee_growth_inside_1_last_q128,
            tokens_owed_0,
            tokens_owed_1,
        },
    )
}

// ---------------------------------------------------------------------------
// Maps
// ---------------------------------------------------------------------------

/// Concatenation and windows: a window inside either part reads that part.
proof fn lemma_concat_window(a: Seq<u8>, b: Seq<u8>, i: int, j: int)
    requires
        0 <= i <= j <= a.len() + b.len(),
    ensures
        j <= a.len() ==> (a + b).subrange(i, j) == a.subrange(i, j),
        a.len() <= i ==> (a + b).subrange(i, j) == b.subrange(i - a.len(), j - a.len()),
{
    if j <= a.len() {
        assert((a + b).subrange(i, j) =~= a.subrange(i, j));
    }
    if a.len() <= i {
        assert((a + b).subrange(i, j) =~= b.subrange(i - a.len(), j - a.len()));
    }
}

/// The first `n` entries of a tick map: each its tick and its state.
pub open spec fn enc_tick_entries(m: TickMap, n: nat) -> Seq<u8>
    decreases n,
{
    if n == 0 {
        Seq::empty()
    } else {
        enc_tick_entries(m, (n - 1) as nat) + enc_i32(m.keys[n - 1]) + enc_tick_state(
            m.vals[n - 1],
        )
    }
}

/// The encoding of a tick map: the entry count, then the entries.
pub open spec fn enc_ticks(m: TickMap) -> Seq<u8> {
    spec_u32_to_le_bytes(m.len as u32) + enc_tick_entries(m, m.len as nat)
}

/// The tick of entry `i` of tick-map entries starting at `base`.
pub open spec fn tick_entry_key(b: Seq<u8>, base: int, i: int) -> i32 {
    spec_u32_from_le_bytes(b.subrange(base + 100 * i, base + 100 * i + 4)) as i32
}

/// The state of entry `i` of tick-map entries starting at `base`.
pub open spec fn tick_entry_state(b: Seq<u8>, base: int, i: int) -> TickState {
    dec_tick_state(b.subrange(base + 100 * i + 4, base + 100 * i + 100))
}

/// What the map decoded from the first `n` entries holds for `t`: the state
/// of the last entry for `t`, unless that state is one `set` drops.
pub open spec fn decoded_tick(b: Seq<u8>, base: int, n: nat, t: i32) -> Option<TickState>
    decreases n,
{
    if n == 0 {
        None
    } else if tick_entry_key(b, base, n - 1) == t {
        stored_after_set(tick_entry_state(b, base, n - 1))
    } else {
        decoded_tick(b, base, (n - 1) as nat, t)
    }
}

/// Entry `i` of the encoded entries is the `i`th slot's tick and state.
proof fn lemma_tick_entries(m: TickMap, n: nat, i: int)
    requires
        0 <= i < n,
    ensures
        enc_tick_entries(m, n).len() == 100 * n,
        enc_tick_entries(m, n).subrange(100 * i, 100 * i + 4) == enc_i32(m.keys[i]),
        enc_tick_entries(m, n).subrange(100 * i + 4, 100 * i + 100) == enc_tick_state(m.vals[i]),
    decreases n,
{
    lemma_scalars();
    lemma_tick_state_round_trip(m.vals[n - 1]);
    let prev = enc_tick_entries(m, (n - 1) as nat);
    let last = enc_i32(m.keys[n - 1]) + enc_tick_state(m.vals[n - 1]);
    assert(enc_tick_entries(m, n) =~= prev + last);
    if n > 1 {
        lemma_tick_entries(m, (n - 1) as nat, 0);
    }
    if i < n - 1 {
        lemma_tick_entries(m, (n - 1) as nat, i);
        lemma_concat_window(prev, last, 100 * i, 100 * i + 4);
        lemma_concat_window(prev, last, 100 * i + 4, 100 * i + 100);
    } else {
        lemma_concat_window(prev, last, 100 * i, 100 * i + 4);
        lemma_concat_window(prev, last, 100 * i + 4, 100 * i + 100);
        assert(last.subrange(0, 4) =~= enc_i32(m.keys[n - 1]));
        assert(last.subrange(4, 100) =~= enc_tick_state(m.vals[n - 1]));
    }
}

pub(crate) fn encode_ticks(w: &mut ByteWriter, m: &TickMap)
    requires
        m.wf(),
    ensures
        final(w).buf@ == old(w).buf@ + enc_ticks(*m),
{
    w.u32(m.len as u32);
    let ghost head = w.buf@;
    let mut i: usize = 0;
    while i < m.len
        invariant
            m.wf(),
            i <= m.len,
            w.buf@ == head + enc_tick_entries(*m, i as nat),
        decreases m.len - i,
    {
        w.i32(m.keys[i]);
        encode_tick_state(w, &m.vals[i]);
        proof {
            assert(w.buf@ =~= head + enc_tick_entries(*m, (i + 1) as nat));
        }
        i += 1;
    }
    proof {
        assert(w.buf@ =~= old(w).buf@ + enc_ticks(*m));
    }
}

pub(crate) fn decode_ticks(r: &mut ByteReader) -> (res: Option<TickMap>)
    requires
        old(r).wf(),
        old(r).has(4) ==> spec_u32_from_le_bytes(old(r).ahead(4)) <= MAX_TICKS,
    ensures
        final(r).wf(),
        final(r).bytes() == old(r).bytes(),
        res is Some <==> old(r).has(4) && old(r).has(
            4 + 100 * spec_u32_from_le_bytes(old(r).ahead(4)),
        ),
        res is Some ==> {
            let c = spec_u32_from_le_bytes(old(r).ahead(4));
            let m = res->Some_0;
            &&& m.wf()
            &&& m.tidy()
            &&& final(r).offset() == old(r).offset() + 4 + 100 * c
            &&& forall|t: i32| #[trigger]
                m.lookup(t) == decoded_tick(old(r).bytes(), old(r).offset() + 4, c as nat, t)
        },
{
    let ghost b = r.bytes();
    let ghost o = r.offset();
    let count32 = r.u32()?;
    let count = count32 as usize;
    let mut map = TickMap::new();
    let mut i: usize = 0;
    while i < count
        invariant
            r.wf(),
            r.bytes() == b,
            b == old(r).bytes(),
            o == old(r).offset(),
            o + 4 <= b.len(),
            count == spec_u32_from_le_bytes(b.subrange(o, o + 4)),
            count <= MAX_TICKS,
            r.offset() == o + 4 + 100 * i,
            i <= count,
            map.wf(),
            map.tidy(),
            map.len <= i,
            forall|t: i32| #[trigger] map.lookup(t) == decoded_tick(b, o + 4, i as nat, t),
        decreases count - i,
    {
        let k = r.i32()?;
        let v = decode_tick_state(r)?;
        let ghost before = map;
        map.set(k, v);
        proof {
            assert(k == tick_entry_key(b, o + 4, i as int));
            assert(v == tick_entry_state(b, o + 4, i as int));
            assert forall|t: i32| #[trigger] map.lookup(t) == decoded_tick(b, o + 4, (i + 1) as nat, t) by {
                assert(before.lookup(t) == decoded_tick(b, o + 4, i as nat, t));
            }
        }
        i += 1;
    }
    Some(map)
}

/// The encoding of a bitmap word: its four limbs.
pub open spec fn enc_word(v: Word256) -> Seq<u8> {
    spec_u64_to_le_bytes(v.0[0]) + spec_u64_to_le_bytes(v.0[1]) + spec_u64_to_le_bytes(v.0[2])
        + spec_u64_to_le_bytes(v.0[3])
}

/// The first `n` entries of a bitmap: each its word position and word.
pub open spec fn enc_bitmap_entries(m: TickBitmap, n: nat) -> Seq<u8>
    decreases n,
{
    if n == 0 {
        Seq::empty()
    } else {
        enc_bitmap_entries(m, (n - 1) as nat) + enc_i16(m.word_keys[n - 1]) + enc_word(
            m.word_vals[n - 1],
        )
    }
}

/// The encoding of a bitmap: the word count, then the words.
pub open spec fn enc_bitmap(m: TickBitmap) -> Seq<u8> {
    spec_u32_to_le_bytes(m.len as u32) + enc_bitmap_entries(m, m.len as nat)
}

/// The word position of entry `i` of bitmap entries starting at `base`.
pub open spec fn word_entry_key(b: Seq<u8>, base: int, i: int) -> i16 {
    spec_u16_from_le_bytes(b.subrange(base + 34 * i, base + 34 * i + 2)) as i16
}

/// Limb `j` of the word of entry `i` of bitmap entries starting at `base`.
pub open spec fn word_entry_limb(b: Seq<u8>, base: int, i: int, j: int) -> u64 {
    spec_u64_from_le_bytes(b.subrange(base + 34 * i + 2 + 8 * j, base + 34 * i + 10 + 8 * j))
}

/// The word of entry `i` has no bit set.
pub open spec fn word_entry_zero(b: Seq<u8>, base: int, i: int) -> bool {
    &&& word_entry_limb(b, base, i, 0) == 0
    &&& word_entry_limb(b, base, i, 1) == 0
    &&& word_entry_limb(b, base, i, 2) == 0
    &&& word_entry_limb(b, base, i, 3) == 0
}

/// Whether one of the first `n` entries marks bit `bit` of word `w`.
pub open spec fn decoded_has_tick(b: Seq<u8>, base: int, n: nat, w: i16, bit: int) -> bool {
    0 <= bit < 256 && exists|i: int|
        0 <= i < n && word_entry_key(b, base, i) == w && #[trigger] crate::tick_bitmap::limb_has(
            word_entry_limb(b, base, i, bit / 64),
            bit % 64,
        )
}

/// No two of the first `n` entries with a bit set share a word position.
pub open spec fn word_entries_distinct(b: Seq<u8>, base: int, n: nat) -> bool {
    forall|i: int, j: int|
        0 <= i < j < n && !#[trigger] word_entry_zero(b, base, i) && !#[trigger] word_entry_zero(b, base, j)
            ==> word_entry_key(b, base, i) != word_entry_key(b, base, j)
}

/// Entry `i` of the encoded words is the `i`th slot's position and limbs.
proof fn lemma_bitmap_entries(m: TickBitmap, n: nat, i: int)
    requires
        0 <= i < n,
    ensures
        enc_bitmap_entries(m, n).len() == 34 * n,
        enc_bitmap_entries(m, n).subrange(34 * i, 34 * i + 2) == enc_i16(m.word_keys[i]),
        forall|j: int|
            0 <= j < 4 ==> #[trigger] enc_bitmap_entries(m, n).subrange(
                34 * i + 2 + 8 * j,
                34 * i + 10 + 8 * j,
            ) == spec_u64_to_le_bytes(m.word_vals[i].0[j]),
    decreases n,
{
    lemma_scalars();
    let prev = enc_bitmap_entries(m, (n - 1) as nat);
    let v = m.word_vals[n - 1];
    let last = enc_i16(m.word_keys[n - 1]) + enc_word(v);
    assert(enc_bitmap_entries(m, n) =~= prev + last);
    if n > 1 {
        lemma_bitmap_entries(m, (n - 1) as nat, 0);
    }
    if i < n - 1 {
        lemma_bitmap_entries(m, (n - 1) as nat, i);
        lemma_concat_window(prev, last, 34 * i, 34 * i + 2);
        assert forall|j: int| 0 <= j < 4 implies #[trigger] enc_bitmap_entries(m, n).subrange(
            34 * i + 2 + 8 * j,
            34 * i + 10 + 8 * j,
        ) == spec_u64_to_le_bytes(m.word_vals[i].0[j]) by {
            lemma_concat_window(prev, last, 34 * i + 2 + 8 * j, 34 * i + 10 + 8 * j);
        }
    } else {
        lemma_concat_window(prev, last, 34 * i, 34 * i + 2);
        assert(last.subrange(0, 2) =~= enc_i16(m.word_keys[n - 1]));
        assert forall|j: int| 0 <= j < 4 implies #[trigger] enc_bitmap_entries(m, n).subrange(
            34 * i + 2 + 8 * j,
            34 * i + 10 + 8 * j,
        ) == spec_u64_to_le_bytes(m.word_vals[i].0[j]) by {
            lemma_concat_window(prev, last, 34 * i + 2 + 8 * j, 34 * i + 10 + 8 * j);
            assert(last.subrange(2 + 8 * j, 10 + 8 * j) =~= spec_u64_to_le_bytes(v.0[j]));
        }
    }
}

pub(crate) fn encode_bitmap(w: &mut ByteWriter, b: &TickBitmap)
    requires
        b.wf(),
    ensures
        final(w).buf@ == old(w).buf@ + enc_bitmap(*b),
{
    w.u32(b.len as u32);
    let ghost head = w.buf@;
    let mut i: usize = 0;
    while i < b.len
        invariant
            b.wf(),
            i <= b.len,
            w.buf@ == head + enc_bitmap_entries(*b, i as nat),
        decreases b.len - i,
    {
        w.i16(b.word_keys[i]);
        let limbs = b.word_vals[i].0;
        w.u64(limbs[0]);
        w.u64(limbs[1]);
        w.u64(limbs[2]);
        w.u64(limbs[3]);
        proof {
            assert(w.buf@ =~= head + enc_bitmap_entries(*b, (i + 1) as nat));
        }
        i += 1;
    }
    proof {
        assert(w.buf@ =~= old(w).buf@ + enc_bitmap(*b));
    }
}

pub(crate) fn decode_bitmap(r: &mut ByteReader) -> (res: Option<TickBitmap>)
    requires
        old(r).wf(),
        old(r).has(4) ==> spec_u32_from_le_bytes(old(r).ahead(4)) <= MAX_BITMAP_WORDS,
    ensures
        final(r).wf(),
        final(r).bytes() == old(r).bytes(),
        res is Some <==> old(r).has(4) && old(r).has(
            4 + 34 * spec_u32_from_le_bytes(old(r).ahead(4)),
        ),
        res is Some ==> {
            let c = spec_u32_from_le_bytes(old(r).ahead(4));
            let m = res->Some_0;
            let base = old(r).offset() + 4;
            &&& m.len <= MAX_BITMAP_WORDS
            &&& m.tidy()
            &&& word_entries_distinct(old(r).bytes(), base, c as nat) ==> m.wf()
            &&& final(r).offset() == old(r).offset() + 4 + 34 * c
            &&& forall|w: i16, bit: int| #[trigger]
                m.has_tick(w, bit) == decoded_has_tick(old(r).bytes(), base, c as nat, w, bit)
        },
{
    let ghost b = r.bytes();
    let ghost o = r.offset();
    let count32 = r.u32()?;
    let count = count32 as usize;
    let mut bm = TickBitmap::new();
    let ghost base = o + 4;
    let mut i: usize = 0;
    while i < count
        invariant
            r.wf(),
            r.bytes() == b,
            b == old(r).bytes(),
            o == old(r).offset(),
            base == o + 4,
            o + 4 <= b.len(),
            count == spec_u32_from_le_bytes(b.subrange(o, o + 4)),
            count <= MAX_BITMAP_WORDS,
            r.offset() == base + 34 * i,
            i <= count,
            bm.len <= i,
            bm.tidy(),
            forall|k: int|
                0 <= k < bm.len ==> exists|e: int|
                    0 <= e < i && #[trigger] bm.word_keys[k] == word_entry_key(b, base, e)
                        && !word_entry_zero(b, base, e),
            word_entries_distinct(b, base, count as nat) ==> bm.wf(),
            forall|w: i16, bit: int| #[trigger]
                bm.has_tick(w, bit) == decoded_has_tick(b, base, i as nat, w, bit),
        decreases count - i,
    {
        let k = r.i16()?;
        let mut limbs = [0u64; 4];
        let mut j: usize = 0;
        while j < 4
            invariant
                r.wf(),
                r.bytes() == b,
                b == old(r).bytes(),
                o == old(r).offset(),
                base == o + 4,
                o + 4 <= b.len(),
                count == spec_u32_from_le_bytes(b.subrange(o, o + 4)),
                i < count,
                j <= 4,
                r.offset() == base + 34 * i + 2 + 8 * j,
                forall|q: int| 0 <= q < j ==> limbs[q] == word_entry_limb(b, base, i as int, q),
            decreases 4 - j,
        {
            limbs[j] = r.u64()?;
            j += 1;
        }
        let word = Word256(limbs);
        assert(k == word_entry_key(b, base, i as int));
        let ghost before = bm;
        if !word.is_empty() {
            let n = bm.len;
            bm.word_keys[n] = k;
            bm.word_vals[n] = word;
            bm.len = n + 1;
            proof {
                assert forall|w: i16, bit: int| #[trigger]
                    bm.has_tick(w, bit) == decoded_has_tick(b, base, (i + 1) as nat, w, bit) by {
                    if 0 <= bit < 256 {
                        if bm.has_tick(w, bit) {
                            let q = choose|q: int|
                                0 <= q < bm.len && bm.word_keys[q] == w
                                    && #[trigger] bm.word_vals[q].has(bit);
                            if q < n {
                                assert(before.word_vals[q].has(bit));
                                assert(before.has_tick(w, bit));
                            }
                        }
                        if decoded_has_tick(b, base, (i + 1) as nat, w, bit) {
                            let e = choose|e: int|
                                0 <= e < i + 1 && word_entry_key(b, base, e) == w
                                    && #[trigger] crate::tick_bitmap::limb_has(
                                    word_entry_limb(b, base, e, bit / 64),
                                    bit % 64,
                                );
                            if e < i {
                                assert(decoded_has_tick(b, base, i as nat, w, bit));
                                assert(before.has_tick(w, bit));
                                let q = choose|q: int|
                                    0 <= q < before.len && before.word_keys[q] == w
                                        && #[trigger] before.word_vals[q].has(bit);
                                assert(bm.word_vals[q] == before.word_vals[q]);
                                assert(bm.word_keys[q] == before.word_keys[q]);
                                assert(bm.word_vals[q].has(bit));
                            } else {
                                assert(bm.word_vals[n as int].has(bit));
                            }
                        }
                    }
                }
                assert(!word_entry_zero(b, base, i as int));
                if word_entries_distinct(b, base, count as nat) {
                    assert forall|x: int, y: int| 0 <= x < y < bm.len implies bm.word_keys[x]
                        != bm.word_keys[y] by {
                        if y == n {
                            let e = choose|e: int|
                                0 <= e < i && #[trigger] bm.word_keys[x] == word_entry_key(b, base, e)
                                    && !word_entry_zero(b, base, e);
                            assert(bm.word_keys[x] == before.word_keys[x]);
                        }
                    }
                }
                assert forall|q: int| 0 <= q < bm.len implies exists|e: int|
                    0 <= e < i + 1 && #[trigger] bm.word_keys[q] == word_entry_key(b, base, e)
                        && !word_entry_zero(b, base, e) by {
                    if q == n {
                        assert(bm.word_keys[q] == word_entry_key(b, base, i as int));
                    } else {
                        assert(bm.word_keys[q] == before.word_keys[q]);
                    }
                }
            }
        } else {
            proof {
                assert forall|w: i16, bit: int| #[trigger]
                    bm.has_tick(w, bit) == decoded_has_tick(b, base, (i + 1) as nat, w, bit) by {
                    if decoded_has_tick(b, base, (i + 1) as nat, w, bit) {
                        let e = choose|e: int|
                            0 <= e < i + 1 && word_entry_key(b, base, e) == w
                                && #[trigger] crate::tick_bitmap::limb_has(
                                word_entry_limb(b, base, e, bit / 64),
                                bit % 64,
                            );
                        if e == i {
                            word.lemma_zero_has_none();
                            assert(word.has(bit));
                        }
                        assert(decoded_has_tick(b, base, i as nat, w, bit));
                    }
                }
            }
        }
        i += 1;
    }
    Some(bm)
}

/// The first `n` entries of a position map: owner, range and state.
pub open spec fn enc_pos_entries(m: PositionMap, n: nat) -> Seq<u8>
    decreases n,
{
    if n == 0 {
        Seq::empty()
    } else {
        let k = m.keys[n - 1];
        enc_pos_entries(m, (n - 1) as nat) + k.owner@ + enc_i32(k.lower_tick) + enc_i32(
            k.upper_tick,
        ) + enc_pos_state(m.vals[n - 1])
    }
}

/// The encoding of a position map: the entry count, then the entries.
pub open spec fn enc_positions(m: PositionMap) -> Seq<u8> {
    spec_u32_to_le_bytes(m.len as u32) + enc_pos_entries(m, m.len as nat)
}

/// Whether `k` and `v` are what entry `i` of position entries starting at
/// `base` spell.
pub open spec fn pos_entry_matches(b: Seq<u8>, base: int, i: int, k: PositionKey, v: PositionState) -> bool {
    let at = base + 108 * i;
    &&& k.owner@ == b.subrange(at, at + 20)
    &&& k.lower_tick == spec_u32_from_le_bytes(b.subrange(at + 20, at + 24)) as i32
    &&& k.upper_tick == spec_u32_from_le_bytes(b.subrange(at + 24, at + 28)) as i32
    &&& v == dec_pos_state(b.subrange(at + 28, at + 108))
}

/// Entry `i` of the encoded positions is the `i`th slot's key and state.
proof fn lemma_pos_entries(m: PositionMap, n: nat, i: int)
    requires
        0 <= i < n,
    ensures
        enc_pos_entries(m, n).len() == 108 * n,
        pos_entry_matches(enc_pos_entries(m, n), 0, i, m.keys[i], m.vals[i]),
    decreases n,
{
    lemma_scalars();
    lemma_signed_round_trips(0, m.keys[n - 1].lower_tick, 0, 0);
    lemma_pos_state_round_trip(m.vals[n - 1]);
    let k = m.keys[n - 1];
    let prev = enc_pos_entries(m, (n - 1) as nat);
    let last = k.owner@ + enc_i32(k.lower_tick) + enc_i32(k.upper_tick) + enc_pos_state(
        m.vals[n - 1],
    );
    assert(enc_pos_entries(m, n) =~= prev + last);
    if n > 1 {
        lemma_pos_entries(m, (n - 1) as nat, 0);
    }
    let at = 108 * i;
    if i < n - 1 {
        lemma_pos_entries(m, (n - 1) as nat, i);
        lemma_concat_window(prev, last, at, at + 20);
        lemma_concat_window(prev, last, at + 20, at + 24);
        lemma_concat_window(prev, last, at + 24, at + 28);
        lemma_concat_window(prev, last, at + 28, at + 108);
    } else {
        lemma_signed_round_trips(0, k.upper_tick, 0, 0);
        lemma_concat_window(prev, last, at, at + 20);
        lemma_concat_window(prev, last, at + 20, at + 24);
        lemma_concat_window(prev, last, at + 24, at + 28);
        lemma_concat_window(prev, last, at + 28, at + 108);
        assert(last.subrange(0, 20) =~= k.owner@);
        assert(last.subrange(20, 24) =~= enc_i32(k.lower_tick));
        assert(last.subrange(24, 28) =~= enc_i32(k.upper_tick));
        assert(last.subrange(28, 108) =~= enc_pos_state(m.vals[n - 1]));
    }
}

pub(crate) fn encode_positions(w: &mut ByteWriter, m: &PositionMap)
    requires
        m.wf(),
    ensures
        final(w).buf@ == old(w).buf@ + enc_positions(*m),
{
    w.u32(m.len as u32);
    let ghost head = w.buf@;
    let mut i: usize = 0;
    while i < m.len
        invariant
            m.wf(),
            i <= m.len,
            w.buf@ == head + enc_pos_entries(*m, i as nat),
        decreases m.len - i,
    {
        w.bytes20(&m.keys[i].owner);
        w.i32(m.keys[i].lower_tick);
        w.i32(m.keys[i].upper_tick);
        encode_pos_state(w, &m.vals[i]);
        proof {
            assert(w.buf@ =~= head + enc_pos_entries(*m, (i + 1) as nat));
        }
        i += 1;
    }
    proof {
        assert(w.buf@ =~= old(w).buf@ + enc_positions(*m));
    }
}

pub(crate) fn decode_positions(r: &mut ByteReader) -> (res: Option<PositionMap>)
    requires
        old(r).wf(),
        old(r).has(4) ==> spec_u32_from_le_bytes(old(r).ahead(4)) <= MAX_POSITIONS,
    ensures
        final(r).wf(),
        final(r).bytes() == old(r).bytes(),
        res is Some <==> old(r).has(4) && old(r).has(
            4 + 108 * spec_u32_from_le_bytes(old(r).ahead(4)),
        ),
        res is Some ==> {
            let c = spec_u32_from_le_bytes(old(r).ahead(4));
            let m = res->Some_0;
            &&& m.len == c
            &&& final(r).offset() == old(r).offset() + 4 + 108 * c
            &&& forall|i: int|
                0 <= i < c ==> pos_entry_matches(
                    old(r).bytes(),
                    old(r).offset() + 4,
                    i,
                    #[trigger] m.keys[i],
                    m.vals[i],
                )
        },
{
    let ghost b = r.bytes();
    let ghost o = r.offset();
    let count32 = r.u32()?;
    let count = count32 as usize;
    let mut pm = PositionMap::new();
    let ghost base = o + 4;
    let mut i: usize = 0;
    while i < count
        invariant
            r.wf(),
            r.bytes() == b,
            b == old(r).bytes(),
            o == old(r).offset(),
            base == o + 4,
            o + 4 <= b.len(),
            count == spec_u32_from_le_bytes(b.subrange(o, o + 4)),
            count <= MAX_POSITIONS,
            r.offset() == base + 108 * i,
            i <= count,
            pm.len == i,
            forall|q: int| 0 <= q < i ==> pos_entry_matches(b, base, q, #[trigger] pm.keys[q], pm.vals[q]),
        decreases count - i,
    {
        let owner = r.bytes20()?;
        let lower_tick = r.i32()?;
        let upper_tick = r.i32()?;
        let key = PositionKey { owner, lower_tick, upper_tick };
        let val = decode_pos_state(r)?;
        let n = pm.len;
        let ghost before = pm;
        pm.keys[n] = key;
        pm.vals[n] = val;
        pm.len = n + 1;
        proof {
            assert(pos_entry_matches(b, base, i as int, key, val));
            assert forall|q: int| 0 <= q < i + 1 implies pos_entry_matches(
                b,
                base,
                q,
                #[trigger] pm.keys[q],
                pm.vals[q],
            ) by {
                if q < i {
                    assert(pm.keys[q] == before.keys[q] && pm.vals[q] == before.vals[q]);
                }
            }
        }
        i += 1;
    }
    Some(pm)
}

// ---------------------------------------------------------------------------
// The whole contract state
// ---------------------------------------------------------------------------

/// The encoding of the contract state: pool, configuration, ticks, bitmap
/// and positions, in that order.
pub open spec fn enc_state(s: ContractState) -> Seq<u8> {
    enc_pool(s.pool) + enc_config(s.config) + enc_ticks(s.ticks) + enc_bitmap(s.bitmap)
        + enc_positions(s.positions)
}

/// The count stored at offset `o`.
pub open spec fn count_at(d: Seq<u8>, o: int) -> int {
    spec_u32_from_le_bytes(d.subrange(o, o + 4)) as int
}

/// Where the bitmap starts: after the pool, configuration and tick entries.
pub open spec fn bitmap_at(d: Seq<u8>) -> int {
    156 + 100 * count_at(d, 152)
}

/// Where the positions start.
pub open spec fn positions_at(d: Seq<u8>) -> int {
    bitmap_at(d) + 4 + 34 * count_at(d, bitmap_at(d))
}

/// Where the state ends.
pub open spec fn state_end(d: Seq<u8>) -> int {
    positions_at(d) + 4 + 108 * count_at(d, positions_at(d))
}

/// Every part of a state is present.
pub open spec fn complete(d: Seq<u8>) -> bool {
    &&& d.len() >= 156
    &&& d.len() >= bitmap_at(d) + 4
    &&& d.len() >= positions_at(d) + 4
    &&& d.len() >= state_end(d)
}

/// Every map count that can be read fits its map.
pub open spec fn decodable(d: Seq<u8>) -> bool {
    &&& d.len() >= 156 ==> count_at(d, 152) <= MAX_TICKS
    &&& d.len() >= 156 && d.len() >= bitmap_at(d) + 4 ==> count_at(d, bitmap_at(d))
        <= MAX_BITMAP_WORDS
    &&& d.len() >= 156 && d.len() >= bitmap_at(d) + 4 && d.len() >= positions_at(d) + 4
        ==> count_at(d, positions_at(d)) <= MAX_POSITIONS
}

/// The count stored at `o`.
fn count_in(data: &[u8], o: usize) -> (r: u32)
    requires
        o + 4 <= data.len(),
    ensures
        r as int == count_at(data@, o as int),
{
    let w = vstd::slice::slice_subrange(data, o, o + 4);
    u32_from_le_bytes(w)
}

/// Whether `decode_state` may run on `data`: the tick, bitmap-word and
/// position counts that the bytes announce are within the maps' capacities.
pub fn is_decodable(data: &[u8]) -> (r: bool)
    ensures
        r == decodable(data@),
{
    let n = data.len();
    if n < 156 {
        return true;
    }
    let tc = count_in(data, 152) as usize;
    if tc > MAX_TICKS {
        return false;
    }
    let ba = 156 + 100 * tc;
    if n < ba + 4 {
        return true;
    }
    let bc = count_in(data, ba) as usize;
    if bc > MAX_BITMAP_WORDS {
        return false;
    }
    let pa = ba + 4 + 34 * bc;
    if n < pa + 4 {
        return true;
    }
    let pc = count_in(data, pa) as usize;
    pc <= MAX_POSITIONS
}

/// `s` is the state that the bytes `d` spell.
pub open spec fn decoded_state(d: Seq<u8>, s: ContractState) -> bool {
    let tc = count_at(d, 152);
    let ba = bitmap_at(d);
    let bc = count_at(d, ba);
    let pa = positions_at(d);
    let pc = count_at(d, pa);
    &&& s.pool == dec_pool(d.subrange(0, 105))
    &&& dec_config_matches(s.config, d.subrange(105, 152))
    &&& s.ticks.wf()
    &&& s.ticks.tidy()
    &&& forall|t: i32| #[trigger] s.ticks.lookup(t) == decoded_tick(d, 156, tc as nat, t)
    &&& s.bitmap.len <= MAX_BITMAP_WORDS
    &&& s.bitmap.tidy()
    &&& word_entries_distinct(d, ba + 4, bc as nat) ==> s.bitmap.wf()
    &&& forall|w: i16, bit: int| #[trigger]
        s.bitmap.has_tick(w, bit) == decoded_has_tick(d, ba + 4, bc as nat, w, bit)
    &&& s.positions.len == pc
    &&& forall|i: int|
        0 <= i < pc ==> pos_entry_matches(
            d,
            pa + 4,
            i,
            #[trigger] s.positions.keys[i],
            s.positions.vals[i],
        )
}

/// Serializes the whole state.
pub fn encode_state(state: &ContractState) -> (r: Vec<u8>)
    requires
        state.wf(),
    ensures
        r@ == enc_state(*state),
{
    let mut w = ByteWriter::new();
    encode_pool(&mut w, &state.pool);
    encode_config(&mut w, &state.config);
    encode_ticks(&mut w, &state.ticks);
    encode_bitmap(&mut w, &state.bitmap);
    encode_positions(&mut w, &state.positions);
    proof {
        assert(w.buf@ =~= enc_state(*state));
    }
    w.buf
}

/// Deserializes a state: `None` when the bytes end before it does.
pub fn decode_state(data: &[u8]) -> (r: Option<ContractState>)
    requires
        decodable(data@),
    ensures
        r is Some <==> complete(data@),
        r is Some ==> decoded_state(data@, r->Some_0),
{
    let ghost d = data@;
    let mut r = ByteReader::new(data);
    proof {
        lemma_window(d, 0, d.len() as int, 0, 0);
    }
    let pool = match decode_pool(&mut r) {
        Some(p) => p,
        None => return None,
    };
    let config = match decode_config(&mut r) {
        Some(c) => c,
        None => return None,
    };
    let ticks = match decode_ticks(&mut r) {
        Some(t) => t,
        None => return None,
    };
    let bitmap = match decode_bitmap(&mut r) {
        Some(b) => b,
        None => return None,
    };
    let positions = match decode_positions(&mut r) {
        Some(p) => p,
        None => return None,
    };
    Some(ContractState { pool, config, ticks, bitmap, positions })
}

/// Two states with the same contents: the same pool and configuration, and
/// the same tick states, initialized ticks and positions.
pub open spec fn same_contents(n: ContractState, s: ContractState) -> bool {
    &&& n.pool == s.pool
    &&& n.config == s.config
    &&& forall|t: i32| #[trigger] n.ticks.lookup(t) == s.ticks.lookup(t)
    &&& forall|w: i16, b: int| #[trigger] n.bitmap.has_tick(w, b) == s.bitmap.has_tick(w, b)
    &&& forall|k: PositionKey| #[trigger] n.positions.lookup(k) == s.positions.lookup(k)
}

/// A window of a middle part of a concatenation reads that part.
proof fn lemma_part_window(pre: Seq<u8>, part: Seq<u8>, post: Seq<u8>, i: int, j: int)
    requires
        0 <= i <= j <= part.len(),
    ensures
        (pre + part + post).subrange(pre.len() + i, pre.len() + j) == part.subrange(i, j),
{
    assert((pre + part + post).subrange(pre.len() + i, pre.len() + j) =~= part.subrange(i, j));
}

/// Two configurations that the same bytes spell are equal.
proof fn lemma_config_unique(c1: ContractConfig, c2: ContractConfig, b: Seq<u8>)
    requires
        dec_config_matches(c1, b),
        dec_config_matches(c2, b),
    ensures
        c1 == c2,
{
    assert(c1.owner =~= c2.owner) by {
        assert forall|i: int| 0 <= i < 20 implies c1.owner[i] == c2.owner[i] by {
            assert(c1.owner@[i] == c2.owner@[i]);
        }
    }
    assert(c1.manager =~= c2.manager) by {
        assert forall|i: int| 0 <= i < 20 implies c1.manager[i] == c2.manager[i] by {
            assert(c1.manager@[i] == c2.manager@[i]);
        }
    }
}

/// Two position keys that the same bytes spell are equal.
proof fn lemma_pos_key_unique(b: Seq<u8>, base: int, i: int, k1: PositionKey, v1: PositionState, k2: PositionKey, v2: PositionState)
    requires
        pos_entry_matches(b, base, i, k1, v1),
        pos_entry_matches(b, base, i, k2, v2),
    ensures
        k1 == k2,
        v1 == v2,
{
    assert(k1.owner =~= k2.owner) by {
        assert forall|q: int| 0 <= q < 20 implies k1.owner[q] == k2.owner[q] by {
            assert(k1.owner@[q] == k2.owner@[q]);
        }
    }
}

/// The tick map decoded from a map's own entries holds what the map holds:
/// its ticks are distinct and no stored state is one `set` drops.
proof fn lemma_decoded_ticks(d: Seq<u8>, base: int, m: TickMap, n: nat, t: i32)
    requires
        m.wf(),
        m.tidy(),
        n <= m.len,
        forall|i: int|
            0 <= i < m.len ==> #[trigger] tick_entry_key(d, base, i) == m.keys[i]
                && tick_entry_state(d, base, i) == m.vals[i],
    ensures
        decoded_tick(d, base, n, t) == if exists|i: int| 0 <= i < n && m.keys[i] == t {
            Some(m.vals[choose|i: int| 0 <= i < n && m.keys[i] == t])
        } else {
            None
        },
    decreases n,
{
    if n > 0 {
        lemma_decoded_ticks(d, base, m, (n - 1) as nat, t);
        let k = n - 1;
        assert(tick_entry_key(d, base, k) == m.keys[k]);
        if m.keys[k] == t {
            assert(!droppable(m.vals[k]));
            let c = choose|i: int| 0 <= i < n && m.keys[i] == t;
            assert(c == k);
        } else {
            if exists|i: int| 0 <= i < n && m.keys[i] == t {
                let c = choose|i: int| 0 <= i < n && m.keys[i] == t;
                assert(0 <= c < n - 1);
                assert(exists|i: int| 0 <= i < n - 1 && m.keys[i] == t);
                let c2 = choose|i: int| 0 <= i < n - 1 && m.keys[i] == t;
                assert(c == c2);
            } else {
                assert(!exists|i: int| 0 <= i < n - 1 && m.keys[i] == t);
            }
        }
    }
}

/// The sections of a state's encoding and their counts.
proof fn lemma_layout(s: ContractState)
    requires
        s.wf(),
    ensures
        ({
            let d = enc_state(s);
            &&& d.subrange(0, 105) == enc_pool(s.pool)
            &&& d.subrange(105, 152) == enc_config(s.config)
            &&& count_at(d, 152) == s.ticks.len
            &&& bitmap_at(d) == 156 + 100 * s.ticks.len
            &&& count_at(d, bitmap_at(d)) == s.bitmap.len
            &&& positions_at(d) == bitmap_at(d) + 4 + 34 * s.bitmap.len
            &&& count_at(d, positions_at(d)) == s.positions.len
            &&& state_end(d) == d.len()
        }),
{
    lemma_scalars();
    lemma_pool_round_trip(s.pool);
    lemma_config_round_trip(s.config);
    let d = enc_state(s);
    let P = enc_pool(s.pool);
    let C = enc_config(s.config);
    let T = enc_ticks(s.ticks);
    let B = enc_bitmap(s.bitmap);
    let Q = enc_positions(s.positions);
    let tl = s.ticks.len;
    let bl = s.bitmap.len;
    let pl = s.positions.len;
    if tl > 0 {
        lemma_tick_entries(s.ticks, tl as nat, 0);
    } else {
        assert(enc_tick_entries(s.ticks, tl as nat) =~= Seq::<u8>::empty());
    }
    if bl > 0 {
        lemma_bitmap_entries(s.bitmap, bl as nat, 0);
    } else {
        assert(enc_bitmap_entries(s.bitmap, bl as nat) =~= Seq::<u8>::empty());
    }
    if pl > 0 {
        lemma_pos_entries(s.positions, pl as nat, 0);
    } else {
        assert(enc_pos_entries(s.positions, pl as nat) =~= Seq::<u8>::empty());
    }
    assert(T.len() == 4 + 100 * tl);
    assert(B.len() == 4 + 34 * bl);
    assert(Q.len() == 4 + 108 * pl);
    assert(Seq::<u8>::empty() + P + (C + T + B + Q) =~= d);
    lemma_part_window(Seq::empty(), P, C + T + B + Q, 0, 105);
    assert(P + C + (T + B + Q) =~= d);
    lemma_part_window(P, C, T + B + Q, 0, 47);
    assert((P + C) + T + (B + Q) =~= d);
    lemma_part_window(P + C, T, B + Q, 0, 4);
    assert(T.subrange(0, 4) =~= spec_u32_to_le_bytes(tl as u32));
    assert((P + C + T) + B + Q =~= d);
    lemma_part_window(P + C + T, B, Q, 0, 4);
    assert(B.subrange(0, 4) =~= spec_u32_to_le_bytes(bl as u32));
    assert((P + C + T + B) + Q + Seq::<u8>::empty() =~= d);
    lemma_part_window(P + C + T + B, Q, Seq::empty(), 0, 4);
    assert(Q.subrange(0, 4) =~= spec_u32_to_le_bytes(pl as u32));
}

/// The tick entries of a state's encoding are its slots.
proof fn lemma_layout_ticks(s: ContractState, i: int)
    requires
        s.wf(),
        0 <= i < s.ticks.len,
    ensures
        tick_entry_key(enc_state(s), 156, i) == s.ticks.keys[i],
        tick_entry_state(enc_state(s), 156, i) == s.ticks.vals[i],
{
    lemma_scalars();
    lemma_pool_round_trip(s.pool);
    lemma_config_round_trip(s.config);
    let d = enc_state(s);
    let tl = s.ticks.len;
    let TE = enc_tick_entries(s.ticks, tl as nat);
    lemma_tick_entries(s.ticks, tl as nat, i);
    lemma_tick_state_round_trip(s.ticks.vals[i]);
    lemma_signed_round_trips(0, s.ticks.keys[i], 0, 0);
    let pre = enc_pool(s.pool) + enc_config(s.config) + spec_u32_to_le_bytes(tl as u32);
    let post = enc_bitmap(s.bitmap) + enc_positions(s.positions);
    assert(pre + TE + post =~= d);
    lemma_part_window(pre, TE, post, 100 * i, 100 * i + 4);
    lemma_part_window(pre, TE, post, 100 * i + 4, 100 * i + 100);
}

/// The bitmap entries of a state's encoding are its slots.
proof fn lemma_layout_bitmap(s: ContractState, i: int, j: int)
    requires
        s.wf(),
        0 <= i < s.bitmap.len,
        0 <= j < 4,
    ensures
        word_entry_key(enc_state(s), bitmap_at(enc_state(s)) + 4, i) == s.bitmap.word_keys[i],
        word_entry_limb(enc_state(s), bitmap_at(enc_state(s)) + 4, i, j) == s.bitmap.word_vals[i].0[j],
{
    lemma_layout(s);
    lemma_scalars();
    lemma_pool_round_trip(s.pool);
    lemma_config_round_trip(s.config);
    let d = enc_state(s);
    let bl = s.bitmap.len;
    let BE = enc_bitmap_entries(s.bitmap, bl as nat);
    lemma_tick_entries_len(s.ticks, s.ticks.len as nat);
    lemma_bitmap_entries(s.bitmap, bl as nat, i);
    lemma_signed_round_trips(s.bitmap.word_keys[i], 0, 0, 0);
    let pre = enc_pool(s.pool) + enc_config(s.config) + enc_ticks(s.ticks) + spec_u32_to_le_bytes(
        bl as u32,
    );
    assert(pre + BE + enc_positions(s.positions) =~= d);
    lemma_part_window(pre, BE, enc_positions(s.positions), 34 * i, 34 * i + 2);
    lemma_part_window(pre, BE, enc_positions(s.positions), 34 * i + 2 + 8 * j, 34 * i + 10 + 8 * j);
}

/// The position entries of a state's encoding are its slots.
proof fn lemma_layout_positions(s: ContractState, i: int)
    requires
        s.wf(),
        0 <= i < s.positions.len,
    ensures
        pos_entry_matches(
            enc_state(s),
            positions_at(enc_state(s)) + 4,
            i,
            s.positions.keys[i],
            s.positions.vals[i],
        ),
{
    lemma_layout(s);
    lemma_scalars();
    lemma_pool_round_trip(s.pool);
    lemma_config_round_trip(s.config);
    let d = enc_state(s);
    let pl = s.positions.len;
    let QE = enc_pos_entries(s.positions, pl as nat);
    lemma_tick_entries_len(s.ticks, s.ticks.len as nat);
    lemma_bitmap_entries_len(s.bitmap, s.bitmap.len as nat);
    lemma_pos_entries(s.positions, pl as nat, i);
    let pre = enc_pool(s.pool) + enc_config(s.config) + enc_ticks(s.ticks) + enc_bitmap(s.bitmap)
        + spec_u32_to_le_bytes(pl as u32);
    assert(pre + QE + Seq::<u8>::empty() =~= d);
    let at = 108 * i;
    lemma_part_window(pre, QE, Seq::empty(), at, at + 20);
    lemma_part_window(pre, QE, Seq::empty(), at + 20, at + 24);
    lemma_part_window(pre, QE, Seq::empty(), at + 24, at + 28);
    lemma_part_window(pre, QE, Seq::empty(), at + 28, at + 108);
}

/// The encoded tick entries take 100 bytes each.
proof fn lemma_tick_entries_len(m: TickMap, n: nat)
    ensures
        enc_tick_entries(m, n).len() == 100 * n,
{
    if n > 0 {
        lemma_tick_entries(m, n, 0);
    }
}

/// The encoded bitmap entries take 34 bytes each.
proof fn lemma_bitmap_entries_len(m: TickBitmap, n: nat)
    ensures
        enc_bitmap_entries(m, n).len() == 34 * n,
{
    if n > 0 {
        lemma_bitmap_entries(m, n, 0);
    }
}

/// Decoding the encoding of a well-formed state gives a well-formed state
/// with the same contents.
pub proof fn lemma_state_round_trip(s: ContractState)
    requires
        s.wf(),
    ensures
        decodable(enc_state(s)),
        complete(enc_state(s)),
        forall|n: ContractState| #[trigger]
            decoded_state(enc_state(s), n) ==> same_contents(n, s) && n.wf(),
{
    lemma_layout(s);
    lemma_pool_round_trip(s.pool);
    lemma_config_round_trip(s.config);
    let d = enc_state(s);
    let tl = s.ticks.len;
    let bl = s.bitmap.len;
    let pl = s.positions.len;
    let ba = bitmap_at(d);
    let pa = positions_at(d);
    assert forall|i: int|
        0 <= i < tl implies #[trigger] tick_entry_key(d, 156, i) == s.ticks.keys[i]
        && tick_entry_state(d, 156, i) == s.ticks.vals[i] by {
        lemma_layout_ticks(s, i);
    }
    assert forall|n: ContractState| #[trigger]
        decoded_state(enc_state(s), n) implies same_contents(n, s) && n.wf() by {
        lemma_config_unique(n.config, s.config, d.subrange(105, 152));
        lemma_round_trip_maps(s, n);
    }
}

/// The maps of a state decoded from a state's encoding hold what the state's
/// maps hold.
#[verifier::rlimit(40)]
proof fn lemma_round_trip_maps(s: ContractState, n: ContractState)
    requires
        s.wf(),
        decoded_state(enc_state(s), n),
        n.pool == s.pool,
        n.config == s.config,
    ensures
        same_contents(n, s),
        n.wf(),
{
    lemma_layout(s);
    let d = enc_state(s);
    let tl = s.ticks.len;
    let bl = s.bitmap.len;
    let pl = s.positions.len;
    let ba = bitmap_at(d);
    let pa = positions_at(d);
    assert forall|i: int|
        0 <= i < tl implies #[trigger] tick_entry_key(d, 156, i) == s.ticks.keys[i]
        && tick_entry_state(d, 156, i) == s.ticks.vals[i] by {
        lemma_layout_ticks(s, i);
    }
    // Ticks.
    assert forall|t: i32| #[trigger] n.ticks.lookup(t) == s.ticks.lookup(t) by {
        lemma_decoded_ticks(d, 156, s.ticks, tl as nat, t);
        if s.ticks.holds(t) {
            let i = choose|i: int| 0 <= i < tl && s.ticks.keys[i] == t;
            s.ticks.lemma_slot(i);
            let c = choose|i: int| 0 <= i < tl && s.ticks.keys[i] == t;
            assert(c == i);
        }
    }
    // Bitmap.
    assert forall|w: i16, b: int| #[trigger] n.bitmap.has_tick(w, b) == s.bitmap.has_tick(w, b) by {
        if 0 <= b < 256 {
            if s.bitmap.has_tick(w, b) {
                let i = choose|i: int|
                    0 <= i < bl && s.bitmap.word_keys[i] == w
                        && #[trigger] s.bitmap.word_vals[i].has(b);
                lemma_layout_bitmap(s, i, b / 64);
                assert(decoded_has_tick(d, ba + 4, bl as nat, w, b));
            }
            if decoded_has_tick(d, ba + 4, bl as nat, w, b) {
                let i = choose|i: int|
                    0 <= i < bl && word_entry_key(d, ba + 4, i) == w
                        && #[trigger] crate::tick_bitmap::limb_has(
                        word_entry_limb(d, ba + 4, i, b / 64),
                        b % 64,
                    );
                lemma_layout_bitmap(s, i, b / 64);
                assert(s.bitmap.word_vals[i].has(b));
            }
        }
    }
    assert(word_entries_distinct(d, ba + 4, bl as nat)) by {
        assert forall|i: int, j: int|
            0 <= i < j < bl && !#[trigger] word_entry_zero(d, ba + 4, i)
                && !#[trigger] word_entry_zero(d, ba + 4, j) implies word_entry_key(d, ba + 4, i)
            != word_entry_key(d, ba + 4, j) by {
            lemma_layout_bitmap(s, i, 0);
            lemma_layout_bitmap(s, j, 0);
        }
    }
    // Positions.
    assert forall|i: int| 0 <= i < pl implies n.positions.keys[i] == s.positions.keys[i]
        && n.positions.vals[i] == s.positions.vals[i] by {
        lemma_layout_positions(s, i);
        assert(pos_entry_matches(d, pa + 4, i, n.positions.keys[i], n.positions.vals[i]));
        lemma_pos_key_unique(
            d,
            pa + 4,
            i,
            n.positions.keys[i],
            n.positions.vals[i],
            s.positions.keys[i],
            s.positions.vals[i],
        );
    }
    assert(n.positions.wf());
    assert forall|k: PositionKey| #[trigger] n.positions.lookup(k) == s.positions.lookup(k) by {
        if s.positions.holds(k) {
            let i = choose|i: int| 0 <= i < pl && s.positions.keys[i] == k;
            s.positions.lemma_slot(i);
            assert(n.positions.keys[i] == k);
            n.positions.lemma_slot(i);
        } else {
            if n.positions.holds(k) {
                let i = choose|i: int| 0 <= i < pl && n.positions.keys[i] == k;
                assert(s.positions.keys[i] == k);
            }
        }
    }
    assert forall|t: i32| #[trigger] n.ticks.state_of(t).liquidity_gross > 0 implies t
        % n.config.tick_spacing == 0 by {
        assert(n.ticks.state_of(t) == s.ticks.state_of(t));
    }
}

} // verus!
