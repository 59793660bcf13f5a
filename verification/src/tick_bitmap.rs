//! Sparse 256-bit word tick bitmap.
//!
//! Tick space is partitioned into "words" of 256 bits.
//! word_pos  = compressed / 256  (floor, signed)
//! bit_pos   = compressed mod 256  (always 0..255)
//! where compressed = tick / tick_spacing (truncating).
use vstd::prelude::*;

verus! {

/// How many distinct words the bitmap can hold.
pub const MAX_BITMAP_WORDS: usize = 8;

// ---------------------------------------------------------------------------
// Bits of a 64-bit limb
// ---------------------------------------------------------------------------

/// Whether bit `k` of the limb `x` is set.
pub open spec fn limb_has(x: u64, k: int) -> bool {
    x & (1u64 << (k as u64)) != 0
}

/// Setting and clearing one bit of a limb leaves the other bits alone.
proof fn lemma_limb_update(x: u64, k: u64, j: u64)
    requires
        k < 64,
        j < 64,
    ensures
        ((x | (1u64 << k)) & (1u64 << j) != 0) == (j == k || x & (1u64 << j) != 0),
        ((x & !(1u64 << k)) & (1u64 << j) != 0) == (j != k && x & (1u64 << j) != 0),
{
    assert(((x | (1u64 << k)) & (1u64 << j) != 0) == (j == k || x & (1u64 << j) != 0))
        by (bit_vector)
        requires
            k < 64,
            j < 64,
    ;
    assert(((x & !(1u64 << k)) & (1u64 << j) != 0) == (j != k && x & (1u64 << j) != 0))
        by (bit_vector)
        requires
            k < 64,
            j < 64,
    ;
}

/// A zero limb has no bit set.
proof fn lemma_zero_limb(j: u64)
    requires
        j < 64,
    ensures
        0u64 & (1u64 << j) == 0,
{
    assert(0u64 & (1u64 << j) == 0) by (bit_vector);
}

/// A single 256-bit word stored as four u64 limbs, little-endian.
#[derive(Clone, Copy, PartialEq, Eq)]
pub struct Word256(pub [u64; 4]);

impl Default for Word256 {
    fn default() -> (r: Self)
        ensures
            r.zero(),
    {
        Word256([0u64, 0u64, 0u64, 0u64])
    }
}

impl Word256 {
    /// Whether bit `bit` (0..256) of the word is set.
    pub open spec fn has(self, bit: int) -> bool {
        limb_has(self.0[bit / 64], bit % 64)
    }

    /// Whether all four limbs are zero.
    pub open spec fn zero(self) -> bool {
        self.0[0] == 0 && self.0[1] == 0 && self.0[2] == 0 && self.0[3] == 0
    }

    /// A zero word has no bit set.
    pub proof fn lemma_zero_has_none(self)
        requires
            self.zero(),
        ensures
            forall|j: int| 0 <= j < 256 ==> !#[trigger] self.has(j),
    {
        assert forall|j: int| 0 <= j < 256 implies !#[trigger] self.has(j) by {
            lemma_zero_limb((j % 64) as u64);
        }
    }

    /// Sets bit `bit`; every other bit keeps its value.
    pub fn set_bit(&mut self, bit: u8)
        ensures
            forall|j: int| 0 <= j < 256 ==> #[trigger] final(self).has(j) == (j == bit || old(
                self,
            ).has(j)),
    {
        let limb = (bit / 64) as usize;
        let v = self.0[limb];
        self.0[limb] = v | (1u64 << (bit % 64));
        proof {
            assert forall|j: int| 0 <= j < 256 implies #[trigger] self.has(j) == (j == bit || old(
                self,
            ).has(j)) by {
                if j / 64 == limb {
                    lemma_limb_update(v, (bit % 64) as u64, (j % 64) as u64);
                }
            }
        }
    }

    /// Clears bit `bit`; every other bit keeps its value.
    pub fn clear_bit(&mut self, bit: u8)
        ensures
            forall|j: int| 0 <= j < 256 ==> #[trigger] final(self).has(j) == (j != bit && old(
                self,
            ).has(j)),
    {
        let limb = (bit / 64) as usize;
        let v = self.0[limb];
        self.0[limb] = v & !(1u64 << (bit % 64));
        proof {
            assert forall|j: int| 0 <= j < 256 implies #[trigger] self.has(j) == (j != bit && old(
                self,
            ).has(j)) by {
                if j / 64 == limb {
                    lemma_limb_update(v, (bit % 64) as u64, (j % 64) as u64);
                }
            }
        }
    }

    /// Whether bit `bit` is set.
    pub fn is_set(&self, bit: u8) -> (r: bool)
        ensures
            r == self.has(bit as int),
    {
        let limb = (bit / 64) as usize;
        self.0[limb] & (1u64 << (bit % 64)) != 0
    }

    /// The lowest set bit at or above `start_bit`, if any.
    pub fn next_initialized_above(&self, start_bit: u8) -> (r: Option<u8>)
        ensures
            match r {
                Some(b) => start_bit <= b && self.has(b as int) && forall|j: int|
                    start_bit <= j < b ==> !#[trigger] self.has(j),
                None => forall|j: int| start_bit <= j < 256 ==> !#[trigger] self.has(j),
            },
    {
        let mut bit: u16 = start_bit as u16;
        while bit <= 255
            invariant
                start_bit <= bit <= 256,
                forall|j: int| start_bit <= j < bit ==> !#[trigger] self.has(j),
            decreases 256 - bit,
        {
            if self.is_set(bit as u8) {
                return Some(bit as u8);
            }
            bit += 1;
        }
        None
    }

    /// The highest set bit at or below `start_bit`, if any.
    pub fn next_initialized_below(&self, start_bit: u8) -> (r: Option<u8>)
        ensures
            match r {
                Some(b) => b <= start_bit && self.has(b as int) && forall|j: int|
                    b < j <= start_bit ==> !#[trigger] self.has(j),
                None => forall|j: int| 0 <= j <= start_bit ==> !#[trigger] self.has(j),
            },
    {
        let mut bit = start_bit;
        loop
            invariant
                bit <= start_bit,
                forall|j: int| bit < j <= start_bit ==> !#[trigger] self.has(j),
            decreases bit,
        {
            if self.is_set(bit) {
                return Some(bit);
            }
            if bit == 0 {
                return None;
            }
            bit -= 1;
        }
    }

    /// Whether every limb is zero.
    pub fn is_empty(&self) -> (r: bool)
        ensures
            r == self.zero(),
    {
        self.0[0] == 0 && self.0[1] == 0 && self.0[2] == 0 && self.0[3] == 0
    }
}

// ---------------------------------------------------------------------------
// Tick positions
// ---------------------------------------------------------------------------

/// Rust's truncating division of `a` by a positive `b`.
pub open spec fn trunc_div(a: int, b: int) -> int {
    if a >= 0 {
        a / b
    } else {
        -((-a) / b)
    }
}

/// The word of a compressed tick: `floor(c / 256)`, kept in 16 bits.
pub open spec fn word_pos_of(c: int) -> i16 {
    (c / 256) as i16
}

/// The bit of a compressed tick inside its word: `c mod 256`.
pub open spec fn bit_pos_of(c: int) -> int {
    c % 256
}

/// An arithmetic right shift by 8 is a floor division by 256.
proof fn lemma_shr8(x: i32)
    ensures
        (x >> 8u32) as int == (x as int) / 256,
{
    assert(x >= 0 ==> (x >> 8u32) == x / 256) by (bit_vector);
    assert(x < 0 ==> (x >> 8u32) == -(((-(x + 1)) as i32) / 256) - 1) by (bit_vector);
    if x < 0 {
        let y = -(x as int + 1);
        assert((y / 256) * 256 <= y < (y / 256) * 256 + 256);
    }
}

/// The compressed tick a one-word search starts from: the tick's own for a
/// search at or below it, the next one for a search above it.
pub open spec fn search_start(tick: i32, tick_spacing: i32, lte: bool) -> int {
    if lte {
        trunc_div(tick as int, tick_spacing as int)
    } else {
        trunc_div(tick as int, tick_spacing as int) + 1
    }
}

/// The search from `tick` stays inside the `i32` range: the word it looks
/// in, scaled back by the spacing, fits.
pub open spec fn search_fits(tick: i32, tick_spacing: i32, lte: bool) -> bool {
    let c0 = trunc_div(tick as int, tick_spacing as int);
    let c = if lte {
        c0
    } else {
        c0 + 1
    };
    let wp = word_pos_of(c) as int;
    &&& tick_spacing > 0
    &&& lte || c0 < i32::MAX
    &&& i32::MIN <= wp * 256 * tick_spacing
    &&& (wp * 256 + 255) * tick_spacing <= i32::MAX
}

/// What a one-word search from `tick` may return: the nearest initialized
/// tick in the searched direction within the word, with `true`; or, when the
/// word has none there, the word's far boundary with `false`.
pub open spec fn next_tick_found(bm: TickBitmap, tick: i32, tick_spacing: i32, lte: bool, r: (i32, bool)) -> bool {
    let c = search_start(tick, tick_spacing, lte);
    let w = word_pos_of(c);
    let bs = bit_pos_of(c);
    &&& lte && r.1 ==> exists|b: int| #[trigger] nearest_below(bm, w, bs, b) && r.0 == (w * 256 + b) * tick_spacing
    &&& lte && !r.1 ==> (forall|j: int| 0 <= j <= bs ==> !#[trigger] bm.has_tick(w, j))
    &&& lte && !r.1 ==> r.0 == w * 256 * tick_spacing
    &&& !lte && r.1 ==> exists|b: int| #[trigger] nearest_above(bm, w, bs, b) && r.0 == (w * 256 + b) * tick_spacing
    &&& !lte && !r.1 ==> (forall|j: int| bs <= j < 256 ==> !#[trigger] bm.has_tick(w, j))
    &&& !lte && !r.1 ==> r.0 == (w * 256 + 255) * tick_spacing
}

/// `b` is the highest initialized bit of `word` at or below `start`.
pub open spec fn nearest_below(bm: TickBitmap, word: i16, start: int, b: int) -> bool {
    &&& 0 <= b <= start
    &&& bm.has_tick(word, b)
    &&& forall|j: int| b < j <= start ==> !#[trigger] bm.has_tick(word, j)
}

/// `b` is the lowest initialized bit of `word` at or above `start`.
pub open spec fn nearest_above(bm: TickBitmap, word: i16, start: int, b: int) -> bool {
    &&& start <= b < 256
    &&& bm.has_tick(word, b)
    &&& forall|j: int| start <= j < b ==> !#[trigger] bm.has_tick(word, j)
}

/// The result of a one-word search from `tick`, as a function of the bitmap.
pub open spec fn next_tick_spec(bm: TickBitmap, tick: i32, tick_spacing: i32, lte: bool) -> (i32, bool) {
    let c = search_start(tick, tick_spacing, lte);
    let w = word_pos_of(c);
    let bs = bit_pos_of(c);
    if lte {
        if exists|b: int| nearest_below(bm, w, bs, b) {
            let b = choose|b: int| nearest_below(bm, w, bs, b);
            (((w * 256 + b) * tick_spacing) as i32, true)
        } else {
            ((w * 256 * tick_spacing) as i32, false)
        }
    } else {
        if exists|b: int| nearest_above(bm, w, bs, b) {
            let b = choose|b: int| nearest_above(bm, w, bs, b);
            (((w * 256 + b) * tick_spacing) as i32, true)
        } else {
            (((w * 256 + 255) * tick_spacing) as i32, false)
        }
    }
}

/// A search result that meets `next_tick_found` is the one `next_tick_spec`
/// names: the nearest bit in a direction is unique.
pub proof fn lemma_next_tick_spec(bm: TickBitmap, tick: i32, tick_spacing: i32, lte: bool, r: (i32, bool))
    requires
        next_tick_found(bm, tick, tick_spacing, lte, r),
    ensures
        r == next_tick_spec(bm, tick, tick_spacing, lte),
{
    let c = search_start(tick, tick_spacing, lte);
    let w = word_pos_of(c);
    let bs = bit_pos_of(c);
    if lte {
        if r.1 {
            let b = choose|b: int| #[trigger] nearest_below(bm, w, bs, b) && r.0 == (w * 256 + b) * tick_spacing;
            let b2 = choose|b: int| nearest_below(bm, w, bs, b);
            assert(nearest_below(bm, w, bs, b2));
            if b < b2 {
                assert(!bm.has_tick(w, b2));
            } else if b2 < b {
                assert(!bm.has_tick(w, b));
            }
        } else {
            assert forall|b: int| !nearest_below(bm, w, bs, b) by {
                if 0 <= b <= bs {
                    assert(!bm.has_tick(w, b));
                }
            }
        }
    } else {
        if r.1 {
            let b = choose|b: int| #[trigger] nearest_above(bm, w, bs, b) && r.0 == (w * 256 + b) * tick_spacing;
            let b2 = choose|b: int| nearest_above(bm, w, bs, b);
            assert(nearest_above(bm, w, bs, b2));
            if b < b2 {
                assert(!bm.has_tick(w, b2));
            } else if b2 < b {
                assert(!bm.has_tick(w, b));
            }
        } else {
            assert forall|b: int| !nearest_above(bm, w, bs, b) by {
                if bs <= b < 256 {
                    assert(!bm.has_tick(w, b));
                }
            }
        }
    }
}

// ---------------------------------------------------------------------------
// TickBitmap
// ---------------------------------------------------------------------------

/// What flipping `tick` does to the initialized ticks: exactly the bit of
/// that tick changes.
pub open spec fn flip_effect(before: TickBitmap, after: TickBitmap, tick: i32, tick_spacing: i32) -> bool {
    forall|w: i16, b: int| #[trigger]
        after.has_tick(w, b) == (before.has_tick(w, b) != (w == word_pos_of(
            trunc_div(tick as int, tick_spacing as int),
        ) && b == bit_pos_of(trunc_div(tick as int, tick_spacing as int))))
}

/// Flipping a tick twice gives back the initialized ticks it started with.
pub proof fn lemma_flip_twice(b0: TickBitmap, b1: TickBitmap, b2: TickBitmap, tick: i32, tick_spacing: i32)
    requires
        flip_effect(b0, b1, tick, tick_spacing),
        flip_effect(b1, b2, tick, tick_spacing),
    ensures
        forall|w: i16, b: int| #[trigger] b2.has_tick(w, b) == b0.has_tick(w, b),
{
    assert forall|w: i16, b: int| #[trigger] b2.has_tick(w, b) == b0.has_tick(w, b) by {
        assert(b1.has_tick(w, b) == (b0.has_tick(w, b) != (w == word_pos_of(
            trunc_div(tick as int, tick_spacing as int),
        ) && b == bit_pos_of(trunc_div(tick as int, tick_spacing as int)))));
    }
}

/// Two bitmaps that mark the same ticks answer every one-word search alike.
pub proof fn lemma_same_ticks_same_search(b0: TickBitmap, b1: TickBitmap, tick: i32, tick_spacing: i32, lte: bool)
    requires
        forall|w: i16, b: int| #[trigger] b1.has_tick(w, b) == b0.has_tick(w, b),
    ensures
        next_tick_spec(b1, tick, tick_spacing, lte) == next_tick_spec(b0, tick, tick_spacing, lte),
{
    let c = search_start(tick, tick_spacing, lte);
    let w = word_pos_of(c);
    let bs = bit_pos_of(c);
    assert forall|b: int| #[trigger] nearest_below(b1, w, bs, b) == nearest_below(b0, w, bs, b) by {
        if nearest_below(b0, w, bs, b) {
            assert forall|j: int| b < j <= bs implies !#[trigger] b1.has_tick(w, j) by {
                assert(!b0.has_tick(w, j));
            }
        }
        if nearest_below(b1, w, bs, b) {
            assert forall|j: int| b < j <= bs implies !#[trigger] b0.has_tick(w, j) by {
                assert(!b1.has_tick(w, j));
            }
        }
    }
    assert forall|b: int| #[trigger] nearest_above(b1, w, bs, b) == nearest_above(b0, w, bs, b) by {
        if nearest_above(b0, w, bs, b) {
            assert forall|j: int| bs <= j < b implies !#[trigger] b1.has_tick(w, j) by {
                assert(!b0.has_tick(w, j));
            }
        }
        if nearest_above(b1, w, bs, b) {
            assert forall|j: int| bs <= j < b implies !#[trigger] b0.has_tick(w, j) by {
                assert(!b1.has_tick(w, j));
            }
        }
    }
    if lte {
        if exists|b: int| nearest_below(b0, w, bs, b) {
            let x = choose|b: int| nearest_below(b0, w, bs, b);
            assert(nearest_below(b0, w, bs, x));
            assert(nearest_below(b1, w, bs, x));
            let y = choose|b: int| nearest_below(b1, w, bs, b);
            assert(nearest_below(b1, w, bs, y));
            assert(nearest_below(b0, w, bs, y));
            if x < y {
                assert(!b0.has_tick(w, y));
            } else if y < x {
                assert(!b0.has_tick(w, x));
            }
        } else {
            assert forall|b: int| !nearest_below(b1, w, bs, b) by {
                assert(!nearest_below(b0, w, bs, b));
            }
        }
    } else {
        if exists|b: int| nearest_above(b0, w, bs, b) {
            let x = choose|b: int| nearest_above(b0, w, bs, b);
            assert(nearest_above(b0, w, bs, x));
            assert(nearest_above(b1, w, bs, x));
            let y = choose|b: int| nearest_above(b1, w, bs, b);
            assert(nearest_above(b1, w, bs, y));
            assert(nearest_above(b0, w, bs, y));
            if x < y {
                assert(!b0.has_tick(w, x));
            } else if y < x {
                assert(!b0.has_tick(w, y));
            }
        } else {
            assert forall|b: int| !nearest_above(b1, w, bs, b) by {
                assert(!nearest_above(b0, w, bs, b));
            }
        }
    }
}

/// Flipping a tick twice leaves every one-word search answering as before.
pub proof fn lemma_flip_twice_search(
    b0: TickBitmap,
    b1: TickBitmap,
    b2: TickBitmap,
    tick: i32,
    tick_spacing: i32,
    from: i32,
    lte: bool,
)
    requires
        flip_effect(b0, b1, tick, tick_spacing),
        flip_effect(b1, b2, tick, tick_spacing),
    ensures
        next_tick_spec(b2, from, tick_spacing, lte) == next_tick_spec(b0, from, tick_spacing, lte),
{
    lemma_flip_twice(b0, b1, b2, tick, tick_spacing);
    lemma_same_ticks_same_search(b0, b2, from, tick_spacing, lte);
}

/// Up to `MAX_BITMAP_WORDS` words keyed by word position.
pub struct TickBitmap {
    pub word_keys: [i16; 8],
    pub word_vals: [Word256; 8],
    pub len: usize,
}

impl TickBitmap {
    /// Well-formed: within capacity, and no word position stored twice.
    pub open spec fn wf(self) -> bool {
        &&& self.len <= MAX_BITMAP_WORDS
        &&& forall|i: int, j: int|
            0 <= i < j < self.len ==> self.word_keys[i] != self.word_keys[j]
    }

    /// Every stored word has a bit set.
    pub open spec fn tidy(self) -> bool {
        forall|i: int| 0 <= i < self.len ==> !(#[trigger] self.word_vals[i]).zero()
    }

    /// Whether the word at position `word` is stored.
    pub open spec fn holds_word(self, word: i16) -> bool {
        exists|i: int| 0 <= i < self.len && self.word_keys[i] == word
    }

    /// Whether bit `bit` of the word at position `word` is set: the set of
    /// initialized ticks that the bitmap represents.
    pub open spec fn has_tick(self, word: i16, bit: int) -> bool {
        0 <= bit < 256 && exists|i: int|
            0 <= i < self.len && self.word_keys[i] == word && #[trigger] self.word_vals[i].has(bit)
    }

    /// The slot holding `word` answers every bit query about that word.
    pub proof fn lemma_slot(self, i: int, bit: int)
        requires
            self.wf(),
            0 <= i < self.len,
            0 <= bit < 256,
        ensures
            self.has_tick(self.word_keys[i], bit) == self.word_vals[i].has(bit),
    {
        if self.has_tick(self.word_keys[i], bit) {
            let k = choose|k: int|
                0 <= k < self.len && self.word_keys[k] == self.word_keys[i]
                    && #[trigger] self.word_vals[k].has(bit);
            assert(k == i);
        }
    }

    /// Whether the bitmap is well formed and tidy: within its capacity, no
    /// word twice, and no stored word without a set bit.
    pub fn check_wf(&self) -> (r: bool)
        ensures
            r == (self.wf() && self.tidy()),
    {
        if self.len > 8 {
            return false;
        }
        let mut i: usize = 0;
        while i < self.len
            invariant
                self.len <= 8,
                i <= self.len,
                forall|a: int, b: int|
                    0 <= a < b < self.len && a < i ==> self.word_keys[a] != self.word_keys[b],
                forall|a: int| 0 <= a < i ==> !(#[trigger] self.word_vals[a]).zero(),
            decreases self.len - i,
        {
            if self.word_vals[i].is_empty() {
                return false;
            }
            let mut j: usize = i + 1;
            while j < self.len
                invariant
                    self.len <= 8,
                    i < self.len,
                    i + 1 <= j <= self.len,
                    forall|b: int| i < b < j ==> self.word_keys[i as int] != self.word_keys[b],
                decreases self.len - j,
            {
                if self.word_keys[i] == self.word_keys[j] {
                    return false;
                }
                j += 1;
            }
            i += 1;
        }
        true
    }

    /// An empty bitmap, every slot zeroed.
    pub fn new() -> (r: Self)
        ensures
            r.wf(),
            r.tidy(),
            r.len == 0,
            forall|w: i16, b: int| !#[trigger] r.has_tick(w, b),
            forall|i: int| 0 <= i < 8 ==> r.word_keys[i] == 0 && (#[trigger] r.word_vals[i]).zero(),
    {
        Self {
            word_keys: [0i16, 0i16, 0i16, 0i16, 0i16, 0i16, 0i16, 0i16],
            word_vals: [
                Word256::default(),
                Word256::default(),
                Word256::default(),
                Word256::default(),
                Word256::default(),
                Word256::default(),
                Word256::default(),
                Word256::default(),
            ],
            len: 0,
        }
    }

    /// The slot holding word position `key`, if any.
    pub(crate) fn find(&self, key: i16) -> (r: Option<usize>)
        requires
            self.wf(),
        ensures
            match r {
                Some(i) => i < self.len && self.word_keys[i as int] == key,
                None => !self.holds_word(key),
            },
    {
        let mut i: usize = 0;
        while i < self.len
            invariant
                self.wf(),
                i <= self.len,
                forall|j: int| 0 <= j < i ==> self.word_keys[j] != key,
            decreases self.len - i,
        {
            if self.word_keys[i] == key {
                return Some(i);
            }
            i += 1;
        }
        None
    }

    /// The slot holding `key`, appending an all-zero word when absent.
    fn get_or_insert(&mut self, key: i16) -> (r: usize)
        requires
            old(self).wf(),
            old(self).holds_word(key) || old(self).len < MAX_BITMAP_WORDS,
        ensures
            final(self).wf(),
            r < final(self).len,
            final(self).word_keys[r as int] == key,
            forall|w: i16, b: int| #[trigger]
                final(self).has_tick(w, b) == old(self).has_tick(w, b),
            old(self).holds_word(key) ==> *final(self) == *old(self),
            !old(self).holds_word(key) ==> {
                &&& final(self).len == old(self).len + 1
                &&& r == old(self).len
                &&& final(self).word_vals[r as int].zero()
                &&& forall|i: int|
                    0 <= i < old(self).len ==> final(self).word_keys[i] == old(
                        self,
                    ).word_keys[i] && final(self).word_vals[i] == old(self).word_vals[i]
            },
    {
        if let Some(i) = self.find(key) {
            return i;
        }
        let i = self.len;
        self.word_keys[i] = key;
        self.word_vals[i] = Word256::default();
        self.len = self.len + 1;
        proof {
            let z = self.word_vals[i as int];
            z.lemma_zero_has_none();
            assert forall|w: i16, b: int| #[trigger]
                self.has_tick(w, b) == old(self).has_tick(w, b) by {
                if self.has_tick(w, b) {
                    let k = choose|k: int|
                        0 <= k < self.len && self.word_keys[k] == w
                            && #[trigger] self.word_vals[k].has(b);
                    if k == i {
                        assert(!z.has(b));
                    }
                    if k != i {
                        assert(old(self).word_vals[k] == self.word_vals[k]);
                    }
                }
                if old(self).has_tick(w, b) {
                    let k = choose|k: int|
                        0 <= k < old(self).len && old(self).word_keys[k] == w
                            && #[trigger] old(self).word_vals[k].has(b);
                    assert(self.word_vals[k] == old(self).word_vals[k]);
                }
            }
        }
        i
    }

    /// The word position and bit position of a tick.
    pub fn word_and_bit(tick: i32, tick_spacing: i32) -> (r: (i16, u8))
        requires
            tick_spacing > 0,
            tick % tick_spacing == 0,
        ensures
            r.0 == word_pos_of(trunc_div(tick as int, tick_spacing as int)),
            r.1 as int == bit_pos_of(trunc_div(tick as int, tick_spacing as int)),
    {
        let compressed = tick / tick_spacing;
        assert(compressed as int == trunc_div(tick as int, tick_spacing as int));
        proof {
            lemma_shr8(compressed);
        }
        let word_pos = #[verifier::truncate] ((compressed >> 8u32) as i16);
        let bit_pos = ((compressed % 256 + 256) % 256) as u8;
        (word_pos, bit_pos)
    }

    /// Toggles the tick `tick`: afterwards it is initialized exactly when it
    /// was not before, and every other tick is unchanged.  A word left with
    /// no bit set is removed.
    pub fn flip_tick(&mut self, tick: i32, tick_spacing: i32)
        requires
            old(self).wf(),
            tick_spacing > 0,
            tick % tick_spacing == 0,
            old(self).holds_word(word_pos_of(trunc_div(tick as int, tick_spacing as int)))
                || old(self).len < MAX_BITMAP_WORDS,
        ensures
            final(self).wf(),
            old(self).tidy() ==> final(self).tidy(),
            final(self).len <= old(self).len + if old(self).holds_word(
                word_pos_of(trunc_div(tick as int, tick_spacing as int)),
            ) {
                0int
            } else {
                1int
            },
            forall|w: i16|
                w != word_pos_of(trunc_div(tick as int, tick_spacing as int))
                    ==> #[trigger] final(self).holds_word(w) == old(self).holds_word(w),
            final(self).holds_word(word_pos_of(trunc_div(tick as int, tick_spacing as int)))
                || final(self).len < old(self).len,
            flip_effect(*old(self), *final(self), tick, tick_spacing),
    {
        let (word_pos, bit_pos) = Self::word_and_bit(tick, tick_spacing);
        let i = self.get_or_insert(word_pos);
        let ghost mid = *self;
        let mut word = self.word_vals[i];
        if word.is_set(bit_pos) {
            word.clear_bit(bit_pos);
        } else {
            word.set_bit(bit_pos);
        }
        self.word_vals[i] = word;
        let ghost flipped = *self;
        proof {
            assert forall|w: i16| w != word_pos implies #[trigger] flipped.holds_word(w)
                == old(self).holds_word(w) by {
                if flipped.holds_word(w) {
                    let k = choose|k: int| 0 <= k < flipped.len && flipped.word_keys[k] == w;
                    assert(mid.word_keys[k] == w);
                    if !old(self).holds_word(word_pos) {
                        assert(k < old(self).len);
                        assert(old(self).word_keys[k] == w);
                    }
                }
                if old(self).holds_word(w) {
                    let k = choose|k: int| 0 <= k < old(self).len && old(self).word_keys[k] == w;
                    assert(mid.word_keys[k] == w);
                    assert(flipped.word_keys[k] == w);
                }
            }
            assert(flipped.word_keys[i as int] == word_pos);
            assert(flipped.holds_word(word_pos));
        }
        proof {
            assert forall|w: i16, b: int| #[trigger]
                flipped.has_tick(w, b) == (mid.has_tick(w, b) != (w == word_pos && b
                    == bit_pos)) by {
                if 0 <= b < 256 {
                    if w == word_pos {
                        mid.lemma_slot(i as int, b);
                        flipped.lemma_slot(i as int, b);
                    } else {
                        if flipped.has_tick(w, b) {
                            let k = choose|k: int|
                                0 <= k < flipped.len && flipped.word_keys[k] == w
                                    && #[trigger] flipped.word_vals[k].has(b);
                            assert(mid.word_vals[k] == flipped.word_vals[k]);
                        }
                        if mid.has_tick(w, b) {
                            let k = choose|k: int|
                                0 <= k < mid.len && mid.word_keys[k] == w
                                    && #[trigger] mid.word_vals[k].has(b);
                            assert(mid.word_vals[k] == flipped.word_vals[k]);
                        }
                    }
                }
            }
        }
        proof {
            if old(self).tidy() {
                assert forall|k: int| 0 <= k < flipped.len && k != i implies !(
                #[trigger] flipped.word_vals[k]).zero() by {
                    assert(flipped.word_vals[k] == mid.word_vals[k]);
                    if !old(self).holds_word(word_pos) {
                        assert(k < old(self).len);
                        assert(mid.word_vals[k] == old(self).word_vals[k]);
                    }
                }
            }
        }
        if let Some(j) = self.find(word_pos) {
            if !self.word_vals[j].is_empty() {
                proof {
                    if old(self).tidy() {
                        assert forall|k: int| 0 <= k < self.len implies !(
                        #[trigger] self.word_vals[k]).zero() by {
                            if k != i {
                                assert(!flipped.word_vals[k].zero());
                            }
                        }
                    }
                }
            }
            if self.word_vals[j].is_empty() {
                assert(j == i);
                proof {
                    flipped.word_vals[i as int].lemma_zero_has_none();
                }
                self.len = self.len - 1;
                let last = self.len;
                self.word_keys[j] = self.word_keys[last];
                self.word_vals[j] = self.word_vals[last];
                proof {
                    assert forall|w: i16, b: int| #[trigger]
                        self.has_tick(w, b) == flipped.has_tick(w, b) by {
                        if 0 <= b < 256 {
                            if self.has_tick(w, b) {
                                let k = choose|k: int|
                                    0 <= k < self.len && self.word_keys[k] == w
                                        && #[trigger] self.word_vals[k].has(b);
                                if k == j {
                                    assert(flipped.word_keys[last as int] == w);
                                    assert(flipped.word_vals[last as int].has(b));
                                } else {
                                    assert(flipped.word_keys[k] == w);
                                    assert(flipped.word_vals[k].has(b));
                                }
                            }
                            if flipped.has_tick(w, b) {
                                let k = choose|k: int|
                                    0 <= k < flipped.len && flipped.word_keys[k] == w
                                        && #[trigger] flipped.word_vals[k].has(b);
                                assert(k != j);
                                if k == last {
                                    assert(self.word_keys[j as int] == w);
                                    assert(self.word_vals[j as int].has(b));
                                } else {
                                    assert(self.word_keys[k] == w);
                                    assert(self.word_vals[k].has(b));
                                }
                            }
                        }
                    }
                    assert forall|w: i16| w != word_pos implies #[trigger] self.holds_word(w)
                        == flipped.holds_word(w) by {
                        if self.holds_word(w) {
                            let k = choose|k: int| 0 <= k < self.len && self.word_keys[k] == w;
                            if k == j {
                                assert(flipped.word_keys[last as int] == w);
                            } else {
                                assert(flipped.word_keys[k] == w);
                            }
                        }
                        if flipped.holds_word(w) {
                            let k = choose|k: int| 0 <= k < flipped.len && flipped.word_keys[k] == w;
                            assert(k != j);
                            if k == last {
                                assert(self.word_keys[j as int] == w);
                            } else {
                                assert(self.word_keys[k] == w);
                            }
                        }
                    }
                    if !old(self).holds_word(word_pos) {
                        assert(!old(self).has_tick(word_pos, bit_pos as int));
                        assert(flipped.has_tick(word_pos, bit_pos as int));
                        let k = choose|k: int|
                            0 <= k < flipped.len && flipped.word_keys[k] == word_pos
                                && #[trigger] flipped.word_vals[k].has(bit_pos as int);
                        assert(k == i);
                        assert(false);
                    }
                }
            }
        }
    }

    /// Searches the word holding the tick (`lte`: at or below it; otherwise
    /// the word holding the next compressed tick, strictly above it) for the
    /// nearest initialized tick.  Returns that tick and `true`, or the word's
    /// far boundary and `false` when the word has none in that direction.
    pub fn next_initialized_tick_within_one_word(
        &self,
        tick: i32,
        tick_spacing: i32,
        lte: bool,
    ) -> (r: (i32, bool))
        requires
            self.wf(),
            search_fits(tick, tick_spacing, lte),
        ensures
            next_tick_found(*self, tick, tick_spacing, lte, r),
            r == next_tick_spec(*self, tick, tick_spacing, lte),
    {
        let r = self.search_one_word(tick, tick_spacing, lte);
        proof {
            lemma_next_tick_spec(*self, tick, tick_spacing, lte, r);
        }
        r
    }

    fn search_one_word(&self, tick: i32, tick_spacing: i32, lte: bool) -> (r: (i32, bool))
        requires
            self.wf(),
            search_fits(tick, tick_spacing, lte),
        ensures
            next_tick_found(*self, tick, tick_spacing, lte, r),
    {
        let compressed = tick / tick_spacing;
        assert(compressed as int == trunc_div(tick as int, tick_spacing as int));
        if lte {
            proof {
                lemma_shr8(compressed);
            }
            let word_pos = #[verifier::truncate] ((compressed >> 8u32) as i16);
            let bit_pos = ((compressed % 256 + 256) % 256) as u8;
            assert(word_pos == word_pos_of(compressed as int));
            assert(bit_pos as int == bit_pos_of(compressed as int));
            assert(search_start(tick, tick_spacing, lte) == compressed as int);
            if let Some(i) = self.find(word_pos) {
                if let Some(found_bit) = self.word_vals[i].next_initialized_below(bit_pos) {
                    proof {
                        self.lemma_slot(i as int, found_bit as int);
                        assert forall|j: int| found_bit < j <= bit_pos implies !#[trigger] self.has_tick(word_pos, j) by {
                            self.lemma_slot(i as int, j);
                        }
                    }
                    let found_compressed = (word_pos as i32) * 256 + found_bit as i32;
                    proof {
                        assert(found_compressed as int * tick_spacing <= (word_pos as int * 256 + 255) * tick_spacing) by (nonlinear_arith)
                            requires
                                found_compressed <= word_pos as int * 256 + 255,
                                tick_spacing > 0,
                        ;
                        assert(found_compressed as int * tick_spacing >= (word_pos as int * 256) * tick_spacing) by (nonlinear_arith)
                            requires
                                found_compressed >= word_pos as int * 256,
                                tick_spacing > 0,
                        ;
                    }
                    let r0 = found_compressed * tick_spacing;
                    assert(r0 == (word_pos as int * 256 + found_bit as int) * tick_spacing);
                    assert(self.has_tick(word_pos, found_bit as int));
                    assert(0 <= found_bit <= bit_pos);
                    assert(forall|j: int| found_bit < j <= bit_pos ==> !#[trigger] self.has_tick(word_pos, j));
                    assert(nearest_below(*self, word_pos, bit_pos as int, found_bit as int));
                    return (r0, true);
                }
                proof {
                    assert forall|j: int| 0 <= j <= bit_pos implies !#[trigger] self.has_tick(word_pos, j) by {
                        self.lemma_slot(i as int, j);
                    }
                }
            }
            let boundary_compressed = (word_pos as i32) * 256;
            proof {
                assert(boundary_compressed as int * tick_spacing <= (word_pos as int * 256 + 255) * tick_spacing) by (nonlinear_arith)
                    requires
                        boundary_compressed <= word_pos as int * 256 + 255,
                        tick_spacing > 0,
                ;
            }
            (boundary_compressed * tick_spacing, false)
        } else {
            let compressed_next = compressed + 1;
            proof {
                lemma_shr8(compressed_next);
            }
            let word_pos = #[verifier::truncate] ((compressed_next >> 8u32) as i16);
            let bit_pos = ((compressed_next % 256 + 256) % 256) as u8;
            assert(word_pos == word_pos_of(compressed_next as int));
            assert(bit_pos as int == bit_pos_of(compressed_next as int));
            assert(search_start(tick, tick_spacing, lte) == compressed_next as int);
            if let Some(i) = self.find(word_pos) {
                if let Some(found_bit) = self.word_vals[i].next_initialized_above(bit_pos) {
                    proof {
                        self.lemma_slot(i as int, found_bit as int);
                        assert forall|j: int| bit_pos <= j < found_bit implies !#[trigger] self.has_tick(word_pos, j) by {
                            self.lemma_slot(i as int, j);
                        }
                    }
                    let found_compressed = (word_pos as i32) * 256 + found_bit as i32;
                    proof {
                        assert(found_compressed as int * tick_spacing <= (word_pos as int * 256 + 255) * tick_spacing) by (nonlinear_arith)
                            requires
                                found_compressed <= word_pos as int * 256 + 255,
                                tick_spacing > 0,
                        ;
                        assert(found_compressed as int * tick_spacing >= (word_pos as int * 256) * tick_spacing) by (nonlinear_arith)
                            requires
                                found_compressed >= word_pos as int * 256,
                                tick_spacing > 0,
                        ;
                    }
                    let r0 = found_compressed * tick_spacing;
                    assert(r0 == (word_pos as int * 256 + found_bit as int) * tick_spacing);
                    assert(self.has_tick(word_pos, found_bit as int));
                    assert(nearest_above(*self, word_pos, bit_pos as int, found_bit as int));
                    return (r0, true);
                }
                proof {
                    assert forall|j: int| bit_pos <= j < 256 implies !#[trigger] self.has_tick(word_pos, j) by {
                        self.lemma_slot(i as int, j);
                    }
                }
            }
            let boundary_compressed = (word_pos as i32 + 1) * 256 - 1;
            proof {
                assert(boundary_compressed as int * tick_spacing >= (word_pos as int * 256) * tick_spacing) by (nonlinear_arith)
                    requires
                        boundary_compressed >= word_pos as int * 256,
                        tick_spacing > 0,
                ;
            }
            (boundary_compressed * tick_spacing, false)
        }
    }
}

} // verus!
