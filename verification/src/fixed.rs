//! Bit-level facts about 128-bit words that the fixed-point code relies on.
use vstd::prelude::*;

verus! {

/// 2^64 as a mathematical integer.
pub open spec fn two64() -> int {
    0x1_0000_0000_0000_0000int
}

/// 2^128 as a mathematical integer.
pub open spec fn two128() -> int {
    0x1_0000_0000_0000_0000_0000_0000_0000_0000int
}

/// Saturation of a non-negative integer to the `u128` range.
pub open spec fn sat128(x: int) -> u128 {
    if x > u128::MAX {
        u128::MAX
    } else if x < 0 {
        0
    } else {
        x as u128
    }
}

/// Saturation of a non-negative integer to the `u64` range.
pub open spec fn sat64(x: int) -> u64 {
    if x > u64::MAX {
        u64::MAX
    } else if x < 0 {
        0
    } else {
        x as u64
    }
}

/// Splitting a word into its high and low halves.
pub proof fn lemma_split128(a: u128)
    ensures
        a >> 64u128 == a / 0x1_0000_0000_0000_0000u128,
        a & 0xFFFF_FFFF_FFFF_FFFFu128 == a % 0x1_0000_0000_0000_0000u128,
        a >> 64u128 < 0x1_0000_0000_0000_0000u128,
{
    assert(a >> 64u128 == a / 0x1_0000_0000_0000_0000u128) by (bit_vector);
    assert(a & 0xFFFF_FFFF_FFFF_FFFFu128 == a % 0x1_0000_0000_0000_0000u128) by (bit_vector);
    assert(a >> 64u128 < 0x1_0000_0000_0000_0000u128) by (bit_vector);
}

/// Shifting left by 64 keeps the low half, moved up.
pub proof fn lemma_shl64(a: u128)
    ensures
        a << 64u128 == (a % 0x1_0000_0000_0000_0000u128) * 0x1_0000_0000_0000_0000u128,
{
    assert(a << 64u128 == (a % 0x1_0000_0000_0000_0000u128) * 0x1_0000_0000_0000_0000u128)
        by (bit_vector);
}

/// Products of two half-words fit in a word.
pub proof fn lemma_half_product(x: int, y: int)
    requires
        0 <= x < two64(),
        0 <= y < two64(),
    ensures
        0 <= x * y < two128(),
        x * y <= u128::MAX,
{
    let m: int = 0xFFFF_FFFF_FFFF_FFFFint;
    assert(0 <= x * y <= m * y) by (nonlinear_arith)
        requires
            0 <= x <= m,
            0 <= y,
    ;
    assert(m * y <= m * m) by (nonlinear_arith)
        requires
            0 <= y <= m,
            0 <= m,
    ;
    assert(m * m < two128());
}

} // verus!
