//! Fixed-point math for a Uniswap v3-style AMM on XRPL.
//!
//! Representations:
//!   sqrt_price  — Q64.64  (u128):  upper 64 bits = integer, lower 64 = fraction
//!   fee_growth  — Q128    (u128):  entire value is fractional (scaled by 2^128)
//!   liquidity   — u128 plain integer (drops-scale)
use vstd::prelude::*;
use vstd::arithmetic::div_mod::*;
use vstd::arithmetic::mul::*;
use vstd::arithmetic::power2::{pow2, lemma2_to64, lemma_pow2_unfold, lemma_pow2_strictly_increases};
use crate::fixed::{two64, two128, sat128, sat64, lemma_split128, lemma_shl64, lemma_half_product};
use crate::tick_order::{
    chain,
    chain_price,
    full_chain,
    factors_grow,
    step_num,
    step_den,
    tie_bound,
    lemma_chain_prefix,
    lemma_chain_mono,
    lemma_chain_price_mono,
    lemma_chain_price_strict,
    lemma_search_lands,
    lemma_search_passes,
    lemma_floored_product,
};

verus! {

/// One in Q64.64 representation.
pub const Q64: u128 = 0x1_0000_0000_0000_0000u128;

/// Minimum allowed tick value (mirrors Uniswap v3).
pub const MIN_TICK: i32 = -887_272i32;

/// Maximum allowed tick value (mirrors Uniswap v3).
pub const MAX_TICK: i32 = 887_272i32;

// ---------------------------------------------------------------------------
// Multiply-shift
// ---------------------------------------------------------------------------

/// What `mul_shift64` computes: the four half-word partial products of `a·b`,
/// shifted right by 64 bits and summed with saturation.  The high·high
/// partial product is shifted into a 128-bit word, so only its low 64 bits
/// survive.
pub open spec fn mul_shift64_spec(a: u128, b: u128) -> u128 {
    let ah = a as int / two64();
    let al = a as int % two64();
    let bh = b as int / two64();
    let bl = b as int % two64();
    sat128((ah * bh) % two64() * two64() + ah * bl + al * bh + (al * bl) / two64())
}

/// Multiply two u128 values and shift right by 64 bits (Q64.64 multiply).
pub fn mul_shift64(a: u128, b: u128) -> (r: u128)
    ensures
        r == mul_shift64_spec(a, b),
{
    proof {
        lemma_split128(a);
        lemma_split128(b);
    }
    let a_hi = a >> 64;
    let a_lo = a & 0xFFFF_FFFF_FFFF_FFFFu128;
    let b_hi = b >> 64;
    let b_lo = b & 0xFFFF_FFFF_FFFF_FFFFu128;
    proof {
        lemma_half_product(a_lo as int, b_lo as int);
        lemma_half_product(a_lo as int, b_hi as int);
        lemma_half_product(a_hi as int, b_lo as int);
        lemma_half_product(a_hi as int, b_hi as int);
    }
    let ll = a_lo * b_lo;
    proof {
        lemma_split128(ll);
    }
    let lo_lo = ll >> 64;
    let lo_hi = a_lo * b_hi;
    let hi_lo = a_hi * b_lo;
    let hi_hi = a_hi * b_hi;
    proof {
        lemma_shl64(hi_hi);
    }
    let top = hi_hi << 64;
    top.saturating_add(hi_lo).saturating_add(lo_hi).saturating_add(lo_lo)
}

/// `(B·ah + al)·(B·bh + bl)` expanded around the base `B`.
pub proof fn lemma_expand_halves(B: int, ah: int, al: int, bh: int, bl: int)
    ensures
        (B * ah + al) * (B * bh + bl) == B * (ah * bh * B + ah * bl + al * bh) + al * bl,
{
    let x = B * ah;
    let y = B * bh;
    lemma_mul_is_distributive_add(x + al, y, bl);
    lemma_mul_is_distributive_add_other_way(y, x, al);
    lemma_mul_is_distributive_add_other_way(bl, x, al);
    assert(x * y == B * (ah * bh * B)) by {
        lemma_mul_is_associative(B, ah, B * bh);
        lemma_mul_is_commutative(B, bh);
        lemma_mul_is_associative(ah, bh, B);
    }
    assert(x * bl == B * (ah * bl)) by {
        lemma_mul_is_associative(B, ah, bl);
    }
    assert(al * y == B * (al * bh)) by {
        lemma_mul_is_associative(al, B, bh);
        lemma_mul_is_commutative(al, B);
        lemma_mul_is_associative(B, al, bh);
    }
    lemma_mul_is_distributive_add(B, ah * bh * B, ah * bl);
    lemma_mul_is_distributive_add(B, ah * bh * B + ah * bl, al * bh);
}

/// When the full product fits in 192 bits, `mul_shift64` is exactly the
/// floored Q64.64 product `⌊a·b / 2^64⌋`.
pub proof fn lemma_mul_shift64_exact(a: u128, b: u128)
    requires
        (a as int) * (b as int) < two64() * two128(),
    ensures
        mul_shift64_spec(a, b) as int == (a as int) * (b as int) / two64(),
{
    let B = two64();
    let ah = a as int / B;
    let al = a as int % B;
    let bh = b as int / B;
    let bl = b as int % B;
    lemma_fundamental_div_mod(a as int, B);
    lemma_fundamental_div_mod(b as int, B);
    lemma_fundamental_div_mod(al * bl, B);
    let q = (al * bl) / B;
    let r = (al * bl) % B;
    assert(0 <= al < B && 0 <= bl < B && 0 <= ah && 0 <= bh);
    lemma_expand_halves(B, ah, al, bh, bl);
    assert((a as int) * (b as int) == (B * ah + al) * (B * bh + bl));
    lemma_mul_is_distributive_add(B, ah * bh * B + ah * bl + al * bh, q);
    assert((a as int) * (b as int) == B * (ah * bh * B + ah * bl + al * bh + q) + r);
    assert(0 <= r < B);
    assert(0 <= q) by (nonlinear_arith)
        requires
            0 <= al,
            0 <= bl,
            B > 0,
            q == (al * bl) / B,
    ;
    lemma_fundamental_div_mod_converse(
        (a as int) * (b as int),
        B,
        ah * bh * B + ah * bl + al * bh + q,
        r,
    );
    assert(ah * bh < B) by (nonlinear_arith)
        requires
            (a as int) * (b as int) == B * (ah * bh * B + ah * bl + al * bh + q) + r,
            (a as int) * (b as int) < B * (B * B),
            0 <= ah,
            0 <= bh,
            0 <= al,
            0 <= bl,
            0 <= q,
            0 <= r,
            B > 0,
    ;
    assert((ah * bh) % B == ah * bh) by {
        lemma_small_mod((ah * bh) as nat, B as nat);
    }
    assert(ah * bh * B + ah * bl + al * bh + q < B * B) by (nonlinear_arith)
        requires
            (a as int) * (b as int) == B * (ah * bh * B + ah * bl + al * bh + q) + r,
            (a as int) * (b as int) < B * (B * B),
            0 <= r,
            B > 0,
    ;
}

/// `⌊a·b / 2^64⌋` saturated at `u128::MAX`: the Q64.64 product that
/// saturates on overflow.
pub open spec fn mul_shift64_sat_spec(a: u128, b: u128) -> u128 {
    sat128((a as int) * (b as int) / two64())
}

/// When the high·high partial product fits in 64 bits, the partial-product
/// sum is the floored Q64.64 product, saturated; otherwise the floored
/// product is at least 2^128.
pub proof fn lemma_mul_shift64_high_half(a: u128, b: u128)
    ensures
        (a as int / two64()) * (b as int / two64()) < two64() ==> mul_shift64_spec(a, b)
            == mul_shift64_sat_spec(a, b),
        (a as int / two64()) * (b as int / two64()) >= two64() ==> (a as int) * (b as int)
            / two64() >= two128(),
{
    let B = two64();
    let ah = a as int / B;
    let al = a as int % B;
    let bh = b as int / B;
    let bl = b as int % B;
    lemma_fundamental_div_mod(a as int, B);
    lemma_fundamental_div_mod(b as int, B);
    lemma_fundamental_div_mod(al * bl, B);
    let q = (al * bl) / B;
    let r = (al * bl) % B;
    assert(0 <= al < B && 0 <= bl < B && 0 <= ah && 0 <= bh);
    lemma_expand_halves(B, ah, al, bh, bl);
    assert((a as int) * (b as int) == (B * ah + al) * (B * bh + bl));
    lemma_mul_is_distributive_add(B, ah * bh * B + ah * bl + al * bh, q);
    let s = ah * bh * B + ah * bl + al * bh + q;
    assert((a as int) * (b as int) == B * s + r);
    assert(0 <= q) by (nonlinear_arith)
        requires
            0 <= al,
            0 <= bl,
            B > 0,
            q == (al * bl) / B,
    ;
    lemma_fundamental_div_mod_converse((a as int) * (b as int), B, s, r);
    assert((a as int) * (b as int) / B == s);
    if ah * bh < B {
        assert((ah * bh) % B == ah * bh) by {
            lemma_small_mod((ah * bh) as nat, B as nat);
        }
    } else {
        assert(s >= B * B) by (nonlinear_arith)
            requires
                s == ah * bh * B + ah * bl + al * bh + q,
                ah * bh >= B,
                ah >= 0,
                bl >= 0,
                al >= 0,
                bh >= 0,
                q >= 0,
                B > 0,
        ;
        assert(B * B == two128());
    }
}

/// Q64.64 multiply that saturates at `u128::MAX` on overflow.
pub fn mul_shift64_saturating(a: u128, b: u128) -> (r: u128)
    ensures
        r == mul_shift64_sat_spec(a, b),
{
    proof {
        lemma_split128(a);
        lemma_split128(b);
        lemma_half_product(a as int / two64(), b as int / two64());
        lemma_mul_shift64_high_half(a, b);
    }
    let hh = (a >> 64) * (b >> 64);
    if hh > 0xFFFF_FFFF_FFFF_FFFFu128 {
        return u128::MAX;
    }
    mul_shift64(a, b)
}

// ---------------------------------------------------------------------------
// Q64.64 division
// ---------------------------------------------------------------------------

/// What `div_q64` computes: `(a << 64) / b`, saturated at `u128::MAX`;
/// `u128::MAX` when `b` is zero.
pub open spec fn div_q64_spec(a: u128, b: u128) -> u128 {
    if b == 0 {
        u128::MAX
    } else {
        sat128((a as int * two64()) / (b as int))
    }
}

/// `⌊r·2^64 / d⌋` for `r < d`, by binary long division: one quotient bit
/// per step, the running remainder kept below `d`.
fn frac_q64(r: u128, d: u128) -> (res: (u128, u128))
    requires
        r < d,
    ensures
        res.0 as int == (r as int * two64()) / (d as int),
        res.1 as int == (r as int * two64()) % (d as int),
        res.0 < two64(),
{
    let mut rem: u128 = r;
    let mut q: u128 = 0;
    let mut i: u32 = 0;
    proof {
        lemma2_to64();
    }
    while i < 64
        invariant
            i <= 64,
            rem < d,
            q < pow2(i as nat),
            (r as int) * (pow2(i as nat) as int) == (q as int) * (d as int) + rem as int,
        decreases 64 - i,
    {
        proof {
            lemma_pow2_unfold((i + 1) as nat);
            lemma2_to64();
            lemma_pow2_strictly_increases(i as nat, 64);
        }
        let ghost p = pow2(i as nat) as int;
        assert((r as int) * (2 * p) == 2 * ((q as int) * (d as int) + rem as int)) by (nonlinear_arith)
            requires
                (r as int) * p == (q as int) * (d as int) + rem as int,
        ;
        if rem >= d - rem {
            assert(2 * ((q as int) * (d as int) + rem as int) == (2 * q as int + 1) * (d as int) + (
            rem - (d - rem)) as int) by (nonlinear_arith);
            q = 2 * q + 1;
            rem = rem - (d - rem);
        } else {
            assert(2 * ((q as int) * (d as int) + rem as int) == (2 * q as int) * (d as int) + (rem
                + rem) as int) by (nonlinear_arith);
            q = 2 * q;
            rem = rem + rem;
        }
        i += 1;
    }
    proof {
        lemma2_to64();
        lemma_fundamental_div_mod_converse((r as int) * two64(), d as int, q as int, rem as int);
    }
    (q, rem)
}

/// Divide a by b in Q64.64 space: (a << 64) / b, saturating.
pub fn div_q64(a: u128, b: u128) -> (r: u128)
    ensures
        r == div_q64_spec(a, b),
{
    if b == 0 {
        return u128::MAX;
    }
    let whole = a / b;
    let part = a % b;
    proof {
        lemma_fundamental_div_mod(a as int, b as int);
    }
    if whole >= 0x1_0000_0000_0000_0000u128 {
        proof {
            assert((a as int) * two64() >= (whole as int) * (b as int) * two64()) by (nonlinear_arith)
                requires
                    a as int == (b as int) * (whole as int) + part as int,
                    part >= 0,
                    whole >= 0,
                    b >= 1,
            ;
            assert((whole as int) * (b as int) * two64() >= (two64() * two64()) * (b as int)) by (nonlinear_arith)
                requires
                    whole as int >= two64(),
                    b >= 1,
            ;
            assert((a as int * two64()) / (b as int) >= two64() * two64()) by {
                lemma_div_is_ordered((two64() * two64()) * (b as int), (a as int) * two64(), b as int);
                lemma_div_by_multiple(two64() * two64(), b as int);
            }
        }
        return u128::MAX;
    }
    let (f, _) = frac_q64(part, b);
    proof {
        lemma_fundamental_div_mod((part as int) * two64(), b as int);
        assert((a as int) * two64() == (b as int) * ((whole as int) * two64() + f as int) + ((part
            as int) * two64()) % (b as int)) by (nonlinear_arith)
            requires
                a as int == (b as int) * (whole as int) + part as int,
                (part as int) * two64() == (b as int) * (f as int) + ((part as int) * two64()) % (
                b as int),
        ;
        lemma_fundamental_div_mod_converse(
            (a as int) * two64(),
            b as int,
            (whole as int) * two64() + f as int,
            ((part as int) * two64()) % (b as int),
        );
    }
    whole * 0x1_0000_0000_0000_0000u128 + f
}

// ---------------------------------------------------------------------------
// Tick ↔ sqrt_price conversion
// ---------------------------------------------------------------------------

/// `floor(sqrt(1.0001^(2^k)) * 2^64)` for `k < 20`; zero elsewhere.
pub open spec fn magic_spec(k: int) -> u128 {
    if k == 0 {
        18447666387855959850u128
    } else if k == 1 {
        18448588748116922571u128
    } else if k == 2 {
        18450433606991734263u128
    } else if k == 3 {
        18454123878217468680u128
    } else if k == 4 {
        18461506635090006701u128
    } else if k == 5 {
        18476281010653910144u128
    } else if k == 6 {
        18505865242158250041u128
    } else if k == 7 {
        18565175891880433522u128
    } else if k == 8 {
        18684368066214940582u128
    } else if k == 9 {
        18925053041275764671u128
    } else if k == 10 {
        19415764168677886926u128
    } else if k == 11 {
        20435687552633177494u128
    } else if k == 12 {
        22639080592224303007u128
    } else if k == 13 {
        27784196929998399742u128
    } else if k == 14 {
        41848122137994986128u128
    } else if k == 15 {
        94936283578220370716u128
    } else if k == 16 {
        488590176327622479860u128
    } else if k == 17 {
        12941056668319229769860u128
    } else if k == 18 {
        9078618265828848800676189u128
    } else if k == 19 {
        4468068147273140139091016147737u128
    } else {
        0u128
    }
}

/// The precomputed factor `sqrt(1.0001)^(2^k)` in Q64.64.
fn magic(k: u32) -> (m: u128)
    requires
        k < 20,
    ensures
        m == magic_spec(k as int),
        m >= Q64,
        m % Q64 != 0,
{
    match k {
        0 => 18447666387855959850u128,
        1 => 18448588748116922571u128,
        2 => 18450433606991734263u128,
        3 => 18454123878217468680u128,
        4 => 18461506635090006701u128,
        5 => 18476281010653910144u128,
        6 => 18505865242158250041u128,
        7 => 18565175891880433522u128,
        8 => 18684368066214940582u128,
        9 => 18925053041275764671u128,
        10 => 19415764168677886926u128,
        11 => 20435687552633177494u128,
        12 => 22639080592224303007u128,
        13 => 27784196929998399742u128,
        14 => 41848122137994986128u128,
        15 => 94936283578220370716u128,
        16 => 488590176327622479860u128,
        17 => 12941056668319229769860u128,
        18 => 9078618265828848800676189u128,
        _ => 4468068147273140139091016147737u128,
    }
}

/// Whether bit `k` of `t` is set.
pub open spec fn bit_set(t: u32, k: int) -> bool {
    t & (1u32 << (k as u32)) != 0
}

/// The absolute value of a tick as an unsigned integer.
pub open spec fn tick_magnitude(tick: i32) -> u32 {
    if tick < 0 {
        (-(tick as int)) as u32
    } else {
        tick as u32
    }
}

/// The ratio accumulated over bits `0..k` of `t`: the product of the
/// factors of the set bits, each step a Q64.64 multiply.
pub open spec fn ratio_upto(t: u32, k: nat) -> u128
    decreases k,
{
    if k == 0 {
        Q64
    } else {
        let prev = ratio_upto(t, (k - 1) as nat);
        if bit_set(t, k - 1) {
            let m = magic_spec(k - 1);
            if m == 0 {
                sat128(prev * (u128::MAX as int / two64()))
            } else {
                mul_shift64_spec(prev, m)
            }
        } else {
            prev
        }
    }
}

/// The sqrt price of a tick: the product of the factors over the 20 low
/// bits of |tick|, inverted as `u128::MAX / ratio` for negative ticks.
pub open spec fn sqrt_price_at_tick_spec(tick: i32) -> u128 {
    let r = ratio_upto(tick_magnitude(tick), 20);
    if tick < 0 {
        if r == 0 {
            u128::MAX
        } else {
            (u128::MAX as int / r as int) as u128
        }
    } else {
        r
    }
}

/// A Q64.64 multiply by a factor of at least 1.0 whose fractional half is
/// non-zero keeps a positive value positive.
pub proof fn lemma_mul_shift64_positive(a: u128, b: u128)
    requires
        a > 0,
        b as int >= two64(),
        b as int % two64() != 0,
    ensures
        mul_shift64_spec(a, b) > 0,
{
    let B = two64();
    let ah = a as int / B;
    let al = a as int % B;
    let bh = b as int / B;
    let bl = b as int % B;
    lemma_fundamental_div_mod(a as int, B);
    lemma_fundamental_div_mod(b as int, B);
    assert(bh >= 1);
    assert(ah >= 0 && al >= 0 && bl >= 1);
    assert((ah * bh) % B >= 0);
    assert((ah * bh) % B * B >= 0) by (nonlinear_arith)
        requires
            (ah * bh) % B >= 0,
            B > 0,
    ;
    assert((al * bl) / B >= 0) by (nonlinear_arith)
        requires
            al >= 0,
            bl >= 0,
            B > 0,
    ;
    if al > 0 {
        assert(al * bh >= 1 && ah * bl >= 0) by (nonlinear_arith)
            requires
                al >= 1,
                bh >= 1,
                ah >= 0,
                bl >= 0,
        ;
    } else {
        assert(ah >= 1);
        assert(ah * bl >= 1 && al * bh >= 0) by (nonlinear_arith)
            requires
                ah >= 1,
                bl >= 1,
                al >= 0,
                bh >= 0,
        ;
    }
}


/// `a·b` saturated at `u128::MAX`.
pub fn saturating_mul_u128(a: u128, b: u128) -> (r: u128)
    ensures
        r == sat128((a as int) * (b as int)),
{
    proof {
        assert((a as int) * (b as int) >= 0) by (nonlinear_arith)
            requires
                a >= 0,
                b >= 0,
        ;
    }
    match a.checked_mul(b) {
        Some(p) => p,
        None => u128::MAX,
    }
}

/// Returns sqrt_price_q64_64 for a given tick: sqrt(1.0001^tick) in Q64.64,
/// built by repeated Q64.64 multiplication of the precomputed factors
/// floor(sqrt(1.0001^(2^k)) * 2^64) for the set bits of |tick|.
pub fn sqrt_price_at_tick(tick: i32) -> (r: u128)
    ensures
        r == sqrt_price_at_tick_spec(tick),
        r > 0,
{
    let abs_tick: u32 = if tick < 0 {
        (-(tick as i64)) as u32
    } else {
        tick as u32
    };
    assert(abs_tick == tick_magnitude(tick));
    let mut ratio: u128 = Q64;
    for k in 0..20u32
        invariant
            ratio == ratio_upto(abs_tick, k as nat),
            ratio > 0,
    {
        if abs_tick & (1u32 << k) != 0 {
            let m = magic(k);
            if m == 0 {
                proof {
                    assert(ratio as int * 0xFFFF_FFFF_FFFF_FFFF >= 1) by (nonlinear_arith)
                        requires
                            ratio >= 1,
                    ;
                }
                ratio = saturating_mul_u128(ratio, 0xFFFF_FFFF_FFFF_FFFFu128);
            } else {
                proof {
                    lemma_mul_shift64_positive(ratio, m);
                }
                ratio = mul_shift64(ratio, m);
            }
        }
    }
    if tick < 0 {
        proof {
            assert(u128::MAX as int / ratio as int >= 1) by (nonlinear_arith)
                requires
                    1 <= ratio <= u128::MAX,
            ;
        }
        ratio = u128::MAX / ratio;
    }
    ratio
}

/// The binary search that a tick lookup runs over `[lo, hi]` for a price
/// function `f`: the midpoint rounds up, a midpoint priced at most `price`
/// becomes the new low end, any other the new high end less one.
pub open spec fn tick_search_by(f: spec_fn(i32) -> u128, price: u128, lo: int, hi: int) -> int
    decreases hi - lo,
{
    if lo >= hi {
        lo
    } else {
        let mid = lo + (hi - lo + 1) / 2;
        if f(mid as i32) <= price {
            tick_search_by(f, price, mid, hi)
        } else {
            tick_search_by(f, price, lo, mid - 1)
        }
    }
}

/// The binary search that `tick_at_sqrt_price` runs over `[lo, hi]`.
pub open spec fn tick_search(price: u128, lo: int, hi: int) -> int {
    tick_search_by(|t: i32| sqrt_price_at_tick_spec(t), price, lo, hi)
}

/// Returns the tick corresponding to a given sqrt_price_q64_64 by binary
/// search over `[MIN_TICK, MAX_TICK]`: the result is a tick whose price is
/// at most `sqrt_price` (unless it is `MIN_TICK`) and whose successor's
/// price exceeds `sqrt_price` (unless it is `MAX_TICK`).
pub fn tick_at_sqrt_price(sqrt_price: u128) -> (t: i32)
    ensures
        t as int == tick_search(sqrt_price, MIN_TICK as int, MAX_TICK as int),
        MIN_TICK <= t <= MAX_TICK,
        t == MIN_TICK || sqrt_price_at_tick_spec(t) <= sqrt_price,
        t == MAX_TICK || sqrt_price_at_tick_spec((t + 1) as i32) > sqrt_price,
{
    let mut lo = MIN_TICK;
    let mut hi = MAX_TICK;
    while lo < hi
        invariant
            MIN_TICK <= lo <= hi <= MAX_TICK,
            tick_search(sqrt_price, lo as int, hi as int) == tick_search(
                sqrt_price,
                MIN_TICK as int,
                MAX_TICK as int,
            ),
            lo == MIN_TICK || sqrt_price_at_tick_spec(lo) <= sqrt_price,
            hi == MAX_TICK || sqrt_price_at_tick_spec((hi + 1) as i32) > sqrt_price,
        decreases hi - lo,
    {
        let mid = lo + (hi - lo + 1) / 2;
        let p = sqrt_price_at_tick(mid);
        if p <= sqrt_price {
            lo = mid;
        } else {
            hi = mid - 1;
        }
    }
    lo
}

// ---------------------------------------------------------------------------
// Order of the tick prices
// ---------------------------------------------------------------------------

/// The per-bit factors of `sqrt_price_at_tick`, as integers.
pub open spec fn magic_factor() -> spec_fn(int) -> int {
    |k: int| magic_spec(k) as int
}

/// Factor `k` is at least `1.0` and exceeds the chain of the factors below
/// it by one tick's growth.
pub open spec fn magic_grows_at(k: int) -> bool {
    magic_factor()(k) >= two64() && full_chain(magic_factor(), k as nat) * step_num()
        <= magic_factor()(k) * step_den()
}

/// The set bits of `MAX_TICK`.
proof fn lemma_max_tick_bits()
    ensures
        !bit_set(887_272u32, 0),
        !bit_set(887_272u32, 1),
        !bit_set(887_272u32, 2),
        bit_set(887_272u32, 3),
        !bit_set(887_272u32, 4),
        bit_set(887_272u32, 5),
        bit_set(887_272u32, 6),
        bit_set(887_272u32, 7),
        bit_set(887_272u32, 8),
        !bit_set(887_272u32, 9),
        !bit_set(887_272u32, 10),
        bit_set(887_272u32, 11),
        !bit_set(887_272u32, 12),
        !bit_set(887_272u32, 13),
        !bit_set(887_272u32, 14),
        bit_set(887_272u32, 15),
        bit_set(887_272u32, 16),
        !bit_set(887_272u32, 17),
        bit_set(887_272u32, 18),
        bit_set(887_272u32, 19),
{
    assert(887_272u32 & (1u32 << 0u32) == 0 &&
        887_272u32 & (1u32 << 1u32) == 0 &&
        887_272u32 & (1u32 << 2u32) == 0 &&
        887_272u32 & (1u32 << 3u32) != 0 &&
        887_272u32 & (1u32 << 4u32) == 0 &&
        887_272u32 & (1u32 << 5u32) != 0 &&
        887_272u32 & (1u32 << 6u32) != 0 &&
        887_272u32 & (1u32 << 7u32) != 0 &&
        887_272u32 & (1u32 << 8u32) != 0 &&
        887_272u32 & (1u32 << 9u32) == 0 &&
        887_272u32 & (1u32 << 10u32) == 0 &&
        887_272u32 & (1u32 << 11u32) != 0 &&
        887_272u32 & (1u32 << 12u32) == 0 &&
        887_272u32 & (1u32 << 13u32) == 0 &&
        887_272u32 & (1u32 << 14u32) == 0 &&
        887_272u32 & (1u32 << 15u32) != 0 &&
        887_272u32 & (1u32 << 16u32) != 0 &&
        887_272u32 & (1u32 << 17u32) == 0 &&
        887_272u32 & (1u32 << 18u32) != 0 &&
        887_272u32 & (1u32 << 19u32) != 0) by (bit_vector);
}

/// The factor table grows tick by tick, and the chain of `MAX_TICK` fits in
/// 128 bits: both checked value by value.
#[verifier::rlimit(40)]
proof fn lemma_magic_facts()
    ensures
        factors_grow(magic_factor()),
        chain(magic_factor(), 887_272u32, 20) <= u128::MAX,
{
    let f = magic_factor();
    assert(magic_grows_at(0));
    assert(full_chain(f, 1) == full_chain(f, 0) * f(0) / two64());
    lemma_floored_product(full_chain(f, 0), f(0), 18446744073709551616, 18447666387855959850);
    assert(full_chain(f, 1) == 18447666387855959850);
    assert(magic_grows_at(1));
    assert(full_chain(f, 2) == full_chain(f, 1) * f(1) / two64());
    lemma_floored_product(full_chain(f, 1), f(1), 18447666387855959850, 18448588748116922571);
    assert(full_chain(f, 2) == 18449511154494745445);
    assert(magic_grows_at(2));
    assert(full_chain(f, 3) == full_chain(f, 2) * f(2) / two64());
    lemma_floored_product(full_chain(f, 2), f(2), 18449511154494745445, 18450433606991734263);
    assert(full_chain(f, 3) == 18453201241220755938);
    assert(magic_grows_at(3));
    assert(full_chain(f, 4) == full_chain(f, 3) * f(3) / two64());
    lemma_floored_product(full_chain(f, 3), f(3), 18453201241220755938, 18454123878217468680);
    assert(full_chain(f, 4) == 18460583628983133363);
    assert(magic_grows_at(4));
    assert(full_chain(f, 5) == full_chain(f, 4) * f(4) / two64());
    lemma_floored_product(full_chain(f, 4), f(4), 18460583628983133363, 18461506635090006701);
    assert(full_chain(f, 5) == 18475357265883657901);
    assert(magic_grows_at(5));
    assert(full_chain(f, 6) == full_chain(f, 5) * f(5) / two64());
    lemma_floored_product(full_chain(f, 5), f(5), 18475357265883657901, 18476281010653910144);
    assert(full_chain(f, 6) == 18504940018287354204);
    assert(magic_grows_at(6));
    assert(full_chain(f, 7) == full_chain(f, 6) * f(6) / two64());
    lemma_floored_product(full_chain(f, 6), f(6), 18504940018287354204, 18505865242158250041);
    assert(full_chain(f, 7) == 18564247702699447978);
    assert(magic_grows_at(7));
    assert(full_chain(f, 8) == full_chain(f, 7) * f(7) / two64());
    lemma_floored_product(full_chain(f, 7), f(7), 18564247702699447978, 18565175891880433522);
    assert(full_chain(f, 8) == 18683433917872171721);
    assert(magic_grows_at(8));
    assert(full_chain(f, 9) == full_chain(f, 8) * f(8) / two64());
    lemma_floored_product(full_chain(f, 8), f(8), 18683433917872171721, 18684368066214940582);
    assert(full_chain(f, 9) == 18924106859586736216);
    assert(magic_grows_at(9));
    assert(full_chain(f, 10) == full_chain(f, 9) * f(9) / two64());
    lemma_floored_product(full_chain(f, 9), f(9), 18924106859586736216, 18925053041275764671);
    assert(full_chain(f, 10) == 19414793453272501758);
    assert(magic_grows_at(10));
    assert(full_chain(f, 11) == full_chain(f, 10) * f(10) / two64());
    lemma_floored_product(full_chain(f, 10), f(10), 19414793453272501758, 19415764168677886926);
    assert(full_chain(f, 11) == 20434665844882988552);
    assert(magic_grows_at(11));
    assert(full_chain(f, 12) == full_chain(f, 11) * f(11) / two64());
    lemma_floored_product(full_chain(f, 11), f(11), 20434665844882988552, 20435687552633177494);
    assert(full_chain(f, 12) == 22637948723084169904);
    assert(magic_grows_at(12));
    assert(full_chain(f, 13) == full_chain(f, 12) * f(12) / two64());
    lemma_floored_product(full_chain(f, 12), f(12), 22637948723084169904, 22639080592224303007);
    assert(full_chain(f, 13) == 27782807824333956489);
    assert(magic_grows_at(13));
    assert(full_chain(f, 14) == full_chain(f, 13) * f(13) / two64());
    lemma_floored_product(full_chain(f, 13), f(13), 27782807824333956489, 27784196929998399742);
    assert(full_chain(f, 14) == 41846029888805467973);
    assert(magic_grows_at(14));
    assert(full_chain(f, 15) == full_chain(f, 14) * f(14) / two64());
    lemma_floored_product(full_chain(f, 14), f(14), 41846029888805467973, 41848122137994986128);
    assert(full_chain(f, 15) == 94931537120022858054);
    assert(magic_grows_at(15));
    assert(full_chain(f, 16) == full_chain(f, 15) * f(15) / two64());
    lemma_floored_product(full_chain(f, 15), f(15), 94931537120022858054, 94936283578220370716);
    assert(full_chain(f, 16) == 488565748650866588535);
    assert(magic_grows_at(16));
    assert(full_chain(f, 17) == full_chain(f, 16) * f(16) / two64());
    lemma_floored_product(full_chain(f, 16), f(16), 488565748650866588535, 488590176327622479860);
    assert(full_chain(f, 17) == 12940409664010732578654);
    assert(magic_grows_at(17));
    assert(full_chain(f, 18) == full_chain(f, 17) * f(17) / two64());
    lemma_floored_product(full_chain(f, 17), f(17), 12940409664010732578654, 12941056668319229769860);
    assert(full_chain(f, 18) == 9078164368957539028420606);
    assert(magic_grows_at(18));
    assert(full_chain(f, 19) == full_chain(f, 18) * f(18) / two64());
    lemma_floored_product(full_chain(f, 18), f(18), 9078164368957539028420606, 9078618265828848800676189);
    assert(full_chain(f, 19) == 4467844760619635881934135417749);
    assert(magic_grows_at(19));
    assert forall|k: int| 0 <= k < 20 implies #[trigger] f(k) >= two64() && full_chain(f, k as nat)
        * step_num() <= f(k) * step_den() by {
        assert(k == 0 || k == 1 || k == 2 || k == 3 || k == 4 || k == 5 || k == 6 || k == 7 || k == 8 || k == 9 || k == 10 || k == 11 || k == 12 || k == 13 || k == 14 || k == 15 || k == 16 || k == 17 || k == 18 || k == 19);
        assert(magic_grows_at(k));
    }
    lemma_max_tick_bits();
    assert(chain(f, 887_272u32, 1) == chain(f, 887_272u32, 0));
    assert(chain(f, 887_272u32, 1) == 18446744073709551616);
    assert(chain(f, 887_272u32, 2) == chain(f, 887_272u32, 1));
    assert(chain(f, 887_272u32, 2) == 18446744073709551616);
    assert(chain(f, 887_272u32, 3) == chain(f, 887_272u32, 2));
    assert(chain(f, 887_272u32, 3) == 18446744073709551616);
    assert(chain(f, 887_272u32, 4) == chain(f, 887_272u32, 3) * f(3) / two64());
    lemma_floored_product(chain(f, 887_272u32, 3), f(3), 18446744073709551616, 18454123878217468680);
    assert(chain(f, 887_272u32, 4) == 18454123878217468680);
    assert(chain(f, 887_272u32, 5) == chain(f, 887_272u32, 4));
    assert(chain(f, 887_272u32, 5) == 18454123878217468680);
    assert(chain(f, 887_272u32, 6) == chain(f, 887_272u32, 5) * f(5) / two64());
    lemma_floored_product(chain(f, 887_272u32, 5), f(5), 18454123878217468680, 18476281010653910144);
    assert(chain(f, 887_272u32, 6) == 18483672631708939318);
    assert(chain(f, 887_272u32, 7) == chain(f, 887_272u32, 6) * f(6) / two64());
    lemma_floored_product(chain(f, 887_272u32, 6), f(6), 18483672631708939318, 18505865242158250041);
    assert(chain(f, 887_272u32, 7) == 18542912154892181977);
    assert(chain(f, 887_272u32, 8) == chain(f, 887_272u32, 7) * f(7) / two64());
    lemma_floored_product(chain(f, 887_272u32, 7), f(7), 18542912154892181977, 18565175891880433522);
    assert(chain(f, 887_272u32, 8) == 18661961391544013922);
    assert(chain(f, 887_272u32, 9) == chain(f, 887_272u32, 8) * f(8) / two64());
    lemma_floored_product(chain(f, 887_272u32, 8), f(8), 18661961391544013922, 18684368066214940582);
    assert(chain(f, 887_272u32, 9) == 18902357732281469080);
    assert(chain(f, 887_272u32, 10) == chain(f, 887_272u32, 9));
    assert(chain(f, 887_272u32, 10) == 18902357732281469080);
    assert(chain(f, 887_272u32, 11) == chain(f, 887_272u32, 10));
    assert(chain(f, 887_272u32, 11) == 18902357732281469080);
    assert(chain(f, 887_272u32, 12) == chain(f, 887_272u32, 11) * f(11) / two64());
    lemma_floored_product(chain(f, 887_272u32, 11), f(11), 18902357732281469080, 20435687552633177494);
    assert(chain(f, 887_272u32, 12) == 20940425859517241253);
    assert(chain(f, 887_272u32, 13) == chain(f, 887_272u32, 12));
    assert(chain(f, 887_272u32, 13) == 20940425859517241253);
    assert(chain(f, 887_272u32, 14) == chain(f, 887_272u32, 13));
    assert(chain(f, 887_272u32, 14) == 20940425859517241253);
    assert(chain(f, 887_272u32, 15) == chain(f, 887_272u32, 14));
    assert(chain(f, 887_272u32, 15) == 20940425859517241253);
    assert(chain(f, 887_272u32, 16) == chain(f, 887_272u32, 15) * f(15) / two64());
    lemma_floored_product(chain(f, 887_272u32, 15), f(15), 20940425859517241253, 94936283578220370716);
    assert(chain(f, 887_272u32, 16) == 107770032462322190407);
    assert(chain(f, 887_272u32, 17) == chain(f, 887_272u32, 16) * f(16) / two64());
    lemma_floored_product(chain(f, 887_272u32, 16), f(16), 107770032462322190407, 488590176327622479860);
    assert(chain(f, 887_272u32, 17) == 2854453824111132359496);
    assert(chain(f, 887_272u32, 18) == chain(f, 887_272u32, 17));
    assert(chain(f, 887_272u32, 18) == 2854453824111132359496);
    assert(chain(f, 887_272u32, 19) == chain(f, 887_272u32, 18) * f(18) / two64());
    lemma_floored_product(chain(f, 887_272u32, 18), f(18), 2854453824111132359496, 9078618265828848800676189);
    assert(chain(f, 887_272u32, 19) == 1404827677068165313239653268);
    assert(chain(f, 887_272u32, 20) == chain(f, 887_272u32, 19) * f(19) / two64());
    lemma_floored_product(chain(f, 887_272u32, 19), f(19), 1404827677068165313239653268, 4468068147273140139091016147737);
    assert(chain(f, 887_272u32, 20) == 340269576638287422883700525942130004573);
}

/// Below the overflow point the table's ratio is the exact floored chain.
proof fn lemma_ratio_is_chain(t: u32, k: nat)
    requires
        factors_grow(magic_factor()),
        k <= 20,
        chain(magic_factor(), t, 20) <= u128::MAX,
    ensures
        ratio_upto(t, k) as int == chain(magic_factor(), t, k),
    decreases k,
{
    if k > 0 {
        let j = (k - 1) as nat;
        lemma_ratio_is_chain(t, j);
        lemma_chain_prefix(magic_factor(), t, k);
        if bit_set(t, j as int) {
            let prev = ratio_upto(t, j);
            let m = magic_spec(j as int);
            assert(m == magic_factor()(j as int));
            assert(m != 0);
            assert((prev as int) * (m as int) < two64() * two128()) by {
                lemma_fundamental_div_mod((prev as int) * (m as int), two64());
            }
            lemma_mul_shift64_exact(prev, m);
        }
    }
}

/// `sqrt_price_at_tick` is the chain price of the factor table.
proof fn lemma_price_is_chain_price(t: i32)
    requires
        MIN_TICK <= t <= MAX_TICK,
    ensures
        sqrt_price_at_tick_spec(t) as int == chain_price(magic_factor(), t),
{
    lemma_magic_facts();
    let a = tick_magnitude(t);
    assert(a <= 887_272);
    lemma_chain_mono(magic_factor(), a, 887_272u32);
    lemma_ratio_is_chain(a, 20);
    lemma_chain_prefix(magic_factor(), a, 20);
}

/// The sqrt price never falls as the tick rises, and rises strictly up to
/// any tick whose price is above `tie_bound()` (below it, the inversion for
/// negative ticks can round neighbouring ticks to one price).
pub proof fn lemma_sqrt_price_monotone(t1: i32, t2: i32)
    requires
        MIN_TICK <= t1 <= t2 <= MAX_TICK,
    ensures
        sqrt_price_at_tick_spec(t1) <= sqrt_price_at_tick_spec(t2),
        t1 < t2 && sqrt_price_at_tick_spec(t2) > tie_bound() ==> sqrt_price_at_tick_spec(t1)
            < sqrt_price_at_tick_spec(t2),
{
    lemma_magic_facts();
    lemma_price_is_chain_price(t1);
    lemma_price_is_chain_price(t2);
    lemma_chain_price_mono(magic_factor(), t1, t2);
    if t1 < t2 && sqrt_price_at_tick_spec(t2) > tie_bound() {
        lemma_chain_mono(magic_factor(), tick_magnitude(t2), 887_272u32);
        lemma_chain_price_strict(magic_factor(), t1, t2);
    }
}

/// Searching for the price of a tick finds the highest tick with that
/// price: the tick itself whenever its price is above `tie_bound()`.
pub proof fn lemma_tick_round_trip(t: i32)
    requires
        MIN_TICK <= t <= MAX_TICK,
    ensures
        t <= tick_search(sqrt_price_at_tick_spec(t), MIN_TICK as int, MAX_TICK as int) <= MAX_TICK,
        sqrt_price_at_tick_spec(
            tick_search(sqrt_price_at_tick_spec(t), MIN_TICK as int, MAX_TICK as int) as i32,
        ) == sqrt_price_at_tick_spec(t),
        sqrt_price_at_tick_spec(t) > tie_bound() ==> tick_search(
            sqrt_price_at_tick_spec(t),
            MIN_TICK as int,
            MAX_TICK as int,
        ) == t,
{
    let f = |x: i32| sqrt_price_at_tick_spec(x);
    let p = sqrt_price_at_tick_spec(t);
    assert forall|m: int| MIN_TICK <= m <= t implies #[trigger] f(m as i32) <= p by {
        lemma_sqrt_price_monotone(m as i32, t);
    }
    lemma_search_passes(f, p, MIN_TICK as int, MAX_TICK as int, t as int);
    lemma_search_lands(f, p, MIN_TICK as int, MAX_TICK as int);
    let r = tick_search(p, MIN_TICK as int, MAX_TICK as int);
    lemma_sqrt_price_monotone(t, r as i32);
    if p > tie_bound() {
        assert forall|m: int| t < m <= MAX_TICK implies #[trigger] f(m as i32) > p by {
            lemma_sqrt_price_monotone(t, m as i32);
        }
    }
}

// ---------------------------------------------------------------------------
// Liquidity delta → token delta (v3 piecewise formulas)
// ---------------------------------------------------------------------------

/// `max(x, 1)`.
pub open spec fn at_least_one(x: int) -> int {
    if x < 1 {
        1
    } else {
        x
    }
}

/// The token0 amount for `liquidity` between two sqrt prices in Q64.64:
/// `L·(√u − √l) / (√u·√l)`, that is `L·(U − W)·2^64 / (U·W)` for the raw
/// prices `W < U`, rounded down or up and saturated at `u128::MAX`; zero for
/// an empty range or a zero lower price.
pub open spec fn amount0_delta_spec(
    sqrt_lower: u128,
    sqrt_upper: u128,
    liquidity: u128,
    round_up: bool,
) -> u128 {
    if sqrt_lower >= sqrt_upper || sqrt_lower == 0 {
        0
    } else {
        let x = liquidity as int * (sqrt_upper - sqrt_lower) * two64();
        let m = sqrt_upper as int * sqrt_lower as int;
        sat128(
            if round_up {
                (x + m - 1) / m
            } else {
                x / m
            },
        )
    }
}

/// The token0 amount never falls as liquidity grows.
pub proof fn lemma_amount0_grows_with_liquidity(
    sqrt_lower: u128,
    sqrt_upper: u128,
    l1: u128,
    l2: u128,
    round_up: bool,
)
    requires
        l1 <= l2,
    ensures
        amount0_delta_spec(sqrt_lower, sqrt_upper, l1, round_up) <= amount0_delta_spec(
            sqrt_lower,
            sqrt_upper,
            l2,
            round_up,
        ),
{
    if sqrt_lower < sqrt_upper && sqrt_lower != 0 {
        let k = (sqrt_upper - sqrt_lower) * two64();
        let x1 = l1 as int * (sqrt_upper - sqrt_lower) * two64();
        let x2 = l2 as int * (sqrt_upper - sqrt_lower) * two64();
        let m = sqrt_upper as int * sqrt_lower as int;
        assert(x1 <= x2) by (nonlinear_arith)
            requires
                l1 <= l2,
                sqrt_upper > sqrt_lower,
                x1 == l1 as int * (sqrt_upper - sqrt_lower) * two64(),
                x2 == l2 as int * (sqrt_upper - sqrt_lower) * two64(),
        ;
        assert(m > 0) by (nonlinear_arith)
            requires
                m == sqrt_upper as int * sqrt_lower as int,
                sqrt_lower > 0,
                sqrt_upper > 0,
        ;
        lemma_div_is_ordered(x1, x2, m);
        lemma_div_is_ordered(x1 + m - 1, x2 + m - 1, m);
    }
}

/// `a·2^64` divided by `d`, as `(whole, fraction, remainder)`:
/// `a·2^64 = (whole·2^64 + fraction)·d + remainder`.
fn q64_quotient(a: u128, d: u128) -> (r: (u128, u128, u128))
    requires
        d > 0,
    ensures
        r.1 < two64(),
        r.2 < d,
        (a as int) * two64() == ((r.0 as int) * two64() + r.1 as int) * (d as int) + r.2 as int,
        r.0 as int == a as int / d as int,
{
    let whole = a / d;
    let part = a % d;
    proof {
        lemma_fundamental_div_mod(a as int, d as int);
    }
    let (f, rem) = frac_q64(part, d);
    proof {
        lemma_fundamental_div_mod((part as int) * two64(), d as int);
        assert((a as int) * two64() == ((whole as int) * two64() + f as int) * (d as int) + rem as int)
            by (nonlinear_arith)
            requires
                a as int == (d as int) * (whole as int) + part as int,
                (part as int) * two64() == (d as int) * (f as int) + rem as int,
        ;
    }
    (whole, f, rem)
}

/// Whether `a·b < c·e`, comparing the 256-bit products by their high and
/// low 128-bit halves.
fn product_lt(a: u128, b: u128, c: u128, e: u128) -> (r: bool)
    ensures
        r == ((a as int) * (b as int) < (c as int) * (e as int)),
{
    let h1 = crate::position::mul_shift128(a, b);
    let l1 = a.wrapping_mul(b);
    let h2 = crate::position::mul_shift128(c, e);
    let l2 = c.wrapping_mul(e);
    proof {
        let p1 = (a as int) * (b as int);
        let p2 = (c as int) * (e as int);
        assert(p1 >= 0 && p2 >= 0) by (nonlinear_arith)
            requires
                p1 == (a as int) * (b as int),
                p2 == (c as int) * (e as int),
        ;
        lemma_fundamental_div_mod(p1, two128());
        lemma_fundamental_div_mod(p2, two128());
        assert(l1 as int == p1 % two128());
        assert(l2 as int == p2 % two128());
        assert(p1 / two128() < two128() && p2 / two128() < two128()) by (nonlinear_arith)
            requires
                p1 == two128() * (p1 / two128()) + p1 % two128(),
                p2 == two128() * (p2 / two128()) + p2 % two128(),
                p1 % two128() >= 0,
                p2 % two128() >= 0,
                p1 == (a as int) * (b as int),
                p2 == (c as int) * (e as int),
                0 <= a < two128(),
                0 <= b < two128(),
                0 <= c < two128(),
                0 <= e < two128(),
        ;
        assert(h1 as int == p1 / two128());
        assert(h2 as int == p2 / two128());
    }
    h1 < h2 || (h1 == h2 && l1 < l2)
}

/// The floor of `x / m` for `x = d·m + e` with `|e| < m`: `d`, less one
/// when `e` is negative; and the ceiling: `d`, plus one when `e` is positive.
proof fn lemma_near_quotient(x: int, m: int, d: int, e: int)
    requires
        m > 0,
        -m < e < m,
        x == d * m + e,
    ensures
        x / m == if e < 0 {
            d - 1
        } else {
            d
        },
        (x + m - 1) / m == if e > 0 {
            d + 1
        } else {
            d
        },
{
    if e < 0 {
        assert(x == (d - 1) * m + (e + m)) by (nonlinear_arith)
            requires
                x == d * m + e,
        ;
        lemma_fundamental_div_mod_converse(x, m, d - 1, e + m);
        lemma_fundamental_div_mod_converse(x + m - 1, m, d, e + m - 1);
    } else if e == 0 {
        lemma_fundamental_div_mod_converse(x, m, d, 0);
        lemma_fundamental_div_mod_converse(x + m - 1, m, d, m - 1);
    } else {
        lemma_fundamental_div_mod_converse(x, m, d, e);
        assert(x + m - 1 == (d + 1) * m + (e - 1)) by (nonlinear_arith)
            requires
                x == d * m + e,
        ;
        lemma_fundamental_div_mod_converse(x + m - 1, m, d + 1, e - 1);
    }
}

/// Compute amount0 for `liquidity` in range [lower_sqrt, upper_sqrt], all in
/// Q64.64: `L·2^64/√l − L·2^64/√u`, whose two quotients are taken whole
/// with remainders so that the rounding is that of the exact amount.
pub fn amount0_delta(sqrt_lower: u128, sqrt_upper: u128, liquidity: u128, round_up: bool) -> (r:
    u128)
    ensures
        r == amount0_delta_spec(sqrt_lower, sqrt_upper, liquidity, round_up),
{
    if sqrt_lower >= sqrt_upper || sqrt_lower == 0 {
        return 0;
    }
    let (wa, fa, ra) = q64_quotient(liquidity, sqrt_lower);
    let (wb, fb, rb) = q64_quotient(liquidity, sqrt_upper);
    // The sign of the exact amount's fractional correction `ra·U − rb·W`.
    let below = product_lt(ra, sqrt_upper, rb, sqrt_lower);
    let above = product_lt(rb, sqrt_lower, ra, sqrt_upper);
    let ghost lq = liquidity as int;
    let ghost w = sqrt_lower as int;
    let ghost u = sqrt_upper as int;
    let ghost b = two64();
    let ghost qa = (wa as int) * b + fa as int;
    let ghost qb = (wb as int) * b + fb as int;
    let ghost e = (ra as int) * u - (rb as int) * w;
    let ghost x = lq * (u - w) * b;
    let ghost m = u * w;
    let ghost t = if round_up {
        qa - qb + if e > 0 {
            1int
        } else {
            0int
        }
    } else {
        qa - qb - if e < 0 {
            1int
        } else {
            0int
        }
    };
    proof {
        assert(x == (lq * b) * u - (lq * b) * w) by (nonlinear_arith)
            requires
                x == lq * (u - w) * b,
        ;
        assert((lq * b) * u == (qa * w) * u + (ra as int) * u) by (nonlinear_arith)
            requires
                lq * b == qa * w + ra as int,
        ;
        assert((lq * b) * w == (qb * u) * w + (rb as int) * w) by (nonlinear_arith)
            requires
                lq * b == qb * u + rb as int,
        ;
        assert((qa * w) * u - (qb * u) * w == (qa - qb) * m) by (nonlinear_arith)
            requires
                m == u * w,
        ;
        assert(-m < e < m) by (nonlinear_arith)
            requires
                0 <= ra < w,
                0 <= rb < u,
                e == (ra as int) * u - (rb as int) * w,
                m == u * w,
                w > 0,
                u > 0,
        ;
        assert(m > 0) by (nonlinear_arith)
            requires
                m == u * w,
                w > 0,
                u > 0,
        ;
        lemma_near_quotient(x, m, qa - qb, e);
        assert(amount0_delta_spec(sqrt_lower, sqrt_upper, liquidity, round_up) == sat128(t));
        assert((wa as int) * b - (wb as int) * b == (wa as int - wb as int) * b) by (nonlinear_arith);
        // The lower price's quotient is the larger.
        lemma_div_is_ordered_by_denominator(lq, w, u);
        assert(qa >= qb) by (nonlinear_arith)
            requires
                lq * b == qa * w + ra as int,
                lq * b == qb * u + rb as int,
                0 <= ra < w,
                0 <= rb < u,
                w < u,
                w > 0,
                lq >= 0,
                b > 0,
        ;
    }
    let dw = wa - wb;
    if dw == 0 {
        // No whole units apart: the amount is below 2^64 + 1.
        proof {
            assert(qa - qb == fa as int - fb as int);
        }
        if fa < fb {
            proof {
                assert(false);
            }
            return 0;
        }
        let base = fa - fb;
        if round_up {
            if above {
                return base + 1;
            }
            base
        } else {
            if below {
                if base == 0 {
                    return 0;
                }
                return base - 1;
            }
            base
        }
    } else if dw > 0x1_0000_0000_0000_0000u128 {
        proof {
            assert(qa - qb >= two64() * two64() + 1 - two64()) by (nonlinear_arith)
                requires
                    qa - qb == (dw as int) * b + fa as int - fb as int,
                    dw as int > b,
                    0 <= fa < b,
                    0 <= fb < b,
                    b == two64(),
            ;
        }
        u128::MAX
    } else {
        // (dw − 1)·2^64 plus a low part below 2^65 + 2.
        let hi = (dw - 1) * 0x1_0000_0000_0000_0000u128;
        let mut lo = 0x1_0000_0000_0000_0000u128 + fa - fb;
        if round_up && above {
            lo = lo + 1;
        }
        if !round_up && below {
            lo = lo - 1;
        }
        proof {
            assert(qa - qb == (hi as int) + 0x1_0000_0000_0000_0000int + fa as int - fb as int)
                by (nonlinear_arith)
                requires
                    hi as int == (dw as int - 1) * b,
                    dw as int == wa as int - wb as int,
                    qa == (wa as int) * b + fa as int,
                    qb == (wb as int) * b + fb as int,
                    b == 0x1_0000_0000_0000_0000int,
            ;
        }
        hi.saturating_add(lo)
    }
}

/// What `amount1_delta` computes: the Q64.64 product `L·(√u − √l) / 2^64`,
/// plus one when rounding up and the product has a fractional part;
/// zero for an empty range.
pub open spec fn amount1_delta_spec(
    sqrt_lower: u128,
    sqrt_upper: u128,
    liquidity: u128,
    round_up: bool,
) -> u128 {
    if sqrt_lower >= sqrt_upper {
        0
    } else {
        let diff = (sqrt_upper - sqrt_lower) as u128;
        let base = mul_shift64_spec(liquidity, diff);
        if round_up && (liquidity as int * diff as int) % two64() != 0 {
            sat128(base + 1)
        } else {
            base
        }
    }
}

/// Compute amount1 for `liquidity` in range [lower_sqrt, upper_sqrt].
pub fn amount1_delta(sqrt_lower: u128, sqrt_upper: u128, liquidity: u128, round_up: bool) -> (r:
    u128)
    ensures
        r == amount1_delta_spec(sqrt_lower, sqrt_upper, liquidity, round_up),
{
    if sqrt_lower >= sqrt_upper {
        return 0;
    }
    let diff = sqrt_upper.saturating_sub(sqrt_lower);
    let result = mul_shift64(liquidity, diff);
    let w = liquidity.wrapping_mul(diff);
    proof {
        lemma_split128(w);
        lemma_wrapped_low_half(liquidity as int * diff as int);
    }
    if round_up && (w & 0xFFFF_FFFF_FFFF_FFFFu128) != 0 {
        result.saturating_add(1)
    } else {
        result
    }
}

/// The low 64 bits of a product survive wrapping to 128 bits.
pub proof fn lemma_wrapped_low_half(x: int)
    requires
        x >= 0,
    ensures
        (x % two128()) % two64() == x % two64(),
{
    assert(two128() == two64() * two64());
    lemma_mod_mod(x, two64(), two64());
}


// ---------------------------------------------------------------------------
// Within-tick swap step math
// ---------------------------------------------------------------------------

/// The input left after the fee is taken: `amount·(10_000 − fee_bps)/10_000`.
pub open spec fn net_of_fee(amount_remaining: u64, fee_bps: u16) -> int {
    (amount_remaining as int * (10_000 - fee_bps as int)) / 10_000
}

/// The price the whole net input would move the pool to, before clamping.
/// Selling token0 the price falls to `L·√P / (L + amount·√P)`, computed as
/// `L / (L/√P + amount)` with Q64.64 divisions and never above `√P`;
/// selling token1 it rises to `√P + amount / L`; each saturating.
pub open spec fn unclamped_next_price(
    sqrt_price_current: u128,
    liquidity: u128,
    net: int,
    zero_for_one: bool,
) -> u128 {
    if zero_for_one {
        if net <= 0 {
            sqrt_price_current
        } else {
            let inverse = sat128(div_q64_spec(liquidity, sqrt_price_current) as int + net);
            let p = div_q64_spec(liquidity, inverse);
            if p < sqrt_price_current {
                p
            } else {
                sqrt_price_current
            }
        }
    } else {
        sat128(sqrt_price_current as int + (net * two64()) / at_least_one(liquidity as int))
    }
}

/// The next price clamped to the target: never below it when moving down,
/// never above it when moving up.
pub open spec fn clamp_to_target(next: u128, target: u128, zero_for_one: bool) -> u128 {
    if zero_for_one {
        if target < next {
            next
        } else {
            target
        }
    } else {
        if target < next {
            target
        } else {
            next
        }
    }
}

/// The output of moving the price from `current` to `next`, rounded down.
pub open spec fn step_out(sqrt_price_current: u128, next: u128, liquidity: u128, zero_for_one: bool) -> u64 {
    if zero_for_one {
        sat64(amount1_delta_spec(next, sqrt_price_current, liquidity, false) as int)
    } else {
        sat64(amount0_delta_spec(sqrt_price_current, next, liquidity, false) as int)
    }
}

/// The input of moving the price from `current` to `next`, rounded up.
pub open spec fn step_in(sqrt_price_current: u128, next: u128, liquidity: u128, zero_for_one: bool) -> u64 {
    if zero_for_one {
        sat64(amount0_delta_spec(next, sqrt_price_current, liquidity, true) as int)
    } else {
        sat64(amount1_delta_spec(sqrt_price_current, next, liquidity, true) as int)
    }
}

/// One swap step: `(next_sqrt_price, amount_in, amount_out, fee_amount)`.
/// The input net of the fee moves the price (never past the target); the
/// step takes the input and pays the output of that move.  When the price
/// lands on the target the fee is charged on the input taken; otherwise the
/// rest of the amount is the fee.
pub open spec fn swap_step_spec(
    sqrt_price_current: u128,
    sqrt_price_target: u128,
    liquidity: u128,
    amount_remaining: u64,
    fee_bps: u16,
    zero_for_one: bool,
) -> (u128, u64, u64, u64) {
    if liquidity == 0 || amount_remaining == 0 {
        (sqrt_price_current, 0, 0, 0)
    } else {
        let net = net_of_fee(amount_remaining, fee_bps);
        let next = clamp_to_target(
            unclamped_next_price(sqrt_price_current, liquidity, net, zero_for_one),
            sqrt_price_target,
            zero_for_one,
        );
        let amount_in = step_in(sqrt_price_current, next, liquidity, zero_for_one);
        let fee = if next == sqrt_price_target {
            ((amount_in as int * fee_bps as int) / at_least_one(10_000 - fee_bps as int)) as u64
        } else if amount_remaining > amount_in {
            (amount_remaining - amount_in) as u64
        } else {
            0
        };
        (next, amount_in, step_out(sqrt_price_current, next, liquidity, zero_for_one), fee)
    }
}

/// Selling token1, a step never takes more than the amount it was given:
/// its input plus its fee stay within `amount_remaining`.  (Selling token0
/// the floored next price can ask one unit more than the net input.)
pub proof fn lemma_step_within_budget(
    sqrt_price_current: u128,
    sqrt_price_target: u128,
    liquidity: u128,
    amount_remaining: u64,
    fee_bps: u16,
)
    requires
        fee_bps <= 10_000,
    ensures
        ({
            let (after, step_in, step_out, fee) = swap_step_spec(
                sqrt_price_current,
                sqrt_price_target,
                liquidity,
                amount_remaining,
                fee_bps,
                false,
            );
            step_in as int + fee as int <= amount_remaining
        }),
{
    if liquidity != 0 && amount_remaining != 0 {
        lemma_net_bounded(amount_remaining, fee_bps);
        let net = net_of_fee(amount_remaining, fee_bps);
        let l = liquidity as int;
        let delta = (net * two64()) / at_least_one(l);
        assert(at_least_one(l) == l);
        let next = clamp_to_target(
            unclamped_next_price(sqrt_price_current, liquidity, net, false),
            sqrt_price_target,
            false,
        );
        let a1 = amount1_delta_spec(sqrt_price_current, next, liquidity, true);
        if sqrt_price_current < next {
            let d = (next - sqrt_price_current) as u128;
            assert(net * two64() >= 0) by (nonlinear_arith)
                requires
                    net >= 0,
            ;
            lemma_fundamental_div_mod(net * two64(), l);
            assert(d as int <= delta);
            assert(l * (d as int) <= net * two64()) by (nonlinear_arith)
                requires
                    0 <= d as int <= delta,
                    l > 0,
                    net * two64() == l * delta + (net * two64()) % l,
                    (net * two64()) % l >= 0,
            ;
            lemma_mul_shift64_at_most_exact(liquidity, d);
            let x = l * (d as int);
            lemma_fundamental_div_mod(x, two64());
            assert(x / two64() <= net) by (nonlinear_arith)
                requires
                    x <= net * two64(),
                    x == two64() * (x / two64()) + x % two64(),
                    0 <= x % two64() < two64(),
                    two64() > 0,
            ;
            if x % two64() != 0 {
                assert(x / two64() < net) by (nonlinear_arith)
                    requires
                        x <= net * two64(),
                        x == two64() * (x / two64()) + x % two64(),
                        0 < x % two64() < two64(),
                ;
            }
            assert(a1 as int <= net);
        } else {
            assert(a1 == 0);
        }
        let a = step_in(sqrt_price_current, next, liquidity, false) as int;
        assert(a <= net);
        let f = fee_bps as int;
        let rem = amount_remaining as int;
        if next == sqrt_price_target {
            if f < 10_000 {
                let dd = 10_000 - f;
                lemma_fundamental_div_mod(a * f, dd);
                lemma_fundamental_div_mod(rem * dd, 10_000);
                assert(a + (a * f) / dd <= rem) by (nonlinear_arith)
                    requires
                        a * f == dd * ((a * f) / dd) + (a * f) % dd,
                        (a * f) % dd >= 0,
                        rem * dd == 10_000 * net + (rem * dd) % 10_000,
                        (rem * dd) % 10_000 >= 0,
                        a <= net,
                        dd == 10_000 - f,
                        0 <= f < 10_000,
                        a >= 0,
                ;
                assert(at_least_one(10_000 - f) == dd);
                assert((a * f) / dd >= 0) by {
                    lemma_div_pos_is_pos(a * f, dd);
                }
            } else {
                assert(rem * (10_000 - f) == 0) by (nonlinear_arith)
                    requires
                        f == 10_000,
                ;
                assert(net == 0);
                assert(a == 0);
                assert(a * f == 0) by (nonlinear_arith)
                    requires
                        a == 0,
                ;
                assert(at_least_one(10_000 - f) == 1);
                assert(0int / 1int == 0);
            }
        }
    }
}

/// The partial-product multiply never exceeds the floored product.
proof fn lemma_mul_shift64_at_most_exact(a: u128, b: u128)
    ensures
        mul_shift64_spec(a, b) as int <= (a as int) * (b as int) / two64(),
{
    lemma_mul_shift64_high_half(a, b);
}

/// A swap step never moves the price against the swap's direction: a step
/// whose target lies on the wrong side takes no input and no fee.
pub proof fn lemma_step_direction(
    sqrt_price_current: u128,
    sqrt_price_target: u128,
    liquidity: u128,
    amount_remaining: u64,
    fee_bps: u16,
    zero_for_one: bool,
)
    requires
        fee_bps <= 10_000,
    ensures
        ({
            let (after, step_in, step_out, fee) = swap_step_spec(
                sqrt_price_current,
                sqrt_price_target,
                liquidity,
                amount_remaining,
                fee_bps,
                zero_for_one,
            );
            (step_in == 0 && fee == 0) || if zero_for_one {
                after <= sqrt_price_current
            } else {
                after >= sqrt_price_current
            }
        }),
{
    if liquidity != 0 && amount_remaining != 0 {
        lemma_net_bounded(amount_remaining, fee_bps);
        let net = net_of_fee(amount_remaining, fee_bps);
        if !zero_for_one {
            assert((net * two64()) / at_least_one(liquidity as int) >= 0) by {
                assert(net * two64() >= 0) by (nonlinear_arith)
                    requires
                        net >= 0,
                ;
                lemma_div_pos_is_pos(net * two64(), at_least_one(liquidity as int));
            }
        }
        if zero_for_one && sqrt_price_target > sqrt_price_current {
            assert(step_in(sqrt_price_current, sqrt_price_target, liquidity, zero_for_one) == 0);
            assert((0int * fee_bps as int) / at_least_one(10_000 - fee_bps as int) == 0);
        }
        if !zero_for_one && sqrt_price_target < sqrt_price_current {
            assert(step_in(sqrt_price_current, sqrt_price_target, liquidity, zero_for_one) == 0);
            assert((0int * fee_bps as int) / at_least_one(10_000 - fee_bps as int) == 0);
        }
    }
}

/// The net input never exceeds the gross input.
proof fn lemma_net_bounded(amount_remaining: u64, fee_bps: u16)
    requires
        fee_bps <= 10_000,
    ensures
        0 <= net_of_fee(amount_remaining, fee_bps) <= amount_remaining,
{
    let a = amount_remaining as int;
    let f = 10_000 - fee_bps as int;
    assert(0 <= a * f <= a * 10_000) by (nonlinear_arith)
        requires
            0 <= f <= 10_000,
            a >= 0,
    ;
    assert((a * f) / 10_000 <= (a * 10_000) / 10_000) by {
        lemma_div_is_ordered(a * f, a * 10_000, 10_000);
    }
    assert((a * 10_000) / 10_000 == a) by {
        lemma_div_by_multiple(a, 10_000);
    }
}

/// Given current sqrt_price, active liquidity, fee_bps, amount_remaining,
/// and a target sqrt_price boundary, compute one tick step.
///
/// Returns (next_sqrt_price, amount_in_used, amount_out, fee_amount).
pub fn compute_swap_step(
    sqrt_price_current: u128,
    sqrt_price_target: u128,
    liquidity: u128,
    amount_remaining: u64,
    fee_bps: u16,
    zero_for_one: bool,
) -> (r: (u128, u64, u64, u64))
    requires
        fee_bps <= 10_000,
    ensures
        r == swap_step_spec(
            sqrt_price_current,
            sqrt_price_target,
            liquidity,
            amount_remaining,
            fee_bps,
            zero_for_one,
        ),
{
    if liquidity == 0 || amount_remaining == 0 {
        return (sqrt_price_current, 0, 0, 0);
    }
    let fee_factor = fee_bps as u128;
    proof {
        lemma_net_bounded(amount_remaining, fee_bps);
        assert(amount_remaining as int * (10_000 - fee_factor) <= u64::MAX as int * 10_000)
            by (nonlinear_arith)
            requires
                amount_remaining <= u64::MAX,
                0 <= 10_000 - fee_factor <= 10_000,
        ;
    }
    // Amount after fee deduction.
    let net = amount_remaining as u128 * (10_000 - fee_factor) / 10_000;
    // How far the net input moves the price.
    let unclamped = if zero_for_one {
        if net == 0 {
            sqrt_price_current
        } else {
            let inverse = div_q64(liquidity, sqrt_price_current).saturating_add(net);
            let p = div_q64(liquidity, inverse);
            if p < sqrt_price_current {
                p
            } else {
                sqrt_price_current
            }
        }
    } else {
        proof {
            lemma_shl64(net);
            lemma_small_mod(net as nat, two64() as nat);
        }
        let lmax = liquidity.max(1);
        let delta = (net << 64) / lmax;
        proof {
            assert((net as int * two64()) / (lmax as int) <= net as int * two64()) by (nonlinear_arith)
                requires
                    lmax >= 1,
                    net >= 0,
            ;
        }
        sqrt_price_current.saturating_add(delta)
    };
    // Clamp to target.
    let next = if zero_for_one {
        unclamped.max(sqrt_price_target)
    } else {
        unclamped.min(sqrt_price_target)
    };
    let reached_target = next == sqrt_price_target;
    // Actual amounts for the step, capped at u64::MAX.
    let (amount_in, out): (u64, u64) = if zero_for_one {
        let a0 = amount0_delta(next, sqrt_price_current, liquidity, true).min(u64::MAX as u128) as u64;
        let a1 = amount1_delta(next, sqrt_price_current, liquidity, false).min(u64::MAX as u128) as u64;
        (a0, a1)
    } else {
        let a1 = amount1_delta(sqrt_price_current, next, liquidity, true).min(u64::MAX as u128) as u64;
        let a0 = amount0_delta(sqrt_price_current, next, liquidity, false).min(u64::MAX as u128) as u64;
        (a1, a0)
    };
    // Fee on the amount in.
    let fee = if reached_target {
        proof {
            assert(amount_in as int * fee_factor <= u64::MAX as int * 10_000) by (nonlinear_arith)
                requires
                    amount_in <= u64::MAX,
                    fee_factor <= 10_000,
                    amount_in >= 0,
            ;
        }
        #[verifier::truncate]
        ((amount_in as u128 * fee_factor / (10_000 - fee_factor).max(1)) as u64)
    } else {
        amount_remaining.saturating_sub(amount_in)
    };
    (next, amount_in, out, fee)
}

} // verus!
