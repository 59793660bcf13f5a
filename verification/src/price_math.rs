//! Tick math whose per-bit factors are derived at run time by repeated
//! squaring of `sqrt(1.0001)` in Q64.64, as in Uniswap v3 TickMath.
use vstd::prelude::*;
use crate::fixed::{two64, two128, sat128};
use crate::math::{
    Q64, MIN_TICK, MAX_TICK, mul_shift64_spec, mul_shift64_sat_spec, bit_set, tick_magnitude, tick_search_by,
    amount0_delta_spec, amount1_delta_spec, swap_step_spec, div_q64_spec,
    lemma_mul_shift64_exact,
};
use crate::tick_order::{
    lemma_chain_below_half_range,
    lemma_scale_grows,
    chain,
    chain_price,
    capped_chain,
    full_chain,
    factors_grow,
    step_num,
    step_den,
    tie_bound,
    lemma_chain_prefix,
    lemma_chain_mono,
    lemma_chain_price_mono,
    lemma_chain_price_strict,
    lemma_search_lands,
    lemma_search_passes,
    lemma_floored_product,
};

verus! {

/// `floor(sqrt(1.0001) * 2^64)` as used by this module.
pub const MAGIC_0: u128 = 18_447_666_411_007_353_954u128;

/// The Q64.64 product used by the tick math: the partial-product form of
/// `mul_shift64`, or the saturating form when `saturating` is set.
pub open spec fn q64_product(saturating: bool, a: u128, b: u128) -> u128 {
    if saturating {
        mul_shift64_sat_spec(a, b)
    } else {
        mul_shift64_spec(a, b)
    }
}

/// The factor for bit `k` before the overflow rule: `MAGIC_0` squared `k`
/// times in Q64.64.
pub open spec fn raw_factor_by(saturating: bool, k: nat) -> u128
    decreases k,
{
    if k == 0 {
        MAGIC_0
    } else {
        let p = raw_factor_by(saturating, (k - 1) as nat);
        q64_product(saturating, p, p)
    }
}

/// The factor for bit `k`: the squared value, or `u128::MAX` once squaring
/// has run into zero.
pub open spec fn factor_by(saturating: bool, k: nat) -> u128 {
    if k >= 1 && raw_factor_by(saturating, k) == 0 {
        u128::MAX
    } else {
        raw_factor_by(saturating, k)
    }
}

/// Once squaring yields zero it stays zero.
proof fn lemma_zero_persists(saturating: bool, j: nat, k: nat)
    requires
        1 <= j <= k,
        raw_factor_by(saturating, j) == 0,
    ensures
        raw_factor_by(saturating, k) == 0,
    decreases k - j,
{
    if j < k {
        lemma_zero_persists(saturating, j, (k - 1) as nat);
        let p = raw_factor_by(saturating, (k - 1) as nat);
        assert(p == 0);
        assert(raw_factor_by(saturating, k) == q64_product(saturating, p, p));
        assert(q64_product(saturating, 0, 0) == 0) by {
            assert(0int / two64() == 0);
            assert(0int % two64() == 0);
            assert((0u128 as int) * (0u128 as int) == 0);
            assert(mul_shift64_sat_spec(0, 0) == sat128(0int / two64()));
        }
    }
}

/// The ratio accumulated over bits `0..k` of `t`.
pub open spec fn ratio_by(saturating: bool, t: u32, k: nat) -> u128
    decreases k,
{
    if k == 0 {
        Q64
    } else {
        let prev = ratio_by(saturating, t, (k - 1) as nat);
        if bit_set(t, k - 1) {
            q64_product(saturating, prev, factor_by(saturating, (k - 1) as nat))
        } else {
            prev
        }
    }
}

/// The sqrt price of a tick: the product of the factors over the 20 low
/// bits of |tick|, inverted as `u128::MAX / ratio` for negative ticks
/// (`u128::MAX` when the ratio is zero).
pub open spec fn sqrt_price_by(saturating: bool, tick: i32) -> u128 {
    let r = ratio_by(saturating, tick_magnitude(tick), 20);
    if tick < 0 {
        if r == 0 {
            u128::MAX
        } else {
            (u128::MAX as int / r as int) as u128
        }
    } else {
        r
    }
}

/// The sqrt price of a tick with the partial-product multiply.
pub open spec fn sqrt_price_at_tick_spec(tick: i32) -> u128 {
    sqrt_price_by(false, tick)
}

/// The Q64.64 product, computed in the chosen form.
fn q64_multiply(saturating: bool, a: u128, b: u128) -> (r: u128)
    ensures
        r == q64_product(saturating, a, b),
{
    if saturating {
        crate::math::mul_shift64_saturating(a, b)
    } else {
        crate::math::mul_shift64(a, b)
    }
}

/// The sqrt price of `tick`, with the Q64.64 product in the chosen form.
pub(crate) fn sqrt_price_with(saturating: bool, tick: i32) -> (r: u128)
    ensures
        r == sqrt_price_by(saturating, tick),
{
    let abs_tick: u32 = if tick < 0 {
        (-(tick as i64)) as u32
    } else {
        tick as u32
    };
    assert(abs_tick == tick_magnitude(tick));
    let mut magic: Vec<u128> = Vec::new();
    let mut i: usize = 0;
    while i < 20
        invariant
            i <= 20,
            magic.len() == i,
        decreases 20 - i,
    {
        magic.push(0u128);
        i += 1;
    }
    magic.set(0, MAGIC_0);
    let mut k: usize = 1;
    let mut done = false;
    while k < 20 && !done
        invariant
            1 <= k <= 20,
            magic.len() == 20,
            !done ==> forall|j: int| 0 <= j < k ==> magic@[j] == raw_factor_by(saturating, j as nat),
            !done ==> forall|j: int| 1 <= j < k ==> #[trigger] raw_factor_by(saturating, j as nat) != 0,
            done ==> forall|j: int| 0 <= j < 20 ==> magic@[j] == factor_by(saturating, j as nat),
        decreases 20 - k, (if done { 0int } else { 1int }),
    {
        let prev = magic[k - 1];
        let next = q64_multiply(saturating, prev, prev);
        magic.set(k, next);
        assert(next == raw_factor_by(saturating, k as nat));
        if next == 0 {
            let mut j = k;
            while j < 20
                invariant
                    k <= j <= 20,
                    magic.len() == 20,
                    raw_factor_by(saturating, k as nat) == 0,
                    forall|i: int| 0 <= i < k ==> magic@[i] == raw_factor_by(saturating, i as nat),
                    forall|i: int| 1 <= i < k ==> #[trigger] raw_factor_by(saturating, i as nat) != 0,
                    forall|i: int| k <= i < j ==> magic@[i] == u128::MAX,
                decreases 20 - j,
            {
                magic.set(j, u128::MAX);
                j += 1;
            }
            proof {
                assert forall|i: int| 0 <= i < 20 implies magic@[i] == factor_by(saturating, i as nat) by {
                    if i >= k {
                        lemma_zero_persists(saturating, k as nat, i as nat);
                    }
                }
            }
            done = true;
        } else {
            k += 1;
        }
    }
    assert forall|j: int| 0 <= j < 20 implies magic@[j] == factor_by(saturating, j as nat) by {
        if !done {
            assert(k == 20);
        }
    }
    let mut ratio: u128 = Q64;
    for b in 0..20u32
        invariant
            magic.len() == 20,
            forall|j: int| 0 <= j < 20 ==> magic@[j] == factor_by(saturating, j as nat),
            ratio == ratio_by(saturating, abs_tick, b as nat),
    {
        if abs_tick & (1u32 << b) != 0 {
            ratio = q64_multiply(saturating, ratio, magic[b as usize]);
        }
    }
    if tick < 0 {
        ratio = if ratio == 0 {
            u128::MAX
        } else {
            proof {
                assert(u128::MAX as int / ratio as int <= u128::MAX) by (nonlinear_arith)
                    requires
                        1 <= ratio,
                ;
            }
            u128::MAX / ratio
        };
    }
    ratio
}

/// Returns sqrt_price_q64_64 for a given tick: sqrt(1.0001^tick) in Q64.64.
///
/// Algorithm (same as Uniswap v3 TickMath, adapted to Q64.64):
///   1. MAGIC[0] = floor(sqrt(1.0001) * 2^64).
///   2. MAGIC[k] = mul_shift64(MAGIC[k-1], MAGIC[k-1]).
///   3. ratio = product of MAGIC[k] for bits k set in |tick|, starting from 1.0 (Q64).
///   4. If tick < 0: invert via u128::MAX / ratio.
pub fn sqrt_price_at_tick(tick: i32) -> (r: u128)
    ensures
        r == sqrt_price_at_tick_spec(tick),
{
    sqrt_price_with(false, tick)
}

/// The binary search over `[lo, hi]` for the chosen product form.
pub open spec fn tick_search_in(saturating: bool, price: u128, lo: int, hi: int) -> int {
    tick_search_by(|t: i32| sqrt_price_by(saturating, t), price, lo, hi)
}

/// The binary search that `tick_at_sqrt_price` runs over `[lo, hi]`.
pub open spec fn tick_search(price: u128, lo: int, hi: int) -> int {
    tick_search_in(false, price, lo, hi)
}

/// The floor tick of `sqrt_price` by binary search over `[MIN_TICK, MAX_TICK]`,
/// with the Q64.64 product in the chosen form.
pub(crate) fn tick_at_sqrt_price_with(saturating: bool, sqrt_price: u128) -> (t: i32)
    ensures
        t as int == tick_search_in(saturating, sqrt_price, MIN_TICK as int, MAX_TICK as int),
        MIN_TICK <= t <= MAX_TICK,
        t == MIN_TICK || sqrt_price_by(saturating, t) <= sqrt_price,
        t == MAX_TICK || sqrt_price_by(saturating, (t + 1) as i32) > sqrt_price,
{
    let mut lo = MIN_TICK;
    let mut hi = MAX_TICK;
    while lo < hi
        invariant
            MIN_TICK <= lo <= hi <= MAX_TICK,
            tick_search_in(saturating, sqrt_price, lo as int, hi as int) == tick_search_in(
                saturating,
                sqrt_price,
                MIN_TICK as int,
                MAX_TICK as int,
            ),
            lo == MIN_TICK || sqrt_price_by(saturating, lo) <= sqrt_price,
            hi == MAX_TICK || sqrt_price_by(saturating, (hi + 1) as i32) > sqrt_price,
        decreases hi - lo,
    {
        let mid = lo + (hi - lo + 1) / 2;
        if sqrt_price_with(saturating, mid) <= sqrt_price {
            lo = mid;
        } else {
            hi = mid - 1;
        }
    }
    lo
}

/// Returns the floor tick for a given sqrt_price_q64_64 by binary search
/// over `[MIN_TICK, MAX_TICK]`.
pub fn tick_at_sqrt_price(sqrt_price: u128) -> (t: i32)
    ensures
        t as int == tick_search(sqrt_price, MIN_TICK as int, MAX_TICK as int),
        MIN_TICK <= t <= MAX_TICK,
        t == MIN_TICK || sqrt_price_at_tick_spec(t) <= sqrt_price,
        t == MAX_TICK || sqrt_price_at_tick_spec((t + 1) as i32) > sqrt_price,
{
    tick_at_sqrt_price_with(false, sqrt_price)
}

// ---------------------------------------------------------------------------
// Order of the tick prices
// ---------------------------------------------------------------------------

/// The per-bit factors, as integers.
pub open spec fn squared_factor(saturating: bool) -> spec_fn(int) -> int {
    |k: int| factor_by(saturating, k as nat) as int
}

/// Factor `k` is at least `1.0` and exceeds the chain of the factors below
/// it by one tick's growth.
pub open spec fn squared_grows_at(saturating: bool, k: int) -> bool {
    squared_factor(saturating)(k) >= two64() && full_chain(squared_factor(saturating), k as nat)
        * step_num() <= squared_factor(saturating)(k) * step_den()
}

/// Squaring a value below 2^96 is its exact floored Q64.64 square, in
/// either product form.
proof fn lemma_square_value(saturating: bool, p: u128, v: int)
    requires
        p == v,
        0 <= v < 0x1_0000_0000_0000_0000_0000_0000int,
    ensures
        q64_product(saturating, p, p) as int == v * v / two64(),
{
    assert((p as int) * (p as int) < two64() * two128()) by (nonlinear_arith)
        requires
            0 <= p < 0x1_0000_0000_0000_0000_0000_0000int,
    ;
    if saturating {
        assert((p as int) * (p as int) / two64() < two128()) by (nonlinear_arith)
            requires
                (p as int) * (p as int) < two64() * two128(),
        ;
    } else {
        lemma_mul_shift64_exact(p, p);
    }
}

/// The set bits of the highest tick whose chain fits in 128 bits.
proof fn lemma_top_tick_bits()
    ensures
        !bit_set(887_250u32, 0),
        bit_set(887_250u32, 1),
        !bit_set(887_250u32, 2),
        !bit_set(887_250u32, 3),
        bit_set(887_250u32, 4),
        !bit_set(887_250u32, 5),
        bit_set(887_250u32, 6),
        bit_set(887_250u32, 7),
        bit_set(887_250u32, 8),
        !bit_set(887_250u32, 9),
        !bit_set(887_250u32, 10),
        bit_set(887_250u32, 11),
        !bit_set(887_250u32, 12),
        !bit_set(887_250u32, 13),
        !bit_set(887_250u32, 14),
        bit_set(887_250u32, 15),
        bit_set(887_250u32, 16),
        !bit_set(887_250u32, 17),
        bit_set(887_250u32, 18),
        bit_set(887_250u32, 19),
{
    assert(887_250u32 & (1u32 << 0u32) == 0 &&
        887_250u32 & (1u32 << 1u32) != 0 &&
        887_250u32 & (1u32 << 2u32) == 0 &&
        887_250u32 & (1u32 << 3u32) == 0 &&
        887_250u32 & (1u32 << 4u32) != 0 &&
        887_250u32 & (1u32 << 5u32) == 0 &&
        887_250u32 & (1u32 << 6u32) != 0 &&
        887_250u32 & (1u32 << 7u32) != 0 &&
        887_250u32 & (1u32 << 8u32) != 0 &&
        887_250u32 & (1u32 << 9u32) == 0 &&
        887_250u32 & (1u32 << 10u32) == 0 &&
        887_250u32 & (1u32 << 11u32) != 0 &&
        887_250u32 & (1u32 << 12u32) == 0 &&
        887_250u32 & (1u32 << 13u32) == 0 &&
        887_250u32 & (1u32 << 14u32) == 0 &&
        887_250u32 & (1u32 << 15u32) != 0 &&
        887_250u32 & (1u32 << 16u32) != 0 &&
        887_250u32 & (1u32 << 17u32) == 0 &&
        887_250u32 & (1u32 << 18u32) != 0 &&
        887_250u32 & (1u32 << 19u32) != 0) by (bit_vector);
}

/// The squared factors grow tick by tick, and the chain of tick 887,250
/// (the highest whose chain fits in 128 bits) fits: checked value by value.
#[verifier::rlimit(60)]
proof fn lemma_squared_facts(saturating: bool)
    ensures
        factors_grow(squared_factor(saturating)),
        chain(squared_factor(saturating), 887_250u32, 20) <= u128::MAX,
        full_chain(squared_factor(saturating), 19) == 4470785427019600356423052938135int,
{
    let f = squared_factor(saturating);
    assert(raw_factor_by(saturating, 0) == 18447666411007353954);
    assert(raw_factor_by(saturating, 1) == q64_product(saturating, raw_factor_by(saturating, 0), raw_factor_by(saturating, 0)));
    lemma_square_value(saturating, raw_factor_by(saturating, 0), 18447666411007353954);
    assert(raw_factor_by(saturating, 1) == 18448588794422025887);
    assert(raw_factor_by(saturating, 2) == q64_product(saturating, raw_factor_by(saturating, 1), raw_factor_by(saturating, 1)));
    lemma_square_value(saturating, raw_factor_by(saturating, 1), 18448588794422025887);
    assert(raw_factor_by(saturating, 2) == 18450433699611202031);
    assert(raw_factor_by(saturating, 3) == q64_product(saturating, raw_factor_by(saturating, 2), raw_factor_by(saturating, 2)));
    lemma_square_value(saturating, raw_factor_by(saturating, 2), 18450433699611202031);
    assert(raw_factor_by(saturating, 3) == 18454124063493454319);
    assert(raw_factor_by(saturating, 4) == q64_product(saturating, raw_factor_by(saturating, 3), raw_factor_by(saturating, 3)));
    lemma_square_value(saturating, raw_factor_by(saturating, 3), 18454124063493454319);
    assert(raw_factor_by(saturating, 4) == 18461507005790222863);
    assert(raw_factor_by(saturating, 5) == q64_product(saturating, raw_factor_by(saturating, 4), raw_factor_by(saturating, 4)));
    lemma_square_value(saturating, raw_factor_by(saturating, 4), 18461507005790222863);
    assert(raw_factor_by(saturating, 5) == 18476281752647677896);
    assert(raw_factor_by(saturating, 6) == q64_product(saturating, raw_factor_by(saturating, 5), raw_factor_by(saturating, 5)));
    lemma_square_value(saturating, raw_factor_by(saturating, 5), 18476281752647677896);
    assert(raw_factor_by(saturating, 6) == 18505866728521977063);
    assert(raw_factor_by(saturating, 7) == q64_product(saturating, raw_factor_by(saturating, 6), raw_factor_by(saturating, 6)));
    lemma_square_value(saturating, raw_factor_by(saturating, 6), 18505866728521977063);
    assert(raw_factor_by(saturating, 7) == 18565178874135494666);
    assert(raw_factor_by(saturating, 8) == q64_product(saturating, raw_factor_by(saturating, 7), raw_factor_by(saturating, 7)));
    lemma_square_value(saturating, raw_factor_by(saturating, 7), 18565178874135494666);
    assert(raw_factor_by(saturating, 8) == 18684374069018903197);
    assert(raw_factor_by(saturating, 9) == q64_product(saturating, raw_factor_by(saturating, 8), raw_factor_by(saturating, 8)));
    lemma_square_value(saturating, raw_factor_by(saturating, 8), 18684374069018903197);
    assert(raw_factor_by(saturating, 9) == 18925065201537351809);
    assert(raw_factor_by(saturating, 10) == q64_product(saturating, raw_factor_by(saturating, 9), raw_factor_by(saturating, 9)));
    lemma_square_value(saturating, raw_factor_by(saturating, 9), 18925065201537351809);
    assert(raw_factor_by(saturating, 10) == 19415789119820326890);
    assert(raw_factor_by(saturating, 11) == q64_product(saturating, raw_factor_by(saturating, 10), raw_factor_by(saturating, 10)));
    lemma_square_value(saturating, raw_factor_by(saturating, 10), 19415789119820326890);
    assert(raw_factor_by(saturating, 11) == 20435740076352994653);
    assert(raw_factor_by(saturating, 12) == q64_product(saturating, raw_factor_by(saturating, 11), raw_factor_by(saturating, 11)));
    lemma_square_value(saturating, raw_factor_by(saturating, 11), 20435740076352994653);
    assert(raw_factor_by(saturating, 12) == 22639196966116884497);
    assert(raw_factor_by(saturating, 13) == q64_product(saturating, raw_factor_by(saturating, 12), raw_factor_by(saturating, 12)));
    lemma_square_value(saturating, raw_factor_by(saturating, 12), 22639196966116884497);
    assert(raw_factor_by(saturating, 13) == 27784482574412817514);
    assert(raw_factor_by(saturating, 14) == q64_product(saturating, raw_factor_by(saturating, 13), raw_factor_by(saturating, 13)));
    lemma_square_value(saturating, raw_factor_by(saturating, 13), 27784482574412817514);
    assert(raw_factor_by(saturating, 14) == 41848982608702097446);
    assert(raw_factor_by(saturating, 15) == q64_product(saturating, raw_factor_by(saturating, 14), raw_factor_by(saturating, 14)));
    lemma_square_value(saturating, raw_factor_by(saturating, 14), 41848982608702097446);
    assert(raw_factor_by(saturating, 15) == 94940187730986668503);
    assert(raw_factor_by(saturating, 16) == q64_product(saturating, raw_factor_by(saturating, 15), raw_factor_by(saturating, 15)));
    lemma_square_value(saturating, raw_factor_by(saturating, 15), 94940187730986668503);
    assert(raw_factor_by(saturating, 16) == 488630362647102740842);
    assert(raw_factor_by(saturating, 17) == q64_product(saturating, raw_factor_by(saturating, 16), raw_factor_by(saturating, 16)));
    lemma_square_value(saturating, raw_factor_by(saturating, 16), 488630362647102740842);
    assert(raw_factor_by(saturating, 17) == 12943185547899549872758);
    assert(raw_factor_by(saturating, 18) == q64_product(saturating, raw_factor_by(saturating, 17), raw_factor_by(saturating, 17)));
    lemma_square_value(saturating, raw_factor_by(saturating, 17), 12943185547899549872758);
    assert(raw_factor_by(saturating, 18) == 9081605483219949434547027);
    assert(raw_factor_by(saturating, 19) == q64_product(saturating, raw_factor_by(saturating, 18), raw_factor_by(saturating, 18)));
    lemma_square_value(saturating, raw_factor_by(saturating, 18), 9081605483219949434547027);
    assert(raw_factor_by(saturating, 19) == 4471008966313761663981210840271);
    assert(f(0) == 18447666411007353954);
    assert(f(1) == 18448588794422025887);
    assert(f(2) == 18450433699611202031);
    assert(f(3) == 18454124063493454319);
    assert(f(4) == 18461507005790222863);
    assert(f(5) == 18476281752647677896);
    assert(f(6) == 18505866728521977063);
    assert(f(7) == 18565178874135494666);
    assert(f(8) == 18684374069018903197);
    assert(f(9) == 18925065201537351809);
    assert(f(10) == 19415789119820326890);
    assert(f(11) == 20435740076352994653);
    assert(f(12) == 22639196966116884497);
    assert(f(13) == 27784482574412817514);
    assert(f(14) == 41848982608702097446);
    assert(f(15) == 94940187730986668503);
    assert(f(16) == 488630362647102740842);
    assert(f(17) == 12943185547899549872758);
    assert(f(18) == 9081605483219949434547027);
    assert(f(19) == 4471008966313761663981210840271);
    assert(squared_grows_at(saturating, 0));
    assert(full_chain(f, 1) == full_chain(f, 0) * f(0) / two64());
    lemma_floored_product(full_chain(f, 0), f(0), 18446744073709551616, 18447666411007353954);
    assert(full_chain(f, 1) == 18447666411007353954);
    assert(squared_grows_at(saturating, 1));
    assert(full_chain(f, 2) == full_chain(f, 1) * f(1) / two64());
    lemma_floored_product(full_chain(f, 1), f(1), 18447666411007353954, 18448588794422025887);
    assert(full_chain(f, 2) == 18449511223955873260);
    assert(squared_grows_at(saturating, 2));
    assert(full_chain(f, 3) == full_chain(f, 2) * f(2) / two64());
    lemma_floored_product(full_chain(f, 2), f(2), 18449511223955873260, 18450433699611202031);
    assert(full_chain(f, 3) == 18453201403329138058);
    assert(squared_grows_at(saturating, 3));
    assert(full_chain(f, 4) == full_chain(f, 3) * f(3) / two64());
    lemma_floored_product(full_chain(f, 3), f(3), 18453201403329138058, 18454124063493454319);
    assert(full_chain(f, 4) == 18460583976497210532);
    assert(squared_grows_at(saturating, 4));
    assert(full_chain(f, 5) == full_chain(f, 4) * f(4) / two64());
    lemma_floored_product(full_chain(f, 4), f(4), 18460583976497210532, 18461507005790222863);
    assert(full_chain(f, 5) == 18475357984654182338);
    assert(squared_grows_at(saturating, 5));
    assert(full_chain(f, 6) == full_chain(f, 5) * f(5) / two64());
    lemma_floored_product(full_chain(f, 5), f(5), 18475357984654182338, 18476281752647677896);
    assert(full_chain(f, 6) == 18504941481353495602);
    assert(squared_grows_at(saturating, 6));
    assert(full_chain(f, 7) == full_chain(f, 6) * f(6) / two64());
    lemma_floored_product(full_chain(f, 6), f(6), 18504941481353495602, 18505866728521977063);
    assert(full_chain(f, 7) == 18564250661507702894);
    assert(squared_grows_at(saturating, 7));
    assert(full_chain(f, 8) == full_chain(f, 7) * f(7) / two64());
    lemma_floored_product(full_chain(f, 7), f(7), 18564250661507702894, 18565178874135494666);
    assert(full_chain(f, 8) == 18683439896928732260);
    assert(squared_grows_at(saturating, 8));
    assert(full_chain(f, 9) == full_chain(f, 8) * f(8) / two64());
    lemma_floored_product(full_chain(f, 8), f(8), 18683439896928732260, 18684374069018903197);
    assert(full_chain(f, 9) == 18924118995491024792);
    assert(squared_grows_at(saturating, 9));
    assert(full_chain(f, 10) == full_chain(f, 9) * f(9) / two64());
    lemma_floored_product(full_chain(f, 9), f(9), 18924118995491024792, 18925065201537351809);
    assert(full_chain(f, 10) == 19414818378802330718);
    assert(squared_grows_at(saturating, 10));
    assert(full_chain(f, 11) == full_chain(f, 10) * f(10) / two64());
    lemma_floored_product(full_chain(f, 10), f(10), 19414818378802330718, 19415789119820326890);
    assert(full_chain(f, 11) == 20434718340331718395);
    assert(squared_grows_at(saturating, 11));
    assert(full_chain(f, 12) == full_chain(f, 11) * f(11) / two64());
    lemma_floored_product(full_chain(f, 11), f(11), 20434718340331718395, 20435740076352994653);
    assert(full_chain(f, 12) == 22638065062748245751);
    assert(squared_grows_at(saturating, 12));
    assert(full_chain(f, 13) == full_chain(f, 12) * f(12) / two64());
    lemma_floored_product(full_chain(f, 12), f(12), 22638065062748245751, 22639196966116884497);
    assert(full_chain(f, 13) == 27783093419600085804);
    assert(squared_grows_at(saturating, 13));
    assert(full_chain(f, 14) == full_chain(f, 13) * f(13) / two64());
    lemma_floored_product(full_chain(f, 13), f(13), 27783093419600085804, 27784482574412817514);
    assert(full_chain(f, 14) == 41846890263975392283);
    assert(squared_grows_at(saturating, 14));
    assert(full_chain(f, 15) == full_chain(f, 14) * f(14) / two64());
    lemma_floored_product(full_chain(f, 14), f(14), 41846890263975392283, 41848982608702097446);
    assert(full_chain(f, 15) == 94935440958454377089);
    assert(squared_grows_at(saturating, 15));
    assert(full_chain(f, 16) == full_chain(f, 15) * f(15) / two64());
    lemma_floored_product(full_chain(f, 15), f(15), 94935440958454377089, 94940187730986668503);
    assert(full_chain(f, 16) == 488605932347992432192);
    assert(squared_grows_at(saturating, 16));
    assert(full_chain(f, 17) == full_chain(f, 16) * f(16) / two64());
    lemma_floored_product(full_chain(f, 16), f(16), 488605932347992432192, 488630362647102740842);
    assert(full_chain(f, 17) == 12942538420912470317307);
    assert(squared_grows_at(saturating, 17));
    assert(full_chain(f, 18) == full_chain(f, 17) * f(17) / two64());
    lemma_floored_product(full_chain(f, 17), f(17), 12942538420912470317307, 12943185547899549872758);
    assert(full_chain(f, 18) == 9081151425602336510691772);
    assert(squared_grows_at(saturating, 18));
    assert(full_chain(f, 19) == full_chain(f, 18) * f(18) / two64());
    lemma_floored_product(full_chain(f, 18), f(18), 9081151425602336510691772, 9081605483219949434547027);
    assert(full_chain(f, 19) == 4470785427019600356423052938135);
    assert(squared_grows_at(saturating, 19));
    assert forall|k: int| 0 <= k < 20 implies #[trigger] f(k) >= two64() && full_chain(f, k as nat)
        * step_num() <= f(k) * step_den() by {
        assert(k == 0 || k == 1 || k == 2 || k == 3 || k == 4 || k == 5 || k == 6 || k == 7 || k == 8 || k == 9 || k == 10 || k == 11 || k == 12 || k == 13 || k == 14 || k == 15 || k == 16 || k == 17 || k == 18 || k == 19);
        assert(squared_grows_at(saturating, k));
    }
    lemma_top_tick_bits();
    assert(chain(f, 887_250u32, 1) == chain(f, 887_250u32, 0));
    assert(chain(f, 887_250u32, 1) == 18446744073709551616);
    assert(chain(f, 887_250u32, 2) == chain(f, 887_250u32, 1) * f(1) / two64());
    lemma_floored_product(chain(f, 887_250u32, 1), f(1), 18446744073709551616, 18448588794422025887);
    assert(chain(f, 887_250u32, 2) == 18448588794422025887);
    assert(chain(f, 887_250u32, 3) == chain(f, 887_250u32, 2));
    assert(chain(f, 887_250u32, 3) == 18448588794422025887);
    assert(chain(f, 887_250u32, 4) == chain(f, 887_250u32, 3));
    assert(chain(f, 887_250u32, 4) == 18448588794422025887);
    assert(chain(f, 887_250u32, 5) == chain(f, 887_250u32, 4) * f(4) / two64());
    lemma_floored_product(chain(f, 887_250u32, 4), f(4), 18448588794422025887, 18461507005790222863);
    assert(chain(f, 887_250u32, 5) == 18463353202832963182);
    assert(chain(f, 887_250u32, 6) == chain(f, 887_250u32, 5));
    assert(chain(f, 887_250u32, 6) == 18463353202832963182);
    assert(chain(f, 887_250u32, 7) == chain(f, 887_250u32, 6) * f(6) / two64());
    lemma_floored_product(chain(f, 887_250u32, 6), f(6), 18463353202832963182, 18505866728521977063);
    assert(chain(f, 887_250u32, 7) == 18522529090660601215);
    assert(chain(f, 887_250u32, 8) == chain(f, 887_250u32, 7) * f(7) / two64());
    lemma_floored_product(chain(f, 887_250u32, 7), f(7), 18522529090660601215, 18565178874135494666);
    assert(chain(f, 887_250u32, 8) == 18641450458435340866);
    assert(chain(f, 887_250u32, 9) == chain(f, 887_250u32, 8) * f(8) / two64());
    lemma_floored_product(chain(f, 887_250u32, 8), f(8), 18641450458435340866, 18684374069018903197);
    assert(chain(f, 887_250u32, 9) == 18881588651240370382);
    assert(chain(f, 887_250u32, 10) == chain(f, 887_250u32, 9));
    assert(chain(f, 887_250u32, 10) == 18881588651240370382);
    assert(chain(f, 887_250u32, 11) == chain(f, 887_250u32, 10));
    assert(chain(f, 887_250u32, 11) == 18881588651240370382);
    assert(chain(f, 887_250u32, 12) == chain(f, 887_250u32, 11) * f(11) / two64());
    lemma_floored_product(chain(f, 887_250u32, 11), f(11), 18881588651240370382, 20435740076352994653);
    assert(chain(f, 887_250u32, 12) == 20917471200529876753);
    assert(chain(f, 887_250u32, 13) == chain(f, 887_250u32, 12));
    assert(chain(f, 887_250u32, 13) == 20917471200529876753);
    assert(chain(f, 887_250u32, 14) == chain(f, 887_250u32, 13));
    assert(chain(f, 887_250u32, 14) == 20917471200529876753);
    assert(chain(f, 887_250u32, 15) == chain(f, 887_250u32, 14));
    assert(chain(f, 887_250u32, 15) == 20917471200529876753);
    assert(chain(f, 887_250u32, 16) == chain(f, 887_250u32, 15) * f(15) / two64());
    lemma_floored_product(chain(f, 887_250u32, 15), f(15), 20917471200529876753, 94940187730986668503);
    assert(chain(f, 887_250u32, 16) == 107656323235174417236);
    assert(chain(f, 887_250u32, 17) == chain(f, 887_250u32, 16) * f(16) / two64());
    lemma_floored_product(chain(f, 887_250u32, 16), f(16), 107656323235174417236, 488630362647102740842);
    assert(chain(f, 887_250u32, 17) == 2851676591460324139112);
    assert(chain(f, 887_250u32, 18) == chain(f, 887_250u32, 17));
    assert(chain(f, 887_250u32, 18) == 2851676591460324139112);
    assert(chain(f, 887_250u32, 19) == chain(f, 887_250u32, 18) * f(18) / two64());
    lemma_floored_product(chain(f, 887_250u32, 18), f(18), 2851676591460324139112, 9081605483219949434547027);
    assert(chain(f, 887_250u32, 19) == 1403922647047822993319396996);
    assert(chain(f, 887_250u32, 20) == chain(f, 887_250u32, 19) * f(19) / two64());
    lemma_floored_product(chain(f, 887_250u32, 19), f(19), 1403922647047822993319396996, 4471008966313761663981210840271);
    assert(chain(f, 887_250u32, 20) == 340274181605182453181507772214350046364);
}

/// Below the overflow point the ratio is the exact floored chain, in
/// either product form.
proof fn lemma_ratio_by_is_chain(saturating: bool, t: u32, k: nat)
    requires
        factors_grow(squared_factor(saturating)),
        k <= 20,
        chain(squared_factor(saturating), t, 20) <= u128::MAX,
    ensures
        ratio_by(saturating, t, k) as int == chain(squared_factor(saturating), t, k),
    decreases k,
{
    if k > 0 {
        let j = (k - 1) as nat;
        lemma_ratio_by_is_chain(saturating, t, j);
        lemma_chain_prefix(squared_factor(saturating), t, k);
        if bit_set(t, j as int) {
            let prev = ratio_by(saturating, t, j);
            let m = factor_by(saturating, j);
            assert(m as int == squared_factor(saturating)(j as int));
            assert((prev as int) * (m as int) < two64() * two128()) by {
                vstd::arithmetic::div_mod::lemma_fundamental_div_mod((prev as int) * (m as int), two64());
            }
            if !saturating {
                lemma_mul_shift64_exact(prev, m);
            }
        }
    }
}

/// With the saturating product the ratio is the floored chain capped at
/// `u128::MAX`, for every argument.
proof fn lemma_saturating_ratio_is_capped(t: u32, k: nat)
    requires
        factors_grow(squared_factor(true)),
        k <= 20,
    ensures
        ratio_by(true, t, k) as int == if chain(squared_factor(true), t, k) > u128::MAX {
            u128::MAX as int
        } else {
            chain(squared_factor(true), t, k)
        },
    decreases k,
{
    let f = squared_factor(true);
    if k > 0 {
        let j = (k - 1) as nat;
        lemma_saturating_ratio_is_capped(t, j);
        lemma_chain_prefix(f, t, j);
        if bit_set(t, j as int) {
            let m = factor_by(true, j);
            assert(m as int == f(j as int));
            assert(f(j as int) >= two64());
            lemma_scale_grows(chain(f, t, j), m as int);
            lemma_scale_grows(u128::MAX as int, m as int);
        }
    }
}

/// The price computed with either product form is the chain price, for
/// every tick whose chain fits in 128 bits.
proof fn lemma_price_by_is_chain_price(saturating: bool, t: i32)
    requires
        -887_250 <= t <= 887_250,
    ensures
        sqrt_price_by(saturating, t) as int == chain_price(squared_factor(saturating), t),
{
    lemma_squared_facts(saturating);
    let f = squared_factor(saturating);
    let a = tick_magnitude(t);
    assert(a <= 887_250);
    lemma_chain_mono(f, a, 887_250u32);
    lemma_ratio_by_is_chain(saturating, a, 20);
    lemma_chain_prefix(f, a, 20);
}

/// With the saturating product the price is the chain price everywhere.
proof fn lemma_saturating_price_is_chain_price(t: i32)
    requires
        MIN_TICK <= t <= MAX_TICK,
    ensures
        sqrt_price_by(true, t) as int == chain_price(squared_factor(true), t),
{
    lemma_squared_facts(true);
    let a = tick_magnitude(t);
    lemma_saturating_ratio_is_capped(a, 20);
    lemma_chain_prefix(squared_factor(true), a, 20);
}

/// The sqrt price never falls as the tick rises, and rises strictly up to
/// any tick whose price is above `tie_bound()`, over the ticks whose ratio
/// fits in 128 bits (beyond tick 887,250 the partial-product multiply
/// wraps).
pub proof fn lemma_sqrt_price_monotone(t1: i32, t2: i32)
    requires
        -887_250 <= t1 <= t2 <= 887_250,
    ensures
        sqrt_price_at_tick_spec(t1) <= sqrt_price_at_tick_spec(t2),
        t1 < t2 && sqrt_price_at_tick_spec(t2) > tie_bound() ==> sqrt_price_at_tick_spec(t1)
            < sqrt_price_at_tick_spec(t2),
{
    let f = squared_factor(false);
    lemma_squared_facts(false);
    lemma_price_by_is_chain_price(false, t1);
    lemma_price_by_is_chain_price(false, t2);
    lemma_chain_price_mono(f, t1, t2);
    if t1 < t2 && sqrt_price_at_tick_spec(t2) > tie_bound() {
        lemma_chain_mono(f, tick_magnitude(t2), 887_250u32);
        lemma_chain_price_strict(f, t1, t2);
    }
}

/// The two prices that bound the search window: tick 0 is `1.0`, and
/// tick -443,636 is above `tie_bound()`.
proof fn lemma_window_prices()
    ensures
        sqrt_price_at_tick_spec(0) == Q64,
        tie_bound() < sqrt_price_at_tick_spec(-443_636i32),
{
    let sf = squared_factor(false);
    lemma_squared_facts(false);
    lemma_chain_below_half_range(sf, 443_636u32);
    lemma_chain_prefix(sf, 443_636u32, 20);
    lemma_price_by_is_chain_price(false, -443_636i32);
    vstd::arithmetic::div_mod::lemma_div_is_ordered_by_denominator(
        u128::MAX as int,
        chain(sf, 443_636u32, 20),
        4470785427019600356423052938135int,
    );
    lemma_price_by_is_chain_price(false, 0);
    assert forall|j: int| 0 <= j < 20 implies !#[trigger] bit_set(0u32, j) by {
        let jj = j as u32;
        assert(0u32 & (1u32 << jj) == 0) by (bit_vector);
    }
    lemma_zero_chain(sf);
}

/// The round trip for a tick in `[0, 443_635]`: the first probe (tick 0)
/// moves the search up, the second (tick 443,636) moves it back down, and
/// the rest of the search runs where the prices rise strictly.
proof fn lemma_round_trip_upper(t: i32)
    requires
        0 <= t <= 443_635,
    ensures
        tick_search(sqrt_price_at_tick_spec(t), MIN_TICK as int, MAX_TICK as int) == t,
{
    let fp = |x: i32| sqrt_price_by(false, x);
    let p = sqrt_price_at_tick_spec(t);
    lemma_window_prices();
    lemma_sqrt_price_monotone(0, t);
    lemma_sqrt_price_monotone(t, 443_636);
    assert(fp(0) <= p);
    assert(fp(443_636) > p);
    assert(tick_search_by(fp, p, MIN_TICK as int, MAX_TICK as int) == tick_search_by(fp, p, 0, MAX_TICK as int));
    assert(tick_search_by(fp, p, 0, MAX_TICK as int) == tick_search_by(fp, p, 0, 443_635));
    assert forall|m: int| 0 <= m <= t implies #[trigger] fp(m as i32) <= p by {
        lemma_sqrt_price_monotone(m as i32, t);
    }
    assert forall|m: int| t < m <= 443_635 implies #[trigger] fp(m as i32) > p by {
        lemma_sqrt_price_monotone(0, m as i32);
        lemma_sqrt_price_monotone(t, m as i32);
    }
    lemma_search_passes(fp, p, 0, 443_635, t as int);
}

/// The round trip for a tick in `[-443_636, -1]`: the first probe (tick 0)
/// moves the search down, the second (tick -443,636) moves it back up, and
/// the rest of the search runs where the prices rise strictly.
proof fn lemma_round_trip_lower(t: i32)
    requires
        -443_636 <= t < 0,
    ensures
        tick_search(sqrt_price_at_tick_spec(t), MIN_TICK as int, MAX_TICK as int) == t,
{
    let fp = |x: i32| sqrt_price_by(false, x);
    let p = sqrt_price_at_tick_spec(t);
    lemma_window_prices();
    lemma_sqrt_price_monotone(t, 0);
    lemma_sqrt_price_monotone(-443_636i32, t);
    assert(fp(0) > p);
    assert(fp(-443_636i32) <= p);
    assert(tick_search_by(fp, p, MIN_TICK as int, MAX_TICK as int) == tick_search_by(fp, p, MIN_TICK as int, -1));
    assert(tick_search_by(fp, p, MIN_TICK as int, -1) == tick_search_by(fp, p, -443_636, -1));
    assert forall|m: int| -443_636 <= m <= t implies #[trigger] fp(m as i32) <= p by {
        lemma_sqrt_price_monotone(m as i32, t);
    }
    assert forall|m: int| t < m <= -1 implies #[trigger] fp(m as i32) > p by {
        lemma_sqrt_price_monotone(-443_636i32, m as i32);
        lemma_sqrt_price_monotone(t, m as i32);
    }
    lemma_search_passes(fp, p, -443_636, -1, t as int);
}

/// Searching for the price of a tick finds that tick, for every tick in
/// the window that the search's first two probes keep it in.
pub proof fn lemma_tick_round_trip(t: i32)
    requires
        -443_636 <= t <= 443_635,
    ensures
        tick_search(sqrt_price_at_tick_spec(t), MIN_TICK as int, MAX_TICK as int) == t,
{
    if t >= 0 {
        lemma_round_trip_upper(t);
    } else {
        lemma_round_trip_lower(t);
    }
}

/// The chain of zero is `1.0`.
proof fn lemma_zero_chain(f: spec_fn(int) -> int)
    requires
        forall|j: int| 0 <= j < 20 ==> !#[trigger] bit_set(0u32, j),
    ensures
        chain(f, 0u32, 20) == two64(),
{
    lemma_zero_chain_upto(f, 20);
}

/// The chain of zero over any number of bits is `1.0`.
proof fn lemma_zero_chain_upto(f: spec_fn(int) -> int, k: nat)
    requires
        k <= 20,
        forall|j: int| 0 <= j < 20 ==> !#[trigger] bit_set(0u32, j),
    ensures
        chain(f, 0u32, k) == two64(),
    decreases k,
{
    if k > 0 {
        lemma_zero_chain_upto(f, (k - 1) as nat);
        assert(!bit_set(0u32, k - 1));
    }
}

/// The saturating sqrt price never falls as the tick rises over the whole
/// tick range, and rises strictly up to any tick whose price lies above
/// `tie_bound()` and below the saturation value.
pub proof fn lemma_saturating_price_monotone(t1: i32, t2: i32)
    requires
        MIN_TICK <= t1 <= t2 <= MAX_TICK,
    ensures
        sqrt_price_by(true, t1) <= sqrt_price_by(true, t2),
        t1 < t2 && tie_bound() < sqrt_price_by(true, t2) < u128::MAX ==> sqrt_price_by(true, t1)
            < sqrt_price_by(true, t2),
{
    let f = squared_factor(true);
    lemma_squared_facts(true);
    lemma_saturating_price_is_chain_price(t1);
    lemma_saturating_price_is_chain_price(t2);
    lemma_chain_price_mono(f, t1, t2);
    if t1 < t2 && tie_bound() < sqrt_price_by(true, t2) < u128::MAX {
        let a2 = tick_magnitude(t2);
        lemma_chain_prefix(f, a2, 20);
        if chain(f, a2, 20) > u128::MAX {
            assert(capped_chain(f, a2) == u128::MAX as int);
            if t2 < 0 {
                assert((u128::MAX as int) / (u128::MAX as int) == 1) by {
                    vstd::arithmetic::div_mod::lemma_div_by_self(u128::MAX as int);
                }
            }
        }
        lemma_chain_price_strict(f, t1, t2);
    }
}

/// Searching for a saturating price finds the highest tick with that
/// price: the tick itself whenever its price lies above `tie_bound()` and
/// below the saturation value.
pub proof fn lemma_saturating_round_trip(t: i32)
    requires
        MIN_TICK <= t <= MAX_TICK,
    ensures
        t <= tick_search_in(true, sqrt_price_by(true, t), MIN_TICK as int, MAX_TICK as int) <= MAX_TICK,
        sqrt_price_by(
            true,
            tick_search_in(true, sqrt_price_by(true, t), MIN_TICK as int, MAX_TICK as int) as i32,
        ) == sqrt_price_by(true, t),
        tie_bound() < sqrt_price_by(true, t) < u128::MAX ==> tick_search_in(
            true,
            sqrt_price_by(true, t),
            MIN_TICK as int,
            MAX_TICK as int,
        ) == t,
{
    let fs = |x: i32| sqrt_price_by(true, x);
    let p = sqrt_price_by(true, t);
    assert forall|m: int| MIN_TICK <= m <= t implies #[trigger] fs(m as i32) <= p by {
        lemma_saturating_price_monotone(m as i32, t);
    }
    lemma_search_passes(fs, p, MIN_TICK as int, MAX_TICK as int, t as int);
    lemma_search_lands(fs, p, MIN_TICK as int, MAX_TICK as int);
    let r = tick_search_in(true, p, MIN_TICK as int, MAX_TICK as int);
    lemma_saturating_price_monotone(t, r as i32);
    if tie_bound() < p < u128::MAX {
        assert forall|m: int| t < m <= MAX_TICK implies #[trigger] fs(m as i32) > p by {
            lemma_saturating_price_monotone(t, m as i32);
        }
    }
}

/// Searching for the saturating price of a tick finds that tick, for every
/// tick within half the range: its price lies strictly between
/// `tie_bound()` and the saturation value.
pub proof fn lemma_saturating_round_trip_exact(t: i32)
    requires
        -443_636 <= t <= 443_636,
    ensures
        tick_search_in(true, sqrt_price_by(true, t), MIN_TICK as int, MAX_TICK as int) == t,
{
    let f = squared_factor(true);
    lemma_squared_facts(true);
    let a = tick_magnitude(t);
    lemma_chain_below_half_range(f, a);
    lemma_chain_mono(f, 0u32, a);
    assert forall|j: int| 0 <= j < 20 implies !#[trigger] bit_set(0u32, j) by {
        let jj = j as u32;
        assert(0u32 & (1u32 << jj) == 0) by (bit_vector);
    }
    lemma_zero_chain(f);
    lemma_saturating_price_is_chain_price(t);
    let c = chain(f, a, 20);
    assert(two64() <= c <= 4470785427019600356423052938135int);
    if t < 0 {
        vstd::arithmetic::div_mod::lemma_div_is_ordered_by_denominator(
            u128::MAX as int,
            c,
            4470785427019600356423052938135int,
        );
        vstd::arithmetic::div_mod::lemma_div_is_ordered_by_denominator(u128::MAX as int, two64(), c);
        assert(u128::MAX as int / 4470785427019600356423052938135int > tie_bound());
        assert(u128::MAX as int / two64() < u128::MAX);
    }
    lemma_saturating_round_trip(t);
}

/// Multiply two u128 values and shift right by 64 bits (Q64.64 multiply).
pub fn mul_shift64(a: u128, b: u128) -> (r: u128)
    ensures
        r == mul_shift64_spec(a, b),
{
    crate::math::mul_shift64(a, b)
}

/// Divide a by b in Q64.64 space: (a << 64) / b, saturating.
pub fn div_q64(a: u128, b: u128) -> (r: u128)
    ensures
        r == div_q64_spec(a, b),
{
    crate::math::div_q64(a, b)
}

/// Compute amount0 for `liquidity` in range [lower_sqrt, upper_sqrt].
pub fn amount0_delta(sqrt_lower: u128, sqrt_upper: u128, liquidity: u128, round_up: bool) -> (r:
    u128)
    ensures
        r == amount0_delta_spec(sqrt_lower, sqrt_upper, liquidity, round_up),
{
    crate::math::amount0_delta(sqrt_lower, sqrt_upper, liquidity, round_up)
}

/// Compute amount1 for `liquidity` in range [lower_sqrt, upper_sqrt].
pub fn amount1_delta(sqrt_lower: u128, sqrt_upper: u128, liquidity: u128, round_up: bool) -> (r:
    u128)
    ensures
        r == amount1_delta_spec(sqrt_lower, sqrt_upper, liquidity, round_up),
{
    crate::math::amount1_delta(sqrt_lower, sqrt_upper, liquidity, round_up)
}

/// One swap step within a tick: (next_sqrt_price, amount_in, amount_out, fee_amount).
pub fn compute_swap_step(
    sqrt_price_current: u128,
    sqrt_price_target: u128,
    liquidity: u128,
    amount_remaining: u64,
    fee_bps: u16,
    zero_for_one: bool,
) -> (r: (u128, u64, u64, u64))
    requires
        fee_bps <= 10_000,
    ensures
        r == swap_step_spec(
            sqrt_price_current,
            sqrt_price_target,
            liquidity,
            amount_remaining,
            fee_bps,
            zero_for_one,
        ),
{
    crate::math::compute_swap_step(
        sqrt_price_current,
        sqrt_price_target,
        liquidity,
        amount_remaining,
        fee_bps,
        zero_for_one,
    )
}

} // verus!
