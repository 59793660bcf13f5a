//! Why the tick → sqrt-price maps rise with the tick.
//!
//! Every tick-math variant multiplies `1.0` (in Q64.64) by one factor per set
//! bit of `|tick|`, flooring after each step. Before any saturation that is
//! the exact floored chain below. Going from `t` to `t + 1` clears the low run
//! of set bits and sets the next bit: the chain of the cleared run stays below
//! the single factor that replaces it, by at least the growth of one tick, and
//! the shared high bits then scale both sides alike.
use vstd::prelude::*;
use vstd::arithmetic::div_mod::*;
use vstd::arithmetic::mul::*;
use crate::fixed::two64;
use crate::math::{bit_set, tick_magnitude, tick_search_by, MIN_TICK, MAX_TICK};

verus! {

/// The guaranteed growth from one tick to the next, as a fraction:
/// `1.0000499` (one tick is a factor `sqrt(1.0001) ≈ 1.00004999875`).
pub open spec fn step_num() -> int {
    10_000_499
}

/// Denominator of the growth fraction.
pub open spec fn step_den() -> int {
    10_000_000
}

/// A price above which neighbouring ticks always have distinct prices; at
/// or below it, inverting the ratio for negative ticks may floor two
/// neighbours to one price.
pub open spec fn tie_bound() -> int {
    20_040
}

/// The floored Q64.64 chain over bits `0..k` of `t`: start at `1.0`, and for
/// each set bit `b` multiply by `f(b)` and floor.
pub open spec fn chain(f: spec_fn(int) -> int, t: u32, k: nat) -> int
    decreases k,
{
    if k == 0 {
        two64()
    } else {
        let prev = chain(f, t, (k - 1) as nat);
        if bit_set(t, k - 1) {
            prev * f(k - 1) / two64()
        } else {
            prev
        }
    }
}

/// The chain over `j` bits that are all set.
pub open spec fn full_chain(f: spec_fn(int) -> int, j: nat) -> int
    decreases j,
{
    if j == 0 {
        two64()
    } else {
        full_chain(f, (j - 1) as nat) * f(j - 1) / two64()
    }
}

/// The factors are at least `1.0`, and each exceeds the chain of all the
/// lower factors by at least one tick's growth.
pub open spec fn factors_grow(f: spec_fn(int) -> int) -> bool {
    forall|k: int|
        0 <= k < 20 ==> #[trigger] f(k) >= two64() && full_chain(f, k as nat) * step_num() <= f(k)
            * step_den()
}

/// The chain over 20 bits, capped at `u128::MAX`.
pub open spec fn capped_chain(f: spec_fn(int) -> int, a: u32) -> int {
    let c = chain(f, a, 20);
    if c > u128::MAX {
        u128::MAX as int
    } else {
        c
    }
}

/// The price of a tick built from the capped chain of `|tick|`, inverted
/// as `u128::MAX / ratio` for negative ticks.
pub open spec fn chain_price(f: spec_fn(int) -> int, tick: i32) -> int {
    let r = capped_chain(f, tick_magnitude(tick));
    if tick < 0 {
        u128::MAX as int / r
    } else {
        r
    }
}

/// The low `k` bits of `t` are all set.
pub open spec fn low_bits_set(t: u32, k: u32) -> bool {
    t & !(0xFFFF_FFFFu32 << k) == !(0xFFFF_FFFFu32 << k)
}

// ---------------------------------------------------------------------------
// Bits of a successor
// ---------------------------------------------------------------------------

/// How the bits of `t + 1` follow from those of `t`: below the first clear
/// bit they flip to zero, that bit flips to one, and above it they stay.
proof fn lemma_successor_bits(t: u32, u: u32, k: u32)
    requires
        t < 0xFFFFF,
        u == t + 1,
        k < 20,
    ensures
        low_bits_set(t, 0),
        low_bits_set(t, (k + 1) as u32) == (low_bits_set(t, k) && t & (1u32 << k) != 0),
        low_bits_set(t, k) ==> ((u & (1u32 << k) != 0) == (t & (1u32 << k) == 0)),
        !low_bits_set(t, k) ==> ((u & (1u32 << k) != 0) == (t & (1u32 << k) != 0)),
        !low_bits_set(t, 20),
{
    assert(low_bits_set(t, 0)) by (bit_vector);
    assert(low_bits_set(t, (k + 1) as u32) == (low_bits_set(t, k) && t & (1u32 << k) != 0)) by (bit_vector)
        requires
            k < 20,
    ;
    assert(low_bits_set(t, k) ==> ((u & (1u32 << k) != 0) == (t & (1u32 << k) == 0))) by (bit_vector)
        requires
            t < 0xFFFFF,
            u == t + 1,
            k < 20,
    ;
    assert(!low_bits_set(t, k) ==> ((u & (1u32 << k) != 0) == (t & (1u32 << k) != 0))) by (bit_vector)
        requires
            t < 0xFFFFF,
            u == t + 1,
            k < 20,
    ;
    assert(!low_bits_set(t, 20)) by (bit_vector)
        requires
            t < 0xFFFFF,
    ;
}

// ---------------------------------------------------------------------------
// One floored step
// ---------------------------------------------------------------------------

/// A floored Q64.64 product of two values, evaluated from their values.
pub(crate) proof fn lemma_floored_product(x: int, m: int, xv: int, mv: int)
    requires
        x == xv,
        m == mv,
    ensures
        x * m / two64() == xv * mv / two64(),
{
}

/// A floored Q64.64 multiply by a factor of at least `1.0` does not shrink.
pub(crate) proof fn lemma_scale_grows(x: int, m: int)
    requires
        x >= 0,
        m >= two64(),
    ensures
        x * m / two64() >= x,
{
    assert(x * two64() <= x * m) by (nonlinear_arith)
        requires
            x >= 0,
            m >= two64(),
    ;
    lemma_div_is_ordered(x * two64(), x * m, two64());
    lemma_div_by_multiple(x, two64());
}

/// Scaling two chain values by the same factor of at least `1.0` keeps
/// them apart and keeps their ratio, up to one unit of flooring, which
/// costs at most `step_den() / 2^64` of the ratio.
proof fn lemma_scale_gap(x: int, y: int, m: int, c: int)
    requires
        x >= two64(),
        x < y,
        m >= two64(),
        c >= step_den(),
        y * step_den() * two64() >= x * c,
    ensures
        x * m / two64() >= two64(),
        x * m / two64() < y * m / two64(),
        (y * m / two64()) * step_den() * two64() >= (x * m / two64()) * (c - step_den()),
{
    let b = two64();
    let d = step_den();
    let xx = x * m;
    let yy = y * m;
    lemma_scale_grows(x, m);
    lemma_fundamental_div_mod(xx, b);
    lemma_fundamental_div_mod(yy, b);
    let xp = xx / b;
    let yp = yy / b;
    let rx = xx % b;
    let ry = yy % b;
    assert(yy - xx == (y - x) * m) by {
        lemma_mul_is_distributive_sub_other_way(m, y, x);
    }
    assert((y - x) * m >= m) by (nonlinear_arith)
        requires
            y - x >= 1,
            m >= 0,
    ;
    assert(yp >= xp + 1);
    assert(yy * d * b >= xx * c) by (nonlinear_arith)
        requires
            y * d * b >= x * c,
            m >= 0,
            xx == x * m,
            yy == y * m,
    ;
    assert(b * (yp * d * b) >= b * (xp * c - d * b)) by (nonlinear_arith)
        requires
            yy == b * yp + ry,
            xx == b * xp + rx,
            0 <= rx < b,
            0 <= ry < b,
            yy * d * b >= xx * c,
            c >= 0,
            d > 0,
            b > 0,
    ;
    assert(yp * d * b >= xp * c - d * b) by (nonlinear_arith)
        requires
            b * (yp * d * b) >= b * (xp * c - d * b),
            b > 0,
    ;
    assert(xp * (c - d) == xp * c - xp * d) by (nonlinear_arith);
    assert(xp * d >= b * d) by (nonlinear_arith)
        requires
            xp >= b,
            d > 0,
    ;
}

// ---------------------------------------------------------------------------
// The chain
// ---------------------------------------------------------------------------

/// Every chain value is at least `1.0`, and the chain never shrinks as
/// more bits are taken in.
proof fn lemma_chain_floor(f: spec_fn(int) -> int, t: u32, k: nat)
    requires
        factors_grow(f),
        k <= 20,
    ensures
        chain(f, t, k) >= two64(),
        full_chain(f, k) >= two64(),
    decreases k,
{
    if k > 0 {
        lemma_chain_floor(f, t, (k - 1) as nat);
        assert(f(k - 1) >= two64());
        lemma_scale_grows(chain(f, t, (k - 1) as nat), f(k - 1));
        lemma_scale_grows(full_chain(f, (k - 1) as nat), f(k - 1));
    }
}

/// The chain of `t + 1` against that of `t` over the low `k` bits: while the
/// low bits of `t` are all set (the carry still runs), the two are the full
/// chain and `1.0`; once it has stopped, `t + 1` is ahead by at least one
/// tick's growth, less `k` units of flooring.
proof fn lemma_chain_carry(f: spec_fn(int) -> int, t: u32, u: u32, k: nat)
    requires
        factors_grow(f),
        t < 0xFFFFF,
        u == t + 1,
        k <= 20,
    ensures
        low_bits_set(t, k as u32) ==> chain(f, t, k) == full_chain(f, k) && chain(f, u, k)
            == two64(),
        !low_bits_set(t, k as u32) ==> chain(f, t, k) < chain(f, u, k) && chain(f, u, k)
            * step_den() * two64() >= chain(f, t, k) * (step_num() * two64() - k * step_den()),
    decreases k,
{
    if k == 0 {
        lemma_successor_bits(t, u, 0);
    } else {
        let j: nat = (k - 1) as nat;
        lemma_chain_carry(f, t, u, j);
        lemma_successor_bits(t, u, j as u32);
        lemma_chain_floor(f, t, j);
        lemma_chain_floor(f, u, j);
        let x = chain(f, t, j);
        let y = chain(f, u, j);
        let m = f(j as int);
        assert(m >= two64() && full_chain(f, j) * step_num() <= m * step_den());
        assert(((j + 1) as u32) == k as u32);
        if low_bits_set(t, j as u32) {
            if bit_set(t, j as int) {
                assert(!bit_set(u, j as int));
            } else {
                assert(bit_set(u, j as int));
                let full = full_chain(f, j);
                assert(chain(f, u, k) == two64() * m / two64());
                lemma_div_by_multiple(m, two64());
                assert(two64() * m == m * two64()) by (nonlinear_arith);
                assert(chain(f, u, k) == m);
                assert(chain(f, t, k) == full);
                assert(full < m) by (nonlinear_arith)
                    requires
                        full * step_num() <= m * step_den(),
                        full > 0,
                ;
                assert(m * step_den() * two64() >= full * (step_num() * two64() - k * step_den()))
                    by (nonlinear_arith)
                    requires
                        full * step_num() <= m * step_den(),
                        full > 0,
                        k >= 0,
                ;
            }
        } else {
            assert(bit_set(u, j as int) == bit_set(t, j as int));
            let c = step_num() * two64() - j * step_den();
            if bit_set(t, j as int) {
                lemma_scale_gap(x, y, m, c);
                assert(c - step_den() == step_num() * two64() - k * step_den());
            } else {
                assert(x * (step_num() * two64() - k * step_den()) <= x * c) by (nonlinear_arith)
                    requires
                        x >= 0,
                        c == step_num() * two64() - j * step_den(),
                        k == j + 1,
                ;
            }
        }
    }
}

/// The chain of `t + 1` exceeds that of `t` by at least one tick's growth,
/// less twenty units of flooring.
pub proof fn lemma_chain_next(f: spec_fn(int) -> int, t: u32)
    requires
        factors_grow(f),
        t < 0xFFFFF,
    ensures
        chain(f, t, 20) < chain(f, (t + 1) as u32, 20),
        chain(f, (t + 1) as u32, 20) * step_den() * two64() >= chain(f, t, 20) * (step_num()
            * two64() - 20 * step_den()),
{
    lemma_chain_carry(f, t, (t + 1) as u32, 20);
    lemma_successor_bits(t, (t + 1) as u32, 0);
}

/// The chain grows with its argument.
pub proof fn lemma_chain_mono(f: spec_fn(int) -> int, a: u32, b: u32)
    requires
        factors_grow(f),
        a <= b <= 0xFFFFF,
    ensures
        chain(f, a, 20) <= chain(f, b, 20),
        a < b ==> chain(f, a, 20) < chain(f, b, 20),
    decreases b - a,
{
    if a < b {
        lemma_chain_mono(f, a, (b - 1) as u32);
        lemma_chain_next(f, (b - 1) as u32);
    }
}

/// Inverting two chain values that are one tick apart keeps them apart
/// while the smaller one inverts to more than `tie_bound()`.
proof fn lemma_inverse_strict(x: int, y: int)
    requires
        x >= two64(),
        x < y,
        y * step_den() * two64() >= x * (step_num() * two64() - 20 * step_den()),
        (u128::MAX as int) / x > tie_bound(),
    ensures
        (u128::MAX as int) / (if y > u128::MAX { u128::MAX as int } else { y }) < (u128::MAX as int)
            / x,
{
    let mx = u128::MAX as int;
    let b = two64();
    let d = step_den();
    let n = step_num();
    let q1 = mx / x;
    lemma_fundamental_div_mod(mx, x);
    if y <= mx {
        let q2 = mx / y;
        lemma_fundamental_div_mod(mx, y);
        if q2 >= q1 {
            assert(q1 * y <= q2 * y) by (nonlinear_arith)
                requires
                    q1 <= q2,
                    y > 0,
            ;
            assert(q1 * y < q1 * x + x);
            assert(q1 * (y * d * b) >= q1 * (x * (n * b - 20 * d))) by (nonlinear_arith)
                requires
                    y * d * b >= x * (n * b - 20 * d),
                    q1 >= 0,
            ;
            assert(q1 * x * (n * b - 20 * d) < (q1 * x + x) * d * b) by (nonlinear_arith)
                requires
                    q1 * (y * d * b) >= q1 * (x * (n * b - 20 * d)),
                    q1 * y < q1 * x + x,
                    d * b > 0,
            ;
            assert(q1 * (n * b - d * b - 20 * d) < d * b) by (nonlinear_arith)
                requires
                    q1 * x * (n * b - 20 * d) < (q1 * x + x) * d * b,
                    x > 0,
            ;
            assert(q1 * (n * b - d * b - 20 * d) >= d * b) by (nonlinear_arith)
                requires
                    q1 >= 20_041,
                    n == 10_000_499,
                    d == 10_000_000,
                    b == 0x1_0000_0000_0000_0000int,
            ;
        }
    } else {
        assert(mx / mx == 1) by {
            lemma_div_by_self(mx);
        }
    }
}

/// The capped chain grows with its argument.
proof fn lemma_capped_mono(f: spec_fn(int) -> int, a: u32, b: u32)
    requires
        factors_grow(f),
        a <= b <= 0xFFFFF,
    ensures
        two64() <= capped_chain(f, a) <= capped_chain(f, b),
{
    lemma_chain_mono(f, a, b);
    lemma_chain_floor(f, a, 20);
}

/// The magnitude of a tick within the valid range, as an integer.
proof fn lemma_magnitude(t: i32)
    requires
        MIN_TICK <= t <= MAX_TICK,
    ensures
        tick_magnitude(t) as int == if t < 0 {
            -(t as int)
        } else {
            t as int
        },
        tick_magnitude(t) <= 887_272,
{
}

/// The chain price never falls as the tick rises.
pub proof fn lemma_chain_price_mono(f: spec_fn(int) -> int, t1: i32, t2: i32)
    requires
        factors_grow(f),
        MIN_TICK <= t1 <= t2 <= MAX_TICK,
    ensures
        chain_price(f, t1) <= chain_price(f, t2),
{
    lemma_magnitude(t1);
    lemma_magnitude(t2);
    let a1 = tick_magnitude(t1);
    let a2 = tick_magnitude(t2);
    let mx = u128::MAX as int;
    if t1 >= 0 {
        lemma_capped_mono(f, a1, a2);
    } else if t2 < 0 {
        lemma_capped_mono(f, a2, a1);
        lemma_div_is_ordered_by_denominator(mx, capped_chain(f, a2), capped_chain(f, a1));
    } else {
        lemma_capped_mono(f, a1, a1);
        lemma_capped_mono(f, a2, a2);
        lemma_div_is_ordered_by_denominator(mx, two64(), capped_chain(f, a1));
        assert(mx / two64() == two64() - 1);
    }
}

/// The chain price rises strictly from `t1` to `t2` when the chain of `t2`
/// fits in 128 bits and the price at `t2` is above `tie_bound()`.
pub proof fn lemma_chain_price_strict(f: spec_fn(int) -> int, t1: i32, t2: i32)
    requires
        factors_grow(f),
        MIN_TICK <= t1 < t2 <= MAX_TICK,
        chain(f, tick_magnitude(t2), 20) <= u128::MAX,
        chain_price(f, t2) > tie_bound(),
    ensures
        chain_price(f, t1) < chain_price(f, t2),
{
    lemma_magnitude(t1);
    lemma_magnitude(t2);
    let a1 = tick_magnitude(t1);
    let a2 = tick_magnitude(t2);
    let mx = u128::MAX as int;
    if t1 >= 0 {
        lemma_chain_mono(f, a1, a2);
        lemma_chain_floor(f, a1, 20);
    } else if t2 < 0 {
        let t0 = (t2 - 1) as i32;
        lemma_chain_price_mono(f, t1, t0);
        lemma_magnitude(t0);
        assert(tick_magnitude(t0) == (a2 + 1) as u32);
        lemma_chain_next(f, a2);
        lemma_chain_floor(f, a2, 20);
        lemma_inverse_strict(chain(f, a2, 20), chain(f, (a2 + 1) as u32, 20));
    } else {
        lemma_chain_mono(f, 1, a1);
        lemma_chain_floor(f, a2, 20);
        assert(chain(f, 1, 1) == chain(f, 1, 0) * f(0) / two64()) by {
            assert(bit_set(1, 0)) by (bit_vector);
        }
        assert(chain(f, 1, 20) == chain(f, 1, 1)) by {
            assert forall|j: int| 1 <= j < 20 implies !#[trigger] bit_set(1, j) by {
                let jj = j as u32;
                assert(1u32 & (1u32 << jj) == 0) by (bit_vector)
                    requires
                        1 <= jj < 20,
                ;
            }
            lemma_chain_high_clear(f, 1, 1);
        }
        assert(f(0) >= two64() && full_chain(f, 0) * step_num() <= f(0) * step_den());
        assert(two64() * f(0) / two64() == f(0)) by {
            lemma_div_by_multiple(f(0), two64());
            assert(two64() * f(0) == f(0) * two64()) by (nonlinear_arith);
        }
        assert(capped_chain(f, a1) >= two64() + 1);
        lemma_div_is_ordered_by_denominator(mx, two64() + 1, capped_chain(f, a1));
        assert(mx / (two64() + 1) == two64() - 1);
    }
}

/// Bits at or above `k` that are clear leave the chain where it was.
proof fn lemma_chain_high_clear(f: spec_fn(int) -> int, t: u32, k: nat)
    requires
        k <= 20,
        forall|j: int| k <= j < 20 ==> !#[trigger] bit_set(t, j),
    ensures
        chain(f, t, 20) == chain(f, t, k),
    decreases 20 - k,
{
    if k < 20 {
        lemma_chain_high_clear(f, t, k + 1);
    }
}

/// The chain over the low `k` bits is at most the chain over all twenty.
pub proof fn lemma_chain_prefix(f: spec_fn(int) -> int, t: u32, k: nat)
    requires
        factors_grow(f),
        k <= 20,
    ensures
        two64() <= chain(f, t, k) <= chain(f, t, 20),
    decreases 20 - k,
{
    lemma_chain_floor(f, t, k);
    if k < 20 {
        lemma_chain_prefix(f, t, k + 1);
        assert(f(k as int) >= two64());
        lemma_scale_grows(chain(f, t, k), f(k as int));
    }
}

/// Every tick below 2^19 has a chain at most the full chain of 19 bits.
pub proof fn lemma_chain_below_half_range(f: spec_fn(int) -> int, t: u32)
    requires
        factors_grow(f),
        t <= 524_287,
    ensures
        chain(f, t, 20) <= full_chain(f, 19),
{
    let top = 524_287u32;
    assert(low_bits_set(524_287u32, 19) && 524_287u32 & (1u32 << 19u32) == 0) by (bit_vector);
    lemma_chain_carry(f, top, 524_288u32, 19);
    assert forall|j: int| 19 <= j < 20 implies !#[trigger] bit_set(top, j) by {
        assert(j == 19);
    }
    lemma_chain_high_clear(f, top, 19);
    lemma_chain_mono(f, t, top);
}

// ---------------------------------------------------------------------------
// The binary search
// ---------------------------------------------------------------------------

/// The search ends inside its range, on `lo` or on a tick whose price is at
/// most the target.
pub proof fn lemma_search_lands(f: spec_fn(i32) -> u128, p: u128, lo: int, hi: int)
    requires
        lo <= hi,
    ensures
        lo <= tick_search_by(f, p, lo, hi) <= hi,
        tick_search_by(f, p, lo, hi) == lo || f(tick_search_by(f, p, lo, hi) as i32) <= p,
    decreases hi - lo,
{
    if lo < hi {
        let mid = lo + (hi - lo + 1) / 2;
        if f(mid as i32) <= p {
            lemma_search_lands(f, p, mid, hi);
        } else {
            lemma_search_lands(f, p, lo, mid - 1);
        }
    }
}

/// When every tick from `lo` to `t` has a price at most the target, the
/// search ends at `t` or above; when moreover every tick above `t` has a
/// price above the target, it ends at `t`.
pub proof fn lemma_search_passes(f: spec_fn(i32) -> u128, p: u128, lo: int, hi: int, t: int)
    requires
        lo <= t <= hi,
        forall|m: int| lo <= m <= t ==> #[trigger] f(m as i32) <= p,
    ensures
        t <= tick_search_by(f, p, lo, hi),
        (forall|m: int| t < m <= hi ==> #[trigger] f(m as i32) > p) ==> tick_search_by(f, p, lo, hi)
            == t,
    decreases hi - lo,
{
    if lo < hi {
        let mid = lo + (hi - lo + 1) / 2;
        if f(mid as i32) <= p {
            if mid <= t {
                lemma_search_passes(f, p, mid, hi, t);
            } else {
                lemma_search_lands(f, p, mid, hi);
            }
        } else {
            lemma_search_passes(f, p, lo, mid - 1, t);
        }
    }
}

} // verus!
