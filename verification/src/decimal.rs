//! Decimal text as XRPL writes amounts: unsigned integers (XRP drops) and
//! decimal numbers scaled to six fraction digits (issued-token values).
use vstd::prelude::*;
use crate::fixed::sat128;

verus! {

// ---------------------------------------------------------------------------
// Digits
// ---------------------------------------------------------------------------

/// An ASCII decimal digit.
pub open spec fn is_digit(b: u8) -> bool {
    48 <= b && b <= 57
}

/// The value of a string of decimal digits, most significant first.
pub open spec fn digits_value(s: Seq<u8>) -> nat
    decreases s.len(),
{
    if s.len() == 0 {
        0
    } else {
        digits_value(s.drop_last()) * 10 + (s.last() - 48) as nat
    }
}

/// `10^e`.
pub open spec fn pow10(e: nat) -> nat
    decreases e,
{
    if e == 0 {
        1
    } else {
        10 * pow10((e - 1) as nat)
    }
}

/// Every byte of `s` is a digit.
pub open spec fn all_digits(s: Seq<u8>) -> bool {
    forall|i: int| 0 <= i < s.len() ==> is_digit(#[trigger] s[i])
}

/// The number of consecutive digits of `s` starting at `i`.
pub open spec fn digit_run(s: Seq<u8>, i: int) -> int
    decreases s.len() - i,
{
    if 0 <= i < s.len() && is_digit(s[i]) {
        1 + digit_run(s, i + 1)
    } else {
        0
    }
}

// ---------------------------------------------------------------------------
// Unsigned integers
// ---------------------------------------------------------------------------

/// `s` without a leading `+`.
pub open spec fn unsigned_part(s: Seq<u8>) -> Seq<u8> {
    if s.len() > 0 && s[0] == 43 {
        s.subrange(1, s.len() as int)
    } else {
        s
    }
}

/// An unsigned integer as Rust's integer parsing reads it: an optional `+`
/// and one or more digits, whose value fits in 128 bits.
pub open spec fn parse_u128_spec(s: Seq<u8>) -> Option<u128> {
    let d = unsigned_part(s);
    if d.len() > 0 && all_digits(d) && digits_value(d) <= u128::MAX {
        Some(digits_value(d) as u128)
    } else {
        None
    }
}

/// One more digit on a saturated value saturates like the exact value.
proof fn lemma_sat_step(v: nat, d: nat)
    requires
        d < 10,
    ensures
        sat128(sat128(v as int) * 10 + d) == sat128((v * 10 + d) as int),
{
}

/// A prefix of a digit string is worth no more than the whole.
proof fn lemma_prefix_value_le(s: Seq<u8>, k: int)
    requires
        0 <= k <= s.len(),
        all_digits(s),
    ensures
        digits_value(s.take(k)) <= digits_value(s),
    decreases s.len(),
{
    if k < s.len() {
        lemma_prefix_value_le(s.drop_last(), k);
        assert(s.drop_last().take(k) =~= s.take(k));
        assert(is_digit(s[s.len() - 1]));
    } else {
        assert(s.take(k) =~= s);
    }
}

/// Parses an unsigned decimal integer as `str::parse::<u128>` does: `None`
/// for an empty text, a stray byte or a value past `u128::MAX`.
pub fn parse_u128(s: &[u8]) -> (r: Option<u128>)
    ensures
        r == parse_u128_spec(s@),
{
    let start: usize = if s.len() > 0 && s[0] == 43 {
        1
    } else {
        0
    };
    let ghost d = unsigned_part(s@);
    assert(d =~= s@.subrange(start as int, s@.len() as int));
    if start == s.len() {
        return None;
    }
    let mut acc: u128 = 0;
    let mut i = start;
    while i < s.len()
        invariant
            start <= i <= s.len(),
            d =~= s@.subrange(start as int, s@.len() as int),
            d == unsigned_part(s@),
            d.len() > 0,
            forall|j: int| 0 <= j < i - start ==> is_digit(#[trigger] d[j]),
            acc == digits_value(d.take(i - start)),
        decreases s.len() - i,
    {
        let b = s[i];
        if b < 48 || b > 57 {
            assert(!is_digit(d[i - start]));
            assert(!all_digits(d));
            return None;
        }
        let ghost k = i - start;
        assert(d.take(k + 1).drop_last() =~= d.take(k));
        assert(d.take(k + 1).last() == b);
        let digit = (b - 48) as u128;
        assert(digits_value(d.take(k + 1)) == acc * 10 + digit);
        match acc.checked_mul(10) {
            Some(t) => match t.checked_add(digit) {
                Some(n) => {
                    acc = n;
                },
                None => {
                    proof {
                        assert(all_digits(d.take(k + 1)));
                        if all_digits(d) {
                            lemma_prefix_value_le(d, k + 1);
                        }
                    }
                    return None;
                },
            },
            None => {
                proof {
                    if all_digits(d) {
                        lemma_prefix_value_le(d, k + 1);
                    }
                }
                return None;
            },
        }
        i += 1;
    }
    assert(d.take(d.len() as int) =~= d);
    Some(acc)
}

// ---------------------------------------------------------------------------
// Decimal numbers scaled by 10^6
// ---------------------------------------------------------------------------

/// Length of the leading sign, if any.
pub open spec fn sign_len(s: Seq<u8>) -> int {
    if s.len() > 0 && (s[0] == 43 || s[0] == 45) {
        1
    } else {
        0
    }
}

/// The number is negative.
pub open spec fn negative(s: Seq<u8>) -> bool {
    s.len() > 0 && s[0] == 45
}

/// End of the integer digits.
pub open spec fn int_end(s: Seq<u8>) -> int {
    sign_len(s) + digit_run(s, sign_len(s))
}

/// A decimal point follows the integer digits.
pub open spec fn has_point(s: Seq<u8>) -> bool {
    int_end(s) < s.len() && s[int_end(s)] == 46
}

/// Number of fraction digits.
pub open spec fn frac_len(s: Seq<u8>) -> int {
    if has_point(s) {
        digit_run(s, int_end(s) + 1)
    } else {
        0
    }
}

/// End of the mantissa (integer digits, point and fraction digits).
pub open spec fn mantissa_end(s: Seq<u8>) -> int {
    if has_point(s) {
        int_end(s) + 1 + frac_len(s)
    } else {
        int_end(s)
    }
}

/// The mantissa's digits, integer digits then fraction digits.
pub open spec fn mantissa_digits(s: Seq<u8>) -> Seq<u8> {
    let ints = s.subrange(sign_len(s), int_end(s));
    if has_point(s) {
        ints + s.subrange(int_end(s) + 1, mantissa_end(s))
    } else {
        ints
    }
}

/// Length of the sign of the exponent, if any.
pub open spec fn exp_sign_len(s: Seq<u8>) -> int {
    let p = mantissa_end(s) + 1;
    if p < s.len() && (s[p] == 43 || s[p] == 45) {
        1
    } else {
        0
    }
}

/// Start of the exponent digits.
pub open spec fn exp_start(s: Seq<u8>) -> int {
    mantissa_end(s) + 1 + exp_sign_len(s)
}

/// The exponent digits.
pub open spec fn exp_digits(s: Seq<u8>) -> Seq<u8> {
    s.subrange(exp_start(s), exp_start(s) + digit_run(s, exp_start(s)))
}

/// The text is a decimal number: a sign, digits with at most one point and
/// at least one digit, then nothing or `e`/`E`, a sign and one or more
/// digits.
pub open spec fn is_decimal(s: Seq<u8>) -> bool {
    &&& mantissa_digits(s).len() > 0
    &&& (mantissa_end(s) == s.len() || {
        &&& s[mantissa_end(s)] == 101 || s[mantissa_end(s)] == 69
        &&& digit_run(s, exp_start(s)) > 0
        &&& exp_start(s) + digit_run(s, exp_start(s)) == s.len()
    })
}

/// The power of ten the number carries.
pub open spec fn exponent(s: Seq<u8>) -> int {
    if mantissa_end(s) == s.len() {
        0
    } else if s[mantissa_end(s) + 1] == 45 {
        -(digits_value(exp_digits(s)) as int)
    } else {
        digits_value(exp_digits(s)) as int
    }
}

/// ASCII letters folded to lower case.
pub open spec fn lower(b: u8) -> u8 {
    if 65 <= b && b <= 90 {
        (b + 32) as u8
    } else {
        b
    }
}

/// The text spells `inf` or `infinity`, in any case.
pub open spec fn is_infinity(t: Seq<u8>) -> bool {
    let word = seq![105u8, 110, 102, 105, 110, 105, 116, 121];
    (t.len() == 3 || t.len() == 8) && forall|i: int| 0 <= i < t.len() ==> lower(#[trigger] t[i]) == word[i]
}

/// A decimal amount scaled to six fraction digits: `⌊value · 10^6⌋`,
/// saturated to the `u128` range, zero for a negative value; infinity
/// saturates, and any other text is zero.
pub open spec fn scaled_micro_spec(s: Seq<u8>) -> u128 {
    if is_decimal(s) {
        if negative(s) {
            0
        } else {
            let m = digits_value(mantissa_digits(s));
            let shift = exponent(s) - frac_len(s) + 6;
            if shift >= 0 {
                sat128((m * pow10(shift as nat)) as int)
            } else {
                sat128(m as int / pow10((-shift) as nat) as int)
            }
        }
    } else if is_infinity(s.subrange(sign_len(s), s.len() as int)) && !negative(s) {
        u128::MAX
    } else {
        0
    }
}

/// The exponent magnitude at which the scaled value is settled whatever the
/// mantissa's length.
pub const EXPONENT_CAP: u128 = 0x1_0000_0000_0000_0000_0000u128;

/// The scaled value of a mantissa `m` under a power-of-ten shift.
pub open spec fn shifted(m: nat, shift: int) -> u128 {
    if shift >= 0 {
        sat128((m * pow10(shift as nat)) as int)
    } else {
        sat128(m as int / pow10((-shift) as nat) as int)
    }
}

proof fn lemma_pow10_positive(e: nat)
    ensures
        pow10(e) >= 1,
    decreases e,
{
    if e > 0 {
        lemma_pow10_positive((e - 1) as nat);
    }
}

proof fn lemma_pow10_monotone(a: nat, b: nat)
    requires
        a <= b,
    ensures
        pow10(a) <= pow10(b),
    decreases b,
{
    if a < b {
        lemma_pow10_monotone(a, (b - 1) as nat);
        lemma_pow10_positive((b - 1) as nat);
    }
}

/// `10^39` is past `u128::MAX`.
proof fn lemma_pow10_39()
    ensures
        pow10(39) > u128::MAX,
{
    reveal_with_fuel(pow10, 40);
}

/// A digit string of length `n` is worth less than `10^n`.
proof fn lemma_value_below_pow(s: Seq<u8>)
    requires
        all_digits(s),
    ensures
        digits_value(s) < pow10(s.len()),
    decreases s.len(),
{
    if s.len() > 0 {
        let init = s.drop_last();
        assert forall|i: int| 0 <= i < init.len() implies is_digit(#[trigger] init[i]) by {
            assert(init[i] == s[i]);
        }
        lemma_value_below_pow(init);
        assert(is_digit(s[s.len() - 1]));
    }
}

/// Dropping the last `k` digits divides the value by `10^k`.
proof fn lemma_prefix_value_div(s: Seq<u8>, n: int)
    requires
        all_digits(s),
        0 <= n <= s.len(),
    ensures
        digits_value(s.take(n)) == digits_value(s) / pow10((s.len() - n) as nat),
    decreases s.len(),
{
    if n == s.len() {
        assert(s.take(n) =~= s);
        assert(pow10(0) == 1);
        assert((s.len() - n) as nat == 0);
        assert(digits_value(s) / 1 == digits_value(s));
        assert(digits_value(s.take(n)) == digits_value(s) / pow10((s.len() - n) as nat));
    } else {
        let init = s.drop_last();
        assert forall|i: int| 0 <= i < init.len() implies is_digit(#[trigger] init[i]) by {
            assert(init[i] == s[i]);
        }
        lemma_prefix_value_div(init, n);
        assert(init.take(n) =~= s.take(n));
        let k = (s.len() - n) as nat;
        let p = pow10((k - 1) as nat);
        lemma_pow10_positive((k - 1) as nat);
        assert(is_digit(s[s.len() - 1]));
        let v = digits_value(init);
        let d = (s.last() - 48) as nat;
        assert(digits_value(s) == v * 10 + d);
        assert(pow10(k) == 10 * p);
        vstd::arithmetic::div_mod::lemma_div_denominator((v * 10 + d) as int, 10, p as int);
        assert((v * 10 + d) as int / 10 == v) by (nonlinear_arith)
            requires
                d < 10,
        ;
        assert(digits_value(s) / pow10(k) == ((v * 10 + d) as int / 10) / (p as int));
        assert(digits_value(s.take(n)) == digits_value(init.take(n)));
        assert(digits_value(init.take(n)) == v / pow10((init.len() - n) as nat));
        assert((init.len() - n) as nat == (k - 1) as nat);
        assert(digits_value(s) / pow10(k) == v / p);
        assert(digits_value(s.take(n)) == digits_value(s) / pow10((s.len() - n) as nat));
    }
}

/// The saturated value times `10^k` saturates like the exact value.
proof fn lemma_sat_shift(m: nat, k: nat)
    ensures
        sat128(sat128(m as int) * pow10(k)) == sat128((m * pow10(k)) as int),
{
    lemma_pow10_positive(k);
    if m > u128::MAX {
        assert(m * pow10(k) >= m) by (nonlinear_arith)
            requires
                pow10(k) >= 1,
        ;
        assert(u128::MAX * pow10(k) >= u128::MAX) by (nonlinear_arith)
            requires
                pow10(k) >= 1,
        ;
    }
}

/// Past 39 places any non-zero mantissa saturates.
proof fn lemma_large_shift(m: nat, a: nat, b: nat)
    requires
        a >= 39,
        b >= 39,
    ensures
        sat128((m * pow10(a)) as int) == sat128((m * pow10(b)) as int),
{
    lemma_pow10_39();
    lemma_pow10_monotone(39, a);
    lemma_pow10_monotone(39, b);
    if m >= 1 {
        assert(m * pow10(a) >= pow10(a)) by (nonlinear_arith)
            requires
                m >= 1,
        ;
        assert(m * pow10(b) >= pow10(b)) by (nonlinear_arith)
            requires
                m >= 1,
        ;
    } else {
        assert(m * pow10(a) == 0);
        assert(m * pow10(b) == 0);
    }
}

/// `10·x`, saturated at `u128::MAX`.
fn times_ten(x: u128) -> (r: u128)
    ensures
        r == sat128(x * 10),
{
    match x.checked_mul(10) {
        Some(v) => v,
        None => u128::MAX,
    }
}

/// The number of consecutive digits from `i`.
fn digit_run_from(s: &[u8], i: usize) -> (j: usize)
    requires
        i <= s.len(),
    ensures
        i <= j <= s.len(),
        j - i == digit_run(s@, i as int),
        forall|k: int| i <= k < j ==> is_digit(#[trigger] s@[k]),
{
    let mut j = i;
    while j < s.len() && s[j] >= 48 && s[j] <= 57
        invariant
            i <= j <= s.len(),
            digit_run(s@, i as int) == (j - i) + digit_run(s@, j as int),
            forall|k: int| i <= k < j ==> is_digit(#[trigger] s@[k]),
        decreases s.len() - j,
    {
        j += 1;
    }
    j
}

/// The value of the digits `s[from..to]`, saturated at `u128::MAX`.
fn saturated_value(s: &[u8], from: usize, to: usize) -> (r: u128)
    requires
        from <= to <= s.len(),
        forall|k: int| from <= k < to ==> is_digit(#[trigger] s@[k]),
    ensures
        r == sat128(digits_value(s@.subrange(from as int, to as int)) as int),
{
    let mut acc: u128 = 0;
    let mut i = from;
    while i < to
        invariant
            from <= i <= to <= s.len(),
            forall|k: int| from <= k < to ==> is_digit(#[trigger] s@[k]),
            acc == sat128(digits_value(s@.subrange(from as int, i as int)) as int),
        decreases to - i,
    {
        let ghost prev = s@.subrange(from as int, i as int);
        assert(s@.subrange(from as int, i + 1).drop_last() =~= prev);
        assert(is_digit(s@[i as int]));
        let d = (s[i] - 48) as u128;
        proof {
            lemma_sat_step(digits_value(prev), d as nat);
        }
        acc = times_ten(acc).saturating_add(d);
        i += 1;
    }
    acc
}

/// The value of the digits `s[from..to]`, capped at `EXPONENT_CAP`.
fn capped_value(s: &[u8], from: usize, to: usize) -> (r: u128)
    requires
        from <= to <= s.len(),
        forall|k: int| from <= k < to ==> is_digit(#[trigger] s@[k]),
    ensures
        r as int == if digits_value(s@.subrange(from as int, to as int)) > EXPONENT_CAP {
            EXPONENT_CAP as int
        } else {
            digits_value(s@.subrange(from as int, to as int)) as int
        },
{
    let mut acc: u128 = 0;
    let mut i = from;
    while i < to
        invariant
            from <= i <= to <= s.len(),
            forall|k: int| from <= k < to ==> is_digit(#[trigger] s@[k]),
            acc as int == if digits_value(s@.subrange(from as int, i as int)) > EXPONENT_CAP {
                EXPONENT_CAP as int
            } else {
                digits_value(s@.subrange(from as int, i as int)) as int
            },
        decreases to - i,
    {
        let ghost prev = s@.subrange(from as int, i as int);
        assert(s@.subrange(from as int, i + 1).drop_last() =~= prev);
        assert(is_digit(s@[i as int]));
        let d = (s[i] - 48) as u128;
        let next = acc * 10 + d;
        acc = if next > EXPONENT_CAP {
            EXPONENT_CAP
        } else {
            next
        };
        i += 1;
    }
    acc
}

/// The ASCII letter at `i` of `infinity`.
fn infinity_letter(i: usize) -> (b: u8)
    requires
        i < 8,
    ensures
        b == seq![105u8, 110, 102, 105, 110, 105, 116, 121][i as int],
{
    match i {
        0 => 105,
        1 => 110,
        2 => 102,
        3 => 105,
        4 => 110,
        5 => 105,
        6 => 116,
        _ => 121,
    }
}

/// `s[from..]` spells `inf` or `infinity`, in any case.
fn spells_infinity(s: &[u8], from: usize) -> (r: bool)
    requires
        from <= s.len(),
    ensures
        r == is_infinity(s@.subrange(from as int, s@.len() as int)),
{
    let ghost t = s@.subrange(from as int, s@.len() as int);
    let n = s.len() - from;
    if n != 3 && n != 8 {
        return false;
    }
    let mut i: usize = 0;
    while i < n
        invariant
            i <= n,
            n == 3 || n == 8,
            n == s.len() - from,
            t == s@.subrange(from as int, s@.len() as int),
            forall|k: int|
                0 <= k < i ==> lower(#[trigger] t[k]) == seq![
                    105u8,
                    110,
                    102,
                    105,
                    110,
                    105,
                    116,
                    121,
                ][k],
        decreases n - i,
    {
        let b = s[from + i];
        let folded = if 65 <= b && b <= 90 {
            b + 32
        } else {
            b
        };
        assert(t[i as int] == b);
        if folded != infinity_letter(i) {
            return false;
        }
        i += 1;
    }
    true
}

/// The layout of a decimal number's mantissa in `s`: sign length, whether
/// it is negative, end of the integer digits, whether a point follows, end
/// of the mantissa and number of fraction digits.
fn scan_mantissa(s: &[u8]) -> (r: (usize, bool, usize, bool, usize, usize))
    ensures
        r.0 == sign_len(s@),
        r.1 == negative(s@),
        r.2 == int_end(s@),
        r.3 == has_point(s@),
        r.4 == mantissa_end(s@),
        r.5 == frac_len(s@),
        r.0 <= r.2 <= r.4 <= s.len(),
        r.3 ==> r.2 < r.4,
        r.4 == r.2 + (if r.3 { 1usize } else { 0usize }) + r.5,
        forall|k: int| r.0 <= k < r.2 ==> is_digit(#[trigger] s@[k]),
        forall|k: int| r.2 + 1 <= k < r.4 ==> is_digit(#[trigger] s@[k]),
{
    let len = s.len();
    let sign: usize = if len > 0 && (s[0] == 43 || s[0] == 45) {
        1
    } else {
        0
    };
    let neg = len > 0 && s[0] == 45;
    let ie = digit_run_from(s, sign);
    let point = ie < len && s[ie] == 46;
    let me = if point {
        digit_run_from(s, ie + 1)
    } else {
        ie
    };
    let fl: usize = if point {
        me - ie - 1
    } else {
        0
    };
    (sign, neg, ie, point, me, fl)
}

/// Reads the exponent after a mantissa ending at `me`: whether the text is
/// well formed from there, whether the exponent is negative, and its
/// magnitude capped at `EXPONENT_CAP`.
fn scan_exponent(s: &[u8], me: usize) -> (r: (bool, bool, u128))
    requires
        me == mantissa_end(s@),
        me <= s.len(),
    ensures
        r.0 == (me == s.len() || {
            &&& s@[me as int] == 101 || s@[me as int] == 69
            &&& digit_run(s@, exp_start(s@)) > 0
            &&& exp_start(s@) + digit_run(s@, exp_start(s@)) == s.len()
        }),
        r.0 ==> r.1 == (me < s.len() && s@[me + 1] == 45),
        r.0 && me < s.len() ==> r.2 as int == if digits_value(exp_digits(s@)) > EXPONENT_CAP {
            EXPONENT_CAP as int
        } else {
            digits_value(exp_digits(s@)) as int
        },
        r.0 && me == s.len() ==> r.2 == 0,
{
    let len = s.len();
    if me == len {
        return (true, false, 0);
    }
    if s[me] != 101 && s[me] != 69 {
        return (false, false, 0);
    }
    let es: usize = if me + 1 < len && (s[me + 1] == 43 || s[me + 1] == 45) {
        1
    } else {
        0
    };
    let exp_neg = me + 1 < len && s[me + 1] == 45;
    let start = me + 1 + es;
    assert(exp_start(s@) == start);
    let ee = digit_run_from(s, start);
    if ee == start || ee != len {
        return (false, false, 0);
    }
    let mag = capped_value(s, start, ee);
    assert(exp_digits(s@) =~= s@.subrange(start as int, ee as int));
    (true, exp_neg, mag)
}

/// `shifted(value(ds), shift)` for the digits `ds`, with the shift taken
/// past 40 places as 40.
fn shift_digits(ds: &Vec<u8>, shift: i128) -> (r: u128)
    requires
        all_digits(ds@),
        shift > i128::MIN,
    ensures
        shift >= 0 ==> r == shifted(digits_value(ds@), if shift > 40 { 40 } else { shift as int }),
        shift < 0 ==> r == shifted(digits_value(ds@), shift as int),
{
    let ghost m = digits_value(ds@);
    let dl = ds.len();
    if shift >= 0 {
        let full = saturated_value(ds.as_slice(), 0, dl);
        assert(ds@.subrange(0, dl as int) =~= ds@);
        let steps: u32 = if shift > 40 {
            40
        } else {
            shift as u32
        };
        let mut acc = full;
        let mut j: u32 = 0;
        assert(pow10(0) == 1);
        assert(sat128(m as int) * pow10(0) == sat128(m as int));
        while j < steps
            invariant
                j <= steps,
                acc == sat128(sat128(m as int) * pow10(j as nat)),
            decreases steps - j,
        {
            proof {
                lemma_sat_shift(m, j as nat);
                lemma_sat_shift(m, (j + 1) as nat);
                lemma_sat_step((m * pow10(j as nat)) as nat, 0);
                assert((m * pow10(j as nat)) * 10 == m * pow10((j + 1) as nat)) by (nonlinear_arith)
                    requires
                        pow10((j + 1) as nat) == 10 * pow10(j as nat),
                ;
            }
            acc = times_ten(acc);
            j += 1;
        }
        proof {
            lemma_sat_shift(m, steps as nat);
        }
        acc
    } else {
        let drop = (-shift) as u128;
        if drop >= dl as u128 {
            proof {
                lemma_value_below_pow(ds@);
                lemma_pow10_monotone(ds@.len(), drop as nat);
                assert(m as int / pow10(drop as nat) as int == 0) by (nonlinear_arith)
                    requires
                        0 <= m < pow10(drop as nat),
                ;
            }
            return 0;
        }
        let keep = dl - (drop as usize);
        let prefix = saturated_value(ds.as_slice(), 0, keep);
        proof {
            assert(ds@.subrange(0, keep as int) =~= ds@.take(keep as int));
            lemma_prefix_value_div(ds@, keep as int);
        }
        prefix
    }
}

/// Scales a decimal amount to six fraction digits: `⌊value · 10^6⌋`,
/// saturating at `u128::MAX`; a negative value gives zero, `inf` and
/// `infinity` saturate, and any other text gives zero.
pub fn scaled_micro(s: &[u8]) -> (r: u128)
    ensures
        r == scaled_micro_spec(s@),
{
    let (sign, neg, ie, point, me, fl) = scan_mantissa(s);
    let (exp_ok, exp_neg, exp_mag) = scan_exponent(s, me);
    let ghost digits = mantissa_digits(s@);
    assert(digits.len() == (ie - sign) + fl);
    let well_formed = (ie - sign) + fl > 0 && exp_ok;
    assert(well_formed == is_decimal(s@));
    if !well_formed {
        let inf = spells_infinity(s, sign);
        return if inf && !neg {
            u128::MAX
        } else {
            0
        };
    }
    if neg {
        return 0;
    }
    // Collect the mantissa digits.
    let mut ds: Vec<u8> = Vec::new();
    let mut k = sign;
    while k < ie
        invariant
            sign <= k <= ie <= s.len(),
            ds@ =~= s@.subrange(sign as int, k as int),
        decreases ie - k,
    {
        ds.push(s[k]);
        k += 1;
    }
    if point {
        let mut k2 = ie + 1;
        while k2 < me
            invariant
                ie + 1 <= k2 <= me <= s.len(),
                ds@ =~= s@.subrange(sign as int, ie as int) + s@.subrange(ie + 1, k2 as int),
            decreases me - k2,
        {
            ds.push(s[k2]);
            k2 += 1;
        }
    }
    assert(ds@ =~= digits);
    proof {
        assert forall|i: int| 0 <= i < digits.len() implies is_digit(#[trigger] digits[i]) by {
            if i < ie - sign {
                assert(digits[i] == s@[sign + i]);
            } else {
                assert(digits[i] == s@[ie + 1 + (i - (ie - sign))]);
            }
        }
    }
    let shift: i128 = if exp_neg {
        6 - (exp_mag as i128) - (fl as i128)
    } else {
        (exp_mag as i128) - (fl as i128) + 6
    };
    let r = shift_digits(&ds, shift);
    proof {
        let m = digits_value(digits);
        let true_shift = exponent(s@) - fl + 6;
        assert(scaled_micro_spec(s@) == shifted(m, true_shift));
        if shift >= 0 {
            if shift > 40 || true_shift != shift {
                assert(true_shift >= 40);
                lemma_large_shift(m, 40, true_shift as nat);
                if shift <= 40 {
                    lemma_large_shift(m, 40, shift as nat);
                }
            }
        } else if true_shift != shift {
            assert(true_shift <= -(digits.len() as int));
            lemma_value_below_pow(digits);
            lemma_pow10_monotone(digits.len(), (-true_shift) as nat);
            lemma_pow10_monotone(digits.len(), (-shift) as nat);
            assert(m as int / pow10((-true_shift) as nat) as int == 0) by (nonlinear_arith)
                requires
                    0 <= m < pow10((-true_shift) as nat),
            ;
            assert(m as int / pow10((-shift) as nat) as int == 0) by (nonlinear_arith)
                requires
                    0 <= m < pow10((-shift) as nat),
            ;
        }
    }
    r
}

} // verus!
