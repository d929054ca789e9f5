//! From doubles to whole numbers: truncated, rounded up, or rounded to the nearest, and limited
//! to what the machine can hold.

use vstd::prelude::*;
use vstd::arithmetic::power2::pow2;
use crate::bits;
use crate::bits::{F64_INF, F64_SIGN};

verus! {

/// What 1 is worth, in units of the smallest positive double.
pub open spec fn one() -> int {
    pow2(1074) as int
}

/// A whole number limited to a range from 0.
pub open spec fn limited(n: int, max: int) -> int {
    if n < 0 {
        0
    } else if n > max {
        max
    } else {
        n
    }
}

/// The greatest whole number that is not above a double.
pub open spec fn floor_of(x: u64) -> int {
    bits::f64_units(x) / one()
}

/// The least whole number that is not below a double.
pub open spec fn ceil_of(x: u64) -> int {
    -((-bits::f64_units(x)) / one())
}

/// The whole number nearest to a double that is not negative; halves go up.
pub open spec fn round_of(x: u64) -> int {
    (2 * bits::f64_units(x) + one()) / (2 * one())
}

/// A magnitude split at the point.
struct Split {
    /// The whole part, or the greatest number there is.
    whole: u64,
    /// The rest is at least a half.
    half: bool,
    /// There is a rest.
    rest: bool,
}

spec fn splits_into(mag: nat, split: Split) -> bool {
    let units = bits::magnitude_units(mag, 52) as int;
    &&& split.whole == limited(units / one(), u64::MAX as int)
    &&& split.rest == (units % one() > 0)
    &&& split.half == (2 * (units % one()) >= one())
    &&& split.rest ==> units / one() < 0x10_0000_0000_0000
}

/// Below 1: the magnitude's exponent is under 1023.
proof fn lemma_small(mag: nat, e: nat, m: nat)
    requires
        e == mag / pow2(52),
        m == mag % pow2(52),
        e < 1023,
    ensures
        ({
            let units = bits::magnitude_units(mag, 52) as int;
            &&& units / one() == 0
            &&& units % one() == units
            &&& units >= 0
            &&& units > 0 <==> mag > 0
            &&& 2 * units >= one() <==> e == 1022
        }),
{
    vstd::arithmetic::power2::lemma_pow2_pos(52);
    vstd::arithmetic::power2::lemma_pow2_pos(1074);
    vstd::arithmetic::div_mod::lemma_fundamental_div_mod(mag as int, pow2(52) as int);
    vstd::arithmetic::div_mod::lemma_mod_bound(mag as int, pow2(52) as int);
    let units = bits::magnitude_units(mag, 52) as int;
    if e == 0 {
        vstd::arithmetic::power2::lemma_pow2_strictly_increases(53, 1074);
        vstd::arithmetic::power2::lemma_pow2_unfold(53);
        assert(pow2(52) * 0 == 0) by (nonlinear_arith);
    } else {
        let low = pow2((e - 1) as nat);
        vstd::arithmetic::power2::lemma_pow2_pos((e - 1) as nat);
        vstd::arithmetic::power2::lemma_pow2_unfold(e);
        assert(units == (pow2(52) + m) * low);
        assert(units > 0) by (nonlinear_arith)
            requires
                units == (pow2(52) + m) * low,
                pow2(52) > 0,
                low > 0,
        ;
        assert(mag > 0) by (nonlinear_arith)
            requires
                mag == pow2(52) * e + m,
                e > 0,
                pow2(52) > 0,
        ;
        // Twice the units lie from 2^(52 + e) up to 2^(53 + e).
        vstd::arithmetic::power2::lemma_pow2_adds(52, e);
        vstd::arithmetic::power2::lemma_pow2_adds(53, e);
        vstd::arithmetic::power2::lemma_pow2_unfold(53);
        assert(pow2(52) * pow2(e) <= 2 * units < pow2(53) * pow2(e)) by (nonlinear_arith)
            requires
                units == (pow2(52) + m) * low,
                pow2(e) == 2 * low,
                pow2(53) == 2 * pow2(52),
                m < pow2(52),
                low > 0,
        ;
        if e < 1022 {
            if 53 + e < 1074 {
                vstd::arithmetic::power2::lemma_pow2_strictly_increases(53 + e, 1074);
            }
            assert(2 * units < one());
        } else {
            vstd::arithmetic::power2::lemma_pow2_unfold(1075);
            assert(2 * units >= one());
            assert(2 * units < 2 * one());
        }
    }
    vstd::arithmetic::div_mod::lemma_fundamental_div_mod_converse(units, one(), 0, units);
}

/// From 1 to 2^52: a part of the fraction lies behind the point.
proof fn lemma_middle(mag: nat, e: nat, sig: nat, k: nat)
    requires
        e == mag / pow2(52),
        sig == pow2(52) + mag % pow2(52),
        1023 <= e < 1075,
        k == 1075 - e,
    ensures
        ({
            let units = bits::magnitude_units(mag, 52) as int;
            let part = pow2(k) as int;
            &&& units / one() == sig as int / part
            &&& units % one() > 0 <==> sig as int % part > 0
            &&& 2 * (units % one()) >= one() <==> 2 * (sig as int % part) >= part
        }),
{
    let low = pow2((e - 1) as nat) as int;
    let part = pow2(k) as int;
    vstd::arithmetic::power2::lemma_pow2_pos((e - 1) as nat);
    vstd::arithmetic::power2::lemma_pow2_pos(k);
    vstd::arithmetic::power2::lemma_pow2_adds((e - 1) as nat, k);
    let units = bits::magnitude_units(mag, 52) as int;
    assert(units == sig * low);
    assert(units == low * sig) by (nonlinear_arith)
        requires
            units == sig * low,
    ;
    assert(one() == low * part);
    vstd::arithmetic::div_mod::lemma_div_multiples_vanish_quotient(low, sig as int, part);
    vstd::arithmetic::div_mod::lemma_truncate_middle(sig as int, low, part);
    let rest = sig as int % part;
    vstd::arithmetic::div_mod::lemma_mod_bound(sig as int, part);
    assert(units % one() == low * rest);
    assert(low * rest > 0 <==> rest > 0) by (nonlinear_arith)
        requires
            low > 0,
            rest >= 0,
    ;
    assert(2 * (low * rest) >= low * part <==> 2 * rest >= part) by (nonlinear_arith)
        requires
            low > 0,
    ;
}

/// From 2^52 on: a whole number.
proof fn lemma_large(mag: nat, e: nat, sig: nat, k: nat)
    requires
        e == mag / pow2(52),
        sig == pow2(52) + mag % pow2(52),
        e >= 1075,
        k == e - 1075,
    ensures
        ({
            let units = bits::magnitude_units(mag, 52) as int;
            &&& units / one() == sig * pow2(k)
            &&& units % one() == 0
            &&& one() > 0
        }),
{
    vstd::arithmetic::power2::lemma_pow2_pos(1074);
    vstd::arithmetic::power2::lemma_pow2_adds(k, 1074);
    let units = bits::magnitude_units(mag, 52) as int;
    let whole = sig * pow2(k);
    assert(units == whole * one()) by (nonlinear_arith)
        requires
            units == sig * pow2((e - 1) as nat),
            pow2((e - 1) as nat) == pow2(k) * one(),
            whole == sig * pow2(k),
    ;
    vstd::arithmetic::div_mod::lemma_fundamental_div_mod_converse(units, one(), whole as int, 0);
}

/// 2 to the power of `k`.
fn power(k: u64) -> (p: u64)
    requires
        k < 64,
    ensures
        p == pow2(k as nat),
{
    proof {
        vstd::bits::lemma_u64_pow2_no_overflow(k as nat);
        vstd::bits::lemma_u64_shl_is_mul(1, k);
    }
    1u64 << k
}

fn split(mag: u64) -> (split: Split)
    requires
        mag <= F64_INF,
    ensures
        splits_into(mag as nat, split),
{
    proof {
        vstd::arithmetic::power2::lemma2_to64_rest();
        assert(pow2(52) == 0x10_0000_0000_0000);
    }
    let e: u64 = mag / 0x10_0000_0000_0000;
    let m: u64 = mag % 0x10_0000_0000_0000;
    if e < 1023 {
        proof {
            lemma_small(mag as nat, e as nat, m as nat);
        }
        return Split { whole: 0, half: e == 1022, rest: mag > 0 };
    }
    let sig: u64 = 0x10_0000_0000_0000 + m;
    if e < 1075 {
        let part: u64 = power(1075 - e);
        proof {
            lemma_middle(mag as nat, e as nat, sig as nat, (1075 - e) as nat);
            lemma_part_bound(sig, part, (1075 - e) as nat);
        }
        let rest: u64 = sig % part;
        return Split { whole: sig / part, half: rest >= part - rest, rest: rest > 0 };
    }
    proof {
        lemma_large(mag as nat, e as nat, sig as nat, (e - 1075) as nat);
    }
    if e - 1075 <= 11 {
        let p: u64 = power(e - 1075);
        proof {
            lemma_product_bound(sig, p, (e - 1075) as nat);
        }
        Split { whole: sig * p, half: false, rest: false }
    } else {
        proof {
            lemma_product_over(sig, (e - 1075) as nat);
        }
        Split { whole: u64::MAX, half: false, rest: false }
    }
}

proof fn lemma_part_bound(sig: u64, part: u64, k: nat)
    requires
        sig < 0x20_0000_0000_0000,
        k >= 1,
        part == pow2(k),
    ensures
        part >= 2,
        0 <= sig / part < 0x10_0000_0000_0000,
{
    vstd::arithmetic::power2::lemma_pow2_pos((k - 1) as nat);
    vstd::arithmetic::power2::lemma_pow2_unfold(k);
    vstd::arithmetic::div_mod::lemma_fundamental_div_mod(sig as int, part as int);
    vstd::arithmetic::div_mod::lemma_mod_bound(sig as int, part as int);
    let q = sig as int / part as int;
    assert(q < 0x10_0000_0000_0000) by (nonlinear_arith)
        requires
            sig < 0x20_0000_0000_0000,
            sig >= part * q,
            part >= 2,
    ;
}

proof fn lemma_product_bound(sig: u64, p: u64, k: nat)
    requires
        sig < 0x20_0000_0000_0000,
        k <= 11,
        p == pow2(k),
    ensures
        0 <= sig * p <= u64::MAX,
{
    vstd::arithmetic::power2::lemma2_to64();
    if k < 11 {
        vstd::arithmetic::power2::lemma_pow2_strictly_increases(k, 11);
    }
    assert(sig * p <= 0x1f_ffff_ffff_ffff * 2048) by (nonlinear_arith)
        requires
            sig <= 0x1f_ffff_ffff_ffff,
            p <= 2048,
    ;
}

proof fn lemma_product_over(sig: u64, k: nat)
    requires
        sig >= 0x10_0000_0000_0000,
        k >= 12,
    ensures
        sig * pow2(k) > u64::MAX,
{
    vstd::arithmetic::power2::lemma2_to64();
    if k > 12 {
        vstd::arithmetic::power2::lemma_pow2_strictly_increases(12, k);
    }
    let p = pow2(k);
    assert(sig * p >= 0x10_0000_0000_0000 * 4096) by (nonlinear_arith)
        requires
            sig >= 0x10_0000_0000_0000,
            p >= 4096,
    ;
}

/// Rounding up, and to the nearest, from the whole part and the rest.
proof fn lemma_rounding(units: int)
    requires
        units >= 0,
    ensures
        one() > 0,
        -((-units) / one()) == units / one() + (if units % one() > 0 { 1int } else { 0int }),
        (2 * units + one()) / (2 * one()) == units / one() + (if 2 * (units % one()) >= one() {
            1int
        } else {
            0int
        }),
        units / one() >= 0,
{
    vstd::arithmetic::power2::lemma_pow2_pos(1074);
    let o = one();
    let q = units / o;
    let r = units % o;
    vstd::arithmetic::div_mod::lemma_fundamental_div_mod(units, o);
    vstd::arithmetic::div_mod::lemma_mod_bound(units, o);
    vstd::arithmetic::div_mod::lemma_div_pos_is_pos(units, o);
    if r == 0 {
        assert(-units == (-q) * o + 0) by (nonlinear_arith)
            requires
                units == o * q + r,
                r == 0,
        ;
        vstd::arithmetic::div_mod::lemma_fundamental_div_mod_converse(-units, o, -q, 0);
    } else {
        assert(-units == (-q - 1) * o + (o - r)) by (nonlinear_arith)
            requires
                units == o * q + r,
        ;
        vstd::arithmetic::div_mod::lemma_fundamental_div_mod_converse(-units, o, -q - 1, o - r);
    }
    if 2 * r >= o {
        assert(2 * units + o == (q + 1) * (2 * o) + (2 * r - o)) by (nonlinear_arith)
            requires
                units == o * q + r,
        ;
        vstd::arithmetic::div_mod::lemma_fundamental_div_mod_converse(
            2 * units + o,
            2 * o,
            q + 1,
            2 * r - o,
        );
    } else {
        assert(2 * units + o == q * (2 * o) + (2 * r + o)) by (nonlinear_arith)
            requires
                units == o * q + r,
        ;
        vstd::arithmetic::div_mod::lemma_fundamental_div_mod_converse(
            2 * units + o,
            2 * o,
            q,
            2 * r + o,
        );
    }
}

/// A double at or below zero is worth no more than nothing.
proof fn lemma_not_positive(x: u64)
    requires
        x >= F64_SIGN,
    ensures
        floor_of(x) <= 0,
        ceil_of(x) <= 0,
        floor_of(x) == 0 ==> bits::f64_units(x) == 0,
{
    let units = -bits::f64_units(x);
    lemma_rounding(units);
    vstd::arithmetic::power2::lemma_pow2_pos(1074);
    let o = one();
    vstd::arithmetic::div_mod::lemma_fundamental_div_mod(-units, o);
    vstd::arithmetic::div_mod::lemma_mod_bound(-units, o);
    let q = (-units) / o;
    let r = (-units) % o;
    assert(q <= 0 && (q == 0 ==> units == 0)) by (nonlinear_arith)
        requires
            -units == o * q + r,
            units >= 0,
            0 <= r < o,
    ;
}

fn count(n: u64, one_more: bool) -> (out: u64)
    ensures
        out == limited(n + (if one_more { 1int } else { 0int }), u64::MAX as int),
{
    if one_more && n < u64::MAX {
        n + 1
    } else {
        n
    }
}

fn limit(n: u64) -> (out: usize)
    ensures
        out == limited(n as int, usize::MAX as int),
{
    if n > usize::MAX as u64 {
        usize::MAX
    } else {
        n as usize
    }
}

/// A double without what stands behind the point, limited to `max`; 0 where it is negative or
/// not a number.
pub open spec fn truncated(x: u64, max: int) -> int {
    if bits::f64_nan(x) {
        0
    } else {
        limited(floor_of(x), max)
    }
}

/// A double rounded up, limited to `max`; 0 where it is negative or not a number.
pub open spec fn raised(x: u64, max: int) -> int {
    if bits::f64_nan(x) {
        0
    } else {
        limited(ceil_of(x), max)
    }
}

/// A double rounded to the nearest whole number, halves up, limited to `max`; 0 where it is
/// negative or not a number.
pub open spec fn rounded(x: u64, max: int) -> int {
    if bits::f64_nan(x) || x >= F64_SIGN {
        0
    } else {
        limited(round_of(x), max)
    }
}

/// Truncates a double.
pub fn trunc(x: u64) -> (n: usize)
    ensures
        n == truncated(x, usize::MAX as int),
{
    if x >= F64_SIGN {
        proof {
            lemma_not_positive(x);
        }
        return 0;
    }
    if x > F64_INF {
        return 0;
    }
    let s: Split = split(x);
    proof {
        lemma_rounding(bits::f64_units(x));
    }
    limit(s.whole)
}

/// Rounds a double up.
pub fn ceil(x: u64) -> (n: u64)
    ensures
        n == raised(x, u64::MAX as int),
{
    if x >= F64_SIGN {
        proof {
            lemma_not_positive(x);
        }
        return 0;
    }
    if x > F64_INF {
        return 0;
    }
    let s: Split = split(x);
    proof {
        lemma_rounding(bits::f64_units(x));
    }
    count(s.whole, s.rest)
}

/// Rounds a double up, to a number of elements.
pub fn ceil_len(x: u64) -> (n: usize)
    ensures
        n == raised(x, usize::MAX as int),
{
    limit(ceil(x))
}

/// Rounds a double to the nearest whole number.
pub fn round(x: u64) -> (n: usize)
    ensures
        n == rounded(x, usize::MAX as int),
{
    if x >= F64_SIGN || x > F64_INF {
        return 0;
    }
    let s: Split = split(x);
    proof {
        lemma_rounding(bits::f64_units(x));
    }
    limit(count(s.whole, s.half))
}

pub proof fn lemma_zero()
    ensures
        floor_of(0) == 0,
{
    vstd::arithmetic::power2::lemma_pow2_pos(52);
    vstd::arithmetic::div_mod::lemma_fundamental_div_mod_converse(0, pow2(52) as int, 0, 0);
    assert(bits::f64_units(0) == 0);
    vstd::arithmetic::power2::lemma_pow2_pos(1074);
    vstd::arithmetic::div_mod::lemma_fundamental_div_mod_converse(0, one(), 0, 0);
}

/// None of the three changes the order of two numbers.
pub proof fn law_conversion_is_monotone(a: u64, b: u64, max: int)
    requires
        bits::le64(a, b),
        max >= 0,
    ensures
        truncated(a, max) <= truncated(b, max),
        raised(a, max) <= raised(b, max),
        rounded(a, max) <= rounded(b, max),
{
    bits::law_f64_key_orders_by_value(a, b);
    vstd::arithmetic::power2::lemma_pow2_pos(1074);
    let (ua, ub) = (bits::f64_units(a), bits::f64_units(b));
    vstd::arithmetic::div_mod::lemma_div_is_ordered(ua, ub, one());
    vstd::arithmetic::div_mod::lemma_div_is_ordered(-ub, -ua, one());
    vstd::arithmetic::div_mod::lemma_div_is_ordered(2 * ua + one(), 2 * ub + one(), 2 * one());
    if b >= F64_SIGN && a < F64_SIGN {
        // Both are zero.
        assert(ua == 0);
        lemma_rounding(0);
        assert(0int / one() == 0) by (nonlinear_arith)
            requires
                one() > 0,
        ;
        assert(0int % one() == 0) by (nonlinear_arith)
            requires
                one() > 0,
        ;
    }
}

/// A number rounded up is not below the number truncated.
pub proof fn law_truncated_is_below_raised(x: u64, max: int)
    requires
        max >= 0,
    ensures
        truncated(x, max) <= raised(x, max),
{
    law_floor_and_ceil_enclose(x);
    vstd::arithmetic::power2::lemma_pow2_pos(1074);
    let (f, c, o) = (floor_of(x), ceil_of(x), one());
    assert(f <= c) by (nonlinear_arith)
        requires
            f * o <= c * o,
            o > 0,
    ;
}

/// A double lies between its floor and its ceiling, less than one apart from each.
pub proof fn law_floor_and_ceil_enclose(x: u64)
    ensures
        floor_of(x) * one() <= bits::f64_units(x) <= ceil_of(x) * one(),
        bits::f64_units(x) < (floor_of(x) + 1) * one(),
        (ceil_of(x) - 1) * one() < bits::f64_units(x),
{
    vstd::arithmetic::power2::lemma_pow2_pos(1074);
    let o = one();
    let u = bits::f64_units(x);
    vstd::arithmetic::div_mod::lemma_fundamental_div_mod(u, o);
    vstd::arithmetic::div_mod::lemma_mod_bound(u, o);
    vstd::arithmetic::div_mod::lemma_fundamental_div_mod(-u, o);
    vstd::arithmetic::div_mod::lemma_mod_bound(-u, o);
    let q = u / o;
    let c = (-u) / o;
    assert(q * o <= u < (q + 1) * o) by (nonlinear_arith)
        requires
            u == o * q + u % o,
            0 <= u % o < o,
    ;
    assert((-c - 1) * o < u <= -c * o) by (nonlinear_arith)
        requires
            -u == o * c + (-u) % o,
            0 <= (-u) % o < o,
    ;
}

/// A number that is not negative is rounded to the nearest whole number, halves up.
pub proof fn law_rounding_goes_to_the_nearest(x: u64)
    requires
        x < F64_SIGN,
    ensures
        2 * bits::f64_units(x) - one() < 2 * round_of(x) * one() <= 2 * bits::f64_units(x) + one(),
{
    vstd::arithmetic::power2::lemma_pow2_pos(1074);
    let (u, o) = (bits::f64_units(x), one());
    vstd::arithmetic::div_mod::lemma_fundamental_div_mod(2 * u + o, 2 * o);
    vstd::arithmetic::div_mod::lemma_mod_bound(2 * u + o, 2 * o);
    let q = (2 * u + o) / (2 * o);
    let r = (2 * u + o) % (2 * o);
    assert(2 * q * o == 2 * u + o - r) by (nonlinear_arith)
        requires
            2 * u + o == 2 * o * q + r,
    ;
}

/// Whole numbers are converted to themselves, whichever way, as far as `max` goes; more is
/// limited to `max`. Negative numbers and what is not a number give 0.
pub proof fn law_whole_numbers_stay(x: u64, n: int, max: int)
    requires
        !bits::f64_nan(x),
        bits::f64_units(x) == n * one(),
        max >= 0,
    ensures
        0 <= n <= max ==> truncated(x, max) == n && raised(x, max) == n && rounded(x, max) == n,
        n > max ==> truncated(x, max) == max && raised(x, max) == max && rounded(x, max) == max,
        n < 0 ==> truncated(x, max) == 0 && raised(x, max) == 0 && rounded(x, max) == 0,
{
    vstd::arithmetic::power2::lemma_pow2_pos(1074);
    let o = one();
    vstd::arithmetic::div_mod::lemma_fundamental_div_mod_converse(n * o, o, n, 0);
    assert(-(n * o) == (-n) * o) by (nonlinear_arith);
    vstd::arithmetic::div_mod::lemma_fundamental_div_mod_converse(-(n * o), o, -n, 0);
    assert(2 * (n * o) + o == n * (2 * o) + o) by (nonlinear_arith);
    vstd::arithmetic::div_mod::lemma_fundamental_div_mod_converse(
        2 * (n * o) + o,
        2 * o,
        n,
        o,
    );
    if x >= F64_SIGN {
        assert(n <= 0) by (nonlinear_arith)
            requires
                n * o <= 0,
                o > 0,
        ;
    } else {
        assert(n >= 0) by (nonlinear_arith)
            requires
                n * o >= 0,
                o > 0,
        ;
    }
}

/// Any number is converted to the whole number before it, after it or nearest to it, as far as
/// `max` goes; what is not a number gives 0.
pub proof fn law_conversions_stay_within_one(x: u64, max: int)
    requires
        max >= 0,
    ensures
        bits::f64_nan(x) ==> truncated(x, max) == 0 && raised(x, max) == 0 && rounded(x, max) == 0,
        !bits::f64_nan(x) && 0 <= bits::f64_units(x) < max * one() ==> {
            &&& truncated(x, max) * one() <= bits::f64_units(x) < (truncated(x, max) + 1) * one()
            &&& (raised(x, max) - 1) * one() < bits::f64_units(x) <= raised(x, max) * one()
        },
        !bits::f64_nan(x) && bits::f64_units(x) < 0 ==> truncated(x, max) == 0 && raised(x, max)
            == 0 && rounded(x, max) == 0,
{
    law_floor_and_ceil_enclose(x);
    vstd::arithmetic::power2::lemma_pow2_pos(1074);
    let (u, o, f, c) = (bits::f64_units(x), one(), floor_of(x), ceil_of(x));
    if u >= 0 && u < max * o {
        assert(0 <= f <= max && 0 <= c <= max) by (nonlinear_arith)
            requires
                f * o <= u < (f + 1) * o,
                (c - 1) * o < u <= c * o,
                0 <= u < max * o,
                o > 0,
        ;
    }
    if u < 0 {
        assert(f < 0 && c <= 0) by (nonlinear_arith)
            requires
                f * o <= u,
                (c - 1) * o < u,
                u < 0,
                o > 0,
        ;
    }
}

/// 1 is worth as much as the double with its bit pattern.
pub proof fn law_one_is_one()
    ensures
        bits::f64_units(0x3ff0_0000_0000_0000) == one(),
{
    vstd::arithmetic::power2::lemma2_to64_rest();
    vstd::arithmetic::power2::lemma_pow2_adds(52, 1022);
    vstd::arithmetic::power2::lemma_pow2_pos(52);
    assert(pow2(52) == 0x10_0000_0000_0000);
    vstd::arithmetic::div_mod::lemma_fundamental_div_mod_converse(
        0x3ff0_0000_0000_0000,
        pow2(52) as int,
        1023,
        0,
    );
}

pub proof fn lemma_round_fits(x: u64, max: int)
    requires
        x < F64_SIGN,
        !bits::f64_nan(x),
        2 * bits::f64_units(x) < 2 * max * one() - one(),
    ensures
        rounded(x, max) == round_of(x),
        0 <= round_of(x) <= max,
{
    law_rounding_goes_to_the_nearest(x);
    vstd::arithmetic::power2::lemma_pow2_pos(1074);
    let (u, o, r) = (bits::f64_units(x), one(), round_of(x));
    assert(r <= max) by (nonlinear_arith)
        requires
            2 * r * o <= 2 * u + o,
            2 * u < 2 * max * o - o,
            o > 0,
    ;
    assert(r >= 0) by (nonlinear_arith)
        requires
            2 * u - o < 2 * r * o,
            u >= 0,
            o > 0,
    ;
}

pub proof fn lemma_round_zero(max: int)
    requires
        max >= 0,
    ensures
        rounded(0, max) == 0,
{
    lemma_zero();
    vstd::arithmetic::power2::lemma_pow2_pos(52);
    vstd::arithmetic::div_mod::lemma_fundamental_div_mod_converse(0, pow2(52) as int, 0, 0);
    vstd::arithmetic::power2::lemma_pow2_pos(1074);
    law_whole_numbers_stay(0, 0, max);
}

pub proof fn lemma_one_is_positive()
    ensures
        one() > 0,
{
    vstd::arithmetic::power2::lemma_pow2_pos(1074);
}

} // verus!
