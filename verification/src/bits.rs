//! IEEE bit patterns as plain integers: which ones are numbers, how they are ordered, and
//! what they are worth.
//!
//! A pattern is a sign bit above a magnitude. Two numbers compare as their signed magnitudes
//! do, which is what `f64_key` and `f32_key` compute.

use vstd::prelude::*;
use vstd::arithmetic::power2::pow2;

verus! {

/// Sign bit of a double.
pub const F64_SIGN: u64 = 0x8000_0000_0000_0000;

/// Magnitude of a double infinity. Larger magnitudes are not numbers.
pub const F64_INF: u64 = 0x7ff0_0000_0000_0000;

/// Sign bit of a single.
pub const F32_SIGN: u32 = 0x8000_0000;

/// Magnitude of a single infinity. Larger magnitudes are not numbers.
pub const F32_INF: u32 = 0x7f80_0000;

/// The bits below the sign bit of a double.
pub open spec fn f64_magnitude(x: u64) -> u64 {
    if x >= F64_SIGN {
        (x - F64_SIGN) as u64
    } else {
        x
    }
}

/// The bits below the sign bit of a single.
pub open spec fn f32_magnitude(x: u32) -> u32 {
    if x >= F32_SIGN {
        (x - F32_SIGN) as u32
    } else {
        x
    }
}

pub open spec fn f64_nan(x: u64) -> bool {
    f64_magnitude(x) > F64_INF
}

pub open spec fn f32_nan(x: u32) -> bool {
    f32_magnitude(x) > F32_INF
}

/// Signed magnitude of a double: both zeros give 0.
pub open spec fn f64_key_of(x: u64) -> int {
    if x >= F64_SIGN {
        -(f64_magnitude(x) as int)
    } else {
        f64_magnitude(x) as int
    }
}

/// Signed magnitude of a single: both zeros give 0.
pub open spec fn f32_key_of(x: u32) -> int {
    if x >= F32_SIGN {
        -(f32_magnitude(x) as int)
    } else {
        f32_magnitude(x) as int
    }
}

/// `a <= b` on doubles; false when either is not a number.
pub open spec fn le64(a: u64, b: u64) -> bool {
    !f64_nan(a) && !f64_nan(b) && f64_key_of(a) <= f64_key_of(b)
}

/// `a < b` on doubles; false when either is not a number.
pub open spec fn lt64(a: u64, b: u64) -> bool {
    !f64_nan(a) && !f64_nan(b) && f64_key_of(a) < f64_key_of(b)
}

/// The greater of two singles; one that is not a number loses to one that is.
pub open spec fn max32(a: u32, b: u32) -> u32 {
    if f32_nan(a) {
        b
    } else if f32_nan(b) {
        a
    } else if f32_key_of(a) < f32_key_of(b) {
        b
    } else {
        a
    }
}

/// The greater of two doubles; one that is not a number loses to one that is.
pub open spec fn max64(a: u64, b: u64) -> u64 {
    if f64_nan(a) {
        b
    } else if f64_nan(b) {
        a
    } else if f64_key_of(a) < f64_key_of(b) {
        b
    } else {
        a
    }
}

/// The lesser of two doubles; one that is not a number loses to one that is.
pub open spec fn min64(a: u64, b: u64) -> u64 {
    if f64_nan(a) {
        b
    } else if f64_nan(b) {
        a
    } else if f64_key_of(b) < f64_key_of(a) {
        b
    } else {
        a
    }
}

/// A double limited to a range; one that is not a number stays as it is.
pub open spec fn clamp64(x: u64, lo: u64, hi: u64) -> u64 {
    if lt64(x, lo) {
        lo
    } else if lt64(hi, x) {
        hi
    } else {
        x
    }
}

/// What a magnitude is worth, in units of the smallest positive number of a format with
/// `frac_bits` fraction bits. An infinity gets the value that follows the largest finite one.
pub open spec fn magnitude_units(mag: nat, frac_bits: nat) -> nat {
    let one = pow2(frac_bits);
    let exponent = mag / one;
    let fraction = mag % one;
    if exponent == 0 {
        fraction
    } else {
        (one + fraction) * pow2((exponent - 1) as nat)
    }
}

/// What a double is worth, in units of the smallest positive double.
pub open spec fn f64_units(x: u64) -> int {
    let units = magnitude_units(f64_magnitude(x) as nat, 52) as int;
    if x >= F64_SIGN {
        -units
    } else {
        units
    }
}

/// What a single is worth, in units of the smallest positive single.
pub open spec fn f32_units(x: u32) -> int {
    let units = magnitude_units(f32_magnitude(x) as nat, 23) as int;
    if x >= F32_SIGN {
        -units
    } else {
        units
    }
}

/// Signed magnitude of a double, by which doubles are ordered.
pub fn f64_key(x: u64) -> (key: i64)
    ensures
        key == f64_key_of(x),
{
    if x >= F64_SIGN {
        -((x - F64_SIGN) as i64)
    } else {
        x as i64
    }
}

/// Signed magnitude of a single, by which singles are ordered.
pub fn f32_key(x: u32) -> (key: i32)
    ensures
        key == f32_key_of(x),
{
    if x >= F32_SIGN {
        -((x - F32_SIGN) as i32)
    } else {
        x as i32
    }
}

/// Absolute value of a single.
pub fn f32_abs(x: u32) -> (abs: u32)
    ensures
        abs == f32_magnitude(x),
{
    if x >= F32_SIGN {
        x - F32_SIGN
    } else {
        x
    }
}

/// Whether a double is not a number.
pub fn f64_is_nan(x: u64) -> (nan: bool)
    ensures
        nan == f64_nan(x),
{
    if x >= F64_SIGN {
        x - F64_SIGN > F64_INF
    } else {
        x > F64_INF
    }
}

/// Whether a single is not a number.
pub fn f32_is_nan(x: u32) -> (nan: bool)
    ensures
        nan == f32_nan(x),
{
    f32_abs(x) > F32_INF
}

/// Whether a double is neither infinite nor not a number.
pub fn f64_is_finite(x: u64) -> (finite: bool)
    ensures
        finite == (f64_magnitude(x) < F64_INF),
{
    if x >= F64_SIGN {
        x - F64_SIGN < F64_INF
    } else {
        x < F64_INF
    }
}

/// `a <= b` on doubles.
pub fn f64_le(a: u64, b: u64) -> (le: bool)
    ensures
        le == le64(a, b),
{
    !f64_is_nan(a) && !f64_is_nan(b) && f64_key(a) <= f64_key(b)
}

/// `a < b` on doubles.
pub fn f64_lt(a: u64, b: u64) -> (lt: bool)
    ensures
        lt == lt64(a, b),
{
    !f64_is_nan(a) && !f64_is_nan(b) && f64_key(a) < f64_key(b)
}

/// The greater of two singles.
pub fn f32_max(a: u32, b: u32) -> (max: u32)
    ensures
        max == max32(a, b),
{
    if f32_is_nan(a) {
        b
    } else if f32_is_nan(b) {
        a
    } else if f32_key(a) < f32_key(b) {
        b
    } else {
        a
    }
}

/// The greater of two doubles.
pub fn f64_max(a: u64, b: u64) -> (max: u64)
    ensures
        max == max64(a, b),
{
    if f64_is_nan(a) {
        b
    } else if f64_is_nan(b) {
        a
    } else if f64_key(a) < f64_key(b) {
        b
    } else {
        a
    }
}

/// The lesser of two doubles.
pub fn f64_min(a: u64, b: u64) -> (min: u64)
    ensures
        min == min64(a, b),
{
    if f64_is_nan(a) {
        b
    } else if f64_is_nan(b) {
        a
    } else if f64_key(b) < f64_key(a) {
        b
    } else {
        a
    }
}

/// A double limited to a range.
pub fn f64_clamp(x: u64, lo: u64, hi: u64) -> (clamped: u64)
    requires
        le64(lo, hi),
    ensures
        clamped == clamp64(x, lo, hi),
        !f64_nan(x) ==> le64(lo, clamped) && le64(clamped, hi),
{
    if f64_lt(x, lo) {
        lo
    } else if f64_lt(hi, x) {
        hi
    } else {
        x
    }
}

/// The next magnitude up is worth strictly more.
proof fn lemma_magnitude_step(mag: nat, frac_bits: nat)
    ensures
        magnitude_units(mag, frac_bits) < magnitude_units(mag + 1, frac_bits),
{
    let one = pow2(frac_bits);
    vstd::arithmetic::power2::lemma_pow2_pos(frac_bits);
    let e = mag / one;
    let m = mag % one;
    vstd::arithmetic::div_mod::lemma_fundamental_div_mod(mag as int, one as int);
    vstd::arithmetic::div_mod::lemma_mod_bound(mag as int, one as int);
    if m + 1 < one {
        vstd::arithmetic::div_mod::lemma_fundamental_div_mod_converse(
            mag as int + 1,
            one as int,
            e as int,
            m as int + 1,
        );
        if e > 0 {
            let p = pow2((e - 1) as nat);
            vstd::arithmetic::power2::lemma_pow2_pos((e - 1) as nat);
            assert((one + m) * p < (one + m + 1) * p) by (nonlinear_arith)
                requires
                    p > 0,
            ;
        }
    } else {
        assert(mag as int + 1 == (e as int + 1) * one) by (nonlinear_arith)
            requires
                mag == one * e + m,
                m + 1 == one,
        ;
        vstd::arithmetic::div_mod::lemma_fundamental_div_mod_converse(
            mag as int + 1,
            one as int,
            e as int + 1,
            0,
        );
        if e > 0 {
            let p = pow2((e - 1) as nat);
            vstd::arithmetic::power2::lemma_pow2_pos((e - 1) as nat);
            vstd::arithmetic::power2::lemma_pow2_unfold(e);
            assert((one + m) * p < (one + 0) * (2 * p)) by (nonlinear_arith)
                requires
                    p > 0,
                    m < one,
            ;
        } else {
            vstd::arithmetic::power2::lemma2_to64();
            assert((one + 0) * 1 == one);
        }
    }
}

proof fn lemma_magnitude_monotone(a: nat, b: nat, frac_bits: nat)
    requires
        a < b,
    ensures
        magnitude_units(a, frac_bits) < magnitude_units(b, frac_bits),
    decreases b - a,
{
    lemma_magnitude_step(a, frac_bits);
    if a + 1 < b {
        lemma_magnitude_monotone(a + 1, b, frac_bits);
    }
}

proof fn lemma_magnitude_zero(frac_bits: nat)
    ensures
        magnitude_units(0, frac_bits) == 0,
{
    vstd::arithmetic::power2::lemma_pow2_pos(frac_bits);
    vstd::arithmetic::div_mod::lemma_fundamental_div_mod_converse(0, pow2(frac_bits) as int, 0, 0);
}

/// Doubles are ordered by their keys exactly as they are by what they are worth.
pub proof fn law_f64_key_orders_by_value(a: u64, b: u64)
    ensures
        f64_key_of(a) < f64_key_of(b) <==> f64_units(a) < f64_units(b),
        f64_key_of(a) == f64_key_of(b) <==> f64_units(a) == f64_units(b),
{
    let ma = f64_magnitude(a) as nat;
    let mb = f64_magnitude(b) as nat;
    lemma_magnitude_zero(52);
    if ma < mb {
        lemma_magnitude_monotone(ma, mb, 52);
    }
    if mb < ma {
        lemma_magnitude_monotone(mb, ma, 52);
    }
    if ma > 0 {
        lemma_magnitude_monotone(0, ma, 52);
    }
    if mb > 0 {
        lemma_magnitude_monotone(0, mb, 52);
    }
}

/// Singles are ordered by their keys exactly as they are by what they are worth.
pub proof fn law_f32_key_orders_by_value(a: u32, b: u32)
    ensures
        f32_key_of(a) < f32_key_of(b) <==> f32_units(a) < f32_units(b),
        f32_key_of(a) == f32_key_of(b) <==> f32_units(a) == f32_units(b),
{
    let ma = f32_magnitude(a) as nat;
    let mb = f32_magnitude(b) as nat;
    lemma_magnitude_zero(23);
    if ma < mb {
        lemma_magnitude_monotone(ma, mb, 23);
    }
    if mb < ma {
        lemma_magnitude_monotone(mb, ma, 23);
    }
    if ma > 0 {
        lemma_magnitude_monotone(0, ma, 23);
    }
    if mb > 0 {
        lemma_magnitude_monotone(0, mb, 23);
    }
}

/// A double is a sign, an exponent `e` and a fraction `m` of 52 bits. It is worth its fraction
/// where the exponent is 0, and otherwise the fraction with a one in front, doubled once for each
/// exponent after the first. With the sign it is worth the same below zero.
pub proof fn law_doubles_are_worth_sign_exponent_fraction(x: u64, e: nat, m: nat)
    requires
        e < 2048,
        m < 0x10_0000_0000_0000,
        x == e * 0x10_0000_0000_0000 + m,
    ensures
        x < 0x8000_0000_0000_0000,
        f64_units(x) == (if e == 0 {
            m as int
        } else {
            (0x10_0000_0000_0000 + m) * pow2((e - 1) as nat) as int
        }),
        f64_units((x + 0x8000_0000_0000_0000) as u64) == -f64_units(x),
        f64_nan(x) <==> e == 2047 && m > 0,
        f64_nan((x + 0x8000_0000_0000_0000) as u64) == f64_nan(x),
{
    vstd::arithmetic::power2::lemma2_to64_rest();
    assert(pow2(52) == 0x10_0000_0000_0000);
    vstd::arithmetic::div_mod::lemma_fundamental_div_mod_converse(
        x as int,
        pow2(52) as int,
        e as int,
        m as int,
    );
}

/// A single is a sign, an exponent `e` and a fraction `m` of 23 bits, worth what a double is in
/// the same way.
pub proof fn law_singles_are_worth_sign_exponent_fraction(x: u32, e: nat, m: nat)
    requires
        e < 256,
        m < 0x80_0000,
        x == e * 0x80_0000 + m,
    ensures
        x < 0x8000_0000,
        f32_units(x) == (if e == 0 {
            m as int
        } else {
            (0x80_0000 + m) * pow2((e - 1) as nat) as int
        }),
        f32_units((x + 0x8000_0000) as u32) == -f32_units(x),
        f32_nan(x) <==> e == 255 && m > 0,
        f32_nan((x + 0x8000_0000) as u32) == f32_nan(x),
        f32_magnitude(x) == x,
        f32_magnitude((x + 0x8000_0000) as u32) == x,
{
    vstd::arithmetic::power2::lemma2_to64();
    assert(pow2(23) == 0x80_0000);
    vstd::arithmetic::div_mod::lemma_fundamental_div_mod_converse(
        x as int,
        pow2(23) as int,
        e as int,
        m as int,
    );
}

/// Doubles compare by what they are worth; what is not a number compares with nothing.
pub proof fn law_doubles_compare_by_value(a: u64, b: u64)
    ensures
        le64(a, b) <==> !f64_nan(a) && !f64_nan(b) && f64_units(a) <= f64_units(b),
        lt64(a, b) <==> !f64_nan(a) && !f64_nan(b) && f64_units(a) < f64_units(b),
{
    law_f64_key_orders_by_value(a, b);
    law_f64_key_orders_by_value(b, a);
}

/// The greater and the lesser of two doubles are one of the two, and not exceeded, or undercut,
/// by either; what is not a number never wins against a number.
pub proof fn law_greater_and_lesser(a: u64, b: u64)
    ensures
        max64(a, b) == a || max64(a, b) == b,
        min64(a, b) == a || min64(a, b) == b,
        !f64_nan(a) ==> !f64_nan(max64(a, b)) && f64_units(max64(a, b)) >= f64_units(a),
        !f64_nan(b) ==> !f64_nan(max64(a, b)) && f64_units(max64(a, b)) >= f64_units(b),
        !f64_nan(a) ==> !f64_nan(min64(a, b)) && f64_units(min64(a, b)) <= f64_units(a),
        !f64_nan(b) ==> !f64_nan(min64(a, b)) && f64_units(min64(a, b)) <= f64_units(b),
{
    law_f64_key_orders_by_value(a, b);
    law_f64_key_orders_by_value(b, a);
}

/// The greater of two singles is one of the two and not exceeded by either; what is not a number
/// never wins against a number.
pub proof fn law_greater_single(a: u32, b: u32)
    ensures
        max32(a, b) == a || max32(a, b) == b,
        !f32_nan(a) ==> !f32_nan(max32(a, b)) && f32_units(max32(a, b)) >= f32_units(a),
        !f32_nan(b) ==> !f32_nan(max32(a, b)) && f32_units(max32(a, b)) >= f32_units(b),
{
    law_f32_key_orders_by_value(a, b);
    law_f32_key_orders_by_value(b, a);
}

/// Limiting a number brings it to the nearer end of the range if it lies outside, and leaves it
/// alone if it lies inside.
pub proof fn law_limited_number_is_nearest(x: u64, lo: u64, hi: u64)
    requires
        !f64_nan(x),
        !f64_nan(lo),
        !f64_nan(hi),
        f64_units(lo) <= f64_units(hi),
    ensures
        f64_units(x) < f64_units(lo) ==> clamp64(x, lo, hi) == lo,
        f64_units(x) > f64_units(hi) ==> clamp64(x, lo, hi) == hi,
        f64_units(lo) <= f64_units(x) <= f64_units(hi) ==> clamp64(x, lo, hi) == x,
{
    law_f64_key_orders_by_value(x, lo);
    law_f64_key_orders_by_value(hi, x);
    law_f64_key_orders_by_value(lo, hi);
    law_f64_key_orders_by_value(lo, x);
}

} // verus!
