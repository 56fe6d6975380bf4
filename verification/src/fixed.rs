//! Fixed-point numbers: an `i64` that counts 65536ths. Sums, products and quotients are
//! rounded down to the next 65536th and saturate at the ends of `i64`.

use vstd::prelude::*;
use crate::arith::{clamp, floor_div, floor_quotient, lemma_floor_div_bounds, saturate};

verus! {

/// The number one.
pub const ONE: i64 = 65536;

/// The sum of two numbers.
pub open spec fn sum_of(a: i64, b: i64) -> i64 {
    clamp(a + b) as i64
}

/// The product of two numbers.
pub open spec fn product_of(a: i64, b: i64) -> i64 {
    clamp(floor_div(a * b, ONE as int)) as i64
}

/// The quotient of a number by a positive number.
pub open spec fn quotient_of(a: i64, b: i64) -> i64 {
    clamp(floor_div(a * ONE, b as int)) as i64
}

/// The arithmetic mean of two numbers.
pub open spec fn mean_of(a: i64, b: i64) -> i64 {
    floor_div(a + b, 2) as i64
}

/// The sum of two numbers.
pub fn sum(a: i64, b: i64) -> (c: i64)
    ensures
        c == sum_of(a, b),
{
    saturate(a as i128 + b as i128)
}

/// The product of two numbers.
pub fn product(a: i64, b: i64) -> (c: i64)
    ensures
        c == product_of(a, b),
{
    assert(-0x4000_0000_0000_0000_0000_0000_0000_0000 <= a as int * b as int
        <= 0x4000_0000_0000_0000_0000_0000_0000_0000) by (nonlinear_arith)
        requires
            -0x8000_0000_0000_0000 <= a as int <= 0x7fff_ffff_ffff_ffff,
            -0x8000_0000_0000_0000 <= b as int <= 0x7fff_ffff_ffff_ffff,
    ;
    saturate(floor_quotient(a as i128 * b as i128, ONE as i128))
}

/// The quotient of a number by a positive number.
pub fn quotient(a: i64, b: i64) -> (c: i64)
    requires
        b > 0,
    ensures
        c == quotient_of(a, b),
{
    assert(-0x1_0000_0000_0000_0000_0000 <= a as int * ONE as int
        <= 0x1_0000_0000_0000_0000_0000) by (nonlinear_arith)
        requires
            ONE as int == 65536,
            -0x8000_0000_0000_0000 <= a as int <= 0x7fff_ffff_ffff_ffff,
    ;
    saturate(floor_quotient(a as i128 * ONE as i128, b as i128))
}

/// The arithmetic mean of two numbers.
pub fn mean(a: i64, b: i64) -> (c: i64)
    ensures
        c == mean_of(a, b),
{
    let half = floor_quotient(a as i128 + b as i128, 2);
    half as i64
}

/// Sums, products, quotients and means of numbers that are not negative are not negative.
pub proof fn lemma_nonnegative(a: i64, b: i64)
    requires
        a >= 0,
        b >= 0,
    ensures
        sum_of(a, b) >= 0,
        product_of(a, b) >= 0,
        b > 0 ==> quotient_of(a, b) >= 0,
        mean_of(a, b) >= 0,
{
    assert(a as int * b as int >= 0) by (nonlinear_arith)
        requires
            a >= 0,
            b >= 0,
    ;
    lemma_floor_div_bounds(a as int * b as int, ONE as int);
    if b > 0 {
        lemma_floor_div_bounds(a as int * ONE as int, b as int);
    }
    lemma_floor_div_bounds(a as int + b as int, 2);
}

} // verus!
