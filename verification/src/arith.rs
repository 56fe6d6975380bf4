//! Division of integers with a stated rounding.

use vstd::prelude::*;

verus! {

/// The quotient of `n` by a positive `d`, rounded down.
pub open spec fn floor_div(n: int, d: int) -> int {
    n / d
}

/// The quotient of `n` by a positive `d`, rounded up.
pub open spec fn ceil_div(n: int, d: int) -> int {
    -((-n) / d)
}

/// The value nearest to `x` that an `i64` can hold.
pub open spec fn clamp(x: int) -> int {
    if x < i64::MIN {
        i64::MIN as int
    } else if x > i64::MAX {
        i64::MAX as int
    } else {
        x
    }
}

/// `floor_div(n, d)` is the greatest `t` with `d * t <= n`, and `ceil_div(n, d)` the least
/// with `d * t >= n`.
pub proof fn lemma_floor_div(n: int, d: int, t: int)
    requires
        d > 0,
    ensures
        d * t <= n <==> t <= floor_div(n, d),
        d * t >= n <==> t >= ceil_div(n, d),
{
    let q = n / d;
    let r = n % d;
    vstd::arithmetic::div_mod::lemma_fundamental_div_mod(n, d);
    assert(n == d * q + r && 0 <= r < d);
    assert(d * t <= n <==> t <= q) by (nonlinear_arith)
        requires
            d > 0,
            n == d * q + r,
            0 <= r < d,
    ;
    let q2 = (-n) / d;
    let r2 = (-n) % d;
    vstd::arithmetic::div_mod::lemma_fundamental_div_mod(-n, d);
    assert(-n == d * q2 + r2 && 0 <= r2 < d);
    assert(d * t >= n <==> t >= -q2) by (nonlinear_arith)
        requires
            d > 0,
            -n == d * q2 + r2,
            0 <= r2 < d,
    ;
}

/// A quotient rounded down lies between zero and the dividend.
pub proof fn lemma_floor_div_bounds(n: int, d: int)
    requires
        d > 0,
    ensures
        n >= 0 ==> 0 <= floor_div(n, d) <= n,
        n < 0 ==> n <= floor_div(n, d) < 0,
{
    lemma_floor_div(n, d, 0);
    lemma_floor_div(n, d, n);
    lemma_floor_div(n, d, n + 1);
    assert(n < 0 ==> d * n <= n) by (nonlinear_arith)
        requires
            d > 0,
    ;
    assert(n >= 0 ==> d * (n + 1) > n) by (nonlinear_arith)
        requires
            d > 0,
    ;
    assert(d * 0 == 0);
}

/// `n / d` rounded down, for a positive `d`.
pub fn floor_quotient(n: i128, d: i128) -> (q: i128)
    requires
        0 < d <= 0x4000_0000_0000_0000_0000_0000_0000_0000,
        -0x4000_0000_0000_0000_0000_0000_0000_0000 <= n,
        n <= 0x4000_0000_0000_0000_0000_0000_0000_0000,
    ensures
        q == floor_div(n as int, d as int),
        n >= 0 ==> 0 <= q <= n,
        n < 0 ==> n <= q < 0,
{
    proof {
        lemma_floor_div_bounds(n as int, d as int);
    }
    if n >= 0 {
        n / d
    } else {
        let up: i128 = ((-n) + (d - 1)) / d;
        proof {
            let ni = n as int;
            let di = d as int;
            assert(-(((-ni) + (di - 1)) / di) == ni / di) by (nonlinear_arith)
                requires
                    di > 0,
                    ni < 0,
            ;
        }
        -up
    }
}

/// `n / d` rounded up, for a positive `d`.
pub fn ceil_quotient(n: i128, d: i128) -> (q: i128)
    requires
        0 < d <= 0x4000_0000_0000_0000_0000_0000_0000_0000,
        -0x4000_0000_0000_0000_0000_0000_0000_0000 <= n,
        n <= 0x4000_0000_0000_0000_0000_0000_0000_0000,
    ensures
        q == ceil_div(n as int, d as int),
        n > 0 ==> 0 < q <= n,
        n <= 0 ==> n <= q <= 0,
{
    -floor_quotient(-n, d)
}

/// The value nearest to `x` that an `i64` can hold.
pub fn saturate(x: i128) -> (y: i64)
    ensures
        y == clamp(x as int),
{
    if x < i64::MIN as i128 {
        i64::MIN
    } else if x > i64::MAX as i128 {
        i64::MAX
    } else {
        x as i64
    }
}

} // verus!
