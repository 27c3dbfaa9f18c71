//! Fixed-point real numbers.
//!
//! A [`Real`] counts millionths: the integer `1_500_000` stands for 1.5.
//! Results are cut toward zero to a whole number of millionths and held
//! within [`LIMIT`] on either side of zero.

use vstd::prelude::*;

verus! {

/// A real number, as a count of millionths.
pub type Real = i64;

/// The number one.
pub const UNIT: Real = 1_000_000;

/// The largest magnitude that arithmetic on reals gives: a million.
pub const LIMIT: Real = 1_000_000_000_000;

/// `x`, held within [`LIMIT`] on either side of zero.
pub open spec fn clamp(x: int) -> int {
    if x > LIMIT {
        LIMIT as int
    } else if x < -LIMIT {
        -LIMIT
    } else {
        x
    }
}

/// The magnitude of `x`.
pub open spec fn magnitude(x: int) -> int {
    if x < 0 {
        -x
    } else {
        x
    }
}

/// The quotient of `n` by a positive `d`, cut toward zero.
pub open spec fn quotient_toward_zero(n: int, d: int) -> int
    recommends
        d > 0,
{
    if n >= 0 {
        n / d
    } else {
        -((-n) / d)
    }
}

/// The product of two reals, as a real.
pub open spec fn product(a: int, b: int) -> int {
    clamp(quotient_toward_zero(a * b, UNIT as int))
}

/// Whether `r` is the least natural number whose square reaches `n`.
pub open spec fn is_root_above(n: int, r: int) -> bool {
    &&& r >= 0
    &&& r * r >= n
    &&& r == 0 || (r - 1) * (r - 1) < n
}

/// The square root of `n`, rounded up to a whole number.
pub open spec fn root_above(n: int) -> int {
    choose|r: int| is_root_above(n, r)
}

/// At most one number is the rounded-up square root of `n`.
pub proof fn lemma_root_above_unique(n: int, a: int, b: int)
    requires
        is_root_above(n, a),
        is_root_above(n, b),
    ensures
        a == b,
{
    if a < b {
        assert(a * a <= (b - 1) * (b - 1)) by (nonlinear_arith)
            requires
                0 <= a <= b - 1,
        ;
    }
    if b < a {
        assert(b * b <= (a - 1) * (a - 1)) by (nonlinear_arith)
            requires
                0 <= b <= a - 1,
        ;
    }
}

/// Every natural number has a rounded-up square root.
pub proof fn lemma_root_above_exists(n: nat)
    ensures
        is_root_above(n as int, root_above(n as int)),
    decreases n,
{
    if n == 0 {
        assert(is_root_above(0, 0));
    } else {
        lemma_root_above_exists((n - 1) as nat);
        let r = root_above(n - 1);
        if r * r >= n {
            assert(r != 0) by (nonlinear_arith)
                requires
                    r * r >= n,
                    n >= 1,
            ;
            assert(is_root_above(n as int, r));
        } else {
            assert((r + 1) * (r + 1) >= n) by (nonlinear_arith)
                requires
                    r * r >= n - 1,
                    r >= 0,
            ;
            assert((r + 1 - 1) * (r + 1 - 1) == r * r);
            assert(is_root_above(n as int, r + 1));
        }
    }
}

/// Cutting toward zero never raises a magnitude, and loses less than one.
pub proof fn lemma_quotient_toward_zero(n: int, d: int)
    requires
        d > 0,
    ensures
        magnitude(quotient_toward_zero(n, d)) * d <= magnitude(n),
        magnitude(n) < (magnitude(quotient_toward_zero(n, d)) + 1) * d,
        n >= 0 ==> quotient_toward_zero(n, d) >= 0,
        n <= 0 ==> quotient_toward_zero(n, d) <= 0,
        quotient_toward_zero(-n, d) == -quotient_toward_zero(n, d),
{
    let m = magnitude(n);
    vstd::arithmetic::div_mod::lemma_fundamental_div_mod(m, d);
    vstd::arithmetic::div_mod::lemma_mod_bound(m, d);
    vstd::arithmetic::div_mod::lemma_div_pos_is_pos(m, d);
    assert(d * (m / d) == (m / d) * d) by (nonlinear_arith);
    assert((m / d + 1) * d == (m / d) * d + d) by (nonlinear_arith);
    if n == 0 {
        assert(0int / d == 0) by (nonlinear_arith)
            requires
                d > 0,
        ;
    }
}

/// `x` held within the limit.
pub fn saturate(x: i128) -> (r: Real)
    ensures
        r == clamp(x as int),
{
    if x > 1_000_000_000_000 {
        LIMIT
    } else if x < -1_000_000_000_000 {
        -LIMIT
    } else {
        x as Real
    }
}

/// The sum of two reals.
pub fn sum(a: Real, b: Real) -> (r: Real)
    ensures
        r == clamp(a + b),
{
    saturate(a as i128 + b as i128)
}

/// The difference of two reals.
pub fn difference(a: Real, b: Real) -> (r: Real)
    ensures
        r == clamp(a - b),
{
    saturate(a as i128 - b as i128)
}

/// The product of two reals, cut toward zero.
pub fn times(a: Real, b: Real) -> (r: Real)
    ensures
        r == product(a as int, b as int),
{
    let wide: i128 = widen_product(a as i128, b as i128);
    saturate(wide / 1_000_000)
}

/// The exact product of two numbers that fit in 64 bits.
pub fn widen_product(a: i128, b: i128) -> (r: i128)
    requires
        i64::MIN <= a <= i64::MAX,
        i64::MIN <= b <= i64::MAX,
    ensures
        r == a * b,
{
    assert(-0x4000_0000_0000_0000_0000_0000_0000_0000 <= a * b
        <= 0x4000_0000_0000_0000_0000_0000_0000_0000) by (nonlinear_arith)
        requires
            -0x8000_0000_0000_0000 <= a <= 0x8000_0000_0000_0000,
            -0x8000_0000_0000_0000 <= b <= 0x8000_0000_0000_0000,
    ;
    a * b
}

/// The square root of `n`, rounded up to a whole number.
pub fn root_above_of(n: i128) -> (r: i128)
    requires
        0 <= n <= 1_000_000_000_000_000_000_000_000,
    ensures
        r == root_above(n as int),
        is_root_above(n as int, r as int),
        r <= 1_000_000_000_000,
{
    if n == 0 {
        proof {
            assert(is_root_above(0, 0));
            lemma_root_above_unique(0, 0, root_above(0));
        }
        return 0;
    }
    let mut low: i128 = 0;
    let mut high: i128 = 1_000_000_000_000;
    while high - low > 1
        invariant
            0 <= low < high <= 1_000_000_000_000,
            low * low < n,
            n <= high * high,
        decreases high - low,
    {
        let middle: i128 = low + (high - low) / 2;
        assert(middle * middle <= 1_000_000_000_000 * 1_000_000_000_000) by (nonlinear_arith)
            requires
                0 <= middle <= 1_000_000_000_000,
        ;
        if middle * middle < n {
            low = middle;
        } else {
            high = middle;
        }
    }
    proof {
        assert(is_root_above(n as int, high as int));
        lemma_root_above_unique(n as int, high as int, root_above(n as int));
    }
    high
}

} // verus!
