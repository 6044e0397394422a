//! Fixed-point scales and the integer arithmetic everything else is built on.
use vstd::prelude::*;

verus! {

/// Sub-units per world unit. Positions, distances and radii are in sub-units;
/// directions are about `UNIT` long.
pub const UNIT: i64 = 1000;

/// The square of `UNIT`.
pub const UNIT_SQUARED: i64 = 1000000;

/// Sub-ticks per simulation tick, for flight times.
pub const TIME_UNIT: i64 = 1000;

/// Largest magnitude of a coordinate the library accepts as input (2^40).
pub const COORD_LIMIT: i64 = 0x100_0000_0000;

/// Largest magnitude of a coordinate that vector arithmetic accepts (2^60).
pub const WIDE_LIMIT: i64 = 0x1000_0000_0000_0000;

/// Largest magnitude of a coordinate of a vector whose direction can be
/// taken (2^52).
pub const DIRECTION_LIMIT: i64 = 0x10_0000_0000_0000;

/// Division rounding toward zero, for a positive divisor.
pub open spec fn trunc_div(a: int, b: int) -> int {
    if a >= 0 {
        a / b
    } else {
        -((-a) / b)
    }
}

/// The absolute value.
pub open spec fn magnitude(a: int) -> int {
    if a >= 0 {
        a
    } else {
        -a
    }
}

/// Scaling by a non-negative factor scales the absolute value.
pub proof fn lemma_magnitude_mul(a: int, b: int)
    requires
        b >= 0,
    ensures
        magnitude(a * b) == magnitude(a) * b,
{
    assert(magnitude(a * b) == magnitude(a) * b) by (nonlinear_arith)
        requires
            b >= 0,
    ;
}

/// `r` is the integer square root of `n`, rounded down.
pub open spec fn is_floor_sqrt(n: int, r: int) -> bool {
    0 <= r && r * r <= n && n < (r + 1) * (r + 1)
}

/// The integer square root of `n`, rounded down (for `n >= 0`).
pub open spec fn floor_sqrt(n: int) -> int {
    choose|r: int| is_floor_sqrt(n, r)
}

/// The integer square root of `n`, rounded up (for `n >= 0`).
pub open spec fn ceil_sqrt(n: int) -> int {
    let r = floor_sqrt(n);
    if r * r == n {
        r
    } else {
        r + 1
    }
}

/// The rounded-up square root is the least integer whose square reaches `n`.
pub proof fn lemma_ceil_sqrt(n: int)
    requires
        n >= 0,
    ensures
        ceil_sqrt(n) >= 0,
        ceil_sqrt(n) * ceil_sqrt(n) >= n,
        n > 0 ==> ceil_sqrt(n) >= 1 && (ceil_sqrt(n) - 1) * (ceil_sqrt(n) - 1) < n,
        n == 0 <==> ceil_sqrt(n) == 0,
{
    lemma_floor_sqrt_exists(n);
    let r = floor_sqrt(n);
    if n == 0 {
        lemma_floor_sqrt_unique(0, 0);
    }
    if r * r != n {
        assert((r + 1 - 1) * (r + 1 - 1) == r * r);
    } else if n > 0 {
        assert(r >= 1) by (nonlinear_arith)
            requires
                r >= 0,
                r * r > 0,
        ;
        assert((r - 1) * (r - 1) < r * r) by (nonlinear_arith)
            requires
                r >= 1,
        ;
    }
}

/// Every non-negative integer has a rounded-down square root.
pub proof fn lemma_floor_sqrt_exists(n: int)
    requires
        n >= 0,
    ensures
        is_floor_sqrt(n, floor_sqrt(n)),
    decreases n,
{
    if n == 0 {
        assert(is_floor_sqrt(0, 0));
    } else {
        lemma_floor_sqrt_exists(n - 1);
        let r = floor_sqrt(n - 1);
        if (r + 1) * (r + 1) <= n {
            assert(n < (r + 2) * (r + 2)) by (nonlinear_arith)
                requires
                    n - 1 < (r + 1) * (r + 1),
                    r >= 0,
            ;
            assert(is_floor_sqrt(n, r + 1));
        } else {
            assert(is_floor_sqrt(n, r));
        }
    }
}

/// The rounded-down square root is unique.
pub proof fn lemma_floor_sqrt_unique(n: int, r: int)
    requires
        is_floor_sqrt(n, r),
    ensures
        floor_sqrt(n) == r,
{
    let s = floor_sqrt(n);
    assert(is_floor_sqrt(n, s));
    if s < r {
        assert((s + 1) * (s + 1) <= r * r) by (nonlinear_arith)
            requires
                0 <= s,
                s + 1 <= r,
        ;
    } else if r < s {
        assert((r + 1) * (r + 1) <= s * s) by (nonlinear_arith)
            requires
                0 <= r,
                r + 1 <= s,
        ;
    }
}

/// The square root of zero is zero.
pub proof fn lemma_floor_sqrt_zero()
    ensures
        floor_sqrt(0) == 0,
{
    assert(is_floor_sqrt(0, 0));
    lemma_floor_sqrt_unique(0, 0);
}

/// An integer whose square is at most `n` is at most the square root of `n`.
pub proof fn lemma_floor_sqrt_lower(n: int, k: int)
    requires
        0 <= k,
        k * k <= n,
    ensures
        k <= floor_sqrt(n),
{
    lemma_floor_sqrt_exists(n);
    let s = floor_sqrt(n);
    if s < k {
        assert((s + 1) * (s + 1) <= k * k) by (nonlinear_arith)
            requires
                0 <= s,
                s + 1 <= k,
        ;
    }
}

/// An integer whose square exceeds `n` is above the square root of `n`.
pub proof fn lemma_floor_sqrt_upper(n: int, k: int)
    requires
        0 <= n,
        0 <= k,
        n < k * k,
    ensures
        floor_sqrt(n) < k,
{
    lemma_floor_sqrt_exists(n);
    let s = floor_sqrt(n);
    if s >= k {
        assert(k * k <= s * s) by (nonlinear_arith)
            requires
                0 <= k,
                k <= s,
        ;
    }
}

/// A product is bounded by the product of the bounds of its factors.
pub proof fn lemma_mul_bounds(a: int, b: int, la: int, lb: int)
    requires
        -la <= a <= la,
        -lb <= b <= lb,
    ensures
        -(la * lb) <= a * b <= la * lb,
{
    assert(-(la * lb) <= a * b <= la * lb) by (nonlinear_arith)
        requires
            -la <= a <= la,
            -lb <= b <= lb,
    ;
}

/// Truncating division moves toward zero by less than one divisor.
pub proof fn lemma_trunc_div_bounds(a: int, b: int)
    requires
        b > 0,
    ensures
        a >= 0 ==> 0 <= trunc_div(a, b) <= a && a - b < trunc_div(a, b) * b <= a,
        a <= 0 ==> a <= trunc_div(a, b) <= 0 && a <= trunc_div(a, b) * b < a + b,
{
    if a >= 0 {
        let q = a / b;
        assert(0 <= q <= a && a - b < q * b <= a) by (nonlinear_arith)
            requires
                q == a / b,
                a >= 0,
                b > 0,
        ;
    } else {
        let m = -a;
        let q = m / b;
        assert(0 <= q <= m && m - b < q * b <= m) by (nonlinear_arith)
            requires
                q == m / b,
                m >= 0,
                b > 0,
        ;
        assert((-q) * b == -(q * b)) by (nonlinear_arith);
    }
}

/// Truncating division is monotone in the magnitude bound of the dividend:
/// if `|a| <= k * b` then the quotient has magnitude at most `k`.
pub proof fn lemma_trunc_div_le(a: int, b: int, k: int)
    requires
        b > 0,
        k >= 0,
        -(k * b) <= a <= k * b,
    ensures
        -k <= trunc_div(a, b) <= k,
{
    lemma_trunc_div_bounds(a, b);
    let q = trunc_div(a, b);
    if a >= 0 {
        if q > k {
            assert(q * b >= (k + 1) * b) by (nonlinear_arith)
                requires
                    q >= k + 1,
                    b > 0,
            ;
            assert((k + 1) * b == k * b + b) by (nonlinear_arith);
        }
    } else {
        if q < -k {
            assert(q * b <= (-k - 1) * b) by (nonlinear_arith)
                requires
                    q <= -k - 1,
                    b > 0,
            ;
            assert((-k - 1) * b == -(k * b) - b) by (nonlinear_arith);
        }
    }
}

/// Integer square root, rounded down.
pub fn isqrt(n: u128) -> (r: u64)
    ensures
        r == floor_sqrt(n as int),
{
    let mut lo: u128 = 0;
    let mut hi: u128 = 0x1_0000_0000_0000_0000;
    assert(n < hi * hi) by (nonlinear_arith)
        requires
            hi == 0x1_0000_0000_0000_0000,
            n <= 0xffff_ffff_ffff_ffff_ffff_ffff_ffff_ffff,
    ;
    while hi - lo > 1
        invariant
            lo < hi <= 0x1_0000_0000_0000_0000,
            lo * lo <= n,
            n < hi * hi,
        decreases hi - lo,
    {
        let mid: u128 = lo + (hi - lo) / 2;
        assert(mid * mid <= 0xffff_ffff_ffff_ffff * 0xffff_ffff_ffff_ffff) by (nonlinear_arith)
            requires
                0 <= mid <= 0xffff_ffff_ffff_ffff,
        ;
        if mid * mid <= n {
            lo = mid;
        } else {
            hi = mid;
        }
    }
    proof {
        assert(hi == lo + 1);
        assert(is_floor_sqrt(n as int, lo as int));
        lemma_floor_sqrt_unique(n as int, lo as int);
    }
    lo as u64
}

/// Integer square root, rounded up.
pub fn isqrt_up(n: u128) -> (r: u64)
    requires
        n <= 0x4000_0000_0000_0000_0000_0000_0000_0000,
    ensures
        r == ceil_sqrt(n as int),
{
    let down = isqrt(n);
    proof {
        lemma_floor_sqrt_exists(n as int);
        let above: int = 0x8000_0000_0000_0001;
        assert(0x4000_0000_0000_0000_0000_0000_0000_0000 < above * above) by (nonlinear_arith)
            requires
                above == 0x8000_0000_0000_0001,
        ;
        lemma_floor_sqrt_upper(n as int, above);
        lemma_mul_bounds(down as int, down as int, 0x8000_0000_0000_0000, 0x8000_0000_0000_0000);
    }
    if (down as u128) * (down as u128) == n {
        down
    } else {
        down + 1
    }
}

} // verus!
