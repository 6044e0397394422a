//! Two-dimensional integer vectors.
use vstd::prelude::*;
use crate::math::{
    ceil_sqrt, isqrt_up, lemma_ceil_sqrt, magnitude, DIRECTION_LIMIT, UNIT_SQUARED,
    floor_sqrt, isqrt, lemma_floor_sqrt_exists, lemma_floor_sqrt_lower, lemma_floor_sqrt_unique,
    lemma_floor_sqrt_upper,
    lemma_mul_bounds, lemma_trunc_div_le, trunc_div, UNIT, WIDE_LIMIT,
};

verus! {

/// A point or displacement in the plane, in sub-units.
#[derive(Clone, Copy, Debug, PartialEq, Eq, Structural)]
pub struct Vec2 {
    pub x: i64,
    pub y: i64,
}

impl Vec2 {
    /// Both coordinates have magnitude at most `limit`.
    pub open spec fn within(self, limit: int) -> bool {
        -limit <= self.x <= limit && -limit <= self.y <= limit
    }

    pub open spec fn spec_zero() -> Vec2 {
        Vec2 { x: 0, y: 0 }
    }

    pub open spec fn spec_plus(self, other: Vec2) -> Vec2 {
        Vec2 { x: (self.x + other.x) as i64, y: (self.y + other.y) as i64 }
    }

    pub open spec fn spec_minus(self, other: Vec2) -> Vec2 {
        Vec2 { x: (self.x - other.x) as i64, y: (self.y - other.y) as i64 }
    }

    pub open spec fn spec_dot(self, other: Vec2) -> int {
        self.x * other.x + self.y * other.y
    }

    /// The z component of the three-dimensional cross product.
    pub open spec fn spec_cross(self, other: Vec2) -> int {
        self.x * other.y - self.y * other.x
    }

    pub open spec fn spec_length_squared(self) -> int {
        self.x * self.x + self.y * self.y
    }

    /// Euclidean length, rounded down.
    pub open spec fn spec_length(self) -> int {
        floor_sqrt(self.spec_length_squared())
    }

    /// The vector turned a quarter turn counter-clockwise.
    pub open spec fn spec_perp(self) -> Vec2 {
        Vec2 { x: (-self.y) as i64, y: self.x }
    }

    /// The vector times `num / den`, each coordinate rounded toward zero.
    pub open spec fn spec_scaled(self, num: int, den: int) -> Vec2 {
        Vec2 {
            x: trunc_div(self.x * num, den) as i64,
            y: trunc_div(self.y * num, den) as i64,
        }
    }

    /// Euclidean length in thousandths of a sub-unit, rounded up.
    pub open spec fn spec_fine_length(self) -> int {
        ceil_sqrt(self.spec_length_squared() * UNIT_SQUARED)
    }

    /// The direction of the vector: the vector divided by its length and
    /// stretched to `UNIT`, each coordinate rounded toward zero. It is between
    /// `UNIT - 3` and `UNIT` long. The zero vector for the zero vector.
    pub open spec fn spec_normalize_or_zero(self) -> Vec2 {
        let len = self.spec_fine_length();
        if len == 0 {
            Vec2::spec_zero()
        } else {
            self.spec_scaled(UNIT_SQUARED as int, len)
        }
    }

    /// The squared length is non-negative and zero only for the zero vector.
    pub proof fn lemma_length_squared(self)
        ensures
            self.spec_length_squared() >= 0,
            self.spec_length_squared() == 0 <==> self == Vec2::spec_zero(),
    {
        let x = self.x as int;
        let y = self.y as int;
        assert(x * x >= 0 && (x * x == 0 <==> x == 0)) by (nonlinear_arith);
        assert(y * y >= 0 && (y * y == 0 <==> y == 0)) by (nonlinear_arith);
    }

    /// The rounded length bounds both coordinates, and is zero only for the
    /// zero vector.
    pub proof fn lemma_length(self)
        ensures
            self.spec_length() >= 0,
            -self.spec_length() <= self.x <= self.spec_length(),
            -self.spec_length() <= self.y <= self.spec_length(),
            self.spec_length() == 0 <==> self == Vec2::spec_zero(),
            self.spec_length() * self.spec_length() <= self.spec_length_squared(),
    {
        self.lemma_length_squared();
        let n = self.spec_length_squared();
        lemma_floor_sqrt_exists(n);
        let x = self.x as int;
        let y = self.y as int;
        let ax = if x >= 0 { x } else { -x };
        let ay = if y >= 0 { y } else { -y };
        assert(ax * ax == x * x) by (nonlinear_arith)
            requires
                ax == x || ax == -x,
        ;
        assert(ay * ay == y * y) by (nonlinear_arith)
            requires
                ay == y || ay == -y,
        ;
        assert(y * y >= 0) by (nonlinear_arith);
        assert(x * x >= 0) by (nonlinear_arith);
        lemma_floor_sqrt_lower(n, ax);
        lemma_floor_sqrt_lower(n, ay);
        if n == 0 {
            lemma_floor_sqrt_unique(0, 0);
        }
    }

    /// A vector within `limit` is no longer than twice `limit`.
    pub proof fn lemma_length_within(self, limit: int)
        requires
            self.within(limit),
        ensures
            0 <= self.spec_length() <= 2 * limit,
            0 <= self.spec_length_squared() <= 2 * limit * limit,
    {
        self.lemma_length();
        let x = self.x as int;
        let y = self.y as int;
        lemma_mul_bounds(x, x, limit, limit);
        lemma_mul_bounds(y, y, limit, limit);
        assert(2 * limit * limit == limit * limit + limit * limit) by (nonlinear_arith);
        assert(2 * limit * limit < (2 * limit + 1) * (2 * limit + 1)) by (nonlinear_arith)
            requires
                limit >= 0,
        ;
        lemma_floor_sqrt_upper(self.spec_length_squared(), 2 * limit + 1);
    }

    /// Whether the vector is a direction: zero, or between `UNIT - 3` and
    /// `UNIT` long.
    pub open spec fn is_direction(self) -> bool {
        self == Vec2::spec_zero() || (UNIT - 3) * (UNIT - 3) <= self.spec_length_squared() <= UNIT * UNIT
    }

    /// What `spec_normalize_or_zero` gives is a direction, and zero only for
    /// the zero vector.
    pub proof fn lemma_normalize_is_direction(self)
        ensures
            self.spec_normalize_or_zero().is_direction(),
            self.spec_normalize_or_zero() == Vec2::spec_zero() <==> self == Vec2::spec_zero(),
    {
        self.lemma_fine_length();
        if self != Vec2::spec_zero() {
            self.lemma_direction_length();
            let d = self.spec_normalize_or_zero();
            if d == Vec2::spec_zero() {
                d.lemma_length_squared();
                assert((UNIT - 3) * (UNIT - 3) == 994009) by (nonlinear_arith)
                    requires
                        UNIT == 1000,
                ;
            }
        }
    }

    /// The fine length is zero only for the zero vector, and else at least
    /// `UNIT` and at least `UNIT` times the magnitude of either coordinate.
    pub proof fn lemma_fine_length(self)
        ensures
            self.spec_fine_length() >= 0,
            self.spec_fine_length() == 0 <==> self == Vec2::spec_zero(),
            self != Vec2::spec_zero() ==> self.spec_fine_length() >= UNIT,
            magnitude(self.x as int) * UNIT <= self.spec_fine_length(),
            magnitude(self.y as int) * UNIT <= self.spec_fine_length(),
            self.spec_length_squared() * UNIT_SQUARED >= 0,
            self.spec_fine_length() * self.spec_fine_length() >= self.spec_length_squared() * UNIT_SQUARED,
            self != Vec2::spec_zero() ==> (self.spec_fine_length() - 1) * (self.spec_fine_length() - 1)
                < self.spec_length_squared() * UNIT_SQUARED,
    {
        self.lemma_length_squared();
        let q = self.spec_length_squared();
        let n = q * UNIT_SQUARED;
        lemma_ceil_sqrt(n);
        let c = ceil_sqrt(n);
        let ax = magnitude(self.x as int);
        let ay = magnitude(self.y as int);
        let xx = ax * ax;
        let yy = ay * ay;
        assert(xx == self.x * self.x) by (nonlinear_arith)
            requires
                ax == self.x || ax == -self.x,
                xx == ax * ax,
        ;
        assert(yy == self.y * self.y) by (nonlinear_arith)
            requires
                ay == self.y || ay == -self.y,
                yy == ay * ay,
        ;
        assert(xx >= 0 && yy >= 0) by (nonlinear_arith)
            requires
                xx == ax * ax,
                yy == ay * ay,
        ;
        let kx = ax * UNIT;
        let ky = ay * UNIT;
        assert(kx * kx == xx * UNIT_SQUARED) by (nonlinear_arith)
            requires
                kx == ax * 1000,
                xx == ax * ax,
                UNIT_SQUARED == 1000000,
        ;
        assert(ky * ky == yy * UNIT_SQUARED) by (nonlinear_arith)
            requires
                ky == ay * 1000,
                yy == ay * ay,
                UNIT_SQUARED == 1000000,
        ;
        lemma_square_le(kx, c, kx * kx, n);
        lemma_square_le(ky, c, ky * ky, n);
        if q > 0 {
            let unit = UNIT as int;
            assert(unit * unit == 1000000) by (nonlinear_arith)
                requires
                    unit == 1000,
            ;
            lemma_square_le(unit, c, unit * unit, n);
        }
    }

    /// A direction has coordinates of magnitude at most `UNIT`.
    pub proof fn lemma_normalize_within(self)
        ensures
            self.spec_normalize_or_zero().within(UNIT as int),
    {
        self.lemma_fine_length();
        let len = self.spec_fine_length();
        if len != 0 {
            lemma_fine_coordinate(self.x as int, len);
            lemma_fine_coordinate(self.y as int, len);
        }
    }

    /// The direction of a vector other than zero is between `UNIT - 3` and
    /// `UNIT` long.
    pub proof fn lemma_direction_length(self)
        requires
            self != Vec2::spec_zero(),
        ensures
            (UNIT - 3) * (UNIT - 3) <= self.spec_normalize_or_zero().spec_length_squared() <= UNIT * UNIT,
    {
        self.lemma_fine_length();
        self.lemma_normalize_within();
        self.lemma_length_squared();
        let c = self.spec_fine_length();
        let q = self.spec_length_squared();
        let big = UNIT_SQUARED as int;
        let n = q * big;
        let d = self.spec_normalize_or_zero();
        let ax = magnitude(self.x as int);
        let ay = magnitude(self.y as int);
        let a = magnitude(d.x as int);
        let b = magnitude(d.y as int);
        lemma_fine_coordinate(self.x as int, c);
        lemma_fine_coordinate(self.y as int, c);
        // What the quotients leave: a c <= ax U^2 < (a + 1) c, and so for b.
        let top_x = ax * big;
        let top_y = ay * big;
        assert(a * c <= top_x < (a + 1) * c);
        assert(b * c <= top_y < (b + 1) * c);
        assert(top_x * top_x + top_y * top_y == n * big) by (nonlinear_arith)
            requires
                top_x == ax * big,
                top_y == ay * big,
                n == q * big,
                ax == self.x || ax == -self.x,
                ay == self.y || ay == -self.y,
                q == self.x * self.x + self.y * self.y,
        ;
        let s = a * a + b * b;
        assert(d.spec_length_squared() == s) by (nonlinear_arith)
            requires
                a == d.x || a == -d.x,
                b == d.y || b == -d.y,
                s == a * a + b * b,
                d.spec_length_squared() == d.x * d.x + d.y * d.y,
        ;
        // No longer than a unit vector.
        lemma_product_square_le(a, c, top_x);
        lemma_product_square_le(b, c, top_y);
        let cc = c * c;
        assert(s * cc == (a * a) * cc + (b * b) * cc) by (nonlinear_arith)
            requires
                s == a * a + b * b,
        ;
        assert(n * big <= cc * big) by (nonlinear_arith)
            requires
                n <= cc,
                big >= 0,
        ;
        lemma_cancel_le(s, big, cc);
        // Not much shorter.
        let a1 = a + 1;
        let b1 = b + 1;
        let t = a1 * a1 + b1 * b1;
        lemma_product_square_gt(a1, c, top_x);
        lemma_product_square_gt(b1, c, top_y);
        assert(t * cc == (a1 * a1) * cc + (b1 * b1) * cc) by (nonlinear_arith)
            requires
                t == a1 * a1 + b1 * b1,
        ;
        let low = (c - 1) * 1000;
        let floor = c * 999;
        assert(low * low == ((c - 1) * (c - 1)) * big) by (nonlinear_arith)
            requires
                low == (c - 1) * 1000,
                big == 1000000,
        ;
        assert(((c - 1) * (c - 1)) * big < n * big) by (nonlinear_arith)
            requires
                (c - 1) * (c - 1) < n,
                big == 1000000,
        ;
        lemma_square_monotone(floor, low);
        assert(floor * floor == 998001 * cc) by (nonlinear_arith)
            requires
                floor == c * 999,
                cc == c * c,
        ;
        lemma_cancel_lt(998001, t, cc);
        assert(t == s + 2 * (a + b) + 2) by (nonlinear_arith)
            requires
                t == a1 * a1 + b1 * b1,
                a1 == a + 1,
                b1 == b + 1,
                s == a * a + b * b,
        ;
        let sum = a + b;
        assert(sum * sum <= 2 * s) by (nonlinear_arith)
            requires
                s == a * a + b * b,
                sum == a + b,
        ;
        if sum >= 1415 {
            lemma_square_monotone(1415, sum);
            assert(1415 * 1415 == 2002225) by (nonlinear_arith);
        }
        assert((UNIT - 3) * (UNIT - 3) == 994009) by (nonlinear_arith)
            requires
                UNIT == 1000,
        ;
        assert(UNIT * UNIT == 1000000) by (nonlinear_arith)
            requires
                UNIT == 1000,
        ;
    }

    pub fn new(x: i64, y: i64) -> (r: Vec2)
        ensures
            r == (Vec2 { x, y }),
    {
        Vec2 { x, y }
    }

    pub fn zero() -> (r: Vec2)
        ensures
            r == Vec2::spec_zero(),
    {
        Vec2 { x: 0, y: 0 }
    }

    /// Tests whether both coordinates have magnitude at most `limit`.
    pub fn is_within(self, limit: i64) -> (r: bool)
        requires
            limit >= 0,
        ensures
            r == self.within(limit as int),
    {
        -limit <= self.x && self.x <= limit && -limit <= self.y && self.y <= limit
    }

    pub fn plus(self, other: Vec2) -> (r: Vec2)
        requires
            self.within(WIDE_LIMIT as int),
            other.within(WIDE_LIMIT as int),
        ensures
            r == self.spec_plus(other),
            r.x == self.x + other.x,
            r.y == self.y + other.y,
    {
        Vec2 { x: self.x + other.x, y: self.y + other.y }
    }

    pub fn minus(self, other: Vec2) -> (r: Vec2)
        requires
            self.within(WIDE_LIMIT as int),
            other.within(WIDE_LIMIT as int),
        ensures
            r == self.spec_minus(other),
            r.x == self.x - other.x,
            r.y == self.y - other.y,
    {
        Vec2 { x: self.x - other.x, y: self.y - other.y }
    }

    pub fn dot(self, other: Vec2) -> (r: i128)
        requires
            self.within(WIDE_LIMIT as int),
            other.within(WIDE_LIMIT as int),
        ensures
            r == self.spec_dot(other),
    {
        proof {
            lemma_mul_bounds(self.x as int, other.x as int, WIDE_LIMIT as int, WIDE_LIMIT as int);
            lemma_mul_bounds(self.y as int, other.y as int, WIDE_LIMIT as int, WIDE_LIMIT as int);
        }
        (self.x as i128) * (other.x as i128) + (self.y as i128) * (other.y as i128)
    }

    pub fn cross(self, other: Vec2) -> (r: i128)
        requires
            self.within(WIDE_LIMIT as int),
            other.within(WIDE_LIMIT as int),
        ensures
            r == self.spec_cross(other),
    {
        proof {
            lemma_mul_bounds(self.x as int, other.y as int, WIDE_LIMIT as int, WIDE_LIMIT as int);
            lemma_mul_bounds(self.y as int, other.x as int, WIDE_LIMIT as int, WIDE_LIMIT as int);
        }
        (self.x as i128) * (other.y as i128) - (self.y as i128) * (other.x as i128)
    }

    pub fn length_squared(self) -> (r: i128)
        requires
            self.within(WIDE_LIMIT as int),
        ensures
            r == self.spec_length_squared(),
            r >= 0,
    {
        proof {
            self.lemma_length_squared();
        }
        self.dot(self)
    }

    pub fn length(self) -> (r: i64)
        requires
            self.within(WIDE_LIMIT as int),
        ensures
            r == self.spec_length(),
            0 <= r <= 2 * WIDE_LIMIT,
    {
        proof {
            self.lemma_length_within(WIDE_LIMIT as int);
        }
        let n = self.length_squared();
        isqrt(n as u128) as i64
    }

    pub fn perp(self) -> (r: Vec2)
        requires
            self.within(WIDE_LIMIT as int),
        ensures
            r == self.spec_perp(),
            r.x == -self.y,
            r.y == self.x,
    {
        Vec2 { x: -self.y, y: self.x }
    }

    /// The vector times `num / den`, each coordinate rounded toward zero.
    ///
    /// Either the ratio is at most one, or the vector is within `den` (a
    /// direction of length `den` stretched to length `num`).
    pub fn scaled(self, num: i64, den: i64) -> (r: Vec2)
        requires
            self.within(WIDE_LIMIT as int),
            0 <= num <= WIDE_LIMIT,
            den > 0,
            num <= den || self.within(den as int),
        ensures
            r == self.spec_scaled(num as int, den as int),
            r.x == trunc_div(self.x * num, den as int),
            r.y == trunc_div(self.y * num, den as int),
            num <= den ==> forall|limit: int| self.within(limit) ==> r.within(limit),
            self.within(den as int) ==> r.within(num as int),
    {
        proof {
            if num <= den {
                lemma_scaled_coordinate(self.x as int, num as int, den as int);
                lemma_scaled_coordinate(self.y as int, num as int, den as int);
            }
            if self.within(den as int) {
                lemma_stretched_coordinate(self.x as int, num as int, den as int);
                lemma_stretched_coordinate(self.y as int, num as int, den as int);
            }
            lemma_mul_bounds(self.x as int, num as int, WIDE_LIMIT as int, WIDE_LIMIT as int);
            lemma_mul_bounds(self.y as int, num as int, WIDE_LIMIT as int, WIDE_LIMIT as int);
        }
        let x = ((self.x as i128) * (num as i128)) / (den as i128);
        let y = ((self.y as i128) * (num as i128)) / (den as i128);
        Vec2 { x: x as i64, y: y as i64 }
    }

    /// The direction of the vector.
    pub fn normalize_or_zero(self) -> (r: Vec2)
        requires
            self.within(DIRECTION_LIMIT as int),
        ensures
            r == self.spec_normalize_or_zero(),
            r.within(UNIT as int),
            r.is_direction(),
    {
        proof {
            self.lemma_normalize_is_direction();
            self.lemma_normalize_within();
            self.lemma_fine_length();
            self.lemma_length_squared();
            lemma_mul_bounds(self.x as int, self.x as int, 0x10_0000_0000_0000, 0x10_0000_0000_0000);
            lemma_mul_bounds(self.y as int, self.y as int, 0x10_0000_0000_0000, 0x10_0000_0000_0000);
        }
        let big: i128 = UNIT_SQUARED as i128;
        let square: i128 = self.length_squared();
        let len = isqrt_up((square * big) as u128);
        if len == 0 {
            Vec2 { x: 0, y: 0 }
        } else {
            proof {
                lemma_fine_coordinate(self.x as int, len as int);
                lemma_fine_coordinate(self.y as int, len as int);
            }
            let x = ((self.x as i128) * big) / (len as i128);
            let y = ((self.y as i128) * big) / (len as i128);
            Vec2 { x: x as i64, y: y as i64 }
        }
    }
}

/// Scaling a coordinate by a ratio of at most one keeps it between zero and
/// itself.
pub proof fn lemma_scaled_coordinate(c: int, num: int, den: int)
    requires
        0 <= num <= den,
        den > 0,
    ensures
        c >= 0 ==> 0 <= trunc_div(c * num, den) <= c,
        c <= 0 ==> c <= trunc_div(c * num, den) <= 0,
{
    let k = if c >= 0 { c } else { -c };
    assert(-(k * den) <= c * num <= k * den) by (nonlinear_arith)
        requires
            0 <= num <= den,
            k == c || k == -c,
            k >= 0,
    ;
    lemma_trunc_div_le(c * num, den, k);
    if c >= 0 {
        assert(c * num >= 0) by (nonlinear_arith)
            requires
                c >= 0,
                num >= 0,
        ;
    } else {
        assert(c * num <= 0) by (nonlinear_arith)
            requires
                c <= 0,
                num >= 0,
        ;
    }
    crate::math::lemma_trunc_div_bounds(c * num, den);
}

/// A number whose square is at most `n` is at most any number whose square
/// reaches `n`.
pub proof fn lemma_square_le(k: int, c: int, k_square: int, n: int)
    requires
        0 <= k,
        0 <= c,
        k_square == k * k,
        k_square <= n,
        n <= c * c,
    ensures
        k <= c,
{
    if k > c {
        assert(k * k > c * c) by (nonlinear_arith)
            requires
                k > c,
                c >= 0,
        ;
    }
}

/// Squaring keeps the order of non-negative numbers.
pub proof fn lemma_square_monotone(small: int, large: int)
    requires
        0 <= small <= large,
    ensures
        small * small <= large * large,
{
    assert(small * small <= large * large) by (nonlinear_arith)
        requires
            0 <= small <= large,
    ;
}

/// Where a product is at most a bound, so are the squares.
pub proof fn lemma_product_square_le(a: int, c: int, top: int)
    requires
        0 <= a,
        0 <= c,
        a * c <= top,
    ensures
        (a * a) * (c * c) <= top * top,
{
    let p = a * c;
    assert(0 <= p) by (nonlinear_arith)
        requires
            p == a * c,
            0 <= a,
            0 <= c,
    ;
    lemma_square_monotone(p, top);
    assert(p * p == (a * a) * (c * c)) by (nonlinear_arith)
        requires
            p == a * c,
    ;
}

/// Where a product exceeds a bound, so do the squares.
pub proof fn lemma_product_square_gt(a: int, c: int, top: int)
    requires
        0 <= a,
        0 <= c,
        0 <= top,
        a * c > top,
    ensures
        (a * a) * (c * c) > top * top,
{
    let p = a * c;
    assert(p * p > top * top) by (nonlinear_arith)
        requires
            p > top,
            top >= 0,
    ;
    assert(p * p == (a * a) * (c * c)) by (nonlinear_arith)
        requires
            p == a * c,
    ;
}

/// A common positive factor can be dropped from both sides of `<=`.
pub proof fn lemma_cancel_le(s: int, u: int, k: int)
    requires
        k > 0,
        s * k <= k * u,
    ensures
        s <= u,
{
    if s > u {
        assert(s * k >= (u + 1) * k) by (nonlinear_arith)
            requires
                s >= u + 1,
                k > 0,
        ;
        assert((u + 1) * k == k * u + k) by (nonlinear_arith);
    }
}

/// A common positive factor can be dropped from both sides of `<`.
pub proof fn lemma_cancel_lt(u: int, t: int, k: int)
    requires
        k > 0,
        u * k < t * k,
    ensures
        u < t,
{
    if u >= t {
        assert(u * k >= t * k) by (nonlinear_arith)
            requires
                u >= t,
                k > 0,
        ;
    }
}

/// What division by the fine length leaves of a coordinate: a quotient of
/// magnitude at most `UNIT`, within one of the exact one.
pub proof fn lemma_fine_coordinate(c: int, len: int)
    requires
        len > 0,
        magnitude(c) * UNIT <= len,
    ensures
        -UNIT <= trunc_div(c * UNIT_SQUARED, len) <= UNIT,
        magnitude(trunc_div(c * UNIT_SQUARED, len)) * len <= magnitude(c) * UNIT_SQUARED,
        magnitude(c) * UNIT_SQUARED < (magnitude(trunc_div(c * UNIT_SQUARED, len)) + 1) * len,
{
    let big = UNIT_SQUARED as int;
    let m = magnitude(c);
    lemma_trunc_div_le(c * big, len, UNIT as int);
    crate::math::lemma_trunc_div_bounds(c * big, len);
    let q = trunc_div(c * big, len);
    let p = magnitude(q);
    assert((p + 1) * len == p * len + len) by (nonlinear_arith);
    if c >= 0 {
        assert(p == q);
    } else {
        assert(p == -q);
        assert((-q) * len == -(q * len)) by (nonlinear_arith);
    }
}

/// Stretching a coordinate of magnitude at most `den` by `num / den` gives a
/// magnitude of at most `num`.
pub proof fn lemma_stretched_coordinate(c: int, num: int, den: int)
    requires
        0 <= num,
        den > 0,
        -den <= c <= den,
    ensures
        -num <= trunc_div(c * num, den) <= num,
{
    assert(-(num * den) <= c * num <= num * den) by (nonlinear_arith)
        requires
            0 <= num,
            -den <= c <= den,
    ;
    lemma_trunc_div_le(c * num, den, num);
}

} // verus!
