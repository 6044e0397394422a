//! Minimum-energy jumps under constant gravity.
//!
//! A jump from one point to another over the displacement `d` takes the time
//! `t = sqrt(2 |d| / g)` and leaves with the velocity `d / t - a t / 2`,
//! where `a = (0, -g)` is the acceleration of gravity.
use vstd::prelude::*;
use crate::math::{
    floor_sqrt, isqrt, lemma_floor_sqrt_exists, lemma_floor_sqrt_upper, lemma_mul_bounds,
    lemma_trunc_div_bounds, lemma_trunc_div_le, magnitude, trunc_div, COORD_LIMIT, TIME_UNIT,
};
use crate::pathfinding::GRAVITY_STRENGTH;
use crate::vec2::Vec2;

verus! {

/// Fastest launch an agent can make, in sub-units per tick.
pub const PLATFORMER_AI_JUMP_FORCE: i64 = 8000;

/// Number of straight pieces a jump arc is cut into.
pub const ARC_PIECES: i64 = 10;

/// The acceleration of gravity as a vector.
pub open spec fn gravity() -> Vec2 {
    Vec2 { x: 0, y: (-GRAVITY_STRENGTH) as i64 }
}

/// The discriminant of the launch equation for a jump over `delta` with the
/// launch speed `v_max`: `(delta . a + v_max^2)^2 - (a . a) (delta . delta)`.
pub open spec fn jump_discriminant(delta: Vec2, v_max: int) -> int {
    let b1 = delta.spec_dot(gravity()) + v_max * v_max;
    b1 * b1 - gravity().spec_dot(gravity()) * delta.spec_dot(delta)
}

/// Whether some launch at the greatest launch speed carries over `delta`.
pub open spec fn jump_in_reach(delta: Vec2) -> bool {
    jump_discriminant(delta, PLATFORMER_AI_JUMP_FORCE as int) >= 0
}

/// Flight time of the minimum-energy jump over `delta`, in sub-ticks: the
/// square root of `2 |delta| / g`, rounded down.
pub open spec fn flight_time(delta: Vec2) -> int {
    floor_sqrt(2 * delta.spec_length() * TIME_UNIT * TIME_UNIT / (GRAVITY_STRENGTH as int))
}

/// Launch velocity of the minimum-energy jump over `delta`, in sub-units per
/// tick: `delta / t - a t / 2`, and zero where the flight takes no time.
pub open spec fn spec_launch_velocity(delta: Vec2) -> Vec2 {
    let t = flight_time(delta);
    if t == 0 {
        Vec2::spec_zero()
    } else {
        Vec2 {
            x: trunc_div(delta.x * TIME_UNIT, t) as i64,
            y: (trunc_div(delta.y * TIME_UNIT, t) + trunc_div(GRAVITY_STRENGTH * t, 2 * TIME_UNIT)) as i64,
        }
    }
}

/// Launch speed of the minimum-energy jump over `delta`.
pub open spec fn launch_speed(delta: Vec2) -> int {
    spec_launch_velocity(delta).spec_length()
}

/// Where a body launched from `start` at `velocity` is after `time`
/// sub-ticks of free fall: `start + v t + a t^2 / 2`.
pub open spec fn position_after(start: Vec2, velocity: Vec2, time: int) -> Vec2 {
    Vec2 {
        x: (start.x + trunc_div(velocity.x * time, TIME_UNIT as int)) as i64,
        y: (start.y + trunc_div(velocity.y * time, TIME_UNIT as int) - trunc_div(
            GRAVITY_STRENGTH * time * time,
            2 * TIME_UNIT * TIME_UNIT,
        )) as i64,
    }
}

/// Time of sample `i` of the jump over `delta`: `i` tenths of the flight.
pub open spec fn sample_time(delta: Vec2, i: int) -> int {
    (flight_time(delta) / (ARC_PIECES as int)) * i
}

/// Corner `i` of the arc from `start` to `goal`: `start` itself, then the
/// positions after one to nine tenths of the flight, then `goal`.
pub open spec fn arc_point(start: Vec2, goal: Vec2, i: int) -> Vec2 {
    let delta = goal.spec_minus(start);
    if i <= 0 {
        start
    } else if i >= ARC_PIECES {
        goal
    } else {
        position_after(start, spec_launch_velocity(delta), sample_time(delta, i))
    }
}

/// Sizes of the flight over a displacement between two points in range.
pub proof fn lemma_flight_bounds(delta: Vec2)
    requires
        delta.within(2 * COORD_LIMIT),
    ensures
        0 <= delta.spec_length() <= 4 * COORD_LIMIT,
        0 <= flight_time(delta) < 0x800_0000,
        flight_time(delta) * flight_time(delta) <= 4000 * delta.spec_length(),
        delta != Vec2::spec_zero() ==> flight_time(delta) >= 1,
        spec_launch_velocity(delta).within(4 * COORD_LIMIT * TIME_UNIT),
        magnitude(spec_launch_velocity(delta).x as int) * flight_time(delta) <= magnitude(
            delta.x as int,
        ) * TIME_UNIT,
        magnitude(spec_launch_velocity(delta).y as int) * flight_time(delta) <= (magnitude(
            delta.y as int,
        ) + delta.spec_length()) * TIME_UNIT,
{
    let len = delta.spec_length();
    delta.lemma_length_within(2 * COORD_LIMIT);
    delta.lemma_length();
    let n = 2 * len * TIME_UNIT * TIME_UNIT / (GRAVITY_STRENGTH as int);
    assert(n == 4000 * len) by (nonlinear_arith)
        requires
            n == 2 * len * TIME_UNIT * TIME_UNIT / (GRAVITY_STRENGTH as int),
            TIME_UNIT == 1000,
            GRAVITY_STRENGTH == 500,
    ;
    let t = flight_time(delta);
    lemma_floor_sqrt_exists(n);
    assert(n < 0x800_0000 * 0x800_0000);
    lemma_floor_sqrt_upper(n, 0x800_0000);
    if delta != Vec2::spec_zero() {
        assert(len >= 1);
        crate::math::lemma_floor_sqrt_lower(n, 1);
    }
    let v = spec_launch_velocity(delta);
    if t > 0 {
        let a = trunc_div(delta.x * TIME_UNIT, t);
        let b = trunc_div(delta.y * TIME_UNIT, t);
        let c = trunc_div(GRAVITY_STRENGTH * t, 2 * TIME_UNIT);
        lemma_trunc_div_bounds(delta.x * TIME_UNIT, t);
        lemma_trunc_div_bounds(delta.y * TIME_UNIT, t);
        lemma_trunc_div_bounds(GRAVITY_STRENGTH * t, 2 * TIME_UNIT);
        assert(magnitude(a) * t <= magnitude(delta.x as int) * TIME_UNIT) by (nonlinear_arith)
            requires
                delta.x * TIME_UNIT >= 0 ==> 0 <= a && a * t <= delta.x * TIME_UNIT,
                delta.x * TIME_UNIT <= 0 ==> a <= 0 && delta.x * TIME_UNIT <= a * t,
                TIME_UNIT == 1000,
                t > 0,
        ;
        assert(magnitude(b) * t <= magnitude(delta.y as int) * TIME_UNIT) by (nonlinear_arith)
            requires
                delta.y * TIME_UNIT >= 0 ==> 0 <= b && b * t <= delta.y * TIME_UNIT,
                delta.y * TIME_UNIT <= 0 ==> b <= 0 && delta.y * TIME_UNIT <= b * t,
                TIME_UNIT == 1000,
                t > 0,
        ;
        assert(0 <= c && c * t <= len * TIME_UNIT) by (nonlinear_arith)
            requires
                0 <= c,
                c * (2 * TIME_UNIT) <= GRAVITY_STRENGTH * t,
                t * t <= 4000 * len,
                t > 0,
                TIME_UNIT == 1000,
                GRAVITY_STRENGTH == 500,
        ;
        assert(magnitude(a) <= magnitude(delta.x as int) * TIME_UNIT) by (nonlinear_arith)
            requires
                magnitude(a) * t <= magnitude(delta.x as int) * TIME_UNIT,
                magnitude(a) >= 0,
                t >= 1,
        ;
        assert(magnitude(b) <= magnitude(delta.y as int) * TIME_UNIT) by (nonlinear_arith)
            requires
                magnitude(b) * t <= magnitude(delta.y as int) * TIME_UNIT,
                magnitude(b) >= 0,
                t >= 1,
        ;
        assert(c <= len * TIME_UNIT) by (nonlinear_arith)
            requires
                c * t <= len * TIME_UNIT,
                c >= 0,
                t >= 1,
        ;
        assert(magnitude(b + c) * t <= (magnitude(delta.y as int) + len) * TIME_UNIT)
            by (nonlinear_arith)
            requires
                magnitude(b) * t <= magnitude(delta.y as int) * TIME_UNIT,
                0 <= c,
                c * t <= len * TIME_UNIT,
                magnitude(b + c) <= magnitude(b) + c,
                t > 0,
        ;
        assert(v.x == a);
        assert(v.y == b + c);
    }
}

/// Sizes of the sampled positions of a jump between two points in range.
pub proof fn lemma_arc_bounds(start: Vec2, goal: Vec2, i: int)
    requires
        start.within(COORD_LIMIT as int),
        goal.within(COORD_LIMIT as int),
    ensures
        arc_point(start, goal, i).within(16 * COORD_LIMIT),
        0 <= i <= ARC_PIECES ==> 0 <= sample_time(goal.spec_minus(start), i) <= flight_time(
            goal.spec_minus(start),
        ),
{
    let delta = goal.spec_minus(start);
    lemma_flight_bounds(delta);
    let t = flight_time(delta);
    let len = delta.spec_length();
    let v = spec_launch_velocity(delta);
    if 0 <= i <= ARC_PIECES {
        let step = t / (ARC_PIECES as int);
        let ti = sample_time(delta, i);
        assert(0 <= ti <= t) by (nonlinear_arith)
            requires
                ti == (t / 10) * i,
                0 <= i <= 10,
                0 <= t,
        ;
        if 0 < i < ARC_PIECES {
            lemma_sample_terms(delta, ti);
        }
    }
}

/// Sizes of the three terms of a position sampled within the flight.
pub proof fn lemma_sample_terms(delta: Vec2, ti: int)
    requires
        delta.within(2 * COORD_LIMIT),
        0 <= ti <= flight_time(delta),
    ensures
        magnitude(trunc_div(spec_launch_velocity(delta).x * ti, TIME_UNIT as int)) <= magnitude(
            delta.x as int,
        ),
        magnitude(trunc_div(spec_launch_velocity(delta).y * ti, TIME_UNIT as int)) <= magnitude(
            delta.y as int,
        ) + delta.spec_length(),
        0 <= trunc_div(GRAVITY_STRENGTH * ti * ti, 2 * TIME_UNIT * TIME_UNIT) <= delta.spec_length(),
        magnitude(spec_launch_velocity(delta).x * ti) <= 2 * COORD_LIMIT * TIME_UNIT,
        magnitude(spec_launch_velocity(delta).y * ti) <= 6 * COORD_LIMIT * TIME_UNIT,
        0 <= GRAVITY_STRENGTH * ti * ti <= 8 * COORD_LIMIT * TIME_UNIT * TIME_UNIT,
{
    lemma_flight_bounds(delta);
    let t = flight_time(delta);
    let len = delta.spec_length();
    let v = spec_launch_velocity(delta);
    let mx = magnitude(delta.x as int);
    let my = magnitude(delta.y as int);
    crate::math::lemma_magnitude_mul(v.x as int, ti);
    crate::math::lemma_magnitude_mul(v.y as int, ti);
    assert(magnitude(v.x * ti) <= mx * TIME_UNIT) by (nonlinear_arith)
        requires
            magnitude(v.x as int) * t <= mx * TIME_UNIT,
            0 <= ti <= t,
            magnitude(v.x * ti) == magnitude(v.x as int) * ti,
    ;
    assert(magnitude(v.y * ti) <= (my + len) * TIME_UNIT) by (nonlinear_arith)
        requires
            magnitude(v.y as int) * t <= (my + len) * TIME_UNIT,
            0 <= ti <= t,
            magnitude(v.y * ti) == magnitude(v.y as int) * ti,
    ;
    lemma_trunc_div_le(v.x * ti, TIME_UNIT as int, mx);
    lemma_trunc_div_le(v.y * ti, TIME_UNIT as int, my + len);
    assert(0 <= GRAVITY_STRENGTH * ti * ti <= len * (2 * TIME_UNIT * TIME_UNIT)) by (nonlinear_arith)
        requires
            0 <= ti <= t,
            t * t <= 4000 * len,
            TIME_UNIT == 1000,
            GRAVITY_STRENGTH == 500,
    ;
    lemma_trunc_div_le(GRAVITY_STRENGTH * ti * ti, 2 * TIME_UNIT * TIME_UNIT, len);
    lemma_trunc_div_bounds(GRAVITY_STRENGTH * ti * ti, 2 * TIME_UNIT * TIME_UNIT);
    assert(len * (2 * TIME_UNIT * TIME_UNIT) <= 8 * COORD_LIMIT * TIME_UNIT * TIME_UNIT)
        by (nonlinear_arith)
        requires
            0 <= len <= 4 * COORD_LIMIT,
            TIME_UNIT == 1000,
    ;
}

/// Where a jump comes down: the position after the whole flight time.
pub open spec fn landing_point(start: Vec2, goal: Vec2) -> Vec2 {
    let delta = goal.spec_minus(start);
    position_after(start, spec_launch_velocity(delta), flight_time(delta))
}

/// A jump comes down on its goal, but for what rounding takes away: less
/// than one sub-unit and one more for each tick of flight across, and less
/// than twice that upward or downward.
pub proof fn lemma_jump_lands(start: Vec2, goal: Vec2)
    requires
        start.within(COORD_LIMIT as int),
        goal.within(COORD_LIMIT as int),
    ensures
        TIME_UNIT * magnitude(landing_point(start, goal).x - goal.x) < flight_time(goal.spec_minus(start))
            + TIME_UNIT,
        TIME_UNIT * magnitude(landing_point(start, goal).y - goal.y) < 2 * flight_time(
            goal.spec_minus(start),
        ) + 2 * TIME_UNIT,
{
    let delta = goal.spec_minus(start);
    lemma_flight_bounds(delta);
    let t = flight_time(delta);
    let v = spec_launch_velocity(delta);
    let d = TIME_UNIT as int;
    let g = GRAVITY_STRENGTH as int;
    if t == 0 {
        assert(delta == Vec2::spec_zero());
        assert(v == Vec2::spec_zero());
        assert(trunc_div(0, d) == 0);
        assert(g * 0 * 0 == 0);
        assert(trunc_div(0, 2 * d * d) == 0);
    } else {
        lemma_sample_terms(delta, t);
        let a = trunc_div(delta.x * d, t);
        let b = trunc_div(delta.y * d, t);
        let c = trunc_div(g * t, 2 * d);
        assert(v.x == a);
        assert(v.y == b + c);
        lemma_trunc_div_bounds(delta.x * d, t);
        lemma_trunc_div_bounds(delta.y * d, t);
        lemma_trunc_div_bounds(g * t, 2 * d);
        // Across.
        let run = a * t;
        let across = trunc_div(run, d);
        lemma_trunc_div_bounds(run, d);
        assert(delta.x >= 0 ==> run >= 0) by (nonlinear_arith)
            requires
                run == a * t,
                delta.x >= 0 ==> a >= 0,
                t > 0,
        ;
        assert(delta.x <= 0 ==> run <= 0) by (nonlinear_arith)
            requires
                run == a * t,
                delta.x <= 0 ==> a <= 0,
                t > 0,
        ;
        assert(delta.x >= 0 ==> a >= 0) by (nonlinear_arith)
            requires
                delta.x * d >= 0 ==> a >= 0,
                d == 1000,
        ;
        assert(delta.x <= 0 ==> a <= 0) by (nonlinear_arith)
            requires
                delta.x * d <= 0 ==> a <= 0,
                d == 1000,
        ;
        assert(landing_point(start, goal).x - goal.x == across - delta.x);
        // Up and down.
        let rise = b * t;
        let lift = c * t;
        let climb = (b + c) * t;
        assert(climb == rise + lift) by (nonlinear_arith)
            requires
                climb == (b + c) * t,
                rise == b * t,
                lift == c * t,
        ;
        assert(delta.y * d - t <= rise <= delta.y * d + t);
        assert(g * (t * t) - 2 * d * t < lift * (2 * d) <= g * (t * t)) by (nonlinear_arith)
            requires
                g * t - 2 * d < c * (2 * d) <= g * t,
                lift == c * t,
                t > 0,
        ;
        let up = trunc_div(climb, d);
        lemma_trunc_div_bounds(climb, d);
        assert(climb - d < up * d < climb + d);
        let fall = trunc_div(g * t * t, 2 * d * d);
        lemma_trunc_div_bounds(g * t * t, 2 * d * d);
        assert(g * t * t == g * (t * t)) by (nonlinear_arith);
        assert(g * (t * t) >= 0) by (nonlinear_arith)
            requires
                g == 500,
        ;
        assert(g * (t * t) - 2 * d * d < fall * (2 * d * d) <= g * (t * t));
        assert(landing_point(start, goal).y - goal.y == up - fall - delta.y);
        let off = up - fall - delta.y;
        assert(up * d * (2 * d) == up * (2 * d * d)) by (nonlinear_arith);
        assert(2 * d * d * off == up * (2 * d * d) - fall * (2 * d * d) - delta.y * (2 * d * d))
            by (nonlinear_arith)
            requires
                off == up - fall - delta.y,
        ;
        assert(climb * (2 * d) == rise * (2 * d) + lift * (2 * d)) by (nonlinear_arith)
            requires
                climb == rise + lift,
        ;
    }
}

/// A jump within reach covers no more ground than the greatest launch
/// speed allows: `g (|delta| + delta.y) <= v_max^2`.
proof fn lemma_reach_bound(dy: int, q: int, len: int, b1: int)
    requires
        0 <= len,
        len * len <= q,
        dy * dy <= q,
        b1 == 64000000 - 500 * dy,
        b1 * b1 - 250000 * q >= 0,
    ensures
        500 * (len + dy) <= 64000000,
{
    let pull = 500 * dy;
    let span = 500 * len;
    assert(pull * pull == 250000 * (dy * dy)) by (nonlinear_arith)
        requires
            pull == 500 * dy,
    ;
    assert(span * span == 250000 * (len * len)) by (nonlinear_arith)
        requires
            span == 500 * len,
    ;
    if b1 < 0 {
        let over = -b1;
        assert(over * over < pull * pull) by (nonlinear_arith)
            requires
                0 < over < pull,
        ;
        assert(over * over == b1 * b1) by (nonlinear_arith)
            requires
                over == -b1,
        ;
    }
    if b1 < span {
        assert(b1 * b1 < span * span) by (nonlinear_arith)
            requires
                0 <= b1 < span,
        ;
    }
}

/// The flight time, squared, lies close to four thousand times the length.
proof fn lemma_time_close(len: int, t: int, u: int, w: int)
    requires
        63 <= t,
        u == t * t,
        u <= 4000 * len,
        (t + 1) * (t + 1) > 4000 * len,
        w == 4000 * (len + 1),
    ensures
        w * w + u * u <= 2 * (u * w) + 4800 * u,
{
    let gap = w - u;
    assert((t + 1) * (t + 1) == u + 2 * t + 1) by (nonlinear_arith)
        requires
            u == t * t,
    ;
    assert(0 < gap < 2 * t + 4001);
    assert(gap * gap <= (2 * t + 4001) * (2 * t + 4001)) by (nonlinear_arith)
        requires
            0 < gap < 2 * t + 4001,
    ;
    assert((2 * t + 4001) * (2 * t + 4001) == 4 * u + 16004 * t + 16008001) by (nonlinear_arith)
        requires
            u == t * t,
    ;
    assert(u >= 63 * t) by (nonlinear_arith)
        requires
            u == t * t,
            t >= 63,
    ;
    assert(gap * gap == w * w + u * u - 2 * (u * w)) by (nonlinear_arith)
        requires
            gap == w - u,
    ;
}

/// The square of the launch speed, from what the quotients leave of its
/// coordinates.
proof fn lemma_speed_square(dx: int, dy: int, q: int, len: int, t: int, vx: int, a: int, c: int)
    requires
        q == dx * dx + dy * dy,
        0 <= len,
        len * len <= q,
        q < (len + 1) * (len + 1),
        63 <= t,
        t * t <= 4000 * len,
        (t + 1) * (t + 1) > 4000 * len,
        500 * (len + dy) <= 64000000,
        magnitude(vx) * t <= magnitude(dx) * 1000,
        dy >= 0 ==> 0 <= a && a * t <= dy * 1000,
        dy < 0 ==> a <= 0 && dy * 1000 <= a * t < dy * 1000 + t,
        0 <= c,
        t - 4 < 4 * c <= t,
    ensures
        vx * vx + (a + c) * (a + c) <= 64016000,
{
    let u = t * t;
    let w = 4000 * (len + 1);
    let s = vx * vx + (a + c) * (a + c);
    lemma_time_close(len, t, u, w);
    // Across.
    let x = magnitude(vx) * t;
    let far = magnitude(dx) * 1000;
    assert(0 <= x) by (nonlinear_arith)
        requires
            x == magnitude(vx) * t,
            magnitude(vx) >= 0,
            t >= 0,
    ;
    crate::vec2::lemma_square_monotone(x, far);
    assert(x * x == (vx * vx) * u) by (nonlinear_arith)
        requires
            x == magnitude(vx) * t,
            magnitude(vx) == vx || magnitude(vx) == -vx,
            u == t * t,
    ;
    assert(far * far == 1000000 * (dx * dx)) by (nonlinear_arith)
        requires
            far == magnitude(dx) * 1000,
            magnitude(dx) == dx || magnitude(dx) == -dx,
    ;
    // Up.
    let rise = a * t;
    let lift = c * t;
    let climb = rise + lift;
    assert(climb == (a + c) * t) by (nonlinear_arith)
        requires
            climb == a * t + c * t,
    ;
    assert(climb * climb == ((a + c) * (a + c)) * u) by (nonlinear_arith)
        requires
            climb == (a + c) * t,
            u == t * t,
    ;
    assert(u - 4 * t < 4 * lift <= u) by (nonlinear_arith)
        requires
            t - 4 < 4 * c <= t,
            lift == c * t,
            u == t * t,
            t > 0,
    ;
    let m = 4000 * dy + u;
    let four = 4 * climb;
    assert(four * four == 16 * (climb * climb)) by (nonlinear_arith)
        requires
            four == 4 * climb,
    ;
    assert(m * m == 16000000 * (dy * dy) + 8000 * (dy * u) + u * u) by (nonlinear_arith)
        requires
            m == 4000 * dy + u,
    ;
    // The length of the jump against the flight time.
    let reach = (len + 1) * (len + 1);
    assert(w * w == 16000000 * reach) by (nonlinear_arith)
        requires
            w == 4000 * (len + 1),
            reach == (len + 1) * (len + 1),
    ;
    assert(16000000 * q < w * w);
    assert(u * w == 4000 * (u * len) + 4000 * u) by (nonlinear_arith)
        requires
            w == 4000 * (len + 1),
    ;
    // 16 u s = 16 x^2 + (4 climb)^2.
    assert(16 * (s * u) == 16 * (x * x) + four * four) by (nonlinear_arith)
        requires
            s == vx * vx + (a + c) * (a + c),
            x * x == (vx * vx) * u,
            climb * climb == ((a + c) * (a + c)) * u,
            four * four == 16 * (climb * climb),
    ;
    let bound: int = 64016000;
    if dy >= 0 {
        assert(0 <= rise) by (nonlinear_arith)
            requires
                rise == a * t,
                a >= 0,
                t >= 0,
        ;
        assert(0 <= four <= m);
        crate::vec2::lemma_square_monotone(four, m);
        assert(16 * (s * u) < 8000 * (u * len) + 8000 * (dy * u) + 12800 * u);
        assert(8000 * (u * len) + 8000 * (dy * u) + 12800 * u == 16 * (u * (500 * (len + dy) + 800)))
            by (nonlinear_arith);
        assert(u * (500 * (len + dy) + 800) <= u * bound) by (nonlinear_arith)
            requires
                500 * (len + dy) + 800 <= bound,
                u >= 0,
        ;
        assert(s * u < bound * u + u) by (nonlinear_arith)
            requires
                16 * (s * u) < 16 * (u * (500 * (len + dy) + 800)),
                u * (500 * (len + dy) + 800) <= u * bound,
                u > 0,
        ;
        assert(bound * u + u == (bound + 1) * u) by (nonlinear_arith);
        crate::vec2::lemma_cancel_lt(s, bound + 1, u);
    } else {
        // The quotient of a negative rise rounds up, by less than one.
        assert(m - 4 * t < four < m + 4 * t);
        assert(dy * dy <= q) by (nonlinear_arith)
            requires
                q == dx * dx + dy * dy,
        ;
        assert(-dy <= len) by {
            if -dy > len {
                assert((-dy) * (-dy) >= (len + 1) * (len + 1)) by (nonlinear_arith)
                    requires
                        -dy >= len + 1,
                        len >= 0,
                ;
                assert((-dy) * (-dy) == dy * dy) by (nonlinear_arith);
            }
        }
        assert((t + 1) * (t + 1) == u + 2 * t + 1) by (nonlinear_arith)
            requires
                u == t * t,
        ;
        let size = magnitude(m);
        assert(size <= 30398 * t) by {
            if m >= 0 {
                assert(m <= u);
                assert(m <= 512000000);
                if t <= 30398 {
                    assert(u <= 30398 * t) by (nonlinear_arith)
                        requires
                            u == t * t,
                            0 <= t <= 30398,
                    ;
                }
            }
        }
        let wide = size + 4 * t;
        assert(magnitude(four) < wide);
        assert(four * four < wide * wide) by (nonlinear_arith)
            requires
                magnitude(four) < wide,
                magnitude(four) == four || magnitude(four) == -four,
                magnitude(four) >= 0,
        ;
        assert(wide * wide == m * m + 8 * (size * t) + 16 * u) by (nonlinear_arith)
            requires
                wide == size + 4 * t,
                size == m || size == -m,
                u == t * t,
        ;
        assert(size * t <= 30398 * u) by (nonlinear_arith)
            requires
                size <= 30398 * t,
                u == t * t,
                t >= 0,
        ;
        assert(16 * (s * u) < 8000 * (u * len) + 8000 * (dy * u) + 12800 * u + 243184 * u + 16 * u);
        assert(8000 * (u * len) + 8000 * (dy * u) + 256000 * u == 16 * (u * (500 * (len + dy) + 16000)))
            by (nonlinear_arith);
        assert(u * (500 * (len + dy) + 16000) <= u * bound) by (nonlinear_arith)
            requires
                500 * (len + dy) + 16000 <= bound,
                u >= 0,
        ;
        assert(s * u < bound * u + u) by (nonlinear_arith)
            requires
                16 * (s * u) < 16 * (u * (500 * (len + dy) + 16000)),
                u * (500 * (len + dy) + 16000) <= u * bound,
                u > 0,
        ;
        assert(bound * u + u == (bound + 1) * u) by (nonlinear_arith);
        crate::vec2::lemma_cancel_lt(s, bound + 1, u);
    }
}

/// The minimum-energy jump over a displacement within reach leaves no
/// faster than the greatest launch speed.
pub proof fn lemma_launch_speed_within_force(delta: Vec2)
    requires
        delta.within(2 * COORD_LIMIT),
        jump_in_reach(delta),
    ensures
        0 <= launch_speed(delta) <= PLATFORMER_AI_JUMP_FORCE,
{
    lemma_flight_bounds(delta);
    delta.lemma_length_squared();
    let q = delta.spec_length_squared();
    let len = delta.spec_length();
    let t = flight_time(delta);
    let v = spec_launch_velocity(delta);
    let dx = delta.x as int;
    let dy = delta.y as int;
    v.lemma_length_squared();
    lemma_floor_sqrt_exists(q);
    lemma_floor_sqrt_exists(v.spec_length_squared());
    crate::math::lemma_floor_sqrt_zero();
    if t == 0 {
        assert(v == Vec2::spec_zero());
    } else {
        let n = 2 * len * TIME_UNIT * TIME_UNIT / (GRAVITY_STRENGTH as int);
        assert(n == 4000 * len) by (nonlinear_arith)
            requires
                n == 2 * len * TIME_UNIT * TIME_UNIT / (GRAVITY_STRENGTH as int),
                TIME_UNIT == 1000,
                GRAVITY_STRENGTH == 500,
        ;
        lemma_floor_sqrt_exists(n);
        crate::math::lemma_floor_sqrt_lower(n, 63);
        // Within reach.
        let b1 = delta.spec_dot(gravity()) + PLATFORMER_AI_JUMP_FORCE * PLATFORMER_AI_JUMP_FORCE;
        assert(b1 == 64000000 - 500 * dy) by (nonlinear_arith)
            requires
                b1 == dx * 0 + dy * (-500) + 8000 * 8000,
        ;
        assert(gravity().spec_dot(gravity()) == 250000) by (nonlinear_arith)
            requires
                gravity().spec_dot(gravity()) == 0 * 0 + (-500) * (-500),
        ;
        assert(delta.spec_dot(delta) == q);
        assert(dy * dy <= q) by (nonlinear_arith)
            requires
                q == dx * dx + dy * dy,
        ;
        lemma_reach_bound(dy, q, len, b1);
        // What the quotients leave.
        let a = trunc_div(dy * TIME_UNIT, t);
        let c = trunc_div(GRAVITY_STRENGTH * t, 2 * TIME_UNIT);
        lemma_trunc_div_bounds(dy * TIME_UNIT, t);
        lemma_trunc_div_bounds(GRAVITY_STRENGTH * t, 2 * TIME_UNIT);
        assert(v.x == trunc_div(dx * TIME_UNIT, t));
        assert(v.y == a + c);
        lemma_speed_square(dx, dy, q, len, t, v.x as int, a, c);
        assert(v.spec_length_squared() < 8001 * 8001);
        lemma_floor_sqrt_upper(v.spec_length_squared(), 8001);
    }
}

/// Tests whether some launch at the greatest launch speed carries over
/// `delta`.
pub fn jump_within_reach(delta: Vec2) -> (r: bool)
    requires
        delta.within(2 * COORD_LIMIT),
    ensures
        r == jump_in_reach(delta),
{
    proof {
        lemma_mul_bounds(delta.x as int, delta.x as int, 0x200_0000_0000, 0x200_0000_0000);
        lemma_mul_bounds(delta.y as int, delta.y as int, 0x200_0000_0000, 0x200_0000_0000);
    }
    let g: i128 = GRAVITY_STRENGTH as i128;
    let v_max: i128 = PLATFORMER_AI_JUMP_FORCE as i128;
    let along: i128 = (delta.y as i128) * (-g);
    let b1: i128 = along + v_max * v_max;
    let gg: i128 = g * g;
    let dd: i128 = (delta.x as i128) * (delta.x as i128) + (delta.y as i128) * (delta.y as i128);
    proof {
        lemma_mul_bounds(b1 as int, b1 as int, 0x800_0000_0000_0000, 0x800_0000_0000_0000);
        lemma_mul_bounds(gg as int, dd as int, 250000, 0x8_0000_0000_0000_0000_0000);
        assert(delta.spec_dot(gravity()) == along);
        assert(gravity().spec_dot(gravity()) == gg);
        assert(delta.spec_dot(delta) == dd);
    }
    b1 * b1 - gg * dd >= 0
}

/// Flight time of the minimum-energy jump over `delta`, in sub-ticks.
pub fn jump_time(delta: Vec2) -> (t: i64)
    requires
        delta.within(2 * COORD_LIMIT),
    ensures
        t == flight_time(delta),
        0 <= t < 0x800_0000,
{
    proof {
        lemma_flight_bounds(delta);
    }
    let len = delta.length();
    let n: i128 = 2 * (len as i128) * (TIME_UNIT as i128) * (TIME_UNIT as i128) / (
    GRAVITY_STRENGTH as i128);
    isqrt(n as u128) as i64
}

/// Launch velocity of the minimum-energy jump over `delta`.
pub fn launch_velocity(delta: Vec2) -> (v: Vec2)
    requires
        delta.within(2 * COORD_LIMIT),
    ensures
        v == spec_launch_velocity(delta),
        v.within(4 * COORD_LIMIT * TIME_UNIT),
{
    proof {
        lemma_flight_bounds(delta);
    }
    let t = jump_time(delta);
    if t == 0 {
        Vec2::zero()
    } else {
        proof {
            lemma_trunc_div_bounds(delta.x * TIME_UNIT, t as int);
            lemma_trunc_div_bounds(delta.y * TIME_UNIT, t as int);
            lemma_trunc_div_bounds(GRAVITY_STRENGTH * t, 2 * TIME_UNIT);
        }
        let x: i128 = (delta.x as i128) * (TIME_UNIT as i128) / (t as i128);
        let rise: i128 = (delta.y as i128) * (TIME_UNIT as i128) / (t as i128);
        let lift: i128 = (GRAVITY_STRENGTH as i128) * (t as i128) / (2 * (TIME_UNIT as i128));
        Vec2 { x: x as i64, y: (rise + lift) as i64 }
    }
}

/// The eleven corners of the arc from `start` to `goal`.
pub fn arc_points(start: Vec2, goal: Vec2) -> (points: Vec<Vec2>)
    requires
        start.within(COORD_LIMIT as int),
        goal.within(COORD_LIMIT as int),
    ensures
        points@.len() == ARC_PIECES + 1,
        forall|i: int| 0 <= i <= ARC_PIECES ==> #[trigger] points@[i] == arc_point(start, goal, i),
        forall|i: int| 0 <= i <= ARC_PIECES ==> (#[trigger] points@[i]).within(16 * COORD_LIMIT),
{
    let delta = goal.minus(start);
    let velocity = launch_velocity(delta);
    let step = jump_time(delta) / ARC_PIECES;
    let mut points: Vec<Vec2> = Vec::new();
    points.push(start);
    proof {
        lemma_arc_bounds(start, goal, 0);
    }
    let mut i: i64 = 1;
    while i < ARC_PIECES
        invariant
            1 <= i <= ARC_PIECES,
            start.within(COORD_LIMIT as int),
            goal.within(COORD_LIMIT as int),
            delta == goal.spec_minus(start),
            delta.within(2 * COORD_LIMIT),
            velocity == spec_launch_velocity(delta),
            step == flight_time(delta) / (ARC_PIECES as int),
            0 <= step < 0x800_0000,
            points@.len() == i,
            forall|k: int| 0 <= k < i ==> #[trigger] points@[k] == arc_point(start, goal, k),
            forall|k: int| 0 <= k < i ==> (#[trigger] points@[k]).within(16 * COORD_LIMIT),
        decreases ARC_PIECES - i,
    {
        assert(0 <= step * i <= 0x800_0000 * 10) by (nonlinear_arith)
            requires
                0 <= step < 0x800_0000,
                1 <= i <= 10,
        ;
        let time: i64 = step * i;
        proof {
            lemma_arc_bounds(start, goal, i as int);
            assert(time == sample_time(delta, i as int));
            lemma_sample_terms(delta, time as int);
            lemma_flight_bounds(delta);
            lemma_mul_bounds(time as int, time as int, 0x800_0000, 0x800_0000);
            lemma_trunc_div_bounds(velocity.x * time, TIME_UNIT as int);
            lemma_trunc_div_bounds(velocity.y * time, TIME_UNIT as int);
            assert(GRAVITY_STRENGTH * time * time == GRAVITY_STRENGTH * (time * time))
                by (nonlinear_arith);
            assert(velocity.x * time <= 0x800_0000 * (4 * COORD_LIMIT * TIME_UNIT)
                && velocity.x * time >= -(0x800_0000 * (4 * COORD_LIMIT * TIME_UNIT)))
                by (nonlinear_arith)
                requires
                    0 <= time < 0x800_0000,
                    -(4 * COORD_LIMIT * TIME_UNIT) <= velocity.x <= 4 * COORD_LIMIT * TIME_UNIT,
            ;
            assert(velocity.y * time <= 0x800_0000 * (4 * COORD_LIMIT * TIME_UNIT)
                && velocity.y * time >= -(0x800_0000 * (4 * COORD_LIMIT * TIME_UNIT)))
                by (nonlinear_arith)
                requires
                    0 <= time < 0x800_0000,
                    -(4 * COORD_LIMIT * TIME_UNIT) <= velocity.y <= 4 * COORD_LIMIT * TIME_UNIT,
            ;
        }
        let run: i128 = (velocity.x as i128) * (time as i128) / (TIME_UNIT as i128);
        let rise: i128 = (velocity.y as i128) * (time as i128) / (TIME_UNIT as i128);
        let fall: i128 = (GRAVITY_STRENGTH as i128) * (time as i128) * (time as i128) / (2 * (
        TIME_UNIT as i128) * (TIME_UNIT as i128));
        let point = Vec2 {
            x: ((start.x as i128) + run) as i64,
            y: ((start.y as i128) + rise - fall) as i64,
        };
        assert(point == arc_point(start, goal, i as int));
        points.push(point);
        i += 1;
    }
    proof {
        lemma_arc_bounds(start, goal, ARC_PIECES as int);
    }
    points.push(goal);
    points
}

} // verus!
