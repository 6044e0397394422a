//! Segment intersection.
use vstd::prelude::*;
use crate::math::WIDE_LIMIT;
use crate::vec2::Vec2;

verus! {

/// Whether the segment from `a_start` to `a_end` and the segment from
/// `b_start` to `b_end` cross or touch.
///
/// With `r` and `s` the directions of the two segments and `w` the
/// displacement between their starts, the segments meet at
/// `a_start + t * r == b_start + u * s` where `t = (w x s) / (r x s)` and
/// `u = (w x r) / (r x s)`; they intersect when both parameters lie in
/// `[0, 1]`. Parallel segments (`r x s == 0`), collinear ones included, never
/// intersect.
pub open spec fn segments_intersect(a_start: Vec2, a_end: Vec2, b_start: Vec2, b_end: Vec2) -> bool {
    let rx = a_end.x - a_start.x;
    let ry = a_end.y - a_start.y;
    let sx = b_end.x - b_start.x;
    let sy = b_end.y - b_start.y;
    let wx = b_start.x - a_start.x;
    let wy = b_start.y - a_start.y;
    let d = rx * sy - ry * sx;
    let t = wx * sy - wy * sx;
    let u = wx * ry - wy * rx;
    if d > 0 {
        0 <= t <= d && 0 <= u <= d
    } else if d < 0 {
        d <= t <= 0 && d <= u <= 0
    } else {
        false
    }
}

/// Where two segments intersect, the scaled parameters name one common
/// point: `d * a_start + t * r == d * b_start + u * s`.
pub proof fn lemma_intersection_point(a_start: Vec2, a_end: Vec2, b_start: Vec2, b_end: Vec2)
    ensures
        ({
            let rx = a_end.x - a_start.x;
            let ry = a_end.y - a_start.y;
            let sx = b_end.x - b_start.x;
            let sy = b_end.y - b_start.y;
            let wx = b_start.x - a_start.x;
            let wy = b_start.y - a_start.y;
            let d = rx * sy - ry * sx;
            let t = wx * sy - wy * sx;
            let u = wx * ry - wy * rx;
            &&& d * a_start.x + t * rx == d * b_start.x + u * sx
            &&& d * a_start.y + t * ry == d * b_start.y + u * sy
        }),
{
    let rx = a_end.x - a_start.x;
    let ry = a_end.y - a_start.y;
    let sx = b_end.x - b_start.x;
    let sy = b_end.y - b_start.y;
    let wx = b_start.x - a_start.x;
    let wy = b_start.y - a_start.y;
    let d = rx * sy - ry * sx;
    let t = wx * sy - wy * sx;
    let u = wx * ry - wy * rx;
    assert(t * rx == wx * sy * rx - wy * sx * rx) by (nonlinear_arith)
        requires
            t == wx * sy - wy * sx,
    ;
    assert(t * ry == wx * sy * ry - wy * sx * ry) by (nonlinear_arith)
        requires
            t == wx * sy - wy * sx,
    ;
    assert(d * wx == rx * sy * wx - ry * sx * wx) by (nonlinear_arith)
        requires
            d == rx * sy - ry * sx,
    ;
    assert(d * wy == rx * sy * wy - ry * sx * wy) by (nonlinear_arith)
        requires
            d == rx * sy - ry * sx,
    ;
    assert(u * sx == wx * ry * sx - wy * rx * sx) by (nonlinear_arith)
        requires
            u == wx * ry - wy * rx,
    ;
    assert(u * sy == wx * ry * sy - wy * rx * sy) by (nonlinear_arith)
        requires
            u == wx * ry - wy * rx,
    ;
    assert(wx * sy * rx == rx * sy * wx) by (nonlinear_arith);
    assert(ry * sx * wx == wx * ry * sx) by (nonlinear_arith);
    assert(wy * sx * rx == wy * rx * sx) by (nonlinear_arith);
    assert(wx * sy * ry == wx * ry * sy) by (nonlinear_arith);
    assert(wy * sx * ry == ry * sx * wy) by (nonlinear_arith);
    assert(rx * sy * wy == wy * rx * sy) by (nonlinear_arith);
    assert(d * a_start.x + d * wx == d * b_start.x) by (nonlinear_arith)
        requires
            wx == b_start.x - a_start.x,
    ;
    assert(d * a_start.y + d * wy == d * b_start.y) by (nonlinear_arith)
        requires
            wy == b_start.y - a_start.y,
    ;
}

/// Tests whether two segments cross or touch.
pub fn line_intersect(a_start: Vec2, a_end: Vec2, b_start: Vec2, b_end: Vec2) -> (hit: bool)
    requires
        a_start.within(WIDE_LIMIT as int),
        a_end.within(WIDE_LIMIT as int),
        b_start.within(WIDE_LIMIT as int),
        b_end.within(WIDE_LIMIT as int),
    ensures
        hit == segments_intersect(a_start, a_end, b_start, b_end),
{
    let r = a_end.minus(a_start);
    let s = b_end.minus(b_start);
    let w = b_start.minus(a_start);
    proof {
        let lim = 2 * WIDE_LIMIT as int;
        crate::math::lemma_mul_bounds(r.x as int, s.y as int, lim, lim);
        crate::math::lemma_mul_bounds(r.y as int, s.x as int, lim, lim);
        crate::math::lemma_mul_bounds(w.x as int, s.y as int, lim, lim);
        crate::math::lemma_mul_bounds(w.y as int, s.x as int, lim, lim);
        crate::math::lemma_mul_bounds(w.x as int, r.y as int, lim, lim);
        crate::math::lemma_mul_bounds(w.y as int, r.x as int, lim, lim);
    }
    let d: i128 = (r.x as i128) * (s.y as i128) - (r.y as i128) * (s.x as i128);
    let t: i128 = (w.x as i128) * (s.y as i128) - (w.y as i128) * (s.x as i128);
    let u: i128 = (w.x as i128) * (r.y as i128) - (w.y as i128) * (r.x as i128);
    if d > 0 {
        0 <= t && t <= d && 0 <= u && u <= d
    } else if d < 0 {
        d <= t && t <= 0 && d <= u && u <= 0
    } else {
        false
    }
}

} // verus!
