//! Level geometry: the polygons the navmesh is built from.
use vstd::prelude::*;
use crate::math::COORD_LIMIT;
use crate::vec2::Vec2;

verus! {

/// An ordered run of points; consecutive points form the polygon's edges.
/// Edge `k` runs from point `k` to point `k + 1`.
#[derive(Debug, Clone)]
pub struct Polygon {
    pub points: Vec<Vec2>,
    /// Whether the polygon bounds the level rather than standing in it.
    pub is_container: bool,
}

/// The polygons of a level, in order.
#[derive(Debug, Clone)]
pub struct Level {
    pub polygons: Vec<Polygon>,
}

impl Polygon {
    /// Every point lies within the coordinate limit.
    pub open spec fn wf(&self) -> bool {
        forall|k: int| 0 <= k < self.points@.len() ==> (#[trigger] self.points@[k]).within(COORD_LIMIT as int)
    }

    /// Number of edges.
    pub open spec fn edge_count(&self) -> nat {
        if self.points@.len() == 0 {
            0
        } else {
            (self.points@.len() - 1) as nat
        }
    }
}

impl Polygon {
    /// Tests whether every point lies within the coordinate limit.
    pub fn is_wf(&self) -> (r: bool)
        ensures
            r == self.wf(),
    {
        let mut k: usize = 0;
        while k < self.points.len()
            invariant
                k <= self.points@.len(),
                forall|m: int| 0 <= m < k ==> (#[trigger] self.points@[m]).within(COORD_LIMIT as int),
            decreases self.points@.len() - k,
        {
            if !self.points[k].is_within(COORD_LIMIT) {
                return false;
            }
            k += 1;
        }
        true
    }
}

impl Level {
    /// Tests whether every polygon is well formed.
    pub fn is_wf(&self) -> (r: bool)
        ensures
            r == self.wf(),
    {
        let mut p: usize = 0;
        while p < self.polygons.len()
            invariant
                p <= self.polygons@.len(),
                forall|m: int| 0 <= m < p ==> (#[trigger] self.polygons@[m]).wf(),
            decreases self.polygons@.len() - p,
        {
            if !self.polygons[p].is_wf() {
                return false;
            }
            p += 1;
        }
        true
    }

    /// Every polygon is well formed.
    pub open spec fn wf(&self) -> bool {
        forall|p: int| 0 <= p < self.polygons@.len() ==> (#[trigger] self.polygons@[p]).wf()
    }

    /// Whether `polygon_index` names a polygon and `line_index` one of its edges.
    pub open spec fn has_edge(&self, polygon_index: int, line_index: int) -> bool {
        &&& 0 <= polygon_index < self.polygons@.len()
        &&& 0 <= line_index
        &&& line_index + 1 < self.polygons@[polygon_index].points@.len()
    }
}

} // verus!
