//! The navmesh: traversal nodes joined by typed connections.
use vstd::prelude::*;
use crate::math::{COORD_LIMIT, UNIT};
use crate::vec2::Vec2;

verus! {

/// Downward acceleration, in sub-units per tick squared.
pub const GRAVITY_STRENGTH: i64 = 500;

/// Longest distance between two points within the coordinate limit (2^42).
pub const DIST_LIMIT: i64 = 0x400_0000_0000;

/// How a connection is traversed.
#[derive(Debug, Clone, Copy, PartialEq, Eq, Structural)]
pub enum PathfindingGraphConnectionType {
    Walkable,
    Jumpable,
    Droppable,
}

/// A directed link from the node that holds it to node `node_id`.
#[derive(Debug, Clone, Copy, PartialEq, Eq, Structural)]
pub struct PathfindingGraphConnection {
    pub node_id: usize,
    /// Straight-line distance to the target, in sub-units.
    pub dist: i64,
    pub connection_type: PathfindingGraphConnectionType,
    /// Launch speed of a jump, in sub-units per tick; zero for walking.
    pub effort: i64,
}

/// A traversal node on the surface of a level polygon.
#[derive(Debug, Clone)]
pub struct PathfindingGraphNode {
    pub id: usize,
    pub position: Vec2,
    pub polygon_index: usize,
    /// The edges of polygon `polygon_index` the node lies on.
    pub line_indicies: Vec<usize>,
    pub walkable_connections: Vec<PathfindingGraphConnection>,
    pub jumpable_connections: Vec<PathfindingGraphConnection>,
    pub droppable_connections: Vec<PathfindingGraphConnection>,
    /// Outward direction of the surface at the node: zero, or about `UNIT`
    /// long.
    pub normal: Vec2,
    pub is_corner: bool,
    /// For a corner, whether the surface bends away from the node.
    pub is_external_corner: Option<bool>,
}

/// The mathematical content of a node.
pub struct GraphNodeView {
    pub id: usize,
    pub position: Vec2,
    pub polygon_index: usize,
    pub line_indicies: Seq<usize>,
    pub walkable_connections: Seq<PathfindingGraphConnection>,
    pub jumpable_connections: Seq<PathfindingGraphConnection>,
    pub droppable_connections: Seq<PathfindingGraphConnection>,
    pub normal: Vec2,
    pub is_corner: bool,
    pub is_external_corner: Option<bool>,
}

impl View for PathfindingGraphNode {
    type V = GraphNodeView;

    open spec fn view(&self) -> GraphNodeView {
        GraphNodeView {
            id: self.id,
            position: self.position,
            polygon_index: self.polygon_index,
            line_indicies: self.line_indicies@,
            walkable_connections: self.walkable_connections@,
            jumpable_connections: self.jumpable_connections@,
            droppable_connections: self.droppable_connections@,
            normal: self.normal,
            is_corner: self.is_corner,
            is_external_corner: self.is_external_corner,
        }
    }
}

/// The views of a run of nodes.
pub open spec fn node_views(nodes: Seq<PathfindingGraphNode>) -> Seq<GraphNodeView> {
    Seq::new(nodes.len(), |i: int| nodes[i]@)
}

/// A walkable connection to `node_id` over `dist` sub-units.
pub open spec fn walk_link(node_id: usize, dist: i64) -> PathfindingGraphConnection {
    PathfindingGraphConnection {
        node_id,
        dist,
        connection_type: PathfindingGraphConnectionType::Walkable,
        effort: 0,
    }
}

/// Every connection in `links` targets a node below `n` and has a distance
/// between zero and the distance limit.
pub open spec fn links_in_range(links: Seq<PathfindingGraphConnection>, n: int) -> bool {
    forall|k: int| 0 <= k < links.len() ==> {
        &&& (#[trigger] links[k]).node_id < n
        &&& 0 <= links[k].dist <= DIST_LIMIT
    }
}

/// Every node's id is its index.
pub open spec fn ids_are_indices(nodes: Seq<GraphNodeView>) -> bool {
    forall|i: int| 0 <= i < nodes.len() ==> (#[trigger] nodes[i]).id == i
}

/// Every connection of every node targets a node of the graph.
pub open spec fn targets_in_range(nodes: Seq<GraphNodeView>) -> bool {
    forall|i: int| 0 <= i < nodes.len() ==> {
        &&& links_in_range((#[trigger] nodes[i]).walkable_connections, nodes.len() as int)
        &&& links_in_range(nodes[i].jumpable_connections, nodes.len() as int)
        &&& links_in_range(nodes[i].droppable_connections, nodes.len() as int)
    }
}

/// Every node lies within the coordinate limit and has a normal no longer
/// than a unit vector.
pub open spec fn positions_in_range(nodes: Seq<GraphNodeView>) -> bool {
    forall|i: int| 0 <= i < nodes.len() ==> {
        &&& (#[trigger] nodes[i]).position.within(COORD_LIMIT as int)
        &&& nodes[i].normal.within(UNIT as int)
    }
}

/// `links` holds a connection to `node_id` over `dist`.
pub open spec fn has_walk_link(links: Seq<PathfindingGraphConnection>, node_id: int, dist: int) -> bool {
    exists|w: int| 0 <= w < links.len() && (#[trigger] links[w]).node_id == node_id && links[w].dist == dist
}

/// Whether walkable connection `k` of node `a` is answered by node `b`:
/// where it leads to `b`, `b` has a walkable connection back to `a` over the
/// same distance.
pub open spec fn link_mirrored(nodes: Seq<GraphNodeView>, a: int, k: int, b: int) -> bool {
    nodes[b].id == nodes[a].walkable_connections[k].node_id ==> has_walk_link(
        nodes[b].walkable_connections,
        nodes[a].id as int,
        nodes[a].walkable_connections[k].dist as int,
    )
}

/// Walking is undirected: wherever a node has a walkable connection to
/// another, that one has a walkable connection back over the same distance.
pub open spec fn walkable_symmetric(nodes: Seq<GraphNodeView>) -> bool {
    forall|a: int, k: int, b: int|
        0 <= a < nodes.len() && 0 <= k < nodes[a].walkable_connections.len() && 0 <= b < nodes.len()
            ==> #[trigger] link_mirrored(nodes, a, k, b)
}

/// Every walkable connection of every node leads to a node below `n`.
pub open spec fn walk_targets_below(nodes: Seq<GraphNodeView>, n: int) -> bool {
    forall|a: int, k: int|
        0 <= a < nodes.len() && 0 <= k < nodes[a].walkable_connections.len() ==> (
        #[trigger] nodes[a].walkable_connections[k]).node_id < n
}

/// Every walkable connection runs over a distance between zero and the
/// distance limit.
pub open spec fn walk_dists_in_range(nodes: Seq<GraphNodeView>) -> bool {
    forall|a: int, k: int|
        0 <= a < nodes.len() && 0 <= k < nodes[a].walkable_connections.len() ==> 0 <= (
        #[trigger] nodes[a].walkable_connections[k]).dist <= DIST_LIMIT
}

/// No node has a droppable connection.
pub open spec fn no_drops(nodes: Seq<GraphNodeView>) -> bool {
    forall|a: int| 0 <= a < nodes.len() ==> (#[trigger] nodes[a]).droppable_connections.len() == 0
}

/// A finished navmesh graph: ids are indices, connections stay inside the
/// graph, and all positions are in range.
pub open spec fn graph_wf(nodes: Seq<GraphNodeView>) -> bool {
    &&& ids_are_indices(nodes)
    &&& targets_in_range(nodes)
    &&& positions_in_range(nodes)
}

/// The navmesh and the goal being pursued over it.
#[derive(Debug, Clone)]
pub struct Pathfinding {
    pub nodes: Vec<PathfindingGraphNode>,
    /// Snapshot of the node nearest the goal position, while pursuit is active.
    pub goal_graph_node: Option<PathfindingGraphNode>,
    pub goal_position: Vec2,
    pub active: bool,
}

impl Pathfinding {
    /// The views of the graph's nodes.
    pub open spec fn graph(&self) -> Seq<GraphNodeView> {
        node_views(self.nodes@)
    }

    /// The id of the goal node, if one is set.
    pub open spec fn goal_id(&self) -> Option<usize> {
        match self.goal_graph_node {
            Some(node) => Some(node.id),
            None => None,
        }
    }

    /// The graph is finished, the goal position is in range, and the goal
    /// node, if set, is a node of the graph.
    pub open spec fn wf(&self) -> bool {
        &&& graph_wf(self.graph())
        &&& self.goal_position.within(COORD_LIMIT as int)
        &&& match self.goal_graph_node {
            Some(node) => node.id < self.nodes@.len(),
            None => true,
        }
    }
}

/// Tests whether every connection targets a node below `n` over a distance
/// between zero and the distance limit.
fn are_links_in_range(links: &Vec<PathfindingGraphConnection>, n: usize) -> (r: bool)
    ensures
        r == links_in_range(links@, n as int),
{
    let mut k: usize = 0;
    while k < links.len()
        invariant
            k <= links@.len(),
            links_in_range(links@.subrange(0, k as int), n as int),
        decreases links@.len() - k,
    {
        let link = links[k];
        if !(link.node_id < n && 0 <= link.dist && link.dist <= DIST_LIMIT) {
            assert(!(links@[k as int].node_id < n && 0 <= links@[k as int].dist <= DIST_LIMIT));
            return false;
        }
        assert forall|m: int| 0 <= m < k + 1 implies {
            &&& (#[trigger] links@.subrange(0, k + 1)[m]).node_id < n
            &&& 0 <= links@.subrange(0, k + 1)[m].dist <= DIST_LIMIT
        } by {
            if m < k {
                assert(links@.subrange(0, k as int)[m] == links@[m]);
            }
        }
        k += 1;
    }
    assert(links@.subrange(0, k as int) =~= links@);
    true
}

impl Pathfinding {
    /// Tests whether the navmesh is well formed.
    pub fn is_wf(&self) -> (r: bool)
        ensures
            r == self.wf(),
    {
        let n = self.nodes.len();
        let ghost nodes = self.graph();
        let mut i: usize = 0;
        while i < n
            invariant
                i <= n,
                n == self.nodes@.len(),
                nodes == self.graph(),
                forall|a: int|
                    0 <= a < i ==> {
                        &&& (#[trigger] nodes[a]).id == a
                        &&& links_in_range(nodes[a].walkable_connections, n as int)
                        &&& links_in_range(nodes[a].jumpable_connections, n as int)
                        &&& links_in_range(nodes[a].droppable_connections, n as int)
                        &&& nodes[a].position.within(COORD_LIMIT as int)
                        &&& nodes[a].normal.within(UNIT as int)
                    },
            decreases n - i,
        {
            let node = &self.nodes[i];
            assert(nodes[i as int] == node@);
            let fine = node.id == i && are_links_in_range(&node.walkable_connections, n)
                && are_links_in_range(&node.jumpable_connections, n) && are_links_in_range(
                &node.droppable_connections,
                n,
            ) && node.position.is_within(COORD_LIMIT) && node.normal.is_within(UNIT);
            if !fine {
                return false;
            }
            i += 1;
        }
        assert(graph_wf(nodes));
        if !self.goal_position.is_within(COORD_LIMIT) {
            return false;
        }
        match &self.goal_graph_node {
            Some(node) => node.id < n,
            None => true,
        }
    }
}

impl PathfindingGraphNode {
    /// A copy of the node.
    pub fn duplicate(&self) -> (r: PathfindingGraphNode)
        ensures
            r@ == self@,
    {
        PathfindingGraphNode {
            id: self.id,
            position: self.position,
            polygon_index: self.polygon_index,
            line_indicies: self.line_indicies.clone(),
            walkable_connections: self.walkable_connections.clone(),
            jumpable_connections: self.jumpable_connections.clone(),
            droppable_connections: self.droppable_connections.clone(),
            normal: self.normal,
            is_corner: self.is_corner,
            is_external_corner: self.is_external_corner,
        }
    }
}

/// Installs the navmesh in its initial state.
pub struct PathfindingPlugin;

impl PathfindingPlugin {
    /// The navmesh before any level is loaded: no nodes, no goal, inactive.
    pub fn build(&self) -> (r: Pathfinding)
        ensures
            r.nodes@.len() == 0,
            r.goal_graph_node.is_none(),
            r.goal_position == Vec2::spec_zero(),
            !r.active,
            r.wf(),
    {
        Pathfinding { nodes: Vec::new(), goal_graph_node: None, goal_position: Vec2::zero(), active: false }
    }
}

} // verus!
