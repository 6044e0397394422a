//! Best-first search over the navmesh.
use vstd::prelude::*;
use crate::math::COORD_LIMIT;
use crate::pathfinding::{
    GraphNodeView, Pathfinding, PathfindingGraphConnection, PathfindingGraphNode, DIST_LIMIT,
};
use crate::expansion::{
    closed_position, entries, estimate, expanded, lemma_closed_position_is, lemma_lowest_is, lowest_of,
    opened, search_from, spec_find_path, start_entry, start_node_of, traced,
};
use crate::search::{
    closed_entry_ok, closed_ok, frontier_covered, frontier_covered_upto, id_at, in_list,
    lemma_close_frontier, lemma_close_step, lemma_frontier_done, lemma_link_in_range, lemma_open_step,
    lemma_search_from, lemma_skip_step, open_entry_ok, search_inv, trace_ok,
};
use crate::vec2::Vec2;

verus! {

/// Largest cost a search node may carry (2^120).
pub const COST_LIMIT: i128 = 0x100_0000_0000_0000_0000_0000_0000_0000;

/// A graph node as the search sees it, with the cost of reaching it.
#[derive(Clone, Debug)]
pub struct AStarNode {
    pub position: Vec2,
    pub id: usize,
    /// The walkable connections of the graph node, then its jumpable ones.
    pub connections: Vec<PathfindingGraphConnection>,
    /// Distance travelled from the start along the way the node was found.
    pub g_cost: i128,
    /// Straight-line distance to the goal position.
    pub h_cost: i128,
    /// The node this one was reached from; `None` for the start.
    pub parent: Option<usize>,
    pub is_corner: bool,
    pub is_external_corner: Option<bool>,
}

/// One step of a path: a node and where it lies.
#[derive(Clone, Copy, Debug, PartialEq, Eq, Structural)]
pub struct PathNode {
    pub id: usize,
    pub position: Vec2,
}

impl PathNode {
    pub fn new(id: usize, position: Vec2) -> (r: PathNode)
        ensures
            r == (PathNode { id, position }),
    {
        PathNode { id, position }
    }
}

/// The connections a search may follow out of a node: the walkable ones,
/// then the jumpable ones.
pub open spec fn all_links(node: GraphNodeView) -> Seq<PathfindingGraphConnection> {
    node.walkable_connections + node.jumpable_connections
}

/// Whether node `a` has a walkable or jumpable connection to node `b`.
pub open spec fn linked(nodes: Seq<GraphNodeView>, a: int, b: int) -> bool {
    exists|m: int| 0 <= m < all_links(nodes[a]).len() && (#[trigger] link_target(nodes, a, m)) == b
}

/// The node that connection `m` of node `a` leads to.
pub open spec fn link_target(nodes: Seq<GraphNodeView>, a: int, m: int) -> int {
    all_links(nodes[a])[m].node_id as int
}

/// Whether `walk` is a run of nodes each connected to the next.
pub open spec fn is_walk(nodes: Seq<GraphNodeView>, walk: Seq<int>) -> bool {
    &&& walk.len() >= 1
    &&& forall|i: int| 0 <= i < walk.len() ==> 0 <= #[trigger] walk[i] < nodes.len()
    &&& forall|i: int| 0 <= i < walk.len() - 1 ==> linked(nodes, #[trigger] walk[i], walk[i + 1])
}

/// Whether connections lead from node `from` to node `to`.
pub open spec fn reachable(nodes: Seq<GraphNodeView>, from: int, to: int) -> bool {
    exists|walk: Seq<int>| #[trigger] is_walk(nodes, walk) && walk[0] == from && walk.last() == to
}

/// A node that no connection leads to cannot be reached from another.
pub proof fn lemma_unlinked_unreachable(nodes: Seq<GraphNodeView>, s: int, g: int)
    requires
        s != g,
        forall|a: int| 0 <= a < nodes.len() ==> !#[trigger] linked(nodes, a, g),
    ensures
        !reachable(nodes, s, g),
{
    if reachable(nodes, s, g) {
        let walk = choose|walk: Seq<int>| #[trigger] is_walk(nodes, walk) && walk[0] == s && walk.last() == g;
        let before = walk.len() - 2;
        assert(linked(nodes, walk[before], walk[before + 1]));
    }
}

/// Where walking is undirected and nothing is jumped, a node without
/// walkable connections cannot be reached from another.
pub proof fn lemma_isolated_unreachable(nodes: Seq<GraphNodeView>, s: int, g: int)
    requires
        s != g,
        0 <= g < nodes.len(),
        crate::pathfinding::ids_are_indices(nodes),
        crate::pathfinding::walkable_symmetric(nodes),
        forall|a: int| 0 <= a < nodes.len() ==> (#[trigger] nodes[a]).jumpable_connections.len() == 0,
        nodes[g].walkable_connections.len() == 0,
    ensures
        !reachable(nodes, s, g),
{
    assert forall|a: int| 0 <= a < nodes.len() implies !#[trigger] linked(nodes, a, g) by {
        if linked(nodes, a, g) {
            let m = choose|m: int| 0 <= m < all_links(nodes[a]).len() && (#[trigger] link_target(nodes, a, m)) == g;
            assert(nodes[a].jumpable_connections.len() == 0);
            assert(all_links(nodes[a])[m] == nodes[a].walkable_connections[m]);
            assert(crate::pathfinding::link_mirrored(nodes, a, m, g));
            assert(nodes[g].id == g);
        }
    }
    lemma_unlinked_unreachable(nodes, s, g);
}

/// Squared distance between two points.
pub open spec fn dist_sq(a: Vec2, b: Vec2) -> int {
    a.spec_minus(b).spec_length_squared()
}

/// Whether a node at `a` is at least as good a start as one at `b`: it is
/// nearer to the start position, or as near and no further from the goal.
pub open spec fn start_no_worse(goal_position: Vec2, start_position: Vec2, a: Vec2, b: Vec2) -> bool {
    dist_sq(start_position, a) < dist_sq(start_position, b) || (dist_sq(start_position, a) == dist_sq(
        start_position,
        b,
    ) && dist_sq(goal_position, a) <= dist_sq(goal_position, b))
}

/// Whether node `s` is where a search from `start_position` begins among the
/// first `count` nodes: no node is a better start, and of equally good ones
/// it comes last.
pub open spec fn is_start_among(
    nodes: Seq<GraphNodeView>,
    goal_position: Vec2,
    start_position: Vec2,
    s: int,
    count: int,
) -> bool {
    &&& 0 <= s < count
    &&& forall|k: int|
        0 <= k < count ==> start_no_worse(
            goal_position,
            start_position,
            nodes[s].position,
            (#[trigger] nodes[k]).position,
        )
    &&& forall|k: int|
        s < k < count ==> !start_no_worse(
            goal_position,
            start_position,
            (#[trigger] nodes[k]).position,
            nodes[s].position,
        )
}

/// Whether node `s` is where a search from `start_position` begins: the
/// node nearest to it, of equally near ones the one nearest the goal
/// position, and of equally good ones the last.
pub open spec fn is_start_node(nodes: Seq<GraphNodeView>, goal_position: Vec2, start_position: Vec2, s: int) -> bool {
    is_start_among(nodes, goal_position, start_position, s, nodes.len() as int)
}

/// A graph has at most one start node for a start position.
pub proof fn lemma_start_node_unique(
    nodes: Seq<GraphNodeView>,
    goal_position: Vec2,
    start_position: Vec2,
    s: int,
    t: int,
)
    requires
        is_start_node(nodes, goal_position, start_position, s),
        is_start_node(nodes, goal_position, start_position, t),
    ensures
        s == t,
{
    if s < t {
        assert(start_no_worse(goal_position, start_position, nodes[t].position, nodes[s].position));
    } else if t < s {
        assert(start_no_worse(goal_position, start_position, nodes[s].position, nodes[t].position));
    }
}

impl AStarNode {
    /// The graph node this search node stands for, not yet reached from
    /// anywhere.
    pub open spec fn fresh_from(&self, node: GraphNodeView) -> bool {
        &&& self.position == node.position
        &&& self.id == node.id
        &&& self.connections@ == all_links(node)
        &&& self.g_cost == 0
        &&& self.h_cost == 0
        &&& self.parent.is_none()
        &&& self.is_corner == node.is_corner
        &&& self.is_external_corner == node.is_external_corner
    }

    /// Both costs lie between zero and the cost limit.
    pub open spec fn costs_in_range(&self) -> bool {
        0 <= self.g_cost <= COST_LIMIT && 0 <= self.h_cost <= COST_LIMIT
    }

    /// Estimated length of a way through the node.
    pub open spec fn spec_f_cost(&self) -> int {
        self.g_cost + self.h_cost
    }

    /// A search node for a graph node, with no costs and no parent.
    pub fn new(graph_node: &PathfindingGraphNode) -> (r: AStarNode)
        ensures
            r.fresh_from(graph_node@),
    {
        let mut connections: Vec<PathfindingGraphConnection> = Vec::new();
        let mut k: usize = 0;
        while k < graph_node.walkable_connections.len()
            invariant
                k <= graph_node.walkable_connections@.len(),
                connections@ == graph_node.walkable_connections@.subrange(0, k as int),
            decreases graph_node.walkable_connections@.len() - k,
        {
            connections.push(graph_node.walkable_connections[k]);
            assert(connections@ =~= graph_node.walkable_connections@.subrange(0, k + 1));
            k += 1;
        }
        assert(connections@ =~= graph_node.walkable_connections@);
        let mut m: usize = 0;
        while m < graph_node.jumpable_connections.len()
            invariant
                m <= graph_node.jumpable_connections@.len(),
                connections@ == graph_node.walkable_connections@
                    + graph_node.jumpable_connections@.subrange(0, m as int),
            decreases graph_node.jumpable_connections@.len() - m,
        {
            connections.push(graph_node.jumpable_connections[m]);
            assert(connections@ =~= graph_node.walkable_connections@
                + graph_node.jumpable_connections@.subrange(0, m + 1));
            m += 1;
        }
        assert(connections@ =~= all_links(graph_node@));
        AStarNode {
            position: graph_node.position,
            id: graph_node.id,
            connections,
            g_cost: 0,
            h_cost: 0,
            parent: None,
            is_corner: graph_node.is_corner,
            is_external_corner: graph_node.is_external_corner,
        }
    }

    /// Estimated length of a way through the node: the distance travelled
    /// plus the straight-line distance left.
    pub fn get_f_cost(&self) -> (f: i128)
        requires
            self.costs_in_range(),
        ensures
            f == self.spec_f_cost(),
    {
        self.g_cost + self.h_cost
    }
}

/// Squared distance between two points within the coordinate limit.
fn distance_squared(a: Vec2, b: Vec2) -> (d: i128)
    requires
        a.within(COORD_LIMIT as int),
        b.within(COORD_LIMIT as int),
    ensures
        d == dist_sq(a, b),
{
    a.minus(b).length_squared()
}

/// Straight-line distance between two points within the coordinate limit.
fn distance(a: Vec2, b: Vec2) -> (d: i128)
    requires
        a.within(COORD_LIMIT as int),
        b.within(COORD_LIMIT as int),
    ensures
        d == a.spec_minus(b).spec_length(),
        0 <= d <= DIST_LIMIT,
{
    proof {
        a.spec_minus(b).lemma_length_within(2 * COORD_LIMIT);
    }
    a.minus(b).length() as i128
}

/// The node a search from `start_position` begins at, as a search node
/// whose remaining distance is that to the goal position.
///
/// In a graph without nodes this is a node with id zero at the origin,
/// connected to nothing.
pub fn get_start_node(pathfinding: &Pathfinding, start_position: Vec2) -> (r: AStarNode)
    requires
        pathfinding.wf(),
        start_position.within(COORD_LIMIT as int),
    ensures
        pathfinding.nodes@.len() > 0 ==> is_start_node(
            pathfinding.graph(),
            pathfinding.goal_position,
            start_position,
            r.id as int,
        ),
        pathfinding.nodes@.len() > 0 ==> r.connections@ == all_links(pathfinding.graph()[r.id as int]),
        pathfinding.nodes@.len() > 0 ==> r.position == pathfinding.graph()[r.id as int].position,
        pathfinding.nodes@.len() > 0 ==> r.is_corner == pathfinding.graph()[r.id as int].is_corner,
        pathfinding.nodes@.len() > 0 ==> r.is_external_corner
            == pathfinding.graph()[r.id as int].is_external_corner,
        pathfinding.nodes@.len() == 0 ==> r.id == 0 && r.connections@.len() == 0 && r.position
            == Vec2::spec_zero() && !r.is_corner && r.is_external_corner.is_none(),
        r.g_cost == 0,
        r.h_cost == pathfinding.goal_position.spec_minus(r.position).spec_length(),
        0 <= r.h_cost <= DIST_LIMIT,
        r.parent.is_none(),
{
    let goal_position = pathfinding.goal_position;
    if pathfinding.nodes.len() == 0 {
        let position = Vec2::zero();
        return AStarNode {
            position,
            id: 0,
            connections: Vec::new(),
            g_cost: 0,
            h_cost: distance(goal_position, position),
            parent: None,
            is_corner: false,
            is_external_corner: None,
        };
    }
    let ghost nodes = pathfinding.graph();
    let mut best: usize = 0;
    let mut best_distance = distance_squared(start_position, pathfinding.nodes[0].position);
    let mut best_to_goal = distance_squared(goal_position, pathfinding.nodes[0].position);
    let mut k: usize = 1;
    while k < pathfinding.nodes.len()
        invariant
            1 <= k <= pathfinding.nodes@.len(),
            pathfinding.wf(),
            nodes == pathfinding.graph(),
            start_position.within(COORD_LIMIT as int),
            goal_position == pathfinding.goal_position,
            best < k,
            best_distance == dist_sq(start_position, nodes[best as int].position),
            best_to_goal == dist_sq(goal_position, nodes[best as int].position),
            is_start_among(nodes, goal_position, start_position, best as int, k as int),
        decreases pathfinding.nodes@.len() - k,
    {
        let position = pathfinding.nodes[k].position;
        assert(position == nodes[k as int].position);
        let node_distance = distance_squared(start_position, position);
        let to_goal = distance_squared(goal_position, position);
        if node_distance < best_distance || (node_distance == best_distance && to_goal <= best_to_goal) {
            best = k;
            best_distance = node_distance;
            best_to_goal = to_goal;
        }
        k += 1;
    }
    let mut start = AStarNode::new(&pathfinding.nodes[best]);
    assert(pathfinding.graph()[best as int] == pathfinding.nodes@[best as int]@);
    start.h_cost = distance(goal_position, start.position);
    start
}

/// Whether `path` leads from node `s` to node `g`: it starts at `s` and
/// ends at `g`, each of its nodes is connected to the next, and no node
/// occurs twice. Where `s` is `g`, it is that one node.
pub open spec fn is_route(nodes: Seq<GraphNodeView>, s: int, g: int, path: Seq<PathNode>) -> bool {
    &&& path.len() >= 1
    &&& path[0].id == s
    &&& path.last().id == g
    &&& forall|i: int|
        0 <= i < path.len() ==> {
            &&& (#[trigger] path[i]).id < nodes.len()
            &&& path[i].position == nodes[path[i].id as int].position
        }
    &&& forall|i: int, j: int| 0 <= i < j < path.len() ==> (#[trigger] path[i]).id != (#[trigger] path[j]).id
    &&& forall|i: int| 0 <= i < path.len() - 1 ==> linked(nodes, (#[trigger] path[i]).id as int, path[i + 1].id as int)
}

/// The nodes along a route.
pub open spec fn route_walk(path: Seq<PathNode>) -> Seq<int> {
    Seq::new(path.len(), |i: int| path[i].id as int)
}

/// A route shows that its goal can be reached from its start.
pub proof fn lemma_route_reaches(nodes: Seq<GraphNodeView>, s: int, g: int, path: Seq<PathNode>)
    requires
        is_route(nodes, s, g, path),
    ensures
        reachable(nodes, s, g),
{
    let walk = route_walk(path);
    assert forall|i: int| 0 <= i < walk.len() - 1 implies linked(nodes, #[trigger] walk[i], walk[i + 1]) by {
        assert(linked(nodes, path[i].id as int, path[i + 1].id as int));
    }
    assert forall|i: int| 0 <= i < walk.len() implies 0 <= #[trigger] walk[i] < nodes.len() by {
        assert(path[i].id < nodes.len());
    }
    assert(is_walk(nodes, walk));
    assert(walk.last() == path.last().id);
}

/// What a search from `start_position` may come to: nothing without a goal,
/// and with one a route from the start node to it exactly where connections
/// lead there.
pub open spec fn search_outcome(pathfinding: &Pathfinding, start_position: Vec2, found: Option<Seq<PathNode>>) -> bool {
    match pathfinding.goal_graph_node {
        None => found.is_none(),
        Some(goal) => exists|s: int|
            {
                &&& #[trigger] is_start_node(pathfinding.graph(), pathfinding.goal_position, start_position, s)
                &&& match found {
                    None => !reachable(pathfinding.graph(), s, goal.id as int),
                    Some(path) => is_route(pathfinding.graph(), s, goal.id as int, path),
                }
            },
    }
}

/// The path found, as a sequence.
pub open spec fn path_view(found: Option<Vec<PathNode>>) -> Option<Seq<PathNode>> {
    match found {
        Some(path) => Some(path@),
        None => None,
    }
}

/// Some node is where a search begins, in a graph with nodes.
pub proof fn lemma_start_node_exists(
    nodes: Seq<GraphNodeView>,
    goal_position: Vec2,
    start_position: Vec2,
    count: int,
)
    requires
        0 < count <= nodes.len(),
    ensures
        exists|s: int| is_start_among(nodes, goal_position, start_position, s, count),
    decreases count,
{
    if count == 1 {
        assert(is_start_among(nodes, goal_position, start_position, 0, 1));
    } else {
        let last = count - 1;
        lemma_start_node_exists(nodes, goal_position, start_position, last);
        let before = choose|s: int| is_start_among(nodes, goal_position, start_position, s, last);
        if start_no_worse(goal_position, start_position, nodes[last].position, nodes[before].position) {
            assert(is_start_among(nodes, goal_position, start_position, last, count));
        } else {
            assert(is_start_among(nodes, goal_position, start_position, before, count));
        }
    }
}

/// What a search finds is a route from the start node to the goal node, and
/// it finds one wherever connections lead there.
pub proof fn lemma_find_path_outcome(pathfinding: &Pathfinding, start_position: Vec2)
    requires
        pathfinding.wf(),
        pathfinding.nodes@.len() <= usize::MAX,
    ensures
        search_outcome(pathfinding, start_position, spec_find_path(pathfinding, start_position)),
{
    match pathfinding.goal_graph_node {
        None => {},
        Some(goal) => {
            let nodes = pathfinding.graph();
            let goal_position = pathfinding.goal_position;
            lemma_start_node_exists(nodes, goal_position, start_position, nodes.len() as int);
            let some = choose|w: int| is_start_among(nodes, goal_position, start_position, w, nodes.len() as int);
            assert(is_start_node(nodes, goal_position, start_position, some));
            let s = start_node_of(nodes, goal_position, start_position);
            assert(is_start_node(nodes, goal_position, start_position, s));
            let first = start_entry(nodes, goal_position, s);
            let open = seq![first];
            let closed = Seq::<crate::expansion::SearchEntry>::empty();
            goal_position.spec_minus(nodes[s].position).lemma_length_within(2 * COORD_LIMIT);
            assert(open_entry_ok(nodes, s, closed, open[0]));
            assert(id_at(open, 0) == s);
            lemma_search_from(nodes, s, goal.id as int, goal_position, open, closed);
        },
    }
}

/// Whether the search node agrees with the graph node of its id.
pub open spec fn node_ok(nodes: Seq<GraphNodeView>, node: AStarNode) -> bool {
    &&& node.id < nodes.len()
    &&& node.connections@ == all_links(nodes[node.id as int])
    &&& node.position == nodes[node.id as int].position
}

/// Whether every search node of the list agrees with its graph node.
pub open spec fn nodes_ok(nodes: Seq<GraphNodeView>, list: Seq<AStarNode>) -> bool {
    forall|q: int| 0 <= q < list.len() ==> node_ok(nodes, #[trigger] list[q])
}

/// Takes the node with the lowest estimate out of the open list; of equally
/// low ones, the one that entered first.
fn pop_lowest(open_list: &mut Vec<AStarNode>) -> (r: (AStarNode, Ghost<int>))
    requires
        old(open_list)@.len() > 0,
        forall|q: int| 0 <= q < old(open_list)@.len() ==> (#[trigger] old(open_list)@[q]).costs_in_range(),
    ensures
        0 <= r.1@ < old(open_list)@.len(),
        r.0 == old(open_list)@[r.1@],
        final(open_list)@ == old(open_list)@.remove(r.1@),
        r.1@ == lowest_of(entries(old(open_list)@), old(open_list)@.len()),
{
    let mut best: usize = 0;
    let mut best_cost = open_list[0].get_f_cost();
    let mut q: usize = 1;
    while q < open_list.len()
        invariant
            1 <= q <= open_list@.len(),
            best < q,
            open_list@ == old(open_list)@,
            forall|k: int| 0 <= k < open_list@.len() ==> (#[trigger] open_list@[k]).costs_in_range(),
            best_cost == open_list@[best as int].spec_f_cost(),
            forall|k: int| 0 <= k < q ==> best_cost <= (#[trigger] open_list@[k]).spec_f_cost(),
            forall|k: int| 0 <= k < best ==> best_cost < (#[trigger] open_list@[k]).spec_f_cost(),
        decreases open_list@.len() - q,
    {
        let cost = open_list[q].get_f_cost();
        if cost < best_cost {
            best = q;
            best_cost = cost;
        }
        q += 1;
    }
    proof {
        let open = entries(open_list@);
        assert forall|k: int| 0 <= k < open.len() implies estimate(open[best as int]) <= estimate(
            #[trigger] open[k],
        ) by {
            assert(estimate(open[k]) == open_list@[k].spec_f_cost());
        }
        assert forall|k: int| 0 <= k < best implies estimate(open[best as int]) < estimate(#[trigger] open[k]) by {
            assert(estimate(open[k]) == open_list@[k].spec_f_cost());
        }
        lemma_lowest_is(open, best as int);
    }
    let node = open_list.remove(best);
    (node, Ghost(best as int))
}

/// Index of the first search node in `list` with the id.
fn find_closed(list: &Vec<AStarNode>, id: usize) -> (r: Option<usize>)
    ensures
        match r {
            Some(j) => j < list@.len() && list@[j as int].id == id,
            None => true,
        },
        closed_position(entries(list@), id, 0) == match r {
            Some(j) => j as int,
            None => list@.len() as int,
        },
{
    let mut q: usize = 0;
    while q < list.len()
        invariant
            q <= list@.len(),
            forall|k: int| 0 <= k < q ==> (#[trigger] entries(list@)[k]).id != id,
        decreases list@.len() - q,
    {
        if list[q].id == id {
            proof {
                lemma_closed_position_is(entries(list@), id, q as int);
            }
            return Some(q);
        }
        q += 1;
    }
    proof {
        lemma_closed_position_is(entries(list@), id, list@.len() as int);
    }
    None
}

/// The way from the start to `last`, read off the parents recorded in the
/// closed list.
fn reconstruct_path(
    closed_list: &Vec<AStarNode>,
    last: &AStarNode,
    Ghost(nodes): Ghost<Seq<GraphNodeView>>,
    Ghost(s): Ghost<int>,
    Ghost(g): Ghost<int>,
) -> (path: Vec<PathNode>)
    requires
        closed_ok(nodes, s, g, entries(closed_list@)),
        nodes_ok(nodes, closed_list@),
        trace_ok(nodes, s, entries(closed_list@), last.parent, closed_list@.len() as int, last.id as int),
        node_ok(nodes, *last),
    ensures
        path@ == traced(nodes, entries(closed_list@), last.parent, closed_list@.len() as int).push(
            PathNode { id: last.id, position: nodes[last.id as int].position },
        ),
{
    let ghost recorded = entries(closed_list@);
    let ghost full = traced(nodes, recorded, last.parent, closed_list@.len() as int);
    let mut reversed: Vec<PathNode> = Vec::new();
    let mut cursor: Option<usize> = last.parent;
    let ghost mut bound: int = closed_list@.len() as int;
    loop
        invariant
            recorded == entries(closed_list@),
            closed_ok(nodes, s, g, recorded),
            nodes_ok(nodes, closed_list@),
            0 <= bound <= closed_list@.len(),
            full =~= traced(nodes, recorded, cursor, bound) + reversed@.reverse(),
            match cursor {
                None => true,
                Some(p) => in_list(recorded, p as int, bound),
            },
        ensures
            cursor.is_none(),
            full =~= reversed@.reverse(),
        decreases bound,
    {
        let parent_id = match cursor {
            None => {
                assert(traced(nodes, recorded, cursor, bound) =~= Seq::empty());
                break ;
            },
            Some(p) => p,
        };
        let found = find_closed(closed_list, parent_id);
        proof {
            let q = choose|q: int|
                0 <= q < bound && q < recorded.len() && (#[trigger] id_at(recorded, q)) == parent_id;
            crate::expansion::lemma_closed_position(recorded, parent_id, 0);
            let at = closed_position(recorded, parent_id, 0);
            assert(recorded[q].id == parent_id);
            assert(at <= q);
            assert(id_at(recorded, at) == id_at(recorded, q));
            assert(at == q);
        }
        let j = match found {
            None => {
                assert(false);
                break ;
            },
            Some(j) => j,
        };
        proof {
            assert(closed_entry_ok(nodes, s, g, recorded, j as int));
            assert(node_ok(nodes, closed_list@[j as int]));
            assert(recorded[j as int] == closed_list@[j as int]@);
        }
        let ghost before = reversed@;
        let ghost held_cursor = cursor;
        let ghost held_bound = bound;
        reversed.push(PathNode::new(parent_id, closed_list[j].position));
        cursor = closed_list[j].parent;
        proof {
            let step = PathNode { id: parent_id, position: nodes[parent_id as int].position };
            assert(reversed@ == before.push(step));
            assert(reversed@.reverse() =~= seq![step] + before.reverse());
            assert(traced(nodes, recorded, held_cursor, held_bound) == traced(
                nodes,
                recorded,
                recorded[j as int].parent,
                j as int,
            ).push(step));
            bound = j as int;
        }
    }
    let count = reversed.len();
    let mut path: Vec<PathNode> = Vec::new();
    let mut i: usize = 0;
    while i < count
        invariant
            i <= count,
            count == reversed@.len(),
            path@.len() == i,
            forall|k: int| 0 <= k < i ==> #[trigger] path@[k] == reversed@[count - 1 - k],
        decreases count - i,
    {
        path.push(reversed[count - 1 - i]);
        i += 1;
    }
    assert(path@ =~= reversed@.reverse());
    path.push(PathNode::new(last.id, last.position));
    path
}

/// Searches for a way from the node nearest `start_position` to the goal
/// node.
///
/// Nodes are taken up in the order of their estimates: the distance
/// travelled so far plus the straight-line distance to the goal position.
/// The goal node itself is entered with the estimate zero, so that it is
/// taken up as soon as any connection reaches it. The path found runs from
/// the start node to the goal node, both included.
pub fn find_path(pathfinding: &Pathfinding, start_position: Vec2) -> (found: Option<Vec<PathNode>>)
    requires
        pathfinding.wf(),
        start_position.within(COORD_LIMIT as int),
    ensures
        path_view(found) == spec_find_path(pathfinding, start_position),
        search_outcome(pathfinding, start_position, path_view(found)),
{
    let node_count = pathfinding.nodes.len();
    proof {
        lemma_find_path_outcome(pathfinding, start_position);
    }
    let goal_id = match &pathfinding.goal_graph_node {
        None => {
            return None;
        },
        Some(goal_node) => goal_node.id,
    };
    let goal_position = pathfinding.goal_position;
    let start_node = get_start_node(pathfinding, start_position);
    let ghost nodes = pathfinding.graph();
    let ghost s = start_node.id as int;
    let ghost g = goal_id as int;
    let mut open_list: Vec<AStarNode> = Vec::new();
    let mut closed_list: Vec<AStarNode> = Vec::new();
    open_list.push(start_node);
    let ghost target = spec_find_path(pathfinding, start_position);
    proof {
        lemma_start_node_unique(
            nodes,
            goal_position,
            start_position,
            s,
            start_node_of(nodes, goal_position, start_position),
        );
        assert(entries(open_list@) =~= seq![start_entry(nodes, goal_position, s)]);
        assert(entries(closed_list@) =~= Seq::empty());
        assert(id_at(entries(open_list@), 0) == s);
        assert(open_entry_ok(nodes, s, entries(closed_list@), entries(open_list@)[0]));
    }
    loop
        invariant
            pathfinding.wf(),
            nodes == pathfinding.graph(),
            goal_position == pathfinding.goal_position,
            g == goal_id,
            0 <= g < nodes.len() <= usize::MAX,
            pathfinding.goal_id() == Some(goal_id),
            nodes_ok(nodes, open_list@),
            nodes_ok(nodes, closed_list@),
            search_inv(nodes, s, g, entries(open_list@), entries(closed_list@)),
            frontier_covered(nodes, entries(open_list@), entries(closed_list@)),
            target == spec_find_path(pathfinding, start_position),
            search_outcome(pathfinding, start_position, target),
            search_from(nodes, goal_id, goal_position, entries(open_list@), entries(closed_list@)) == target,
        decreases nodes.len() - closed_list@.len(), open_list@.len(),
    {
        if open_list.len() == 0 {
            return None;
        }
        let ghost open_before = open_list@;
        let ghost opened_before = entries(open_before);
        let ghost recorded = entries(closed_list@);
        let closed_size = closed_list.len();
        proof {
            let closed_count = closed_size as int;
            assert(closed_count * DIST_LIMIT <= COST_LIMIT) by (nonlinear_arith)
                requires
                    0 <= closed_count <= 0xffff_ffff_ffff_ffff,
                    DIST_LIMIT == 0x400_0000_0000,
                    COST_LIMIT == 0x100_0000_0000_0000_0000_0000_0000_0000,
            ;
            assert forall|q: int| 0 <= q < open_before.len() implies (#[trigger] open_before[q]).costs_in_range() by {
                assert(open_entry_ok(nodes, s, recorded, opened_before[q]));
            }
        }
        let (current, Ghost(idx)) = pop_lowest(&mut open_list);
        let ghost rest = opened_before.remove(idx);
        let ghost taken = current@;
        proof {
            assert(opened_before[idx] == taken);
            assert(entries(open_list@) =~= rest);
            assert(open_entry_ok(nodes, s, recorded, opened_before[idx]));
            assert(node_ok(nodes, open_before[idx]));
            assert forall|q: int| 0 <= q < open_list@.len() implies node_ok(nodes, #[trigger] open_list@[q]) by {
                if q < idx {
                    assert(open_list@[q] == open_before[q]);
                } else {
                    assert(open_list@[q] == open_before[q + 1]);
                }
            }
        }
        if current.id == goal_id {
            let path = reconstruct_path(&closed_list, &current, Ghost(nodes), Ghost(s), Ghost(g));
            return Some(path);
        }
        match find_closed(&closed_list, current.id) {
            Some(at) => {
                proof {
                    assert(id_at(recorded, at as int) == current.id);
                    lemma_skip_step(nodes, s, g, opened_before, idx, recorded);
                    assert(search_from(nodes, goal_id, goal_position, opened_before, recorded) == search_from(
                        nodes,
                        goal_id,
                        goal_position,
                        rest,
                        recorded,
                    ));
                }
                continue ;
            },
            None => {},
        }
        proof {
            crate::expansion::lemma_closed_position(recorded, current.id, 0);
            assert(!in_list(recorded, current.id as int, recorded.len() as int)) by {
                if in_list(recorded, current.id as int, recorded.len() as int) {
                    let q = choose|q: int| 0 <= q < recorded.len() && (#[trigger] id_at(recorded, q)) == current.id;
                    assert(recorded[q].id != current.id);
                }
            }
            lemma_close_step(nodes, s, g, opened_before, idx, recorded);
            lemma_close_frontier(nodes, opened_before, idx, recorded);
            assert(search_from(nodes, goal_id, goal_position, opened_before, recorded) == search_from(
                nodes,
                goal_id,
                goal_position,
                expanded(
                    nodes,
                    goal_id,
                    goal_position,
                    rest,
                    taken,
                    all_links(nodes[taken.id as int]).len(),
                ),
                recorded.push(taken),
            ));
        }
        let current_id = current.id;
        let current_cost = current.g_cost;
        closed_list.push(current);
        proof {
            assert(entries(closed_list@) =~= recorded.push(taken));
            assert forall|q: int| 0 <= q < closed_list@.len() implies node_ok(nodes, #[trigger] closed_list@[q]) by {
                if q < recorded.len() {
                    assert(closed_list@[q] == closed_list@.subrange(0, recorded.len() as int)[q]);
                }
            }
        }
        let last = closed_list.len() - 1;
        let count = closed_list[last].connections.len();
        let mut m: usize = 0;
        while m < count
            invariant
                m <= count,
                pathfinding.wf(),
                nodes == pathfinding.graph(),
                goal_position == pathfinding.goal_position,
                g == goal_id,
                0 <= g < nodes.len() <= usize::MAX,
                pathfinding.goal_id() == Some(goal_id),
                s != g,
                last == closed_list@.len() - 1,
                closed_list@.len() > 0,
                closed_list@.len() <= nodes.len(),
                closed_list@.last().id == current_id,
                current_id < nodes.len(),
                closed_list@[last as int].connections@ == all_links(nodes[current_id as int]),
                count == all_links(nodes[current_id as int]).len(),
                0 <= current_cost <= (closed_list@.len() - 1) * DIST_LIMIT,
                nodes_ok(nodes, open_list@),
                nodes_ok(nodes, closed_list@),
                search_inv(nodes, s, g, entries(open_list@), entries(closed_list@)),
                frontier_covered_upto(
                    nodes,
                    entries(open_list@),
                    entries(closed_list@),
                    current_id as int,
                    m as int,
                ),
                taken.id == current_id,
                taken.g_cost == current_cost,
                entries(open_list@) == expanded(nodes, goal_id, goal_position, rest, taken, m as nat),
            decreases count - m,
        {
            let connection = closed_list[last].connections[m];
            proof {
                lemma_link_in_range(nodes, current_id as int, m as int);
            }
            let connected_graph_node = &pathfinding.nodes[connection.node_id];
            let mut new_node = AStarNode::new(connected_graph_node);
            proof {
                assert(connected_graph_node@ == nodes[connection.node_id as int]);
                assert(new_node.id == connection.node_id);
            }
            if new_node.id != goal_id {
                new_node.g_cost = (connection.dist as i128) + current_cost;
                new_node.h_cost = distance(goal_position, new_node.position);
            }
            new_node.parent = Some(current_id);
            let ghost entered = new_node@;
            let ghost so_far = entries(open_list@);
            let ghost held = open_list@;
            proof {
                assert(node_ok(nodes, new_node));
                assert(entered.g_cost <= closed_list@.len() * DIST_LIMIT) by (nonlinear_arith)
                    requires
                        entered.g_cost <= DIST_LIMIT + current_cost,
                        current_cost <= (closed_list@.len() - 1) * DIST_LIMIT,
                ;
                assert(entries(closed_list@).last().id == current_id);
                lemma_open_step(nodes, s, g, so_far, entries(closed_list@), m as int, entered);
                assert(entered == opened(nodes, goal_id, goal_position, taken, connection));
            }
            open_list.push(new_node);
            proof {
                assert(entries(open_list@) =~= so_far.push(entered));
                assert forall|q: int| 0 <= q < open_list@.len() implies node_ok(nodes, #[trigger] open_list@[q]) by {
                    if q < held.len() {
                        assert(open_list@[q] == held[q]);
                    }
                }
            }
            m += 1;
        }
        proof {
            lemma_frontier_done(
                nodes,
                entries(open_list@),
                entries(closed_list@),
                current_id as int,
                count as int,
            );
        }
    }
}

} // verus!
