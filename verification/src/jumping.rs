//! Jump connections: which nodes can be reached from which by a jump.
use vstd::prelude::*;
use crate::ballistics::{
    arc_point, arc_points, jump_in_reach, jump_within_reach, launch_speed, launch_velocity,
    lemma_flight_bounds, lemma_launch_speed_within_force, ARC_PIECES, PLATFORMER_AI_JUMP_FORCE,
};
use crate::level::Level;
use crate::math::{COORD_LIMIT, UNIT};
use crate::pathfinding::{
    GraphNodeView, Pathfinding, PathfindingGraphConnection, PathfindingGraphConnectionType,
    PathfindingGraphNode,
};
use crate::utils::{line_intersect, segments_intersect};
use crate::vec2::Vec2;

verus! {

/// Half the width of the strip an agent of the given radius sweeps while
/// moving from `from` to `to`, as a vector across the direction of travel.
pub open spec fn capsule_offset(from: Vec2, to: Vec2, radius: int) -> Vec2 {
    to.spec_minus(from).spec_normalize_or_zero().spec_perp().spec_scaled(radius, UNIT as int)
}

/// Whether either side of the strip swept from `from` to `to` meets the edge.
pub open spec fn capsule_hits(from: Vec2, to: Vec2, radius: int, edge_start: Vec2, edge_end: Vec2) -> bool {
    let off = capsule_offset(from, to, radius);
    segments_intersect(from.spec_plus(off), to.spec_plus(off), edge_start, edge_end)
        || segments_intersect(from.spec_minus(off), to.spec_minus(off), edge_start, edge_end)
}

/// Whether the strip swept along the first `pieces` pieces of the arc from
/// `start` to `goal` meets the edge.
pub open spec fn arc_hits_edge(
    start: Vec2,
    goal: Vec2,
    radius: int,
    edge_start: Vec2,
    edge_end: Vec2,
    pieces: int,
) -> bool {
    exists|s: int|
        0 <= s < pieces && #[trigger] capsule_hits(
            arc_point(start, goal, s),
            arc_point(start, goal, s + 1),
            radius,
            edge_start,
            edge_end,
        )
}

/// Whether the node lies on edge `line_index` of polygon `polygon_index`.
pub open spec fn node_on_edge(node: GraphNodeView, polygon_index: int, line_index: int) -> bool {
    node.polygon_index == polygon_index && exists|k: int|
        0 <= k < node.line_indicies.len() && (#[trigger] node.line_indicies[k]) == line_index
}

/// Start of edge `l` of polygon `p`.
pub open spec fn edge_start(level: &Level, p: int, l: int) -> Vec2 {
    level.polygons@[p].points@[l]
}

/// End of edge `l` of polygon `p`.
pub open spec fn edge_end(level: &Level, p: int, l: int) -> Vec2 {
    level.polygons@[p].points@[l + 1]
}

/// Whether edge `l` of polygon `p` stands in the way of the jump from `a` to
/// `b`. The edges that `a` or `b` lie on never do.
pub open spec fn edge_blocks_jump(
    level: &Level,
    a: GraphNodeView,
    b: GraphNodeView,
    radius: int,
    p: int,
    l: int,
) -> bool {
    &&& !node_on_edge(a, p, l)
    &&& !node_on_edge(b, p, l)
    &&& arc_hits_edge(
        a.position,
        b.position,
        radius,
        edge_start(level, p, l),
        edge_end(level, p, l),
        ARC_PIECES as int,
    )
}

/// Whether any edge of the level stands in the way of the jump.
pub open spec fn jump_obstructed(level: &Level, a: GraphNodeView, b: GraphNodeView, radius: int) -> bool {
    exists|p: int, l: int| level.has_edge(p, l) && #[trigger] edge_blocks_jump(level, a, b, radius, p, l)
}

/// The launch speed of the jump from `a` to `b`, where the jump is within
/// reach and nothing stands in its way.
pub open spec fn spec_jumpability(level: &Level, a: GraphNodeView, b: GraphNodeView, radius: int) -> Option<
    i64,
> {
    let delta = b.position.spec_minus(a.position);
    if jump_in_reach(delta) && !jump_obstructed(level, a, b, radius) {
        Some(launch_speed(delta) as i64)
    } else {
        None
    }
}

/// In a level without edges every jump within reach is possible.
pub proof fn lemma_open_jump(level: &Level, a: GraphNodeView, b: GraphNodeView, radius: int)
    requires
        level.polygons@.len() == 0,
    ensures
        spec_jumpability(level, a, b, radius).is_some() == jump_in_reach(b.position.spec_minus(a.position)),
        !jump_obstructed(level, a, b, radius),
{
}

/// Tests whether `index` is among `indices`.
fn contains_index(indices: &Vec<usize>, index: usize) -> (found: bool)
    ensures
        found == exists|k: int| 0 <= k < indices@.len() && (#[trigger] indices@[k]) == index,
{
    let mut k: usize = 0;
    while k < indices.len()
        invariant
            k <= indices@.len(),
            forall|m: int| 0 <= m < k ==> (#[trigger] indices@[m]) != index,
        decreases indices@.len() - k,
    {
        if indices[k] == index {
            return true;
        }
        k += 1;
    }
    false
}

/// Tests whether the node lies on the given edge.
fn is_node_on_edge(node: &PathfindingGraphNode, polygon_index: usize, line_index: usize) -> (r: bool)
    ensures
        r == node_on_edge(node@, polygon_index as int, line_index as int),
{
    if node.polygon_index != polygon_index {
        return false;
    }
    let found = contains_index(&node.line_indicies, line_index);
    proof {
        assert(node@.line_indicies == node.line_indicies@);
        if found {
            let k = choose|k: int|
                0 <= k < node.line_indicies@.len() && (#[trigger] node.line_indicies@[k]) == line_index;
            assert(node@.line_indicies[k] == line_index as int);
        }
    }
    found
}

/// Tests whether either side of the strip swept from `from` to `to` meets
/// the edge.
fn capsule_sweep_hits(from: Vec2, to: Vec2, radius: i64, edge_start: Vec2, edge_end: Vec2) -> (hit: bool)
    requires
        from.within(16 * COORD_LIMIT),
        to.within(16 * COORD_LIMIT),
        0 <= radius <= COORD_LIMIT,
        edge_start.within(COORD_LIMIT as int),
        edge_end.within(COORD_LIMIT as int),
    ensures
        hit == capsule_hits(from, to, radius as int, edge_start, edge_end),
{
    let line_dir = to.minus(from).normalize_or_zero();
    let line_normal = line_dir.perp();
    let off = line_normal.scaled(radius, UNIT);
    let from_1 = from.plus(off);
    let to_1 = to.plus(off);
    if line_intersect(from_1, to_1, edge_start, edge_end) {
        return true;
    }
    let from_2 = from.minus(off);
    let to_2 = to.minus(off);
    line_intersect(from_2, to_2, edge_start, edge_end)
}

/// Tests whether the strip swept along the arc meets the edge.
fn arc_sweep_hits(
    points: &Vec<Vec2>,
    radius: i64,
    edge_start: Vec2,
    edge_end: Vec2,
    Ghost(start): Ghost<Vec2>,
    Ghost(goal): Ghost<Vec2>,
) -> (hit: bool)
    requires
        points@.len() == ARC_PIECES + 1,
        forall|i: int| 0 <= i <= ARC_PIECES ==> #[trigger] points@[i] == arc_point(start, goal, i),
        forall|i: int| 0 <= i <= ARC_PIECES ==> (#[trigger] points@[i]).within(16 * COORD_LIMIT),
        0 <= radius <= COORD_LIMIT,
        edge_start.within(COORD_LIMIT as int),
        edge_end.within(COORD_LIMIT as int),
    ensures
        hit == arc_hits_edge(start, goal, radius as int, edge_start, edge_end, ARC_PIECES as int),
{
    let mut s: usize = 0;
    while s < 10
        invariant
            s <= 10,
            points@.len() == ARC_PIECES + 1,
            forall|i: int| 0 <= i <= ARC_PIECES ==> #[trigger] points@[i] == arc_point(start, goal, i),
            forall|i: int| 0 <= i <= ARC_PIECES ==> (#[trigger] points@[i]).within(16 * COORD_LIMIT),
            0 <= radius <= COORD_LIMIT,
            edge_start.within(COORD_LIMIT as int),
            edge_end.within(COORD_LIMIT as int),
            !arc_hits_edge(start, goal, radius as int, edge_start, edge_end, s as int),
        decreases 10 - s,
    {
        if capsule_sweep_hits(points[s], points[s + 1], radius, edge_start, edge_end) {
            assert(capsule_hits(
                arc_point(start, goal, s as int),
                arc_point(start, goal, s + 1),
                radius as int,
                edge_start,
                edge_end,
            ));
            return true;
        }
        s += 1;
    }
    false
}

/// Tests whether a jump between two nodes is possible for an agent of the
/// given radius, and gives its launch speed.
///
/// The jump must be within reach of the greatest launch speed, and the strip
/// the agent sweeps along the arc must stay clear of every edge of the level
/// other than the edges the two nodes lie on.
pub fn jumpability_check(
    start_graph_node: &PathfindingGraphNode,
    goal_graph_node: &PathfindingGraphNode,
    level: &Level,
    radius: i64,
) -> (effort: Option<i64>)
    requires
        start_graph_node.position.within(COORD_LIMIT as int),
        goal_graph_node.position.within(COORD_LIMIT as int),
        level.wf(),
        0 <= radius <= COORD_LIMIT,
    ensures
        effort == spec_jumpability(level, start_graph_node@, goal_graph_node@, radius as int),
{
    let start_pos = start_graph_node.position;
    let goal_pos = goal_graph_node.position;
    let delta_p = goal_pos.minus(start_pos);
    if !jump_within_reach(delta_p) {
        return None;
    }
    let points = arc_points(start_pos, goal_pos);
    let ghost a = start_graph_node@;
    let ghost b = goal_graph_node@;
    let mut polygon_index: usize = 0;
    while polygon_index < level.polygons.len()
        invariant
            polygon_index <= level.polygons@.len(),
            level.wf(),
            0 <= radius <= COORD_LIMIT,
            a == start_graph_node@,
            b == goal_graph_node@,
            start_pos == a.position,
            goal_pos == b.position,
            points@.len() == ARC_PIECES + 1,
            forall|i: int|
                0 <= i <= ARC_PIECES ==> #[trigger] points@[i] == arc_point(start_pos, goal_pos, i),
            forall|i: int| 0 <= i <= ARC_PIECES ==> (#[trigger] points@[i]).within(16 * COORD_LIMIT),
            forall|p: int, l: int|
                0 <= p < polygon_index && level.has_edge(p, l) ==> !#[trigger] edge_blocks_jump(
                    level,
                    a,
                    b,
                    radius as int,
                    p,
                    l,
                ),
        decreases level.polygons@.len() - polygon_index,
    {
        let polygon = &level.polygons[polygon_index];
        let mut line_index: usize = 1;
        while line_index < polygon.points.len()
            invariant
                1 <= line_index,
                polygon_index < level.polygons@.len(),
                *polygon == level.polygons@[polygon_index as int],
                level.wf(),
                0 <= radius <= COORD_LIMIT,
                a == start_graph_node@,
                b == goal_graph_node@,
                start_pos == a.position,
                goal_pos == b.position,
                points@.len() == ARC_PIECES + 1,
                forall|i: int|
                    0 <= i <= ARC_PIECES ==> #[trigger] points@[i] == arc_point(start_pos, goal_pos, i),
                forall|i: int|
                    0 <= i <= ARC_PIECES ==> (#[trigger] points@[i]).within(16 * COORD_LIMIT),
                forall|p: int, l: int|
                    0 <= p < polygon_index && level.has_edge(p, l) ==> !#[trigger] edge_blocks_jump(
                        level,
                        a,
                        b,
                        radius as int,
                        p,
                        l,
                    ),
                forall|l: int|
                    0 <= l < line_index - 1 ==> !#[trigger] edge_blocks_jump(
                        level,
                        a,
                        b,
                        radius as int,
                        polygon_index as int,
                        l,
                    ),
            decreases polygon.points@.len() - line_index,
        {
            let start_node_on_line = is_node_on_edge(start_graph_node, polygon_index, line_index - 1);
            let goal_node_on_line = is_node_on_edge(goal_graph_node, polygon_index, line_index - 1);
            if !(start_node_on_line || goal_node_on_line) {
                assert(polygon.wf());
                let line_start = polygon.points[line_index - 1];
                let line_end = polygon.points[line_index];
                if arc_sweep_hits(
                    &points,
                    radius,
                    line_start,
                    line_end,
                    Ghost(start_pos),
                    Ghost(goal_pos),
                ) {
                    assert(level.has_edge(polygon_index as int, line_index - 1));
                    assert(edge_blocks_jump(
                        level,
                        a,
                        b,
                        radius as int,
                        polygon_index as int,
                        line_index - 1,
                    ));
                    return None;
                }
            }
            line_index += 1;
        }
        polygon_index += 1;
    }
    proof {
        lemma_flight_bounds(delta_p);
    }
    Some(launch_velocity(delta_p).length())
}

/// Whether edge `l` of polygon `p` crosses the straight line between the
/// nodes `a` and `b`. The edges that `a` or `b` lie on never do.
pub open spec fn edge_blocks_sight(level: &Level, a: GraphNodeView, b: GraphNodeView, p: int, l: int) -> bool {
    &&& !node_on_edge(a, p, l)
    &&& !node_on_edge(b, p, l)
    &&& segments_intersect(edge_start(level, p, l), edge_end(level, p, l), a.position, b.position)
}

/// Whether any edge of the level crosses the straight line between the nodes.
pub open spec fn sight_blocked(level: &Level, a: GraphNodeView, b: GraphNodeView) -> bool {
    exists|p: int, l: int| level.has_edge(p, l) && #[trigger] edge_blocks_sight(level, a, b, p, l)
}

/// The jump connection from node `i` to node `j`, if there is one: the two
/// are different nodes on different polygons, they see each other, and the
/// jump between them is possible.
pub open spec fn jump_link(level: &Level, nodes: Seq<GraphNodeView>, radius: int, i: int, j: int) -> Option<
    PathfindingGraphConnection,
> {
    if i == j || nodes[i].polygon_index == nodes[j].polygon_index || sight_blocked(
        level,
        nodes[i],
        nodes[j],
    ) {
        None
    } else {
        match spec_jumpability(level, nodes[i], nodes[j], radius) {
            Some(effort) => Some(
                PathfindingGraphConnection {
                    node_id: j as usize,
                    dist: nodes[i].position.spec_minus(nodes[j].position).spec_length() as i64,
                    connection_type: PathfindingGraphConnectionType::Jumpable,
                    effort,
                },
            ),
            None => None,
        }
    }
}

/// The jump connections from node `i` to the first `count` nodes, in order.
pub open spec fn jump_links(level: &Level, nodes: Seq<GraphNodeView>, radius: int, i: int, count: nat) -> Seq<
    PathfindingGraphConnection,
>
    decreases count,
{
    if count == 0 {
        Seq::empty()
    } else {
        let before = jump_links(level, nodes, radius, i, (count - 1) as nat);
        match jump_link(level, nodes, radius, i, count - 1) {
            Some(link) => before.push(link),
            None => before,
        }
    }
}

/// The node with its jump connections replaced.
pub open spec fn with_jump_links(node: GraphNodeView, links: Seq<PathfindingGraphConnection>) -> GraphNodeView {
    GraphNodeView { jumpable_connections: links, ..node }
}

/// Every jump connection found targets one of the first `count` nodes over a
/// distance within the limit.
pub proof fn lemma_jump_links_in_range(level: &Level, nodes: Seq<GraphNodeView>, radius: int, i: int, count: nat)
    requires
        0 <= i < nodes.len(),
        count <= nodes.len() <= usize::MAX,
        forall|k: int| 0 <= k < nodes.len() ==> (#[trigger] nodes[k]).position.within(COORD_LIMIT as int),
    ensures
        crate::pathfinding::links_in_range(jump_links(level, nodes, radius, i, count), count as int),
    decreases count,
{
    if count > 0 {
        lemma_jump_links_in_range(level, nodes, radius, i, (count - 1) as nat);
        let j = count - 1;
        assert(nodes[i].position.within(COORD_LIMIT as int));
        assert(nodes[j].position.within(COORD_LIMIT as int));
        nodes[i].position.spec_minus(nodes[j].position).lemma_length_within(2 * COORD_LIMIT);
    }
}

/// What holds of a jump connection from node `i`: it leads to another node,
/// on another polygon, that `i` sees and can jump to; it spans the distance
/// between the two; and its effort is the launch speed of the jump.
pub open spec fn is_jump_from(
    level: &Level,
    nodes: Seq<GraphNodeView>,
    radius: int,
    i: int,
    link: PathfindingGraphConnection,
) -> bool {
    let j = link.node_id as int;
    &&& 0 <= j < nodes.len()
    &&& j != i
    &&& nodes[j].polygon_index != nodes[i].polygon_index
    &&& !sight_blocked(level, nodes[i], nodes[j])
    &&& link.connection_type == PathfindingGraphConnectionType::Jumpable
    &&& link.dist == nodes[i].position.spec_minus(nodes[j].position).spec_length()
    &&& spec_jumpability(level, nodes[i], nodes[j], radius) == Some(link.effort)
    &&& link.effort == launch_speed(nodes[j].position.spec_minus(nodes[i].position))
    &&& 0 <= link.effort <= PLATFORMER_AI_JUMP_FORCE
}

/// Whether every jump connection asks for an effort between zero and the
/// greatest launch speed.
pub open spec fn efforts_within_force(nodes: Seq<GraphNodeView>) -> bool {
    forall|i: int, k: int|
        0 <= i < nodes.len() && 0 <= k < nodes[i].jumpable_connections.len() ==> 0 <= (
        #[trigger] nodes[i].jumpable_connections[k]).effort <= PLATFORMER_AI_JUMP_FORCE
}

/// Every jump connection found from node `i` is a jump from `i` to one of
/// the first `count` nodes.
pub proof fn lemma_jump_links_are_jumps(
    level: &Level,
    nodes: Seq<GraphNodeView>,
    radius: int,
    i: int,
    count: nat,
    k: int,
)
    requires
        0 <= i < nodes.len(),
        count <= nodes.len() <= usize::MAX,
        forall|a: int| 0 <= a < nodes.len() ==> (#[trigger] nodes[a]).position.within(COORD_LIMIT as int),
        0 <= k < jump_links(level, nodes, radius, i, count).len(),
    ensures
        is_jump_from(level, nodes, radius, i, jump_links(level, nodes, radius, i, count)[k]),
        jump_links(level, nodes, radius, i, count)[k].node_id < count,
    decreases count,
{
    if count > 0 {
        let before = jump_links(level, nodes, radius, i, (count - 1) as nat);
        let j = count - 1;
        if k < before.len() {
            lemma_jump_links_are_jumps(level, nodes, radius, i, (count - 1) as nat, k);
            assert(jump_links(level, nodes, radius, i, count)[k] == before[k]);
        } else {
            assert(nodes[i].position.within(COORD_LIMIT as int));
            assert(nodes[j].position.within(COORD_LIMIT as int));
            nodes[i].position.spec_minus(nodes[j].position).lemma_length_within(2 * COORD_LIMIT);
            let delta = nodes[j].position.spec_minus(nodes[i].position);
            lemma_flight_bounds(delta);
            crate::ballistics::spec_launch_velocity(delta).lemma_length_within(
                4 * COORD_LIMIT * crate::math::TIME_UNIT,
            );
            lemma_launch_speed_within_force(delta);
        }
    }
}

/// Whether two nodes lie at the same place on the same edges.
pub open spec fn same_site(a: GraphNodeView, b: GraphNodeView) -> bool {
    &&& a.position == b.position
    &&& a.polygon_index == b.polygon_index
    &&& a.line_indicies == b.line_indicies
}

/// Jump connections depend only on where the nodes lie.
pub proof fn lemma_jump_link_by_site(
    level: &Level,
    nodes: Seq<GraphNodeView>,
    others: Seq<GraphNodeView>,
    radius: int,
    i: int,
    j: int,
)
    requires
        0 <= i < nodes.len(),
        0 <= j < nodes.len(),
        nodes.len() == others.len(),
        same_site(nodes[i], others[i]),
        same_site(nodes[j], others[j]),
    ensures
        jump_link(level, nodes, radius, i, j) == jump_link(level, others, radius, i, j),
{
    let a = nodes[i];
    let b = nodes[j];
    let c = others[i];
    let d = others[j];
    assert forall|p: int, l: int|
        edge_blocks_sight(level, a, b, p, l) == edge_blocks_sight(level, c, d, p, l) by {
        assert(node_on_edge(a, p, l) == node_on_edge(c, p, l));
        assert(node_on_edge(b, p, l) == node_on_edge(d, p, l));
    }
    assert forall|p: int, l: int|
        edge_blocks_jump(level, a, b, radius, p, l) == edge_blocks_jump(level, c, d, radius, p, l) by {
        assert(node_on_edge(a, p, l) == node_on_edge(c, p, l));
        assert(node_on_edge(b, p, l) == node_on_edge(d, p, l));
    }
    assert(sight_blocked(level, a, b) == sight_blocked(level, c, d));
    assert(jump_obstructed(level, a, b, radius) == jump_obstructed(level, c, d, radius));
}

/// Tests whether any edge of the level crosses the straight line between
/// two nodes.
fn is_sight_blocked(level: &Level, main_node: &PathfindingGraphNode, other_node: &PathfindingGraphNode) -> (blocked: bool)
    requires
        level.wf(),
        main_node.position.within(COORD_LIMIT as int),
        other_node.position.within(COORD_LIMIT as int),
    ensures
        blocked == sight_blocked(level, main_node@, other_node@),
{
    let ghost a = main_node@;
    let ghost b = other_node@;
    let mut polygon_index: usize = 0;
    while polygon_index < level.polygons.len()
        invariant
            polygon_index <= level.polygons@.len(),
            level.wf(),
            a == main_node@,
            b == other_node@,
            a.position.within(COORD_LIMIT as int),
            b.position.within(COORD_LIMIT as int),
            forall|p: int, l: int|
                0 <= p < polygon_index && level.has_edge(p, l) ==> !#[trigger] edge_blocks_sight(
                    level,
                    a,
                    b,
                    p,
                    l,
                ),
        decreases level.polygons@.len() - polygon_index,
    {
        let polygon = &level.polygons[polygon_index];
        let mut line_index: usize = 1;
        while line_index < polygon.points.len()
            invariant
                1 <= line_index,
                polygon_index < level.polygons@.len(),
                *polygon == level.polygons@[polygon_index as int],
                level.wf(),
                a == main_node@,
                b == other_node@,
                a.position.within(COORD_LIMIT as int),
                b.position.within(COORD_LIMIT as int),
                forall|p: int, l: int|
                    0 <= p < polygon_index && level.has_edge(p, l) ==> !#[trigger] edge_blocks_sight(
                        level,
                        a,
                        b,
                        p,
                        l,
                    ),
                forall|l: int|
                    0 <= l < line_index - 1 ==> !#[trigger] edge_blocks_sight(
                        level,
                        a,
                        b,
                        polygon_index as int,
                        l,
                    ),
            decreases polygon.points@.len() - line_index,
        {
            let main_on_line = is_node_on_edge(main_node, polygon_index, line_index - 1);
            let other_on_line = is_node_on_edge(other_node, polygon_index, line_index - 1);
            if !(main_on_line || other_on_line) {
                assert(polygon.wf());
                let start = polygon.points[line_index - 1];
                let end = polygon.points[line_index];
                if line_intersect(start, end, main_node.position, other_node.position) {
                    assert(level.has_edge(polygon_index as int, line_index - 1));
                    assert(edge_blocks_sight(level, a, b, polygon_index as int, line_index - 1));
                    return true;
                }
            }
            line_index += 1;
        }
        polygon_index += 1;
    }
    false
}

/// The jump connection from node `i` to node `j`, if there is one.
fn find_jump_link(nodes: &Vec<PathfindingGraphNode>, level: &Level, radius: i64, i: usize, j: usize) -> (link:
    Option<PathfindingGraphConnection>)
    requires
        level.wf(),
        0 <= radius <= COORD_LIMIT,
        i < nodes@.len(),
        j < nodes@.len(),
        nodes@[i as int].position.within(COORD_LIMIT as int),
        nodes@[j as int].position.within(COORD_LIMIT as int),
    ensures
        link == jump_link(level, crate::pathfinding::node_views(nodes@), radius as int, i as int, j as int),
{
    if i == j {
        return None;
    }
    let main_node = &nodes[i];
    let other_node = &nodes[j];
    if main_node.polygon_index == other_node.polygon_index {
        return None;
    }
    if is_sight_blocked(level, main_node, other_node) {
        return None;
    }
    match jumpability_check(main_node, other_node, level, radius) {
        None => None,
        Some(effort) => {
            proof {
                main_node.position.spec_minus(other_node.position).lemma_length_within(
                    2 * COORD_LIMIT,
                );
            }
            Some(
                PathfindingGraphConnection {
                    node_id: j,
                    dist: main_node.position.minus(other_node.position).length(),
                    connection_type: PathfindingGraphConnectionType::Jumpable,
                    effort,
                },
            )
        },
    }
}

/// Recomputes the jump connections of every node.
///
/// Node `i` gets a connection to node `j` where the two lie on different
/// polygons, no edge of the level other than their own crosses the straight
/// line between them, and the jump from `i` to `j` is possible for an agent
/// of the given radius. Connections are found one way at a time: one from
/// `i` to `j` does not bring one from `j` to `i`.
pub fn make_jumpable_connections(pathfinding: &mut Pathfinding, level: &Level, radius: i64)
    requires
        level.wf(),
        0 <= radius <= COORD_LIMIT,
        forall|k: int|
            0 <= k < old(pathfinding).graph().len() ==> (#[trigger] old(pathfinding).graph()[k]).position.within(
                COORD_LIMIT as int,
            ),
    ensures
        final(pathfinding).graph().len() == old(pathfinding).graph().len(),
        forall|i: int|
            0 <= i < old(pathfinding).graph().len() ==> #[trigger] final(pathfinding).graph()[i]
                == with_jump_links(
                old(pathfinding).graph()[i],
                jump_links(
                    level,
                    old(pathfinding).graph(),
                    radius as int,
                    i,
                    old(pathfinding).graph().len(),
                ),
            ),
        efforts_within_force(final(pathfinding).graph()),
        final(pathfinding).goal_graph_node == old(pathfinding).goal_graph_node,
        final(pathfinding).goal_position == old(pathfinding).goal_position,
        final(pathfinding).active == old(pathfinding).active,
{
    let ghost before = pathfinding.graph();
    let n = pathfinding.nodes.len();
    let mut i: usize = 0;
    proof {
        assert forall|k: int| 0 <= k < n implies (#[trigger] pathfinding.nodes@[k]).position.within(
            COORD_LIMIT as int,
        ) by {
            assert(before[k].position.within(COORD_LIMIT as int));
        }
    }
    while i < n
        invariant
            i <= n,
            n == pathfinding.nodes@.len(),
            n == before.len(),
            level.wf(),
            0 <= radius <= COORD_LIMIT,
            forall|k: int| 0 <= k < n ==> (#[trigger] pathfinding.nodes@[k]).position.within(COORD_LIMIT as int),
            forall|k: int| 0 <= k < i ==> #[trigger] pathfinding.graph()[k] == with_jump_links(
                before[k],
                jump_links(level, before, radius as int, k, n as nat),
            ),
            forall|k: int| i <= k < n ==> #[trigger] pathfinding.graph()[k] == before[k],
            forall|k: int| 0 <= k < n ==> same_site(#[trigger] pathfinding.graph()[k], before[k]),
            pathfinding.goal_graph_node == old(pathfinding).goal_graph_node,
            pathfinding.goal_position == old(pathfinding).goal_position,
            pathfinding.active == old(pathfinding).active,
        decreases n - i,
    {
        let mut jumpable_connections: Vec<PathfindingGraphConnection> = Vec::new();
        let ghost now = pathfinding.graph();
        proof {
            assert forall|k: int, m: int| 0 <= k < n && 0 <= m < n implies jump_link(
                level,
                now,
                radius as int,
                k,
                m,
            ) == #[trigger] jump_link(level, before, radius as int, k, m) by {
                lemma_jump_link_by_site(level, now, before, radius as int, k, m);
            }
        }
        let mut j: usize = 0;
        while j < n
            invariant
                j <= n,
                i < n,
                n == pathfinding.nodes@.len(),
                n == before.len(),
                now == pathfinding.graph(),
                level.wf(),
                0 <= radius <= COORD_LIMIT,
                forall|k: int|
                    0 <= k < n ==> (#[trigger] pathfinding.nodes@[k]).position.within(COORD_LIMIT as int),
                forall|k: int, m: int|
                    0 <= k < n && 0 <= m < n ==> jump_link(level, now, radius as int, k, m)
                        == #[trigger] jump_link(level, before, radius as int, k, m),
                jumpable_connections@ == jump_links(level, before, radius as int, i as int, j as nat),
            decreases n - j,
        {
            let link = find_jump_link(&pathfinding.nodes, level, radius, i, j);
            match link {
                Some(found) => {
                    jumpable_connections.push(found);
                },
                None => {},
            }
            assert(link == jump_link(level, before, radius as int, i as int, j as int));
            j += 1;
        }
        let ghost held = pathfinding.nodes@;
        pathfinding.nodes[i].jumpable_connections = jumpable_connections;
        proof {
            assert forall|k: int| 0 <= k < n && k != i implies #[trigger] pathfinding.graph()[k]
                == now[k] by {
                assert(pathfinding.nodes@[k] == held[k]);
            }
            assert(pathfinding.graph()[i as int] == with_jump_links(
                before[i as int],
                jump_links(level, before, radius as int, i as int, n as nat),
            ));
        }
        i += 1;
    }
    proof {
        let done = pathfinding.graph();
        assert forall|a: int, k: int|
            0 <= a < done.len() && 0 <= k < done[a].jumpable_connections.len() implies 0 <= (
        #[trigger] done[a].jumpable_connections[k]).effort <= PLATFORMER_AI_JUMP_FORCE by {
            assert(done[a] == with_jump_links(before[a], jump_links(level, before, radius as int, a, n as nat)));
            lemma_jump_links_are_jumps(level, before, radius as int, a, n as nat, k);
        }
    }
}

} // verus!
