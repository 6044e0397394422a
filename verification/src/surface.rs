//! Surface normals and corners of the navmesh.
use vstd::prelude::*;
use crate::level::Level;
use crate::math::{lemma_mul_bounds, COORD_LIMIT, DIRECTION_LIMIT, UNIT};
use crate::pathfinding::{walk_targets_below, GraphNodeView, Pathfinding};
use crate::vec2::Vec2;

verus! {

/// The unit normal of an edge of the level: its direction turned a quarter
/// turn counter-clockwise. Zero for an edge without length and where the
/// level has no such edge.
pub open spec fn edge_normal(level: &Level, polygon_index: int, line_index: int) -> Vec2 {
    if level.has_edge(polygon_index, line_index) {
        level.polygons@[polygon_index].points@[line_index + 1].spec_minus(
            level.polygons@[polygon_index].points@[line_index],
        ).spec_perp().spec_normalize_or_zero()
    } else {
        Vec2::spec_zero()
    }
}

/// A coordinate held within the limit for taking directions.
pub open spec fn clamp_coordinate(c: int) -> int {
    if c > DIRECTION_LIMIT {
        DIRECTION_LIMIT as int
    } else if c < -DIRECTION_LIMIT {
        -DIRECTION_LIMIT
    } else {
        c
    }
}

/// The sum of the unit normals of the first `count` of the edges `lines` of
/// a polygon, each coordinate held within the limit for taking directions.
pub open spec fn normal_sum(level: &Level, polygon_index: int, lines: Seq<usize>, count: nat) -> Vec2
    decreases count,
{
    if count == 0 {
        Vec2::spec_zero()
    } else {
        let before = normal_sum(level, polygon_index, lines, (count - 1) as nat);
        let normal = edge_normal(level, polygon_index, lines[count - 1] as int);
        Vec2 {
            x: clamp_coordinate(before.x + normal.x) as i64,
            y: clamp_coordinate(before.y + normal.y) as i64,
        }
    }
}

/// The surface normal at a node: the direction of the sum of the unit
/// normals of the edges it lies on.
pub open spec fn node_normal(level: &Level, node: GraphNodeView) -> Vec2 {
    normal_sum(
        level,
        node.polygon_index as int,
        node.line_indicies,
        node.line_indicies.len(),
    ).spec_normalize_or_zero()
}

/// The normal at a node is zero or about a unit long.
pub proof fn lemma_node_normal_is_direction(level: &Level, node: GraphNodeView)
    ensures
        node_normal(level, node).is_direction(),
{
    normal_sum(
        level,
        node.polygon_index as int,
        node.line_indicies,
        node.line_indicies.len(),
    ).lemma_normalize_is_direction();
}

/// The node with its normal set.
pub open spec fn with_normal(level: &Level, node: GraphNodeView) -> GraphNodeView {
    GraphNodeView { normal: node_normal(level, node), ..node }
}

/// The sum of the displacements from node `i` to the nodes its first `count`
/// walkable connections lead to, as its two coordinates.
pub open spec fn neighbour_pull(nodes: Seq<GraphNodeView>, i: int, count: nat) -> (int, int)
    decreases count,
{
    if count == 0 {
        (0, 0)
    } else {
        let before = neighbour_pull(nodes, i, (count - 1) as nat);
        let target = nodes[i].walkable_connections[count - 1].node_id as int;
        (
            before.0 + nodes[target].position.x - nodes[i].position.x,
            before.1 + nodes[target].position.y - nodes[i].position.y,
        )
    }
}

/// Whether the surface bends away from node `i`: the nodes it can walk to
/// lie, taken together, on the far side of its normal.
pub open spec fn bends_away(nodes: Seq<GraphNodeView>, i: int) -> bool {
    let pull = neighbour_pull(nodes, i, nodes[i].walkable_connections.len());
    pull.0 * nodes[i].normal.x + pull.1 * nodes[i].normal.y < 0
}

/// Node `i` with its corner marks set: a node is a corner where it lies on
/// more than one edge, and a corner is external where the surface bends
/// away from it. What a node that is no corner held for the second mark, it
/// keeps.
pub open spec fn with_corner(nodes: Seq<GraphNodeView>, i: int) -> GraphNodeView {
    if nodes[i].line_indicies.len() > 1 {
        GraphNodeView { is_corner: true, is_external_corner: Some(bends_away(nodes, i)), ..nodes[i] }
    } else {
        GraphNodeView { is_corner: false, ..nodes[i] }
    }
}

/// The unit normal of an edge of the level.
fn unit_normal_of_edge(level: &Level, polygon_index: usize, line_index: usize) -> (normal: Vec2)
    requires
        level.wf(),
    ensures
        normal == edge_normal(level, polygon_index as int, line_index as int),
        normal.within(UNIT as int),
{
    if polygon_index >= level.polygons.len() {
        return Vec2::zero();
    }
    let polygon = &level.polygons[polygon_index];
    if polygon.points.len() == 0 || line_index >= polygon.points.len() - 1 {
        return Vec2::zero();
    }
    assert(polygon.wf());
    let line = polygon.points[line_index + 1].minus(polygon.points[line_index]);
    line.perp().normalize_or_zero()
}

/// Adds two coordinates, holding the sum within the limit for taking
/// directions.
fn add_clamped(a: i64, b: i64) -> (r: i64)
    requires
        -DIRECTION_LIMIT <= a <= DIRECTION_LIMIT,
        -UNIT <= b <= UNIT,
    ensures
        r == clamp_coordinate(a + b),
        -DIRECTION_LIMIT <= r <= DIRECTION_LIMIT,
{
    let sum = a + b;
    if sum > DIRECTION_LIMIT {
        DIRECTION_LIMIT
    } else if sum < -DIRECTION_LIMIT {
        -DIRECTION_LIMIT
    } else {
        sum
    }
}

/// Sets the normal of every node to the direction of the sum of the unit
/// normals of the edges it lies on.
pub fn calculate_normals(pathfinding: &mut Pathfinding, level: &Level)
    requires
        level.wf(),
    ensures
        final(pathfinding).graph().len() == old(pathfinding).graph().len(),
        forall|i: int|
            0 <= i < old(pathfinding).graph().len() ==> #[trigger] final(pathfinding).graph()[i]
                == with_normal(level, old(pathfinding).graph()[i]),
        forall|i: int|
            0 <= i < old(pathfinding).graph().len() ==> (#[trigger] final(pathfinding).graph()[i]).normal.is_direction(),
        final(pathfinding).goal_graph_node == old(pathfinding).goal_graph_node,
        final(pathfinding).goal_position == old(pathfinding).goal_position,
        final(pathfinding).active == old(pathfinding).active,
{
    let ghost before = pathfinding.graph();
    let n = pathfinding.nodes.len();
    let mut node_index: usize = 0;
    proof {
        assert forall|i: int| 0 <= i < n implies (#[trigger] with_normal(level, before[i])).normal.is_direction() by {
            lemma_node_normal_is_direction(level, before[i]);
        }
    }
    while node_index < n
        invariant
            node_index <= n,
            n == pathfinding.nodes@.len(),
            n == before.len(),
            level.wf(),
            forall|i: int| 0 <= i < n ==> (#[trigger] with_normal(level, before[i])).normal.is_direction(),
            forall|i: int| 0 <= i < node_index ==> #[trigger] pathfinding.graph()[i] == with_normal(level, before[i]),
            forall|i: int| node_index <= i < n ==> #[trigger] pathfinding.graph()[i] == before[i],
            pathfinding.goal_graph_node == old(pathfinding).goal_graph_node,
            pathfinding.goal_position == old(pathfinding).goal_position,
            pathfinding.active == old(pathfinding).active,
        decreases n - node_index,
    {
        let ghost now = pathfinding.graph();
        let ghost held = pathfinding.nodes@;
        let ghost node = before[node_index as int];
        assert(now[node_index as int] == held[node_index as int]@);
        let polygon_index = pathfinding.nodes[node_index].polygon_index;
        let lines = pathfinding.nodes[node_index].line_indicies.len();
        let mut normal = Vec2::zero();
        let mut k: usize = 0;
        while k < lines
            invariant
                k <= lines,
                node_index < n,
                n == pathfinding.nodes@.len(),
                level.wf(),
                held == pathfinding.nodes@,
                held[node_index as int]@ == node,
                polygon_index == node.polygon_index,
                lines == node.line_indicies.len(),
                normal == normal_sum(level, polygon_index as int, node.line_indicies, k as nat),
                normal.within(DIRECTION_LIMIT as int),
            decreases lines - k,
        {
            let line_index = pathfinding.nodes[node_index].line_indicies[k];
            let line_normal = unit_normal_of_edge(level, polygon_index, line_index);
            normal = Vec2 { x: add_clamped(normal.x, line_normal.x), y: add_clamped(normal.y, line_normal.y) };
            k += 1;
        }
        pathfinding.nodes[node_index].normal = normal.normalize_or_zero();
        proof {
            assert forall|i: int| 0 <= i < n && i != node_index implies #[trigger] pathfinding.graph()[i]
                == now[i] by {
                assert(pathfinding.nodes@[i] == held[i]);
                assert(now[i] == held[i]@);
            }
            assert(pathfinding.graph()[node_index as int] == with_normal(level, node));
        }
        node_index += 1;
    }
}

/// Marks the corners among the nodes, and of each whether it is external.
pub fn setup_corners(pathfinding: &mut Pathfinding)
    requires
        walk_targets_below(old(pathfinding).graph(), old(pathfinding).nodes@.len() as int),
        forall|i: int|
            0 <= i < old(pathfinding).graph().len() ==> (#[trigger] old(pathfinding).graph()[i]).position.within(
                COORD_LIMIT as int,
            ) && old(pathfinding).graph()[i].normal.within(UNIT as int),
    ensures
        final(pathfinding).graph().len() == old(pathfinding).graph().len(),
        forall|i: int|
            0 <= i < old(pathfinding).graph().len() ==> #[trigger] final(pathfinding).graph()[i]
                == with_corner(old(pathfinding).graph(), i),
        final(pathfinding).goal_graph_node == old(pathfinding).goal_graph_node,
        final(pathfinding).goal_position == old(pathfinding).goal_position,
        final(pathfinding).active == old(pathfinding).active,
{
    let ghost before = pathfinding.graph();
    let n = pathfinding.nodes.len();
    let mut node_index: usize = 0;
    while node_index < n
        invariant
            node_index <= n,
            n == pathfinding.nodes@.len(),
            n == before.len(),
            walk_targets_below(before, n as int),
            forall|i: int|
                0 <= i < n ==> (#[trigger] before[i]).position.within(COORD_LIMIT as int) && before[i].normal.within(
                    UNIT as int,
                ),
            forall|i: int| 0 <= i < node_index ==> #[trigger] pathfinding.graph()[i] == with_corner(before, i),
            forall|i: int| node_index <= i < n ==> #[trigger] pathfinding.graph()[i] == before[i],
            forall|i: int|
                0 <= i < n ==> (#[trigger] pathfinding.nodes@[i]).position == before[i].position,
            pathfinding.goal_graph_node == old(pathfinding).goal_graph_node,
            pathfinding.goal_position == old(pathfinding).goal_position,
            pathfinding.active == old(pathfinding).active,
        decreases n - node_index,
    {
        let ghost now = pathfinding.graph();
        let ghost held = pathfinding.nodes@;
        let ghost node = before[node_index as int];
        assert(now[node_index as int] == held[node_index as int]@);
        let is_corner = pathfinding.nodes[node_index].line_indicies.len() > 1;
        pathfinding.nodes[node_index].is_corner = is_corner;
        if is_corner {
            let here = pathfinding.nodes[node_index].position;
            let normal = pathfinding.nodes[node_index].normal;
            let links = pathfinding.nodes[node_index].walkable_connections.len();
            let mut pull_x: i128 = 0;
            let mut pull_y: i128 = 0;
            let mut k: usize = 0;
            while k < links
                invariant
                    k <= links,
                    node_index < n,
                    n == pathfinding.nodes@.len(),
                    n == before.len(),
                    walk_targets_below(before, n as int),
                    forall|i: int| 0 <= i < n ==> (#[trigger] before[i]).position.within(COORD_LIMIT as int),
                    forall|i: int|
                        0 <= i < n ==> (#[trigger] pathfinding.nodes@[i]).position == before[i].position,
                    pathfinding.nodes@[node_index as int].walkable_connections@ == node.walkable_connections,
                    node == before[node_index as int],
                    here == node.position,
                    links == node.walkable_connections.len(),
                    (pull_x as int, pull_y as int) == neighbour_pull(before, node_index as int, k as nat),
                    -(k * (2 * COORD_LIMIT)) <= pull_x <= k * (2 * COORD_LIMIT),
                    -(k * (2 * COORD_LIMIT)) <= pull_y <= k * (2 * COORD_LIMIT),
                decreases links - k,
            {
                let target = pathfinding.nodes[node_index].walkable_connections[k].node_id;
                proof {
                    assert(target == before[node_index as int].walkable_connections[k as int].node_id);
                    assert(target < n);
                    assert(before[target as int].position.within(COORD_LIMIT as int));
                    assert(k * (2 * COORD_LIMIT) <= 0xffff_ffff_ffff_ffff * (2 * COORD_LIMIT)) by (nonlinear_arith)
                        requires
                            0 <= k <= 0xffff_ffff_ffff_ffff,
                            COORD_LIMIT == 0x100_0000_0000,
                    ;
                    assert((k + 1) * (2 * COORD_LIMIT) == k * (2 * COORD_LIMIT) + 2 * COORD_LIMIT)
                        by (nonlinear_arith);
                }
                let there = pathfinding.nodes[target].position;
                pull_x = pull_x + (there.x as i128) - (here.x as i128);
                pull_y = pull_y + (there.y as i128) - (here.y as i128);
                k += 1;
            }
            proof {
                assert(links * (2 * COORD_LIMIT) <= 0xffff_ffff_ffff_ffff * (2 * COORD_LIMIT)) by (nonlinear_arith)
                    requires
                        0 <= links <= 0xffff_ffff_ffff_ffff,
                        COORD_LIMIT == 0x100_0000_0000,
                ;
                lemma_mul_bounds(
                    pull_x as int,
                    normal.x as int,
                    0xffff_ffff_ffff_ffff * (2 * COORD_LIMIT),
                    UNIT as int,
                );
                lemma_mul_bounds(
                    pull_y as int,
                    normal.y as int,
                    0xffff_ffff_ffff_ffff * (2 * COORD_LIMIT),
                    UNIT as int,
                );
            }
            let along = pull_x * (normal.x as i128) + pull_y * (normal.y as i128);
            pathfinding.nodes[node_index].is_external_corner = Some(along < 0);
        }
        proof {
            assert forall|i: int| 0 <= i < n && i != node_index implies #[trigger] pathfinding.graph()[i]
                == now[i] by {
                assert(pathfinding.nodes@[i] == held[i]);
                assert(now[i] == held[i]@);
            }
            assert(pathfinding.graph()[node_index as int] == with_corner(before, node_index as int));
        }
        node_index += 1;
    }
}

} // verus!
