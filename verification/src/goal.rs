//! Steering the goal and keeping the goal node up to date.
use vstd::prelude::*;
use crate::a_star::dist_sq;
use crate::math::{COORD_LIMIT, UNIT};
use crate::pathfinding::{graph_wf, GraphNodeView, Pathfinding, PathfindingGraphNode};
use crate::vec2::Vec2;

verus! {

/// Distance the goal moves per tick while it is steered, in sub-units.
pub const GOAL_SPEED: i64 = 4000;

/// The direction the goal is being steered in: zero, or about `UNIT` long.
#[derive(Debug, Clone, Copy, PartialEq, Eq, Structural)]
pub struct InputDir {
    pub dir: Vec2,
}

/// The pull of two opposite keys along one axis: a unit forward, a unit
/// backward, or nothing where both or neither are held.
pub open spec fn axis_pull(forward: bool, backward: bool) -> int {
    if forward && !backward {
        UNIT as int
    } else if backward && !forward {
        -UNIT
    } else {
        0
    }
}

/// The direction that the held arrow keys steer in: the unit vector of
/// their pulls taken together.
pub open spec fn spec_input_direction(up: bool, down: bool, left: bool, right: bool) -> Vec2 {
    Vec2 { x: axis_pull(right, left) as i64, y: axis_pull(up, down) as i64 }.spec_normalize_or_zero()
}

/// The direction that the held arrow keys steer the goal in.
pub fn input_direction(up: bool, down: bool, left: bool, right: bool) -> (input_dir: InputDir)
    ensures
        input_dir.dir == spec_input_direction(up, down, left, right),
        input_dir.dir.within(UNIT as int),
{
    let mut direction = Vec2::zero();
    if up {
        direction.y += UNIT;
    }
    if down {
        direction.y -= UNIT;
    }
    if left {
        direction.x -= UNIT;
    }
    if right {
        direction.x += UNIT;
    }
    InputDir { dir: direction.normalize_or_zero() }
}

/// Whether node `g` is the node nearest to `position`, and of equally near
/// ones the first.
pub open spec fn is_nearest_among(nodes: Seq<GraphNodeView>, position: Vec2, g: int, count: int) -> bool {
    &&& 0 <= g < count
    &&& forall|k: int|
        0 <= k < count ==> dist_sq(position, nodes[g].position) <= dist_sq(
            position,
            (#[trigger] nodes[k]).position,
        )
    &&& forall|k: int|
        0 <= k < g ==> dist_sq(position, nodes[g].position) < dist_sq(position, (#[trigger] nodes[k]).position)
}

/// Whether node `g` is the node of the graph nearest to `position`, and of
/// equally near ones the first.
pub open spec fn is_nearest_node(nodes: Seq<GraphNodeView>, position: Vec2, g: int) -> bool {
    is_nearest_among(nodes, position, g, nodes.len() as int)
}

/// Whether `goal` is what the goal node should be while pursuit is active:
/// a copy of the node nearest the goal position; what it was before where
/// the graph has no nodes.
pub open spec fn goal_tracks(
    nodes: Seq<GraphNodeView>,
    goal_position: Vec2,
    before: Option<PathfindingGraphNode>,
    goal: Option<PathfindingGraphNode>,
) -> bool {
    if nodes.len() == 0 {
        goal == before
    } else {
        match goal {
            Some(node) => exists|g: int| #[trigger] is_nearest_node(nodes, goal_position, g) && node@ == nodes[g],
            None => false,
        }
    }
}

/// Index of the node nearest to `position`; of equally near ones the first.
pub fn nearest_node(pathfinding: &Pathfinding, position: Vec2) -> (found: Option<usize>)
    requires
        graph_wf(pathfinding.graph()),
        position.within(COORD_LIMIT as int),
    ensures
        match found {
            Some(g) => is_nearest_node(pathfinding.graph(), position, g as int),
            None => pathfinding.nodes@.len() == 0,
        },
{
    if pathfinding.nodes.len() == 0 {
        return None;
    }
    let ghost nodes = pathfinding.graph();
    let mut best: usize = 0;
    assert(nodes[0] == pathfinding.nodes@[0]@);
    let mut closest_distance = position.minus(pathfinding.nodes[0].position).length_squared();
    let mut node_index: usize = 1;
    while node_index < pathfinding.nodes.len()
        invariant
            1 <= node_index <= pathfinding.nodes@.len(),
            nodes == pathfinding.graph(),
            graph_wf(nodes),
            position.within(COORD_LIMIT as int),
            closest_distance == dist_sq(position, nodes[best as int].position),
            is_nearest_among(nodes, position, best as int, node_index as int),
        decreases pathfinding.nodes@.len() - node_index,
    {
        assert(nodes[node_index as int] == pathfinding.nodes@[node_index as int]@);
        let distance = position.minus(pathfinding.nodes[node_index].position).length_squared();
        if distance < closest_distance {
            closest_distance = distance;
            best = node_index;
        }
        node_index += 1;
    }
    Some(best)
}

/// Brings the goal node up to date with the goal position.
fn track_goal(pathfinding: &mut Pathfinding)
    requires
        graph_wf(old(pathfinding).graph()),
        old(pathfinding).goal_position.within(COORD_LIMIT as int),
    ensures
        final(pathfinding).nodes == old(pathfinding).nodes,
        final(pathfinding).goal_position == old(pathfinding).goal_position,
        final(pathfinding).active == old(pathfinding).active,
        goal_tracks(
            old(pathfinding).graph(),
            old(pathfinding).goal_position,
            old(pathfinding).goal_graph_node,
            final(pathfinding).goal_graph_node,
        ),
        old(pathfinding).nodes@.len() > 0 ==> final(pathfinding).wf(),
{
    match nearest_node(pathfinding, pathfinding.goal_position) {
        Some(g) => {
            let node = pathfinding.nodes[g].duplicate();
            assert(pathfinding.graph()[g as int] == pathfinding.nodes@[g as int]@);
            pathfinding.goal_graph_node = Some(node);
        },
        None => {},
    }
}

/// Moves the goal by one tick's worth in the direction it is steered in
/// and, while pursuit is active, brings the goal node up to date.
pub fn s_move_goal_point(input_dir: &InputDir, pathfinding: &mut Pathfinding)
    requires
        graph_wf(old(pathfinding).graph()),
        input_dir.dir.within(UNIT as int),
        old(pathfinding).goal_position.within(COORD_LIMIT - GOAL_SPEED),
    ensures
        final(pathfinding).nodes == old(pathfinding).nodes,
        final(pathfinding).active == old(pathfinding).active,
        final(pathfinding).goal_position == old(pathfinding).goal_position.spec_plus(
            input_dir.dir.spec_scaled(GOAL_SPEED as int, UNIT as int),
        ),
        final(pathfinding).goal_position.within(COORD_LIMIT as int),
        if old(pathfinding).active {
            goal_tracks(
                old(pathfinding).graph(),
                final(pathfinding).goal_position,
                old(pathfinding).goal_graph_node,
                final(pathfinding).goal_graph_node,
            )
        } else {
            final(pathfinding).goal_graph_node == old(pathfinding).goal_graph_node
        },
{
    let step = input_dir.dir.scaled(GOAL_SPEED, UNIT);
    pathfinding.goal_position = pathfinding.goal_position.plus(step);
    if pathfinding.active {
        track_goal(pathfinding);
    }
}

/// Switches pursuit of the goal on or off. Switched on, the goal node is
/// brought up to date; switched off, it is cleared.
pub fn toggle_pursuit(pathfinding: &mut Pathfinding)
    requires
        graph_wf(old(pathfinding).graph()),
        old(pathfinding).goal_position.within(COORD_LIMIT as int),
    ensures
        final(pathfinding).nodes == old(pathfinding).nodes,
        final(pathfinding).goal_position == old(pathfinding).goal_position,
        final(pathfinding).active == !old(pathfinding).active,
        if final(pathfinding).active {
            goal_tracks(
                old(pathfinding).graph(),
                old(pathfinding).goal_position,
                old(pathfinding).goal_graph_node,
                final(pathfinding).goal_graph_node,
            )
        } else {
            final(pathfinding).goal_graph_node.is_none()
        },
        final(pathfinding).active && old(pathfinding).nodes@.len() > 0 ==> final(pathfinding).wf(),
        !final(pathfinding).active ==> final(pathfinding).wf(),
{
    pathfinding.active = !pathfinding.active;
    if pathfinding.active {
        track_goal(pathfinding);
    } else {
        pathfinding.goal_graph_node = None;
    }
}

} // verus!
