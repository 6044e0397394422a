//! Path following: turning a path into a direction to move in and, where
//! the path calls for one, a jump.
use vstd::prelude::*;
use crate::a_star::{dist_sq, find_path, search_outcome, PathNode};
use crate::ballistics::{launch_velocity, spec_launch_velocity};
use crate::expansion::spec_find_path;
use crate::jumping::{jump_links, lemma_jump_links_are_jumps};
use crate::level::Level;
use crate::math::{lemma_mul_bounds, COORD_LIMIT, UNIT};
use crate::pathfinding::{GraphNodeView, Pathfinding, GRAVITY_STRENGTH};
use crate::vec2::Vec2;

verus! {

/// Radius of the agent, in sub-units.
pub const PLATFORMER_AI_AGENT_RADIUS: i64 = 8000;

/// Speed the agent walks at, in sub-units per tick.
pub const WANDER_MAX_SPEED: i64 = 3000;

/// Share of the missing velocity gained per tick while a direction is
/// held, in thousandths.
pub const ACCELERATION_SCALER: i64 = 200;

/// Share of the velocity lost per tick while no direction is held, in
/// thousandths.
pub const DECELERATION_SCALER: i64 = 400;

/// Largest magnitude of a velocity or an acceleration the tick accepts (2^56).
pub const MOTION_LIMIT: i64 = 0x100_0000_0000_0000;

/// What the agent steers from and toward.
#[derive(Debug, Clone, Copy, PartialEq, Eq, Structural)]
pub enum PathFollowingStrategy {
    CurrentNodeToNextNode,
    CurrentNodeOffsetToNextNodeOffset,
    AgentToCurrentNode,
    AgentToCurrentNodeOffset,
    AgentToNextNode,
    AgentToNextNodeOffset,
    AgentToGoal,
    /// Steering nowhere.
    NoTarget,
}

/// The physical state of an agent.
#[derive(Debug, Clone, Copy, PartialEq, Eq, Structural)]
pub struct Physics {
    pub prev_position: Vec2,
    /// Sub-units per tick.
    pub velocity: Vec2,
    /// Sub-units per tick squared.
    pub acceleration: Vec2,
    pub radius: i64,
    /// Direction from the agent into the surface it touches, no longer
    /// than `UNIT`; zero while the agent is in the air.
    pub normal: Vec2,
    pub grounded: bool,
    /// Which side a wall is touched on; zero for none.
    pub walled: i8,
    pub has_wall_jumped: bool,
}

/// What the agent remembers of its last jump.
#[derive(Debug, Clone, Copy, PartialEq, Eq, Structural)]
pub struct PlatformerAI {
    pub current_target_node: Option<usize>,
    pub jump_from_pos: Option<Vec2>,
    pub jump_to_pos: Option<Vec2>,
}

/// What steering asks of the agent for one tick.
#[derive(Debug, Clone, Copy, PartialEq, Eq, Structural)]
pub struct MoveInputs {
    /// Direction to move in, about `UNIT` long, or zero to hold still.
    pub move_dir: Vec2,
    /// Velocity to jump off with, or zero for no jump.
    pub jump_velocity: Vec2,
    pub jump_from_node: Option<Vec2>,
    pub jump_to_node: Option<Vec2>,
}

impl Physics {
    /// All quantities are within the limits the tick can work with.
    pub open spec fn in_range(&self) -> bool {
        &&& self.velocity.within(MOTION_LIMIT as int)
        &&& self.acceleration.within(MOTION_LIMIT as int)
        &&& self.normal.within(UNIT as int)
        &&& 0 <= self.radius <= COORD_LIMIT
    }

    /// Tests whether all quantities are within the limits the tick can work
    /// with.
    pub fn is_in_range(&self) -> (r: bool)
        ensures
            r == self.in_range(),
    {
        self.velocity.is_within(MOTION_LIMIT) && self.acceleration.is_within(MOTION_LIMIT)
            && self.normal.is_within(UNIT) && 0 <= self.radius && self.radius <= COORD_LIMIT
    }

    /// Whether the agent touches no surface.
    pub open spec fn falling(&self) -> bool {
        self.normal == Vec2::spec_zero()
    }

    /// Whether the surface touched is a wall rather than a floor: the
    /// contact normal does not point downward by a hundredth or more.
    pub open spec fn on_wall(&self) -> bool {
        self.normal.y * 100 > -UNIT
    }

    /// Whether the agent moves at less than about a third of a world unit
    /// per tick.
    pub open spec fn nearly_still(&self) -> bool {
        self.velocity.spec_length_squared() * 10 < UNIT * UNIT
    }
}

impl MoveInputs {
    /// The direction is no longer than a unit vector and the jump velocity
    /// is within the motion limit.
    pub open spec fn in_range(&self) -> bool {
        self.move_dir.within(UNIT as int) && self.jump_velocity.within(MOTION_LIMIT as int)
    }

    /// What steering asks for moves in a direction: `move_dir` is zero or
    /// about a unit long.
    pub open spec fn directed(&self) -> bool {
        self.move_dir.is_direction()
    }

    /// Asking for nothing: no movement and no jump.
    pub open spec fn spec_none() -> MoveInputs {
        MoveInputs {
            move_dir: Vec2::spec_zero(),
            jump_velocity: Vec2::spec_zero(),
            jump_from_node: None,
            jump_to_node: None,
        }
    }
}

/// The point an agent of the given radius stands at when it touches the
/// surface at the node.
pub open spec fn node_offset(position: Vec2, normal: Vec2, radius: int) -> Vec2 {
    position.spec_plus(normal.spec_scaled(radius, UNIT as int))
}

/// Whether node `a` has a jumpable connection to node `b`.
pub open spec fn is_jump_edge(nodes: Seq<GraphNodeView>, a: int, b: int) -> bool {
    exists|k: int|
        0 <= k < nodes[a].jumpable_connections.len() && (#[trigger] nodes[a].jumpable_connections[k]).node_id
            == b
}

/// Whether the agent will be on the other side of the node after one more
/// tick at its velocity, along the vertical axis or the horizontal one.
/// Being level with the node counts as being on its far side.
pub open spec fn other_side_next_frame(
    agent_position: Vec2,
    agent_velocity: Vec2,
    node_position: Vec2,
    vertical: bool,
) -> bool {
    let now = if vertical {
        agent_position.y - node_position.y
    } else {
        agent_position.x - node_position.x
    };
    let then = if vertical {
        now + agent_velocity.y
    } else {
        now + agent_velocity.x
    };
    (now >= 0) != (then >= 0)
}

/// Whether the agent is no further from `offset_next` than `offset_current`
/// is.
pub open spec fn closer_to_next(agent_position: Vec2, offset_current: Vec2, offset_next: Vec2) -> bool {
    dist_sq(offset_next, agent_position) <= dist_sq(offset_next, offset_current)
}

/// The strategy for the first edge of a path. In the air the agent aims
/// past the edge. Before a jump it aims at the take-off point until it is
/// about to cross it or has come to rest, and then at the landing point. On
/// a corner it aims at the next node. On a flat stretch it aims at the next
/// node once it is as near to it as the current node is.
pub open spec fn spec_select_strategy(
    falling: bool,
    is_jumpable_connection: bool,
    crossing_or_still: bool,
    current_node_is_corner: bool,
    closer_to_next: bool,
) -> PathFollowingStrategy {
    if falling {
        PathFollowingStrategy::AgentToNextNodeOffset
    } else if is_jumpable_connection {
        if crossing_or_still {
            PathFollowingStrategy::AgentToNextNodeOffset
        } else {
            PathFollowingStrategy::AgentToCurrentNodeOffset
        }
    } else if current_node_is_corner {
        PathFollowingStrategy::AgentToNextNodeOffset
    } else if closer_to_next {
        PathFollowingStrategy::AgentToNextNodeOffset
    } else {
        PathFollowingStrategy::AgentToCurrentNodeOffset
    }
}

/// The displacement a strategy steers along.
pub open spec fn spec_strategy_direction(
    strategy: PathFollowingStrategy,
    agent_position: Vec2,
    current: Vec2,
    next: Vec2,
    offset_current: Vec2,
    offset_next: Vec2,
    goal_position: Vec2,
) -> Vec2 {
    match strategy {
        PathFollowingStrategy::CurrentNodeToNextNode => next.spec_minus(current),
        PathFollowingStrategy::CurrentNodeOffsetToNextNodeOffset => offset_next.spec_minus(offset_current),
        PathFollowingStrategy::AgentToCurrentNode => current.spec_minus(agent_position),
        PathFollowingStrategy::AgentToCurrentNodeOffset => offset_current.spec_minus(agent_position),
        PathFollowingStrategy::AgentToNextNode => next.spec_minus(agent_position),
        PathFollowingStrategy::AgentToNextNodeOffset => offset_next.spec_minus(agent_position),
        PathFollowingStrategy::AgentToGoal => goal_position.spec_minus(agent_position),
        PathFollowingStrategy::NoTarget => Vec2::spec_zero(),
    }
}

/// Whether a strategy steers toward the next node.
pub open spec fn targets_next(strategy: PathFollowingStrategy) -> bool {
    strategy == PathFollowingStrategy::AgentToNextNodeOffset || strategy
        == PathFollowingStrategy::AgentToNextNode
}

/// The strategy for the edge from `current` to `next`.
pub open spec fn edge_strategy(
    nodes: Seq<GraphNodeView>,
    current: PathNode,
    next: PathNode,
    agent_position: Vec2,
    physics: Physics,
) -> PathFollowingStrategy {
    let offset_current = node_offset(current.position, nodes[current.id as int].normal, physics.radius as int);
    let offset_next = node_offset(next.position, nodes[next.id as int].normal, physics.radius as int);
    spec_select_strategy(
        physics.falling(),
        is_jump_edge(nodes, current.id as int, next.id as int),
        other_side_next_frame(agent_position, physics.velocity, current.position, physics.on_wall())
            || physics.nearly_still(),
        nodes[current.id as int].is_corner,
        closer_to_next(agent_position, offset_current, offset_next),
    )
}

/// What steering asks for on the edge from `current` to `next`: the unit
/// direction of the strategy's displacement and, where the strategy steers
/// toward the next node over a jumpable connection, the launch velocity of
/// the jump between the two nodes.
pub open spec fn edge_inputs(
    nodes: Seq<GraphNodeView>,
    goal_position: Vec2,
    current: PathNode,
    next: PathNode,
    agent_position: Vec2,
    physics: Physics,
) -> MoveInputs {
    let offset_current = node_offset(current.position, nodes[current.id as int].normal, physics.radius as int);
    let offset_next = node_offset(next.position, nodes[next.id as int].normal, physics.radius as int);
    let strategy = edge_strategy(nodes, current, next, agent_position, physics);
    let move_dir = spec_strategy_direction(
        strategy,
        agent_position,
        current.position,
        next.position,
        offset_current,
        offset_next,
        goal_position,
    ).spec_normalize_or_zero();
    if targets_next(strategy) && is_jump_edge(nodes, current.id as int, next.id as int) {
        MoveInputs {
            move_dir,
            jump_velocity: spec_launch_velocity(next.position.spec_minus(current.position)),
            jump_from_node: Some(offset_current),
            jump_to_node: Some(offset_next),
        }
    } else {
        MoveInputs { move_dir, jump_velocity: Vec2::spec_zero(), jump_from_node: None, jump_to_node: None }
    }
}

/// What steering asks for along a path: nothing without a path or on one of
/// fewer than two nodes, and else what its first edge calls for.
pub open spec fn path_inputs(
    nodes: Seq<GraphNodeView>,
    goal_position: Vec2,
    path: Option<Seq<PathNode>>,
    agent_position: Vec2,
    physics: Physics,
) -> MoveInputs {
    match path {
        Some(p) => if p.len() > 1 {
            edge_inputs(nodes, goal_position, p[0], p[1], agent_position, physics)
        } else {
            MoveInputs::spec_none()
        },
        None => MoveInputs::spec_none(),
    }
}

/// Whether steering can follow the path: its first two nodes are nodes of
/// the graph and lie within the coordinate limit.
pub open spec fn path_steerable(nodes: Seq<GraphNodeView>, path: Seq<PathNode>) -> bool {
    path.len() > 1 ==> {
        &&& path[0].id < nodes.len()
        &&& path[1].id < nodes.len()
        &&& path[0].position.within(COORD_LIMIT as int)
        &&& path[1].position.within(COORD_LIMIT as int)
    }
}

/// Chooses the strategy for the first edge of a path.
pub fn select_strategy(
    falling: bool,
    is_jumpable_connection: bool,
    crossing_or_still: bool,
    current_node_is_corner: bool,
    closer_to_next: bool,
) -> (strategy: PathFollowingStrategy)
    ensures
        strategy == spec_select_strategy(
            falling,
            is_jumpable_connection,
            crossing_or_still,
            current_node_is_corner,
            closer_to_next,
        ),
{
    if falling {
        PathFollowingStrategy::AgentToNextNodeOffset
    } else if is_jumpable_connection {
        if crossing_or_still {
            PathFollowingStrategy::AgentToNextNodeOffset
        } else {
            PathFollowingStrategy::AgentToCurrentNodeOffset
        }
    } else if current_node_is_corner {
        PathFollowingStrategy::AgentToNextNodeOffset
    } else if closer_to_next {
        PathFollowingStrategy::AgentToNextNodeOffset
    } else {
        PathFollowingStrategy::AgentToCurrentNodeOffset
    }
}

/// The displacement a strategy steers along.
pub fn strategy_direction(
    strategy: PathFollowingStrategy,
    agent_position: Vec2,
    current: Vec2,
    next: Vec2,
    offset_current: Vec2,
    offset_next: Vec2,
    goal_position: Vec2,
) -> (direction: Vec2)
    requires
        agent_position.within(2 * COORD_LIMIT),
        current.within(2 * COORD_LIMIT),
        next.within(2 * COORD_LIMIT),
        offset_current.within(2 * COORD_LIMIT),
        offset_next.within(2 * COORD_LIMIT),
        goal_position.within(2 * COORD_LIMIT),
    ensures
        direction == spec_strategy_direction(
            strategy,
            agent_position,
            current,
            next,
            offset_current,
            offset_next,
            goal_position,
        ),
        direction.within(4 * COORD_LIMIT),
{
    match strategy {
        PathFollowingStrategy::CurrentNodeToNextNode => next.minus(current),
        PathFollowingStrategy::CurrentNodeOffsetToNextNodeOffset => offset_next.minus(offset_current),
        PathFollowingStrategy::AgentToCurrentNode => current.minus(agent_position),
        PathFollowingStrategy::AgentToCurrentNodeOffset => offset_current.minus(agent_position),
        PathFollowingStrategy::AgentToNextNode => next.minus(agent_position),
        PathFollowingStrategy::AgentToNextNodeOffset => offset_next.minus(agent_position),
        PathFollowingStrategy::AgentToGoal => goal_position.minus(agent_position),
        PathFollowingStrategy::NoTarget => Vec2::zero(),
    }
}

/// Tests whether the agent will be on the other side of the node after one
/// more tick at its velocity.
pub fn agent_on_other_side_next_frame(
    agent_position: Vec2,
    agent_velocity: Vec2,
    node_position: Vec2,
    vertical: bool,
) -> (r: bool)
    requires
        agent_position.within(COORD_LIMIT as int),
        node_position.within(COORD_LIMIT as int),
        agent_velocity.within(MOTION_LIMIT as int),
    ensures
        r == other_side_next_frame(agent_position, agent_velocity, node_position, vertical),
{
    let now: i64 = if vertical {
        agent_position.y - node_position.y
    } else {
        agent_position.x - node_position.x
    };
    let then: i64 = if vertical {
        now + agent_velocity.y
    } else {
        now + agent_velocity.x
    };
    (now >= 0) != (then >= 0)
}

/// Tests whether the node has a jumpable connection to node `target`.
fn has_jump_edge(pathfinding: &Pathfinding, from: usize, target: usize) -> (r: bool)
    requires
        from < pathfinding.nodes@.len(),
    ensures
        r == is_jump_edge(pathfinding.graph(), from as int, target as int),
{
    let links = &pathfinding.nodes[from].jumpable_connections;
    assert(pathfinding.graph()[from as int].jumpable_connections == links@);
    let mut k: usize = 0;
    while k < links.len()
        invariant
            k <= links@.len(),
            pathfinding.graph()[from as int].jumpable_connections == links@,
            forall|m: int| 0 <= m < k ==> (#[trigger] links@[m]).node_id != target,
        decreases links@.len() - k,
    {
        if links[k].node_id == target {
            assert(pathfinding.graph()[from as int].jumpable_connections[k as int].node_id == target);
            return true;
        }
        k += 1;
    }
    false
}

/// Chooses the strategy for the edge from `current` to `next`.
pub fn choose_strategy(
    pathfinding: &Pathfinding,
    current: PathNode,
    next: PathNode,
    agent_position: Vec2,
    agent_physics: &Physics,
) -> (strategy: PathFollowingStrategy)
    requires
        pathfinding.wf(),
        agent_position.within(COORD_LIMIT as int),
        agent_physics.in_range(),
        current.id < pathfinding.nodes@.len(),
        next.id < pathfinding.nodes@.len(),
        current.position.within(COORD_LIMIT as int),
        next.position.within(COORD_LIMIT as int),
    ensures
        strategy == edge_strategy(pathfinding.graph(), current, next, agent_position, *agent_physics),
{
    let ghost nodes = pathfinding.graph();
    let current_node = &pathfinding.nodes[current.id];
    let next_node = &pathfinding.nodes[next.id];
    proof {
        assert(current_node@ == nodes[current.id as int]);
        assert(next_node@ == nodes[next.id as int]);
        assert(nodes[current.id as int].normal.within(UNIT as int));
        assert(nodes[next.id as int].normal.within(UNIT as int));
    }
    let offset_current_node = current.position.plus(current_node.normal.scaled(agent_physics.radius, UNIT));
    let offset_next_node = next.position.plus(next_node.normal.scaled(agent_physics.radius, UNIT));
    let agent_on_wall = (agent_physics.normal.y as i128) * 100 > -(UNIT as i128);
    let current_node_is_corner = current_node.is_corner;
    let is_jumpable_connection = has_jump_edge(pathfinding, current.id, next.id);
    let falling = agent_physics.normal.x == 0 && agent_physics.normal.y == 0;
    let crossing = agent_on_other_side_next_frame(
        agent_position,
        agent_physics.velocity,
        current.position,
        agent_on_wall,
    );
    proof {
        lemma_mul_bounds(
            agent_physics.velocity.x as int,
            agent_physics.velocity.x as int,
            0x100_0000_0000_0000,
            0x100_0000_0000_0000,
        );
        lemma_mul_bounds(
            agent_physics.velocity.y as int,
            agent_physics.velocity.y as int,
            0x100_0000_0000_0000,
            0x100_0000_0000_0000,
        );
    }
    let agent_not_moving = agent_physics.velocity.length_squared() * 10 < (UNIT as i128) * (UNIT as i128);
    let current_pos_to_next_offset = offset_next_node.minus(agent_position);
    let current_offset_to_next_offset = offset_next_node.minus(offset_current_node);
    let closer = current_pos_to_next_offset.length_squared() <= current_offset_to_next_offset.length_squared();
    select_strategy(
        falling,
        is_jumpable_connection,
        crossing || agent_not_moving,
        current_node_is_corner,
        closer,
    )
}

/// What steering asks of an agent following `path`.
///
/// With fewer than two nodes on the path the agent has arrived, and nothing
/// is asked. Else the first edge of the path decides.
pub fn steer_along_path(
    pathfinding: &Pathfinding,
    path: &Vec<PathNode>,
    agent_position: Vec2,
    agent_physics: &Physics,
) -> (inputs: MoveInputs)
    requires
        pathfinding.wf(),
        agent_position.within(COORD_LIMIT as int),
        agent_physics.in_range(),
        path_steerable(pathfinding.graph(), path@),
    ensures
        inputs == path_inputs(
            pathfinding.graph(),
            pathfinding.goal_position,
            Some(path@),
            agent_position,
            *agent_physics,
        ),
        inputs.in_range(),
        inputs.directed(),
{
    let none = MoveInputs {
        move_dir: Vec2::zero(),
        jump_velocity: Vec2::zero(),
        jump_from_node: None,
        jump_to_node: None,
    };
    if path.len() <= 1 {
        return none;
    }
    let current = path[0];
    let next = path[1];
    let ghost nodes = pathfinding.graph();
    let current_node = &pathfinding.nodes[current.id];
    let next_node = &pathfinding.nodes[next.id];
    proof {
        assert(current_node@ == nodes[current.id as int]);
        assert(next_node@ == nodes[next.id as int]);
        assert(nodes[current.id as int].normal.within(UNIT as int));
        assert(nodes[next.id as int].normal.within(UNIT as int));
    }
    let offset_current_node = current.position.plus(current_node.normal.scaled(agent_physics.radius, UNIT));
    let offset_next_node = next.position.plus(next_node.normal.scaled(agent_physics.radius, UNIT));
    let is_jumpable_connection = has_jump_edge(pathfinding, current.id, next.id);
    let path_following_strategy = choose_strategy(pathfinding, current, next, agent_position, agent_physics);
    let move_dir = strategy_direction(
        path_following_strategy,
        agent_position,
        current.position,
        next.position,
        offset_current_node,
        offset_next_node,
        pathfinding.goal_position,
    ).normalize_or_zero();
    let targets_next_node = match path_following_strategy {
        PathFollowingStrategy::AgentToNextNodeOffset => true,
        PathFollowingStrategy::AgentToNextNode => true,
        _ => false,
    };
    if targets_next_node && is_jumpable_connection {
        let node_position_delta = next.position.minus(current.position);
        MoveInputs {
            move_dir,
            jump_velocity: launch_velocity(node_position_delta),
            jump_from_node: Some(offset_current_node),
            jump_to_node: Some(offset_next_node),
        }
    } else {
        MoveInputs { move_dir, jump_velocity: Vec2::zero(), jump_from_node: None, jump_to_node: None }
    }
}

/// What steering asks of an agent at `agent_position`: the way to the goal
/// is searched for, and its first edge decides.
pub fn get_move_inputs(pathfinding: &Pathfinding, agent_position: Vec2, agent_physics: &Physics) -> (inputs:
    MoveInputs)
    requires
        pathfinding.wf(),
        agent_position.within(COORD_LIMIT as int),
        agent_physics.in_range(),
    ensures
        inputs == path_inputs(
            pathfinding.graph(),
            pathfinding.goal_position,
            spec_find_path(pathfinding, agent_position),
            agent_position,
            *agent_physics,
        ),
        inputs.in_range(),
        inputs.directed(),
{
    let path = find_path(pathfinding, agent_position);
    match path {
        Some(path) => {
            proof {
                let nodes = pathfinding.graph();
                assert(search_outcome(pathfinding, agent_position, Some(path@)));
                let goal = pathfinding.goal_graph_node.unwrap();
                let s = choose|s: int|
                    #[trigger] crate::a_star::is_start_node(nodes, pathfinding.goal_position, agent_position, s)
                        && crate::a_star::is_route(nodes, s, goal.id as int, path@);
                if path@.len() > 1 {
                    assert(path@[0].id < nodes.len());
                    assert(path@[1].id < nodes.len());
                    assert(nodes[path@[0].id as int].position.within(COORD_LIMIT as int));
                    assert(nodes[path@[1].id as int].position.within(COORD_LIMIT as int));
                }
            }
            steer_along_path(pathfinding, &path, agent_position, agent_physics)
        },
        None => {
            proof {
                assert(search_outcome(pathfinding, agent_position, None));
            }
            MoveInputs {
                move_dir: Vec2::zero(),
                jump_velocity: Vec2::zero(),
                jump_from_node: None,
                jump_to_node: None,
            }
        },
    }
}

/// The acceleration of an agent steering in `move_dir`: none in the air,
/// and else a share of what its velocity lacks of the walking speed in that
/// direction.
pub open spec fn movement_acceleration(velocity: Vec2, move_dir: Vec2, falling: bool, no_move_dir: bool) -> Vec2 {
    if falling {
        Vec2::spec_zero()
    } else {
        move_dir.spec_scaled(WANDER_MAX_SPEED as int, UNIT as int).spec_minus(velocity).spec_scaled(
            if no_move_dir {
                DECELERATION_SCALER as int
            } else {
                ACCELERATION_SCALER as int
            },
            1000,
        )
    }
}

/// The acceleration with gravity added: straight down in the air, and into
/// the surface touched otherwise.
pub open spec fn with_gravity(acceleration: Vec2, normal: Vec2, falling: bool) -> Vec2 {
    if falling {
        Vec2 { x: acceleration.x, y: (-GRAVITY_STRENGTH) as i64 }
    } else {
        acceleration.spec_plus(normal.spec_scaled(GRAVITY_STRENGTH as int, UNIT as int))
    }
}

/// Whether the agent jumps off this tick: a jump is asked for, and the
/// agent stands on the ground or clings to a wall.
pub open spec fn jump_triggered(physics: Physics, inputs: MoveInputs) -> bool {
    &&& inputs.jump_velocity != Vec2::spec_zero()
    &&& !physics.falling()
    &&& (physics.grounded || physics.walled != 0)
}

/// The agent's state as it leaves the surface with the jump velocity.
pub open spec fn after_take_off(physics: Physics, jump_velocity: Vec2) -> Physics {
    Physics {
        velocity: jump_velocity,
        acceleration: Vec2 { x: 0, y: (-GRAVITY_STRENGTH) as i64 },
        grounded: false,
        walled: 0,
        has_wall_jumped: !physics.grounded,
        ..physics
    }
}

/// The agent's state after its velocity and position have moved on by one
/// tick.
pub open spec fn after_motion(position: Vec2, physics: Physics) -> (Vec2, Physics) {
    let velocity = physics.velocity.spec_plus(physics.acceleration);
    (position.spec_plus(velocity), Physics { velocity, prev_position: position, ..physics })
}

/// The agent after one tick under the given inputs: it accelerates toward
/// the direction asked for, gravity is added, it takes off where a jump is
/// triggered, and it moves on.
pub open spec fn after_tick(position: Vec2, physics: Physics, ai: PlatformerAI, inputs: MoveInputs) -> (
    Vec2,
    Physics,
    PlatformerAI,
) {
    let falling = physics.falling();
    let no_move_dir = inputs.move_dir == Vec2::spec_zero();
    let steered = Physics {
        acceleration: with_gravity(
            movement_acceleration(physics.velocity, inputs.move_dir, falling, no_move_dir),
            physics.normal,
            falling,
        ),
        ..physics
    };
    if jump_triggered(steered, inputs) {
        let moved = after_motion(position, after_take_off(steered, inputs.jump_velocity));
        (
            moved.0,
            moved.1,
            PlatformerAI { jump_from_pos: inputs.jump_from_node, jump_to_pos: inputs.jump_to_node, ..ai },
        )
    } else {
        let moved = after_motion(position, steered);
        (moved.0, moved.1, ai)
    }
}

/// Sets the acceleration of an agent steering in `move_dir`.
pub fn apply_movement_acceleration(physics: &mut Physics, move_dir: &Vec2, falling: bool, no_move_dir: bool)
    requires
        old(physics).velocity.within(MOTION_LIMIT as int),
        move_dir.within(UNIT as int),
    ensures
        *final(physics) == (Physics {
            acceleration: movement_acceleration(old(physics).velocity, *move_dir, falling, no_move_dir),
            ..*old(physics)
        }),
        final(physics).acceleration.within(2 * MOTION_LIMIT),
{
    if falling {
        physics.acceleration = Vec2::zero();
        return ;
    }
    let wanted = move_dir.scaled(WANDER_MAX_SPEED, UNIT);
    let missing = wanted.minus(physics.velocity);
    physics.acceleration = missing.scaled(
        if no_move_dir {
            DECELERATION_SCALER
        } else {
            ACCELERATION_SCALER
        },
        1000,
    );
}

/// Adds gravity to the acceleration of an agent.
pub fn apply_gravity_toward_normal(physics: &mut Physics, falling: bool)
    requires
        old(physics).acceleration.within(2 * MOTION_LIMIT),
        old(physics).normal.within(UNIT as int),
    ensures
        *final(physics) == (Physics {
            acceleration: with_gravity(old(physics).acceleration, old(physics).normal, falling),
            ..*old(physics)
        }),
        final(physics).acceleration.within(4 * MOTION_LIMIT),
{
    if falling {
        physics.acceleration.y = -GRAVITY_STRENGTH;
    } else {
        let gravity_normal_dir = physics.normal.scaled(GRAVITY_STRENGTH, UNIT);
        physics.acceleration = physics.acceleration.plus(gravity_normal_dir);
    }
}

/// Moves the velocity and the position of an agent on by one tick.
pub fn update_physics_and_transform(physics: &mut Physics, position: &mut Vec2)
    requires
        old(physics).velocity.within(MOTION_LIMIT as int),
        old(physics).acceleration.within(4 * MOTION_LIMIT),
        old(position).within(COORD_LIMIT as int),
    ensures
        (*final(position), *final(physics)) == after_motion(*old(position), *old(physics)),
{
    let new_velocity = physics.velocity.plus(physics.acceleration);
    physics.velocity = new_velocity;
    physics.prev_position = *position;
    *position = position.plus(new_velocity);
}

/// Moves an agent on by one tick under the given inputs.
pub fn apply_move_inputs(
    position: &mut Vec2,
    physics: &mut Physics,
    platformer_ai: &mut PlatformerAI,
    inputs: &MoveInputs,
)
    requires
        old(position).within(COORD_LIMIT as int),
        old(physics).in_range(),
        inputs.in_range(),
    ensures
        (*final(position), *final(physics), *final(platformer_ai)) == after_tick(
            *old(position),
            *old(physics),
            *old(platformer_ai),
            *inputs,
        ),
{
    let falling = physics.normal.x == 0 && physics.normal.y == 0;
    let no_move_dir = inputs.move_dir.x == 0 && inputs.move_dir.y == 0;
    apply_movement_acceleration(physics, &inputs.move_dir, falling, no_move_dir);
    apply_gravity_toward_normal(physics, falling);
    let jump_asked = !(inputs.jump_velocity.x == 0 && inputs.jump_velocity.y == 0);
    if jump_asked && !falling {
        if physics.grounded {
            physics.velocity = inputs.jump_velocity;
            physics.acceleration.x = 0;
            physics.acceleration.y = -GRAVITY_STRENGTH;
            physics.grounded = false;
            physics.has_wall_jumped = false;
            physics.walled = 0;
            platformer_ai.jump_from_pos = inputs.jump_from_node;
            platformer_ai.jump_to_pos = inputs.jump_to_node;
        } else if physics.walled != 0 {
            physics.velocity = inputs.jump_velocity;
            physics.acceleration.x = 0;
            physics.acceleration.y = -GRAVITY_STRENGTH;
            physics.walled = 0;
            physics.grounded = false;
            physics.has_wall_jumped = true;
            platformer_ai.jump_from_pos = inputs.jump_from_node;
            platformer_ai.jump_to_pos = inputs.jump_to_node;
        }
    }
    update_physics_and_transform(physics, position);
}

/// Moves an agent on by one tick: the way to the goal is searched for from
/// where the agent stands, steering decides what to ask of it, and the agent
/// accelerates, jumps and moves accordingly.
pub fn s_platformer_ai_movement(
    position: &mut Vec2,
    physics: &mut Physics,
    platformer_ai: &mut PlatformerAI,
    pathfinding: &Pathfinding,
) -> (inputs: MoveInputs)
    requires
        pathfinding.wf(),
        old(position).within(COORD_LIMIT as int),
        old(physics).in_range(),
    ensures
        inputs == path_inputs(
            pathfinding.graph(),
            pathfinding.goal_position,
            spec_find_path(pathfinding, *old(position)),
            *old(position),
            *old(physics),
        ),
        (*final(position), *final(physics), *final(platformer_ai)) == after_tick(
            *old(position),
            *old(physics),
            *old(platformer_ai),
            inputs,
        ),
{
    let inputs = get_move_inputs(pathfinding, *position, physics);
    apply_move_inputs(position, physics, platformer_ai, &inputs);
    inputs
}

/// Over a jump connection found for its radius, the agent jumps off at the
/// speed that the connection records as its effort.
pub proof fn lemma_jump_velocity_is_effort(
    level: &Level,
    sites: Seq<GraphNodeView>,
    radius: int,
    nodes: Seq<GraphNodeView>,
    goal_position: Vec2,
    current: PathNode,
    next: PathNode,
    agent_position: Vec2,
    physics: Physics,
    k: int,
)
    requires
        nodes.len() == sites.len(),
        sites.len() <= usize::MAX,
        forall|a: int| 0 <= a < sites.len() ==> (#[trigger] sites[a]).position.within(COORD_LIMIT as int),
        forall|a: int|
            0 <= a < sites.len() ==> (#[trigger] nodes[a]).position == sites[a].position
                && nodes[a].jumpable_connections == jump_links(level, sites, radius, a, sites.len()),
        current.id < nodes.len(),
        next.id < nodes.len(),
        current.position == nodes[current.id as int].position,
        next.position == nodes[next.id as int].position,
        0 <= k < nodes[current.id as int].jumpable_connections.len(),
        nodes[current.id as int].jumpable_connections[k].node_id == next.id,
        edge_inputs(nodes, goal_position, current, next, agent_position, physics).jump_velocity
            != Vec2::spec_zero(),
    ensures
        edge_inputs(nodes, goal_position, current, next, agent_position, physics).jump_velocity.spec_length()
            == nodes[current.id as int].jumpable_connections[k].effort,
{
    lemma_jump_links_are_jumps(level, sites, radius, current.id as int, sites.len(), k);
    assert(nodes[next.id as int].position == sites[next.id as int].position);
    assert(nodes[current.id as int].position == sites[current.id as int].position);
}

/// On a flat stretch the target never switches back: once an agent that is
/// neither in the air, nor before a jump, nor on a corner steers toward the
/// next node, it keeps doing so for as long as it comes no further from it.
pub proof fn lemma_flat_target_settles(
    positions: Seq<Vec2>,
    offset_current: Vec2,
    offset_next: Vec2,
    crossing_or_still: Seq<bool>,
    i: int,
    j: int,
)
    requires
        0 <= i <= j < positions.len(),
        crossing_or_still.len() == positions.len(),
        forall|k: int|
            0 <= k < positions.len() - 1 ==> dist_sq(offset_next, #[trigger] positions[k + 1]) <= dist_sq(
                offset_next,
                positions[k],
            ),
        spec_select_strategy(
            false,
            false,
            crossing_or_still[i],
            false,
            closer_to_next(positions[i], offset_current, offset_next),
        ) == PathFollowingStrategy::AgentToNextNodeOffset,
    ensures
        spec_select_strategy(
            false,
            false,
            crossing_or_still[j],
            false,
            closer_to_next(positions[j], offset_current, offset_next),
        ) == PathFollowingStrategy::AgentToNextNodeOffset,
    decreases j - i,
{
    if i < j {
        assert(dist_sq(offset_next, positions[i + 1]) <= dist_sq(offset_next, positions[i]));
        lemma_flat_target_settles(positions, offset_current, offset_next, crossing_or_still, i + 1, j);
    }
}

} // verus!
