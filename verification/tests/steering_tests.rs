use platformer_nav::a_star::PathNode;
use platformer_nav::goal::{
    input_direction, nearest_node, s_move_goal_point, toggle_pursuit, InputDir, GOAL_SPEED,
};
use platformer_nav::pathfinding::{
    Pathfinding, PathfindingGraphConnection, PathfindingGraphConnectionType, PathfindingGraphNode,
};
use platformer_nav::platformer_ai::{
    agent_on_other_side_next_frame, apply_gravity_toward_normal, apply_move_inputs,
    apply_movement_acceleration, choose_strategy, get_move_inputs, s_platformer_ai_movement,
    select_strategy, steer_along_path, strategy_direction, update_physics_and_transform, MoveInputs,
    PathFollowingStrategy, Physics, PlatformerAI, ACCELERATION_SCALER, DECELERATION_SCALER,
    PLATFORMER_AI_AGENT_RADIUS, WANDER_MAX_SPEED,
};
use platformer_nav::vec2::Vec2;

fn walk(node_id: usize, dist: i64) -> PathfindingGraphConnection {
    PathfindingGraphConnection {
        node_id,
        dist,
        connection_type: PathfindingGraphConnectionType::Walkable,
        effort: 0,
    }
}

fn jump(node_id: usize, dist: i64, effort: i64) -> PathfindingGraphConnection {
    PathfindingGraphConnection {
        node_id,
        dist,
        connection_type: PathfindingGraphConnectionType::Jumpable,
        effort,
    }
}

fn node(id: usize, x: i64, y: i64, links: Vec<PathfindingGraphConnection>) -> PathfindingGraphNode {
    PathfindingGraphNode {
        id,
        position: Vec2::new(x, y),
        polygon_index: 0,
        line_indicies: vec![0],
        walkable_connections: links,
        jumpable_connections: vec![],
        droppable_connections: vec![],
        normal: Vec2::new(0, 1000),
        is_corner: false,
        is_external_corner: None,
    }
}

// Three nodes on a floor, twenty world units apart; the goal is the last.
fn floor() -> Pathfinding {
    let nodes = vec![
        node(0, 0, 0, vec![walk(1, 20000)]),
        node(1, 20000, 0, vec![walk(0, 20000), walk(2, 20000)]),
        node(2, 40000, 0, vec![walk(1, 20000)]),
    ];
    let goal = nodes[2].clone();
    Pathfinding { nodes, goal_graph_node: Some(goal), goal_position: Vec2::new(40000, 0), active: true }
}

// Two ledges joined by a jump from node 0 to node 1; the goal is node 2.
fn gap() -> Pathfinding {
    let mut pathfinding = floor();
    pathfinding.nodes[0].walkable_connections = vec![];
    pathfinding.nodes[1].walkable_connections = vec![walk(2, 20000)];
    pathfinding.nodes[0].jumpable_connections = vec![jump(1, 20000, 3162)];
    pathfinding
}

fn walking(velocity: Vec2) -> Physics {
    Physics {
        prev_position: Vec2::zero(),
        velocity,
        acceleration: Vec2::zero(),
        radius: PLATFORMER_AI_AGENT_RADIUS,
        normal: Vec2::new(0, -1000),
        grounded: true,
        walled: 0,
        has_wall_jumped: false,
    }
}

fn airborne(velocity: Vec2) -> Physics {
    Physics { normal: Vec2::zero(), grounded: false, ..walking(velocity) }
}

fn first_edge(pathfinding: &Pathfinding) -> Vec<PathNode> {
    vec![
        PathNode::new(0, pathfinding.nodes[0].position),
        PathNode::new(1, pathfinding.nodes[1].position),
    ]
}

fn no_memory() -> PlatformerAI {
    PlatformerAI { current_target_node: None, jump_from_pos: None, jump_to_pos: None }
}

const NEXT: PathFollowingStrategy = PathFollowingStrategy::AgentToNextNodeOffset;
const CURRENT: PathFollowingStrategy = PathFollowingStrategy::AgentToCurrentNodeOffset;

#[test]
fn constants_of_the_agent() {
    assert_eq!(PLATFORMER_AI_AGENT_RADIUS, 8000);
    assert_eq!(WANDER_MAX_SPEED, 3000);
    assert_eq!(ACCELERATION_SCALER, 200);
    assert_eq!(DECELERATION_SCALER, 400);
    assert_eq!(GOAL_SPEED, 4000);
}

#[test]
fn in_the_air_the_agent_aims_at_the_next_node() {
    for jump_edge in [false, true] {
        for crossing in [false, true] {
            for corner in [false, true] {
                for closer in [false, true] {
                    assert_eq!(select_strategy(true, jump_edge, crossing, corner, closer), NEXT);
                }
            }
        }
    }
}

#[test]
fn before_a_jump_the_agent_aims_at_the_take_off_point() {
    for corner in [false, true] {
        for closer in [false, true] {
            assert_eq!(select_strategy(false, true, false, corner, closer), CURRENT);
            assert_eq!(select_strategy(false, true, true, corner, closer), NEXT);
        }
    }
}

#[test]
fn on_a_corner_the_agent_aims_at_the_next_node() {
    for crossing in [false, true] {
        for closer in [false, true] {
            assert_eq!(select_strategy(false, false, crossing, true, closer), NEXT);
        }
    }
}

#[test]
fn on_a_flat_stretch_the_nearer_target_is_aimed_at() {
    for crossing in [false, true] {
        assert_eq!(select_strategy(false, false, crossing, false, true), NEXT);
        assert_eq!(select_strategy(false, false, crossing, false, false), CURRENT);
    }
}

#[test]
fn each_strategy_has_its_displacement() {
    let agent = Vec2::new(1, 2);
    let current = Vec2::new(10, 20);
    let next = Vec2::new(110, 220);
    let offset_current = Vec2::new(10, 28);
    let offset_next = Vec2::new(110, 228);
    let goal = Vec2::new(1000, 2000);
    let direction =
        |strategy| strategy_direction(strategy, agent, current, next, offset_current, offset_next, goal);
    assert_eq!(direction(PathFollowingStrategy::CurrentNodeToNextNode), Vec2::new(100, 200));
    assert_eq!(direction(PathFollowingStrategy::CurrentNodeOffsetToNextNodeOffset), Vec2::new(100, 200));
    assert_eq!(direction(PathFollowingStrategy::AgentToCurrentNode), Vec2::new(9, 18));
    assert_eq!(direction(PathFollowingStrategy::AgentToCurrentNodeOffset), Vec2::new(9, 26));
    assert_eq!(direction(PathFollowingStrategy::AgentToNextNode), Vec2::new(109, 218));
    assert_eq!(direction(PathFollowingStrategy::AgentToNextNodeOffset), Vec2::new(109, 226));
    assert_eq!(direction(PathFollowingStrategy::AgentToGoal), Vec2::new(999, 1998));
    assert_eq!(direction(PathFollowingStrategy::NoTarget), Vec2::zero());
}

#[test]
fn crossing_a_node_is_seen_a_tick_ahead() {
    let node = Vec2::new(10000, 5000);
    // Along the horizontal.
    assert!(agent_on_other_side_next_frame(Vec2::new(9000, 0), Vec2::new(2000, 0), node, false));
    assert!(!agent_on_other_side_next_frame(Vec2::new(9000, 0), Vec2::new(500, 0), node, false));
    assert!(agent_on_other_side_next_frame(Vec2::new(11000, 0), Vec2::new(-2000, 0), node, false));
    assert!(!agent_on_other_side_next_frame(Vec2::new(11000, 0), Vec2::new(2000, 9000), node, false));
    // Level with the node counts as its far side.
    assert!(agent_on_other_side_next_frame(Vec2::new(9000, 0), Vec2::new(1000, 0), node, false));
    assert!(!agent_on_other_side_next_frame(Vec2::new(10000, 0), Vec2::new(1000, 0), node, false));
    assert!(agent_on_other_side_next_frame(Vec2::new(10000, 0), Vec2::new(-1, 0), node, false));
    // Along the vertical.
    assert!(agent_on_other_side_next_frame(Vec2::new(0, 4000), Vec2::new(0, 3000), node, true));
    assert!(!agent_on_other_side_next_frame(Vec2::new(0, 4000), Vec2::new(9000, 500), node, true));
}

#[test]
fn with_no_edge_to_follow_nothing_is_asked() {
    let pathfinding = floor();
    let physics = walking(Vec2::new(3000, 0));
    let nothing = MoveInputs {
        move_dir: Vec2::zero(),
        jump_velocity: Vec2::zero(),
        jump_from_node: None,
        jump_to_node: None,
    };
    assert_eq!(steer_along_path(&pathfinding, &vec![], Vec2::new(0, 8000), &physics), nothing);
    let one = vec![PathNode::new(1, Vec2::new(20000, 0))];
    assert_eq!(steer_along_path(&pathfinding, &one, Vec2::new(0, 8000), &physics), nothing);
}

#[test]
fn on_a_flat_stretch_the_agent_walks_toward_its_target() {
    let pathfinding = floor();
    let physics = walking(Vec2::new(3000, 0));
    let path = first_edge(&pathfinding);
    // Behind the current node: toward its offset point at (0, 8).
    let behind = steer_along_path(&pathfinding, &path, Vec2::new(-5000, 9000), &physics);
    assert_eq!(behind.move_dir, Vec2::new(980, -196));
    assert_eq!(behind.jump_velocity, Vec2::zero());
    assert_eq!(behind.jump_from_node, None);
    assert_eq!(behind.jump_to_node, None);
    // Between the nodes: toward the next offset point at (20, 8).
    let between = steer_along_path(&pathfinding, &path, Vec2::new(5000, 9000), &physics);
    assert_eq!(between.move_dir, Vec2::new(997, -66));
    assert_eq!(between.jump_velocity, Vec2::zero());
}

#[test]
fn on_its_target_the_agent_holds_still() {
    let pathfinding = floor();
    let physics = walking(Vec2::new(3000, 0));
    let path = first_edge(&pathfinding);
    let inputs = steer_along_path(&pathfinding, &path, Vec2::new(20000, 8000), &physics);
    assert_eq!(inputs.move_dir, Vec2::zero());
}

#[test]
fn the_target_switches_once_along_a_flat_stretch() {
    let pathfinding = floor();
    let physics = walking(Vec2::new(1000, 0));
    let path = first_edge(&pathfinding);
    let mut switches = 0;
    let mut last = CURRENT;
    let mut x = -10000;
    while x <= 20000 {
        let strategy = choose_strategy(&pathfinding, path[0], path[1], Vec2::new(x, 9000), &physics);
        assert!(strategy == CURRENT || strategy == NEXT);
        if x <= 0 {
            assert_eq!(strategy, CURRENT);
        }
        if x >= 1000 {
            assert_eq!(strategy, NEXT);
        }
        if strategy != last {
            switches += 1;
        }
        last = strategy;
        x += 250;
    }
    assert_eq!(switches, 1);
}

#[test]
fn the_switch_comes_where_the_next_target_is_as_near_as_the_current() {
    let pathfinding = floor();
    let physics = walking(Vec2::new(1000, 0));
    let path = first_edge(&pathfinding);
    // Exactly as far from the next offset point as the current one is.
    assert_eq!(choose_strategy(&pathfinding, path[0], path[1], Vec2::new(0, 8000), &physics), NEXT);
    assert_eq!(choose_strategy(&pathfinding, path[0], path[1], Vec2::new(-1, 8000), &physics), CURRENT);
    assert_eq!(choose_strategy(&pathfinding, path[0], path[1], Vec2::new(40000, 8000), &physics), NEXT);
    assert_eq!(choose_strategy(&pathfinding, path[0], path[1], Vec2::new(40001, 8000), &physics), CURRENT);
}

#[test]
fn in_the_air_the_agent_steers_past_the_edge() {
    let pathfinding = floor();
    let physics = airborne(Vec2::new(3000, 0));
    let path = first_edge(&pathfinding);
    assert_eq!(choose_strategy(&pathfinding, path[0], path[1], Vec2::new(-30000, 9000), &physics), NEXT);
    let inputs = steer_along_path(&pathfinding, &path, Vec2::new(-30000, 8000), &physics);
    assert_eq!(inputs.move_dir, Vec2::new(1000, 0));
    assert_eq!(inputs.jump_velocity, Vec2::zero());
}

#[test]
fn a_sub_unit_short_of_its_target_the_agent_still_steers_a_unit() {
    let pathfinding = floor();
    let physics = airborne(Vec2::new(3000, 0));
    let path = first_edge(&pathfinding);
    let inputs = steer_along_path(&pathfinding, &path, Vec2::new(19999, 7999), &physics);
    assert_eq!(inputs.move_dir, Vec2::new(706, 706));
    let square = inputs.move_dir.length_squared();
    assert!(997 * 997 <= square && square <= 1000 * 1000);
}

#[test]
fn on_a_corner_the_agent_steers_toward_the_next_node() {
    let mut pathfinding = floor();
    pathfinding.nodes[0].is_corner = true;
    pathfinding.nodes[0].is_external_corner = Some(true);
    let physics = walking(Vec2::new(3000, 0));
    let path = first_edge(&pathfinding);
    assert_eq!(choose_strategy(&pathfinding, path[0], path[1], Vec2::new(-30000, 9000), &physics), NEXT);
}

#[test]
fn the_agent_walks_up_to_the_take_off_point() {
    let pathfinding = gap();
    let physics = walking(Vec2::new(3000, 0));
    let path = first_edge(&pathfinding);
    assert_eq!(choose_strategy(&pathfinding, path[0], path[1], Vec2::new(-9000, 8000), &physics), CURRENT);
    let inputs = steer_along_path(&pathfinding, &path, Vec2::new(-9000, 8000), &physics);
    assert_eq!(inputs.move_dir, Vec2::new(1000, 0));
    assert_eq!(inputs.jump_velocity, Vec2::zero());
    assert_eq!(inputs.jump_from_node, None);
}

#[test]
fn the_agent_jumps_as_it_crosses_the_take_off_point() {
    let pathfinding = gap();
    let physics = walking(Vec2::new(3000, 0));
    let path = first_edge(&pathfinding);
    let inputs = steer_along_path(&pathfinding, &path, Vec2::new(-2000, 8000), &physics);
    assert_eq!(inputs.move_dir, Vec2::new(1000, 0));
    assert_eq!(inputs.jump_velocity, Vec2::new(2236, 2236));
    assert_eq!(inputs.jump_from_node, Some(Vec2::new(0, 8000)));
    assert_eq!(inputs.jump_to_node, Some(Vec2::new(20000, 8000)));
}

#[test]
fn the_agent_jumps_once_it_has_come_to_rest() {
    let pathfinding = gap();
    let still = walking(Vec2::new(300, 0));
    let path = first_edge(&pathfinding);
    let inputs = steer_along_path(&pathfinding, &path, Vec2::new(-9000, 8000), &still);
    assert_eq!(inputs.jump_velocity, Vec2::new(2236, 2236));
    let moving = walking(Vec2::new(300, 100));
    let inputs = steer_along_path(&pathfinding, &path, Vec2::new(-9000, 8000), &moving);
    assert_eq!(inputs.jump_velocity, Vec2::zero());
}

#[test]
fn on_a_wall_crossing_is_judged_along_the_vertical() {
    let pathfinding = gap();
    let mut physics = walking(Vec2::new(0, 3000));
    physics.normal = Vec2::new(1000, 0);
    physics.grounded = false;
    physics.walled = 1;
    let path = first_edge(&pathfinding);
    assert_eq!(choose_strategy(&pathfinding, path[0], path[1], Vec2::new(-8000, -2000), &physics), NEXT);
    assert_eq!(choose_strategy(&pathfinding, path[0], path[1], Vec2::new(-8000, -9000), &physics), CURRENT);
    // On the ground the same movement crosses nothing.
    let grounded = walking(Vec2::new(0, 3000));
    assert_eq!(choose_strategy(&pathfinding, path[0], path[1], Vec2::new(-8000, -2000), &grounded), CURRENT);
}

#[test]
fn the_way_is_searched_for_before_steering() {
    let pathfinding = floor();
    let physics = walking(Vec2::new(3000, 0));
    let inputs = get_move_inputs(&pathfinding, Vec2::new(5000, 9000), &physics);
    assert_eq!(inputs.move_dir, Vec2::new(997, -66));
    // Next to the goal node the agent walks on to it.
    let near = get_move_inputs(&pathfinding, Vec2::new(21000, 8000), &physics);
    assert_eq!(near.move_dir, Vec2::new(1000, 0));
    // On the goal node the path is that node alone, and the agent has arrived.
    let arrived = get_move_inputs(&pathfinding, Vec2::new(41000, 8000), &physics);
    assert_eq!(arrived.move_dir, Vec2::zero());
    let mut idle = floor();
    idle.goal_graph_node = None;
    assert_eq!(get_move_inputs(&idle, Vec2::new(5000, 9000), &physics).move_dir, Vec2::zero());
}

#[test]
fn the_agent_gains_a_share_of_the_speed_it_lacks() {
    let mut physics = walking(Vec2::new(1000, 0));
    apply_movement_acceleration(&mut physics, &Vec2::new(1000, 0), false, false);
    assert_eq!(physics.acceleration, Vec2::new(400, 0));
    assert_eq!(physics.velocity, Vec2::new(1000, 0));
    let mut physics = walking(Vec2::new(1000, -500));
    apply_movement_acceleration(&mut physics, &Vec2::new(600, 800), false, false);
    assert_eq!(physics.acceleration, Vec2::new(160, 580));
}

#[test]
fn the_agent_brakes_harder_than_it_speeds_up() {
    let mut physics = walking(Vec2::new(1000, -500));
    apply_movement_acceleration(&mut physics, &Vec2::zero(), false, true);
    assert_eq!(physics.acceleration, Vec2::new(-400, 200));
}

#[test]
fn in_the_air_steering_accelerates_nothing() {
    let mut physics = airborne(Vec2::new(1000, 0));
    physics.acceleration = Vec2::new(7, 7);
    apply_movement_acceleration(&mut physics, &Vec2::new(1000, 0), true, false);
    assert_eq!(physics.acceleration, Vec2::zero());
}

#[test]
fn gravity_pulls_down_in_the_air_and_into_the_surface_otherwise() {
    let mut physics = airborne(Vec2::zero());
    physics.acceleration = Vec2::new(30, 40);
    apply_gravity_toward_normal(&mut physics, true);
    assert_eq!(physics.acceleration, Vec2::new(30, -500));
    let mut physics = walking(Vec2::zero());
    physics.acceleration = Vec2::new(30, 40);
    apply_gravity_toward_normal(&mut physics, false);
    assert_eq!(physics.acceleration, Vec2::new(30, -460));
    let mut physics = walking(Vec2::zero());
    physics.normal = Vec2::new(707, -707);
    physics.acceleration = Vec2::new(30, 40);
    apply_gravity_toward_normal(&mut physics, false);
    assert_eq!(physics.acceleration, Vec2::new(383, -313));
}

#[test]
fn velocity_and_position_move_on() {
    let mut physics = walking(Vec2::new(1000, 200));
    physics.acceleration = Vec2::new(400, -500);
    let mut position = Vec2::new(5000, 8000);
    update_physics_and_transform(&mut physics, &mut position);
    assert_eq!(physics.velocity, Vec2::new(1400, -300));
    assert_eq!(physics.prev_position, Vec2::new(5000, 8000));
    assert_eq!(position, Vec2::new(6400, 7700));
}

#[test]
fn a_tick_without_a_jump() {
    let mut physics = walking(Vec2::new(1000, 0));
    let mut position = Vec2::new(5000, 8000);
    let mut memory = no_memory();
    let inputs = MoveInputs {
        move_dir: Vec2::new(1000, 0),
        jump_velocity: Vec2::zero(),
        jump_from_node: None,
        jump_to_node: None,
    };
    apply_move_inputs(&mut position, &mut physics, &mut memory, &inputs);
    assert_eq!(physics.acceleration, Vec2::new(400, -500));
    assert_eq!(physics.velocity, Vec2::new(1400, -500));
    assert_eq!(position, Vec2::new(6400, 7500));
    assert!(physics.grounded);
    assert_eq!(memory, no_memory());
}

#[test]
fn a_jump_from_the_ground() {
    let mut physics = walking(Vec2::new(1000, 0));
    let mut position = Vec2::new(0, 8000);
    let mut memory = no_memory();
    let inputs = MoveInputs {
        move_dir: Vec2::new(1000, 0),
        jump_velocity: Vec2::new(2236, 2236),
        jump_from_node: Some(Vec2::new(0, 8000)),
        jump_to_node: Some(Vec2::new(20000, 8000)),
    };
    apply_move_inputs(&mut position, &mut physics, &mut memory, &inputs);
    assert_eq!(physics.acceleration, Vec2::new(0, -500));
    assert_eq!(physics.velocity, Vec2::new(2236, 1736));
    assert_eq!(position, Vec2::new(2236, 9736));
    assert_eq!(physics.prev_position, Vec2::new(0, 8000));
    assert!(!physics.grounded);
    assert_eq!(physics.walled, 0);
    assert!(!physics.has_wall_jumped);
    assert_eq!(memory.jump_from_pos, Some(Vec2::new(0, 8000)));
    assert_eq!(memory.jump_to_pos, Some(Vec2::new(20000, 8000)));
    assert_eq!(memory.current_target_node, None);
}

#[test]
fn a_jump_from_a_wall() {
    let mut physics = walking(Vec2::zero());
    physics.grounded = false;
    physics.walled = -1;
    physics.normal = Vec2::new(-1000, 0);
    let mut position = Vec2::new(0, 8000);
    let mut memory = no_memory();
    let inputs = MoveInputs {
        move_dir: Vec2::new(1000, 0),
        jump_velocity: Vec2::new(2236, 2236),
        jump_from_node: Some(Vec2::new(0, 8000)),
        jump_to_node: Some(Vec2::new(20000, 8000)),
    };
    apply_move_inputs(&mut position, &mut physics, &mut memory, &inputs);
    assert_eq!(physics.velocity, Vec2::new(2236, 1736));
    assert_eq!(physics.walled, 0);
    assert!(!physics.grounded);
    assert!(physics.has_wall_jumped);
    assert_eq!(memory.jump_to_pos, Some(Vec2::new(20000, 8000)));
}

#[test]
fn no_jump_without_a_surface_to_push_off() {
    let inputs = MoveInputs {
        move_dir: Vec2::new(1000, 0),
        jump_velocity: Vec2::new(2236, 2236),
        jump_from_node: Some(Vec2::new(0, 8000)),
        jump_to_node: Some(Vec2::new(20000, 8000)),
    };
    // In the air.
    let mut physics = airborne(Vec2::new(1000, 0));
    let mut position = Vec2::new(0, 8000);
    let mut memory = no_memory();
    apply_move_inputs(&mut position, &mut physics, &mut memory, &inputs);
    assert_eq!(physics.velocity, Vec2::new(1000, -500));
    assert_eq!(memory, no_memory());
    // Touching something, but neither grounded nor walled.
    let mut physics = walking(Vec2::new(1000, 0));
    physics.grounded = false;
    let mut position = Vec2::new(0, 8000);
    apply_move_inputs(&mut position, &mut physics, &mut memory, &inputs);
    assert_eq!(physics.velocity, Vec2::new(1400, -500));
    assert_eq!(memory, no_memory());
}

#[test]
fn a_whole_tick_on_the_floor() {
    let pathfinding = floor();
    let mut physics = walking(Vec2::new(1000, 0));
    let mut position = Vec2::new(5000, 8000);
    let mut memory = no_memory();
    let inputs = s_platformer_ai_movement(&mut position, &mut physics, &mut memory, &pathfinding);
    assert_eq!(inputs.move_dir, Vec2::new(1000, 0));
    assert_eq!(physics.velocity, Vec2::new(1400, -500));
    assert_eq!(position, Vec2::new(6400, 7500));
    assert_eq!(physics.prev_position, Vec2::new(5000, 8000));
}

#[test]
fn a_whole_tick_at_the_take_off_point() {
    let pathfinding = gap();
    let mut physics = walking(Vec2::new(100, 0));
    let mut position = Vec2::new(-1000, 8000);
    let mut memory = no_memory();
    let inputs = s_platformer_ai_movement(&mut position, &mut physics, &mut memory, &pathfinding);
    assert_eq!(inputs.jump_velocity, Vec2::new(2236, 2236));
    assert_eq!(physics.velocity, Vec2::new(2236, 1736));
    assert_eq!(position, Vec2::new(1236, 9736));
    assert!(!physics.grounded);
    assert_eq!(memory.jump_from_pos, Some(Vec2::new(0, 8000)));
}

#[test]
fn the_nearest_node_is_the_first_of_equals() {
    let pathfinding = floor();
    assert_eq!(nearest_node(&pathfinding, Vec2::new(19000, 500)), Some(1));
    assert_eq!(nearest_node(&pathfinding, Vec2::new(10000, 0)), Some(0));
    assert_eq!(nearest_node(&pathfinding, Vec2::new(30000, 0)), Some(1));
    assert_eq!(nearest_node(&pathfinding, Vec2::new(900000, 700)), Some(2));
    let mut nothing = floor();
    nothing.nodes = vec![];
    nothing.goal_graph_node = None;
    assert_eq!(nearest_node(&nothing, Vec2::new(0, 0)), None);
}

#[test]
fn the_goal_moves_four_world_units_a_tick() {
    let mut pathfinding = floor();
    pathfinding.goal_position = Vec2::new(30000, 0);
    s_move_goal_point(&InputDir { dir: Vec2::new(-1000, 0) }, &mut pathfinding);
    assert_eq!(pathfinding.goal_position, Vec2::new(26000, 0));
    assert_eq!(pathfinding.goal_graph_node.as_ref().unwrap().id, 1);
    s_move_goal_point(&InputDir { dir: Vec2::new(707, 707) }, &mut pathfinding);
    assert_eq!(pathfinding.goal_position, Vec2::new(28828, 2828));
    s_move_goal_point(&InputDir { dir: Vec2::zero() }, &mut pathfinding);
    assert_eq!(pathfinding.goal_position, Vec2::new(28828, 2828));
}

#[test]
fn an_idle_goal_keeps_its_node() {
    let mut pathfinding = floor();
    pathfinding.active = false;
    pathfinding.goal_position = Vec2::new(3000, 0);
    s_move_goal_point(&InputDir { dir: Vec2::new(-1000, 0) }, &mut pathfinding);
    assert_eq!(pathfinding.goal_position, Vec2::new(-1000, 0));
    assert_eq!(pathfinding.goal_graph_node.as_ref().unwrap().id, 2);
}

#[test]
fn pursuit_is_switched_on_and_off() {
    let mut pathfinding = floor();
    pathfinding.active = false;
    pathfinding.goal_graph_node = None;
    pathfinding.goal_position = Vec2::new(1000, 1000);
    toggle_pursuit(&mut pathfinding);
    assert!(pathfinding.active);
    let goal = pathfinding.goal_graph_node.as_ref().unwrap();
    assert_eq!(goal.id, 0);
    assert_eq!(goal.position, Vec2::new(0, 0));
    assert_eq!(goal.walkable_connections, vec![walk(1, 20000)]);
    toggle_pursuit(&mut pathfinding);
    assert!(!pathfinding.active);
    assert!(pathfinding.goal_graph_node.is_none());
    assert_eq!(pathfinding.goal_position, Vec2::new(1000, 1000));
}

#[test]
fn without_nodes_pursuit_has_no_goal_node() {
    let mut pathfinding = floor();
    pathfinding.nodes = vec![];
    pathfinding.goal_graph_node = None;
    pathfinding.active = false;
    toggle_pursuit(&mut pathfinding);
    assert!(pathfinding.active);
    assert!(pathfinding.goal_graph_node.is_none());
}

#[test]
fn states_within_the_limits_are_in_range() {
    let physics = walking(Vec2::new(3000, 0));
    assert!(physics.is_in_range());
    let limit = 1i64 << 56;
    assert!(walking(Vec2::new(limit, -limit)).is_in_range());
    assert!(!walking(Vec2::new(limit + 1, 0)).is_in_range());
    let mut wide = walking(Vec2::zero());
    wide.radius = -1;
    assert!(!wide.is_in_range());
    wide.radius = (1i64 << 40) + 1;
    assert!(!wide.is_in_range());
    wide.radius = 0;
    assert!(wide.is_in_range());
    wide.normal = Vec2::new(1001, 0);
    assert!(!wide.is_in_range());
    wide.normal = Vec2::zero();
    wide.acceleration = Vec2::new(0, -limit - 1);
    assert!(!wide.is_in_range());
}

#[test]
fn arrow_keys_steer_the_goal() {
    assert_eq!(input_direction(false, false, false, false).dir, Vec2::zero());
    assert_eq!(input_direction(true, false, false, false).dir, Vec2::new(0, 1000));
    assert_eq!(input_direction(false, true, false, false).dir, Vec2::new(0, -1000));
    assert_eq!(input_direction(false, false, true, false).dir, Vec2::new(-1000, 0));
    assert_eq!(input_direction(false, false, false, true).dir, Vec2::new(1000, 0));
    assert_eq!(input_direction(true, false, false, true).dir, Vec2::new(707, 707));
    assert_eq!(input_direction(false, true, true, false).dir, Vec2::new(-707, -707));
    // Opposite keys cancel.
    assert_eq!(input_direction(true, true, false, true).dir, Vec2::new(1000, 0));
    assert_eq!(input_direction(true, true, true, true).dir, Vec2::zero());
}
