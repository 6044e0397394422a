use platformer_nav::ballistics::{
    arc_points, jump_time, jump_within_reach, launch_velocity, PLATFORMER_AI_JUMP_FORCE,
};
use platformer_nav::jumping::{jumpability_check, make_jumpable_connections};
use platformer_nav::level::{Level, Polygon};
use platformer_nav::pathfinding::{
    Pathfinding, PathfindingGraphConnection, PathfindingGraphConnectionType, PathfindingGraphNode,
    PathfindingPlugin, GRAVITY_STRENGTH,
};
use platformer_nav::placement::place_nodes;
use platformer_nav::vec2::Vec2;

fn polygon(points: &[(i64, i64)]) -> Polygon {
    Polygon { points: points.iter().map(|p| Vec2::new(p.0, p.1)).collect(), is_container: false }
}

fn site(id: usize, x: i64, y: i64, polygon_index: usize, lines: Vec<usize>) -> PathfindingGraphNode {
    PathfindingGraphNode {
        id,
        position: Vec2::new(x, y),
        polygon_index,
        line_indicies: lines,
        walkable_connections: vec![],
        jumpable_connections: vec![],
        droppable_connections: vec![],
        normal: Vec2::zero(),
        is_corner: false,
        is_external_corner: None,
    }
}

fn jump(node_id: usize, dist: i64, effort: i64) -> PathfindingGraphConnection {
    PathfindingGraphConnection {
        node_id,
        dist,
        connection_type: PathfindingGraphConnectionType::Jumpable,
        effort,
    }
}

fn platforms_with(wall: &[(i64, i64)]) -> Level {
    Level {
        polygons: vec![
            polygon(&[(0, 0), (40000, 0)]),
            polygon(&[(60000, 0), (100000, 0)]),
            polygon(wall),
        ],
    }
}

#[test]
fn constants_of_the_jump() {
    assert_eq!(GRAVITY_STRENGTH, 500);
    assert_eq!(PLATFORMER_AI_JUMP_FORCE, 8000);
}

#[test]
fn reach_ends_where_the_launch_speed_runs_out() {
    // Level ground: 128 world units at most.
    assert!(jump_within_reach(Vec2::new(50000, 0)));
    assert!(jump_within_reach(Vec2::new(128000, 0)));
    assert!(!jump_within_reach(Vec2::new(128001, 0)));
    assert!(jump_within_reach(Vec2::new(-128000, 0)));
    // Straight up: 64 world units at most.
    assert!(jump_within_reach(Vec2::new(0, 64000)));
    assert!(!jump_within_reach(Vec2::new(0, 64001)));
    // Downward jumps reach further.
    assert!(jump_within_reach(Vec2::new(150000, -100000)));
    assert!(jump_within_reach(Vec2::new(0, 0)));
}

#[test]
fn flight_time_is_the_root_of_twice_the_distance_over_gravity() {
    assert_eq!(jump_time(Vec2::new(50000, 0)), 14142);
    assert_eq!(jump_time(Vec2::new(20000, 0)), 8944);
    assert_eq!(jump_time(Vec2::new(30000, 20000)), 12009);
    assert_eq!(jump_time(Vec2::new(0, 0)), 0);
    assert_eq!(jump_time(Vec2::new(100000, 0)), 20000);
}

#[test]
fn launch_velocity_of_a_level_jump_rises_at_half_a_right_angle() {
    assert_eq!(launch_velocity(Vec2::new(50000, 0)), Vec2::new(3535, 3535));
    assert_eq!(launch_velocity(Vec2::new(-50000, 0)), Vec2::new(-3535, 3535));
    assert_eq!(launch_velocity(Vec2::new(100000, 0)), Vec2::new(5000, 5000));
}

#[test]
fn launch_velocity_of_a_rising_jump() {
    assert_eq!(launch_velocity(Vec2::new(30000, 20000)), Vec2::new(2498, 4667));
    assert_eq!(launch_velocity(Vec2::new(30000, 20000)).length(), 5293);
}

#[test]
fn at_the_edge_of_reach_the_launch_takes_the_whole_jump_force() {
    for delta in [Vec2::new(0, 64000), Vec2::new(128510, -513), Vec2::new(274442, -230219)] {
        assert!(jump_within_reach(delta));
        assert_eq!(launch_velocity(delta).length(), PLATFORMER_AI_JUMP_FORCE);
    }
    assert!(jump_within_reach(Vec2::new(128000, 0)));
    assert_eq!(launch_velocity(Vec2::new(128000, 0)).length(), 7998);
}

#[test]
fn a_jump_straight_down_takes_no_effort() {
    assert!(jump_within_reach(Vec2::new(0, -70000)));
    assert_eq!(launch_velocity(Vec2::new(0, -70000)), Vec2::zero());
}

#[test]
fn launch_velocity_of_no_jump_is_zero() {
    assert_eq!(launch_velocity(Vec2::new(0, 0)), Vec2::zero());
}

#[test]
fn the_arc_has_eleven_corners() {
    let points = arc_points(Vec2::new(0, 0), Vec2::new(50000, 0));
    let expected: Vec<Vec2> = [
        (0, 0),
        (4998, 4499),
        (9996, 7997),
        (14995, 10497),
        (19993, 11996),
        (24992, 12496),
        (29990, 11996),
        (34989, 10497),
        (39987, 7997),
        (44986, 4499),
        (50000, 0),
    ]
    .iter()
    .map(|p| Vec2::new(p.0, p.1))
    .collect();
    assert_eq!(points, expected);
}

#[test]
fn a_jump_lands_on_its_goal() {
    // The launch velocity, followed for the whole flight time, comes down
    // within a few hundredths of a world unit of the goal.
    let cases = [(50000i64, 0i64), (30000, 20000), (-70000, 10000), (20000, -60000), (1000, 0), (0, 50000)];
    for (dx, dy) in cases {
        let delta = Vec2::new(dx, dy);
        let v = launch_velocity(delta);
        let t = jump_time(delta) as i128;
        let x = (v.x as i128) * t / 1000;
        let y = (v.y as i128) * t / 1000 - 500 * t * t / 2_000_000;
        let ticks = t / 1000 + 1;
        assert!((x - dx as i128).abs() <= ticks, "across for {:?}", (dx, dy));
        assert!((y - dy as i128).abs() <= 2 * ticks, "up for {:?}", (dx, dy));
    }
}

#[test]
fn a_free_jump_within_reach_is_possible() {
    let level = Level { polygons: vec![] };
    let from = site(0, 40000, 0, 0, vec![0]);
    let to = site(1, 60000, 0, 1, vec![0]);
    assert_eq!(jumpability_check(&from, &to, &level, 0), Some(3162));
    assert_eq!(jumpability_check(&from, &to, &level, 8000), Some(3162));
    assert_eq!(jumpability_check(&to, &from, &level, 8000), Some(3162));
}

#[test]
fn a_jump_out_of_reach_is_not_possible() {
    let level = Level { polygons: vec![] };
    let from = site(0, 0, 0, 0, vec![0]);
    let to = site(1, 130000, 0, 1, vec![0]);
    assert_eq!(jumpability_check(&from, &to, &level, 0), None);
}

#[test]
fn a_jump_to_the_same_place_takes_no_effort() {
    let level = Level { polygons: vec![] };
    let from = site(0, 5000, 5000, 0, vec![0]);
    let to = site(1, 5000, 5000, 1, vec![0]);
    assert_eq!(jumpability_check(&from, &to, &level, 8000), Some(0));
}

#[test]
fn a_wall_in_the_way_stops_a_jump() {
    let level = platforms_with(&[(50000, -10000), (50000, 30000)]);
    let from = site(0, 40000, 0, 0, vec![0]);
    let to = site(1, 60000, 0, 1, vec![0]);
    assert_eq!(jumpability_check(&from, &to, &level, 0), None);
    assert_eq!(jumpability_check(&from, &to, &level, 8000), None);
}

#[test]
fn a_low_wall_stops_only_a_wide_agent() {
    let level = platforms_with(&[(50000, -10000), (50000, -1000)]);
    let from = site(0, 40000, 0, 0, vec![0]);
    let to = site(1, 60000, 0, 1, vec![0]);
    assert_eq!(jumpability_check(&from, &to, &level, 0), Some(3162));
    assert_eq!(jumpability_check(&from, &to, &level, 8000), None);
}

#[test]
fn a_wall_out_of_the_way_stops_nothing() {
    let level = platforms_with(&[(50000, -20000), (50000, -9000)]);
    let from = site(0, 40000, 0, 0, vec![0]);
    let to = site(1, 60000, 0, 1, vec![0]);
    assert_eq!(jumpability_check(&from, &to, &level, 8000), Some(3162));
}

#[test]
fn the_edges_a_node_lies_on_are_never_in_its_way() {
    let level = Level {
        polygons: vec![
            polygon(&[(0, 0), (40000, 0)]),
            polygon(&[(200000, 0), (240000, 0)]),
            polygon(&[(50000, -10000), (50000, 30000)]),
        ],
    };
    let from = site(0, 40000, 0, 0, vec![0]);
    // The landing node is taken to lie on the wall.
    let to = site(1, 60000, 0, 2, vec![0]);
    assert_eq!(jumpability_check(&from, &to, &level, 0), Some(3162));
    let beside = site(1, 60000, 0, 2, vec![1]);
    assert_eq!(jumpability_check(&from, &beside, &level, 0), None);
    // The floor landed on does not count either, though the arc ends on it.
    let plain = platforms_with(&[(50000, -20000), (50000, -9000)]);
    let on_floor = site(1, 60000, 0, 1, vec![0]);
    assert_eq!(jumpability_check(&from, &on_floor, &plain, 0), Some(3162));
    let not_on_floor = site(1, 60000, 0, 1, vec![5]);
    assert_eq!(jumpability_check(&from, &not_on_floor, &plain, 0), None);
}

#[test]
fn platforms_are_joined_by_jumps_both_ways() {
    let level = Level {
        polygons: vec![polygon(&[(0, 0), (40000, 0)]), polygon(&[(60000, 0), (100000, 0)])],
    };
    let mut pathfinding: Pathfinding = PathfindingPlugin.build();
    place_nodes(&mut pathfinding, &level);
    assert_eq!(pathfinding.nodes.len(), 6);
    make_jumpable_connections(&mut pathfinding, &level, 8000);
    assert_eq!(
        pathfinding.nodes[2].jumpable_connections,
        vec![jump(3, 20000, 3162), jump(4, 40000, 4471), jump(5, 60000, 5476)]
    );
    assert_eq!(
        pathfinding.nodes[3].jumpable_connections,
        vec![jump(0, 60000, 5476), jump(1, 40000, 4471), jump(2, 20000, 3162)]
    );
    for placed in pathfinding.nodes.iter() {
        assert_eq!(placed.jumpable_connections.len(), 3);
        // Walkable connections are left as they were.
        assert!(placed.walkable_connections.len() <= 1);
    }
}

#[test]
fn jumps_are_found_one_way_at_a_time() {
    // Up onto a ledge 70 world units up is out of reach; down from it is not.
    let level = Level {
        polygons: vec![polygon(&[(0, 0), (20000, 0)]), polygon(&[(0, 70000), (20000, 70000)])],
    };
    let mut pathfinding: Pathfinding = PathfindingPlugin.build();
    place_nodes(&mut pathfinding, &level);
    make_jumpable_connections(&mut pathfinding, &level, 0);
    assert!(pathfinding.nodes[0].jumpable_connections.is_empty());
    assert!(pathfinding.nodes[1].jumpable_connections.is_empty());
    assert_eq!(pathfinding.nodes[2].jumpable_connections.len(), 2);
    assert_eq!(pathfinding.nodes[2].jumpable_connections[0].node_id, 0);
    assert_eq!(pathfinding.nodes[2].jumpable_connections[0].dist, 70000);
}

#[test]
fn a_wall_between_two_nodes_blocks_their_sight() {
    let level = platforms_with(&[(50000, -100000), (50000, 100000)]);
    let mut pathfinding: Pathfinding = PathfindingPlugin.build();
    pathfinding.nodes = vec![site(0, 40000, 0, 0, vec![0]), site(1, 60000, 0, 1, vec![0])];
    make_jumpable_connections(&mut pathfinding, &level, 0);
    assert!(pathfinding.nodes[0].jumpable_connections.is_empty());
    assert!(pathfinding.nodes[1].jumpable_connections.is_empty());
}

#[test]
fn nodes_of_one_polygon_are_not_joined_by_jumps() {
    let level = Level { polygons: vec![polygon(&[(0, 0), (40000, 0)])] };
    let mut pathfinding: Pathfinding = PathfindingPlugin.build();
    place_nodes(&mut pathfinding, &level);
    pathfinding.nodes[0].jumpable_connections = vec![jump(2, 1, 1)];
    make_jumpable_connections(&mut pathfinding, &level, 8000);
    for placed in pathfinding.nodes.iter() {
        assert!(placed.jumpable_connections.is_empty());
    }
}

#[test]
fn the_far_corners_of_the_coordinate_range_are_handled() {
    let limit = 1i64 << 40;
    let delta = Vec2::new(2 * limit, 2 * limit);
    assert!(!jump_within_reach(delta));
    assert_eq!(jump_time(delta), 111532748);
    assert_eq!(launch_velocity(delta), Vec2::new(19716390, 47599577));
    assert_eq!(launch_velocity(Vec2::new(2 * limit, -2 * limit)), Vec2::new(19716390, 8166797));
    let points = arc_points(Vec2::new(-limit, -limit), Vec2::new(limit, limit));
    assert_eq!(points.len(), 11);
    assert_eq!(points[1], Vec2::new(-879609327816, -599719383440));
    assert_eq!(points[5], Vec2::new(-127972, 777471989305));
    assert_eq!(points[9], Vec2::new(879609071871, 1159499194698));
    assert_eq!(points[10], Vec2::new(limit, limit));
    let level = platforms_with(&[(limit, -limit), (-limit, limit)]);
    let from = site(0, -limit, -limit, 0, vec![0]);
    let to = site(1, limit, limit, 1, vec![0]);
    assert_eq!(jumpability_check(&from, &to, &level, limit), None);
    assert_eq!(jumpability_check(&to, &from, &level, limit), None);
}
