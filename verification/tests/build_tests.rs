use platformer_nav::dedup::remove_duplicate_nodes;
use platformer_nav::level::{Level, Polygon};
use platformer_nav::navmesh::init_pathfinding_graph;
use platformer_nav::pathfinding::{
    Pathfinding, PathfindingGraphConnection, PathfindingGraphConnectionType, PathfindingGraphNode,
    PathfindingPlugin,
};
use platformer_nav::placement::place_nodes;
use platformer_nav::renumber::make_node_ids_indices;
use platformer_nav::surface::{calculate_normals, setup_corners};
use platformer_nav::symmetry::make_walkable_connections_2_way;
use platformer_nav::vec2::Vec2;

fn polygon(points: &[(i64, i64)], is_container: bool) -> Polygon {
    Polygon { points: points.iter().map(|p| Vec2::new(p.0, p.1)).collect(), is_container }
}

fn walk(node_id: usize, dist: i64) -> PathfindingGraphConnection {
    PathfindingGraphConnection {
        node_id,
        dist,
        connection_type: PathfindingGraphConnectionType::Walkable,
        effort: 0,
    }
}

fn node(id: usize, x: i64, y: i64, line: usize, links: Vec<PathfindingGraphConnection>) -> PathfindingGraphNode {
    PathfindingGraphNode {
        id,
        position: Vec2::new(x, y),
        polygon_index: 0,
        line_indicies: vec![line],
        walkable_connections: links,
        jumpable_connections: vec![],
        droppable_connections: vec![],
        normal: Vec2::zero(),
        is_corner: false,
        is_external_corner: None,
    }
}

fn empty() -> Pathfinding {
    PathfindingPlugin.build()
}

fn positions(pathfinding: &Pathfinding) -> Vec<(i64, i64)> {
    pathfinding.nodes.iter().map(|n| (n.position.x, n.position.y)).collect()
}

fn find_at(pathfinding: &Pathfinding, x: i64, y: i64) -> &PathfindingGraphNode {
    pathfinding.nodes.iter().find(|n| n.position == Vec2::new(x, y)).unwrap()
}

fn is_symmetric(pathfinding: &Pathfinding) -> bool {
    pathfinding.nodes.iter().all(|a| {
        a.walkable_connections.iter().all(|link| {
            pathfinding.nodes[link.node_id]
                .walkable_connections
                .iter()
                .any(|back| back.node_id == a.id && back.dist == link.dist)
        })
    })
}

// A box walked on the inside: counter-clockwise, normals pointing inward.
fn room() -> Level {
    Level {
        polygons: vec![polygon(
            &[(0, 0), (100000, 0), (100000, 100000), (0, 100000), (0, 0)],
            false,
        )],
    }
}

// A box walked on the outside: clockwise, normals pointing outward.
fn block() -> Level {
    Level {
        polygons: vec![polygon(
            &[(0, 0), (0, 100000), (100000, 100000), (100000, 0), (0, 0)],
            false,
        )],
    }
}

#[test]
fn plugin_builds_an_empty_navmesh() {
    let pathfinding = PathfindingPlugin.build();
    assert!(pathfinding.nodes.is_empty());
    assert!(pathfinding.goal_graph_node.is_none());
    assert_eq!(pathfinding.goal_position, Vec2::zero());
    assert!(!pathfinding.active);
}

#[test]
fn nodes_are_spaced_evenly_along_an_edge() {
    let level = Level { polygons: vec![polygon(&[(0, 0), (50000, 0)], false)] };
    let mut pathfinding = empty();
    place_nodes(&mut pathfinding, &level);
    assert_eq!(positions(&pathfinding), vec![(0, 0), (16666, 0), (33332, 0), (50000, 0)]);
    for (index, placed) in pathfinding.nodes.iter().enumerate() {
        assert_eq!(placed.id, index);
        assert_eq!(placed.polygon_index, 0);
        assert_eq!(placed.line_indicies, vec![0]);
        assert_eq!(placed.normal, Vec2::zero());
        assert!(!placed.is_corner);
        assert!(placed.is_external_corner.is_none());
        assert!(placed.jumpable_connections.is_empty());
        assert!(placed.droppable_connections.is_empty());
        if index == 0 {
            assert!(placed.walkable_connections.is_empty());
        } else {
            assert_eq!(placed.walkable_connections, vec![walk(index - 1, 16666)]);
        }
    }
}

#[test]
fn nodes_follow_a_sloped_edge() {
    let level = Level { polygons: vec![polygon(&[(0, 0), (30000, 40000)], false)] };
    let mut pathfinding = empty();
    place_nodes(&mut pathfinding, &level);
    assert_eq!(
        positions(&pathfinding),
        vec![(0, 0), (9999, 13332), (19999, 26665), (30000, 40000)]
    );
}

#[test]
fn an_edge_of_exactly_one_spacing_gets_two_nodes() {
    let level = Level { polygons: vec![polygon(&[(0, 0), (20000, 0)], false)] };
    let mut pathfinding = empty();
    place_nodes(&mut pathfinding, &level);
    assert_eq!(positions(&pathfinding), vec![(0, 0), (20000, 0)]);
    assert_eq!(pathfinding.nodes[1].walkable_connections, vec![walk(0, 20000)]);
}

#[test]
fn edges_leaning_backward_get_no_nodes() {
    let leftward = Level { polygons: vec![polygon(&[(0, 0), (-50000, 0)], false)] };
    let mut pathfinding = empty();
    place_nodes(&mut pathfinding, &leftward);
    assert!(pathfinding.nodes.is_empty());

    // A direction of -0.12 along the horizontal is too far back.
    let leaning = Level { polygons: vec![polygon(&[(0, 0), (-6000, 50000)], false)] };
    place_nodes(&mut pathfinding, &leaning);
    assert!(pathfinding.nodes.is_empty());

    // A direction of -0.02 is not.
    let upright = Level { polygons: vec![polygon(&[(0, 0), (-1000, 50000)], false)] };
    place_nodes(&mut pathfinding, &upright);
    assert_eq!(
        positions(&pathfinding),
        vec![(0, 0), (-333, 16666), (-666, 33332), (-1000, 50000)]
    );
}

#[test]
fn an_edge_without_length_gets_no_nodes() {
    let level = Level { polygons: vec![polygon(&[(5000, 5000), (5000, 5000)], false)] };
    let mut pathfinding = empty();
    place_nodes(&mut pathfinding, &level);
    assert!(pathfinding.nodes.is_empty());
}

#[test]
fn every_other_container_is_passed_over() {
    let level = Level {
        polygons: vec![
            polygon(&[(0, 0), (20000, 0)], true),
            polygon(&[(0, 50000), (20000, 50000)], false),
            polygon(&[(0, 100000), (20000, 100000)], true),
            polygon(&[(0, 150000), (20000, 150000)], true),
        ],
    };
    let mut pathfinding = empty();
    place_nodes(&mut pathfinding, &level);
    assert_eq!(
        positions(&pathfinding),
        vec![(0, 0), (20000, 0), (0, 50000), (20000, 50000), (0, 150000), (20000, 150000)]
    );
    assert_eq!(pathfinding.nodes[4].polygon_index, 3);
    assert_eq!(pathfinding.nodes[5].walkable_connections, vec![walk(4, 20000)]);
}

#[test]
fn of_a_pair_of_containers_the_outer_gets_the_nodes() {
    let level = Level {
        polygons: vec![
            polygon(&[(0, 0), (40000, 0)], true),
            polygon(&[(5000, 5000), (35000, 5000)], true),
        ],
    };
    let mut pathfinding = empty();
    place_nodes(&mut pathfinding, &level);
    assert_eq!(positions(&pathfinding), vec![(0, 0), (20000, 0), (40000, 0)]);
    for placed in pathfinding.nodes.iter() {
        assert_eq!(placed.polygon_index, 0);
    }
}

#[test]
fn placing_appends_to_the_nodes_already_there() {
    let level = Level { polygons: vec![polygon(&[(0, 0), (20000, 0)], false)] };
    let mut pathfinding = empty();
    place_nodes(&mut pathfinding, &level);
    place_nodes(&mut pathfinding, &level);
    assert_eq!(pathfinding.nodes.len(), 4);
    assert_eq!(pathfinding.nodes[3].id, 3);
    assert_eq!(pathfinding.nodes[3].walkable_connections, vec![walk(2, 20000)]);
}

#[test]
fn connections_are_answered() {
    let level = Level { polygons: vec![polygon(&[(0, 0), (50000, 0)], false)] };
    let mut pathfinding = empty();
    place_nodes(&mut pathfinding, &level);
    make_walkable_connections_2_way(&mut pathfinding);
    assert_eq!(pathfinding.nodes[0].walkable_connections, vec![walk(1, 16666)]);
    assert_eq!(pathfinding.nodes[1].walkable_connections, vec![walk(0, 16666), walk(2, 16666)]);
    assert_eq!(pathfinding.nodes[2].walkable_connections, vec![walk(1, 16666), walk(3, 16666)]);
    assert_eq!(pathfinding.nodes[3].walkable_connections, vec![walk(2, 16666)]);
    assert!(is_symmetric(&pathfinding));
}

#[test]
fn connections_both_ways_are_answered_twice() {
    let mut pathfinding = empty();
    pathfinding.nodes = vec![node(0, 0, 0, 0, vec![walk(1, 7)]), node(1, 5000, 0, 0, vec![walk(0, 7)])];
    make_walkable_connections_2_way(&mut pathfinding);
    // Node 0 answers node 1 first; node 1 then answers both of its connections.
    assert_eq!(pathfinding.nodes[1].walkable_connections, vec![walk(0, 7), walk(0, 7)]);
    assert_eq!(pathfinding.nodes[0].walkable_connections, vec![walk(1, 7), walk(1, 7), walk(1, 7)]);
    assert!(is_symmetric(&pathfinding));
}

#[test]
fn nodes_on_top_of_each_other_merge() {
    let mut pathfinding = empty();
    pathfinding.nodes = vec![
        node(0, 0, 0, 0, vec![walk(1, 20000)]),
        node(1, 20000, 0, 0, vec![walk(0, 20000)]),
        node(2, 20000, 500, 1, vec![walk(3, 20000)]),
        node(3, 20000, 20000, 1, vec![walk(2, 20000)]),
    ];
    remove_duplicate_nodes(&mut pathfinding);
    assert_eq!(positions(&pathfinding), vec![(0, 0), (20000, 0), (20000, 20000)]);
    assert_eq!(pathfinding.nodes[1].id, 1);
    assert_eq!(pathfinding.nodes[2].id, 3);
    assert_eq!(pathfinding.nodes[1].line_indicies, vec![0, 1]);
    assert_eq!(pathfinding.nodes[1].walkable_connections, vec![walk(0, 20000), walk(3, 20000)]);
    assert_eq!(pathfinding.nodes[2].walkable_connections, vec![walk(1, 20000)]);
}

#[test]
fn nodes_a_world_unit_apart_do_not_merge() {
    let mut pathfinding = empty();
    pathfinding.nodes = vec![node(0, 0, 0, 0, vec![]), node(1, 1000, 0, 0, vec![]), node(2, 1600, 800, 0, vec![])];
    remove_duplicate_nodes(&mut pathfinding);
    // 0 and 1 are exactly one unit apart; 1 and 2 are exactly one unit apart.
    assert_eq!(pathfinding.nodes.len(), 3);
    pathfinding.nodes[2].position = Vec2::new(1600, 799);
    remove_duplicate_nodes(&mut pathfinding);
    assert_eq!(positions(&pathfinding), vec![(0, 0), (1000, 0)]);
}

#[test]
fn several_nodes_merge_into_the_first() {
    let mut pathfinding = empty();
    pathfinding.nodes = vec![
        node(0, 0, 0, 0, vec![walk(2, 1)]),
        node(1, 100, 0, 1, vec![walk(0, 2)]),
        node(2, 0, 100, 2, vec![walk(1, 3)]),
    ];
    remove_duplicate_nodes(&mut pathfinding);
    assert_eq!(pathfinding.nodes.len(), 1);
    assert_eq!(pathfinding.nodes[0].line_indicies, vec![0, 1, 2]);
    assert_eq!(pathfinding.nodes[0].walkable_connections, vec![walk(0, 1), walk(0, 2), walk(0, 3)]);
}

#[test]
fn merging_twice_changes_nothing() {
    let mut pathfinding = empty();
    place_nodes(&mut pathfinding, &room());
    make_walkable_connections_2_way(&mut pathfinding);
    remove_duplicate_nodes(&mut pathfinding);
    let once: Vec<(usize, (i64, i64), Vec<usize>, Vec<PathfindingGraphConnection>)> = pathfinding
        .nodes
        .iter()
        .map(|n| (n.id, (n.position.x, n.position.y), n.line_indicies.clone(), n.walkable_connections.clone()))
        .collect();
    assert_eq!(once.len(), 16);
    remove_duplicate_nodes(&mut pathfinding);
    let twice: Vec<(usize, (i64, i64), Vec<usize>, Vec<PathfindingGraphConnection>)> = pathfinding
        .nodes
        .iter()
        .map(|n| (n.id, (n.position.x, n.position.y), n.line_indicies.clone(), n.walkable_connections.clone()))
        .collect();
    assert_eq!(once, twice);
    for a in 0..pathfinding.nodes.len() {
        for b in (a + 1)..pathfinding.nodes.len() {
            let d = pathfinding.nodes[a].position.minus(pathfinding.nodes[b].position);
            assert!(d.length_squared() >= 1_000_000);
        }
    }
}

#[test]
fn ids_are_brought_in_line() {
    let mut pathfinding = empty();
    pathfinding.nodes = vec![
        node(4, 0, 0, 0, vec![walk(9, 5)]),
        node(9, 20000, 0, 0, vec![walk(4, 5), walk(7, 6)]),
        node(7, 40000, 0, 0, vec![walk(9, 6)]),
    ];
    make_node_ids_indices(&mut pathfinding);
    assert_eq!(pathfinding.nodes[0].id, 0);
    assert_eq!(pathfinding.nodes[1].id, 1);
    assert_eq!(pathfinding.nodes[2].id, 2);
    assert_eq!(pathfinding.nodes[0].walkable_connections, vec![walk(1, 5)]);
    assert_eq!(pathfinding.nodes[1].walkable_connections, vec![walk(0, 5), walk(2, 6)]);
    assert_eq!(pathfinding.nodes[2].walkable_connections, vec![walk(1, 6)]);
}

#[test]
fn a_shared_id_names_the_first_node_that_has_it() {
    let mut pathfinding = empty();
    pathfinding.nodes = vec![
        node(3, 0, 0, 0, vec![walk(5, 1)]),
        node(5, 20000, 0, 0, vec![]),
        node(5, 40000, 0, 0, vec![walk(3, 2)]),
    ];
    make_node_ids_indices(&mut pathfinding);
    assert_eq!(pathfinding.nodes[0].walkable_connections, vec![walk(1, 1)]);
    assert_eq!(pathfinding.nodes[2].walkable_connections, vec![walk(0, 2)]);
}

#[test]
fn normals_point_away_from_the_surface() {
    let level = room();
    let mut pathfinding = empty();
    pathfinding.nodes = vec![
        node(0, 50000, 0, 0, vec![]),
        node(1, 100000, 50000, 1, vec![]),
        node(2, 0, 50000, 3, vec![]),
    ];
    pathfinding.nodes.push(PathfindingGraphNode {
        line_indicies: vec![0, 1],
        ..node(3, 100000, 0, 0, vec![])
    });
    calculate_normals(&mut pathfinding, &level);
    assert_eq!(pathfinding.nodes[0].normal, Vec2::new(0, 1000));
    assert_eq!(pathfinding.nodes[1].normal, Vec2::new(-1000, 0));
    assert_eq!(pathfinding.nodes[2].normal, Vec2::new(1000, 0));
    assert_eq!(pathfinding.nodes[3].normal, Vec2::new(-707, 707));
}

#[test]
fn normals_of_nearly_opposite_edges_are_a_unit_long() {
    // The two edge normals all but cancel: their sum is (1, 2).
    let level = Level {
        polygons: vec![polygon(&[(0, 0), (1000, 1000), (-6060, -6083)], false)],
    };
    let mut pathfinding = empty();
    pathfinding.nodes = vec![PathfindingGraphNode { line_indicies: vec![0, 1], ..node(0, 1000, 1000, 0, vec![]) }];
    calculate_normals(&mut pathfinding, &level);
    assert_eq!(pathfinding.nodes[0].normal, Vec2::new(447, 894));
    let square = pathfinding.nodes[0].normal.length_squared();
    assert!(997 * 997 <= square && square <= 1000 * 1000);
}

#[test]
fn normals_of_missing_edges_are_zero() {
    let level = room();
    let mut pathfinding = empty();
    pathfinding.nodes = vec![node(0, 0, 0, 4, vec![]), node(1, 0, 0, 0, vec![])];
    pathfinding.nodes[1].polygon_index = 3;
    pathfinding.nodes.push(PathfindingGraphNode { line_indicies: vec![0, 17], ..node(2, 0, 0, 0, vec![]) });
    pathfinding.nodes.push(PathfindingGraphNode { line_indicies: vec![], ..node(3, 0, 0, 0, vec![]) });
    calculate_normals(&mut pathfinding, &level);
    assert_eq!(pathfinding.nodes[0].normal, Vec2::zero());
    assert_eq!(pathfinding.nodes[1].normal, Vec2::zero());
    assert_eq!(pathfinding.nodes[2].normal, Vec2::new(0, 1000));
    assert_eq!(pathfinding.nodes[3].normal, Vec2::zero());
}

#[test]
fn opposite_normals_cancel() {
    let level = Level {
        polygons: vec![polygon(&[(0, 0), (20000, 0), (0, 0)], false)],
    };
    let mut pathfinding = empty();
    pathfinding.nodes = vec![PathfindingGraphNode { line_indicies: vec![0, 1], ..node(0, 0, 0, 0, vec![]) }];
    calculate_normals(&mut pathfinding, &level);
    assert_eq!(pathfinding.nodes[0].normal, Vec2::zero());
}

#[test]
fn corners_lie_on_more_than_one_edge() {
    let mut pathfinding = empty();
    pathfinding.nodes = vec![
        node(0, 0, 0, 0, vec![walk(1, 20000)]),
        PathfindingGraphNode {
            line_indicies: vec![0, 1],
            normal: Vec2::new(-707, 707),
            ..node(1, 20000, 0, 0, vec![walk(0, 20000), walk(2, 20000)])
        },
        node(2, 20000, 20000, 1, vec![walk(1, 20000)]),
    ];
    pathfinding.nodes[0].is_corner = true;
    pathfinding.nodes[0].is_external_corner = Some(true);
    setup_corners(&mut pathfinding);
    // Node 0 is no corner; what it held for the second mark stays.
    assert!(!pathfinding.nodes[0].is_corner);
    assert_eq!(pathfinding.nodes[0].is_external_corner, Some(true));
    assert!(pathfinding.nodes[1].is_corner);
    assert_eq!(pathfinding.nodes[1].is_external_corner, Some(false));
    assert!(!pathfinding.nodes[2].is_corner);
    assert_eq!(pathfinding.nodes[2].is_external_corner, None);
}

#[test]
fn a_corner_whose_neighbours_balance_is_internal() {
    let mut pathfinding = empty();
    pathfinding.nodes = vec![
        node(0, 0, 0, 0, vec![]),
        PathfindingGraphNode {
            line_indicies: vec![0, 1],
            normal: Vec2::new(0, 1000),
            ..node(1, 20000, 0, 0, vec![walk(0, 20000), walk(2, 20000)])
        },
        node(2, 40000, 0, 1, vec![]),
    ];
    setup_corners(&mut pathfinding);
    assert_eq!(pathfinding.nodes[1].is_external_corner, Some(false));
}

#[test]
fn inner_corners_of_a_room_are_internal() {
    let mut pathfinding = empty();
    init_pathfinding_graph(&room(), &mut pathfinding);
    assert_eq!(pathfinding.nodes.len(), 16);
    let corner = find_at(&pathfinding, 100000, 0);
    assert!(corner.is_corner);
    assert_eq!(corner.line_indicies, vec![0, 1]);
    assert_eq!(corner.normal, Vec2::new(-707, 707));
    assert_eq!(corner.is_external_corner, Some(false));
    let origin = find_at(&pathfinding, 0, 0);
    assert!(origin.is_corner);
    assert_eq!(origin.line_indicies, vec![0, 3]);
    assert_eq!(origin.normal, Vec2::new(707, 707));
    assert_eq!(origin.is_external_corner, Some(false));
    let floor = find_at(&pathfinding, 40000, 0);
    assert!(!floor.is_corner);
    assert_eq!(floor.is_external_corner, None);
    assert_eq!(floor.normal, Vec2::new(0, 1000));
}

#[test]
fn outer_corners_of_a_block_are_external() {
    let mut pathfinding = empty();
    init_pathfinding_graph(&block(), &mut pathfinding);
    assert_eq!(pathfinding.nodes.len(), 16);
    let corner = find_at(&pathfinding, 0, 100000);
    assert!(corner.is_corner);
    assert_eq!(corner.normal, Vec2::new(-707, 707));
    assert_eq!(corner.is_external_corner, Some(true));
    let other = find_at(&pathfinding, 100000, 100000);
    assert!(other.is_corner);
    assert_eq!(other.normal, Vec2::new(707, 707));
    assert_eq!(other.is_external_corner, Some(true));
    let wall = find_at(&pathfinding, 0, 40000);
    assert!(!wall.is_corner);
    assert_eq!(wall.normal, Vec2::new(-1000, 0));
}

#[test]
fn a_built_graph_is_in_order() {
    let level = Level {
        polygons: vec![
            polygon(&[(0, 0), (100000, 0), (100000, 100000), (0, 100000), (0, 0)], false),
            polygon(&[(30000, 30000), (70000, 30000)], false),
        ],
    };
    let mut pathfinding = empty();
    init_pathfinding_graph(&level, &mut pathfinding);
    let count = pathfinding.nodes.len();
    assert_eq!(count, 19);
    for (index, built) in pathfinding.nodes.iter().enumerate() {
        assert_eq!(built.id, index);
        for link in built.walkable_connections.iter() {
            assert!(link.node_id < count);
            assert_eq!(link.connection_type, PathfindingGraphConnectionType::Walkable);
            assert_eq!(link.effort, 0);
        }
        for link in built.jumpable_connections.iter() {
            assert!(link.node_id < count);
            assert_ne!(pathfinding.nodes[link.node_id].polygon_index, built.polygon_index);
            assert_eq!(link.connection_type, PathfindingGraphConnectionType::Jumpable);
            assert!(0 <= link.effort && link.effort <= 8000);
        }
        assert!(built.droppable_connections.is_empty());
        assert_eq!(built.is_corner, built.line_indicies.len() > 1);
    }
    assert!(is_symmetric(&pathfinding));
    for a in 0..count {
        for b in (a + 1)..count {
            let d = pathfinding.nodes[a].position.minus(pathfinding.nodes[b].position);
            assert!(d.length_squared() >= 1_000_000);
        }
    }
    // The shelf can be reached by a jump from the floor below it.
    let below = find_at(&pathfinding, 40000, 0);
    assert!(!below.jumpable_connections.is_empty());
}

#[test]
fn building_leaves_the_goal_alone() {
    let mut pathfinding = empty();
    pathfinding.goal_position = Vec2::new(5, 6);
    pathfinding.active = true;
    init_pathfinding_graph(&room(), &mut pathfinding);
    assert_eq!(pathfinding.goal_position, Vec2::new(5, 6));
    assert!(pathfinding.active);
    assert!(pathfinding.goal_graph_node.is_none());
}

#[test]
fn the_walking_part_is_built_on_its_own() {
    let mut pathfinding = empty();
    platformer_nav::navmesh::init_pathfinding(&room(), &mut pathfinding);
    assert_eq!(pathfinding.nodes.len(), 16);
    assert!(is_symmetric(&pathfinding));
    for (index, built) in pathfinding.nodes.iter().enumerate() {
        assert_eq!(built.id, index);
        assert!(built.jumpable_connections.is_empty());
        assert_eq!(built.normal, Vec2::zero());
        assert!(!built.is_corner);
    }
    assert_eq!(find_at(&pathfinding, 100000, 0).line_indicies, vec![0, 1]);
    assert_eq!(positions(&pathfinding)[5], (100000, 0));
    assert_eq!(positions(&pathfinding)[6], (100000, 20000));
    assert_eq!(
        pathfinding.nodes[5].walkable_connections,
        vec![walk(4, 20000), walk(6, 20000)]
    );
    assert_eq!(
        pathfinding.nodes[6].walkable_connections,
        vec![walk(5, 20000), walk(7, 20000)]
    );
}

#[test]
fn building_twice_doubles_nothing() {
    // The nodes of a second build fall on those of the first and merge
    // into them.
    let mut pathfinding = empty();
    init_pathfinding_graph(&room(), &mut pathfinding);
    let once = positions(&pathfinding);
    init_pathfinding_graph(&room(), &mut pathfinding);
    assert_eq!(positions(&pathfinding), once);
    assert!(is_symmetric(&pathfinding));
}

#[test]
fn levels_within_the_coordinate_limit_are_well_formed() {
    assert!(room().is_wf());
    assert!(Level { polygons: vec![] }.is_wf());
    let limit = 1i64 << 40;
    assert!(Level { polygons: vec![polygon(&[(limit, -limit)], false)] }.is_wf());
    assert!(!Level { polygons: vec![polygon(&[(0, 0)], false), polygon(&[(0, limit + 1)], true)] }.is_wf());
    assert!(!polygon(&[(0, 0), (-limit - 1, 0)], false).is_wf());
}

#[test]
fn a_navmesh_in_order_is_well_formed() {
    let mut pathfinding = empty();
    assert!(pathfinding.is_wf());
    init_pathfinding_graph(&room(), &mut pathfinding);
    assert!(pathfinding.is_wf());
    pathfinding.goal_graph_node = Some(pathfinding.nodes[3].clone());
    assert!(pathfinding.is_wf());
    pathfinding.goal_graph_node.as_mut().unwrap().id = 16;
    assert!(!pathfinding.is_wf());
    pathfinding.goal_graph_node = None;
    pathfinding.goal_position = Vec2::new(0, (1i64 << 40) + 1);
    assert!(!pathfinding.is_wf());
    pathfinding.goal_position = Vec2::zero();
    pathfinding.nodes[2].id = 3;
    assert!(!pathfinding.is_wf());
    pathfinding.nodes[2].id = 2;
    pathfinding.nodes[2].walkable_connections[0].node_id = 16;
    assert!(!pathfinding.is_wf());
    pathfinding.nodes[2].walkable_connections[0].node_id = 1;
    pathfinding.nodes[2].walkable_connections[0].dist = -1;
    assert!(!pathfinding.is_wf());
    pathfinding.nodes[2].walkable_connections[0].dist = 20000;
    assert!(pathfinding.is_wf());
    pathfinding.nodes[2].normal = Vec2::new(0, 1001);
    assert!(!pathfinding.is_wf());
    pathfinding.nodes[2].normal = Vec2::new(0, 1000);
    pathfinding.nodes[7].droppable_connections.push(walk(99, 0));
    assert!(!pathfinding.is_wf());
}

#[test]
fn a_merged_node_lies_on_the_edges_of_both() {
    let mut pathfinding = empty();
    pathfinding.nodes = vec![
        PathfindingGraphNode { line_indicies: vec![4], ..node(0, 0, 0, 0, vec![]) },
        PathfindingGraphNode { line_indicies: vec![1, 2], ..node(1, 10, 10, 0, vec![]) },
        PathfindingGraphNode { line_indicies: vec![], ..node(2, -10, 10, 0, vec![]) },
    ];
    remove_duplicate_nodes(&mut pathfinding);
    assert_eq!(pathfinding.nodes.len(), 1);
    assert_eq!(pathfinding.nodes[0].line_indicies, vec![4, 1, 2]);
}
