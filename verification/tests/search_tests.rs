use platformer_nav::a_star::{find_path, get_start_node, AStarNode, PathNode};
use platformer_nav::pathfinding::{
    Pathfinding, PathfindingGraphConnection, PathfindingGraphConnectionType, PathfindingGraphNode,
};
use platformer_nav::vec2::Vec2;

fn walk(node_id: usize, dist: i64) -> PathfindingGraphConnection {
    PathfindingGraphConnection {
        node_id,
        dist,
        connection_type: PathfindingGraphConnectionType::Walkable,
        effort: 0,
    }
}

fn jump(node_id: usize, dist: i64) -> PathfindingGraphConnection {
    PathfindingGraphConnection {
        node_id,
        dist,
        connection_type: PathfindingGraphConnectionType::Jumpable,
        effort: 5000,
    }
}

fn node(id: usize, x: i64, y: i64, links: Vec<PathfindingGraphConnection>) -> PathfindingGraphNode {
    PathfindingGraphNode {
        id,
        position: Vec2::new(x, y),
        polygon_index: 0,
        line_indicies: vec![0],
        walkable_connections: links,
        jumpable_connections: vec![],
        droppable_connections: vec![],
        normal: Vec2::new(0, 1000),
        is_corner: false,
        is_external_corner: None,
    }
}

fn graph(nodes: Vec<PathfindingGraphNode>, goal: Option<usize>) -> Pathfinding {
    let goal_graph_node = goal.map(|g| nodes[g].clone());
    let goal_position = match goal {
        Some(g) => nodes[g].position,
        None => Vec2::zero(),
    };
    Pathfinding { nodes, goal_graph_node, goal_position, active: goal.is_some() }
}

// Five nodes in a row, twenty world units apart.
fn chain(goal: Option<usize>) -> Pathfinding {
    let mut nodes = vec![];
    for i in 0..5usize {
        let mut links = vec![];
        if i > 0 {
            links.push(walk(i - 1, 20000));
        }
        if i < 4 {
            links.push(walk(i + 1, 20000));
        }
        nodes.push(node(i, 20000 * i as i64, 0, links));
    }
    graph(nodes, goal)
}

fn ids(path: &Option<Vec<PathNode>>) -> Option<Vec<usize>> {
    path.as_ref().map(|p| p.iter().map(|step| step.id).collect())
}

#[test]
fn a_search_node_copies_its_graph_node() {
    let mut graph_node = node(3, 7, 9, vec![walk(1, 10), walk(2, 20)]);
    graph_node.jumpable_connections = vec![jump(4, 30)];
    graph_node.is_corner = true;
    graph_node.is_external_corner = Some(true);
    let search_node = AStarNode::new(&graph_node);
    assert_eq!(search_node.id, 3);
    assert_eq!(search_node.position, Vec2::new(7, 9));
    assert_eq!(search_node.connections, vec![walk(1, 10), walk(2, 20), jump(4, 30)]);
    assert_eq!(search_node.g_cost, 0);
    assert_eq!(search_node.h_cost, 0);
    assert_eq!(search_node.parent, None);
    assert!(search_node.is_corner);
    assert_eq!(search_node.is_external_corner, Some(true));
    assert_eq!(search_node.get_f_cost(), 0);
}

#[test]
fn the_estimate_adds_both_costs() {
    let mut search_node = AStarNode::new(&node(0, 0, 0, vec![]));
    search_node.g_cost = 40000;
    search_node.h_cost = 1234;
    assert_eq!(search_node.get_f_cost(), 41234);
}

#[test]
fn path_nodes_hold_what_they_are_given() {
    let step = PathNode::new(4, Vec2::new(1, 2));
    assert_eq!(step.id, 4);
    assert_eq!(step.position, Vec2::new(1, 2));
}

#[test]
fn the_search_starts_at_the_nearest_node() {
    let pathfinding = chain(Some(4));
    let start = get_start_node(&pathfinding, Vec2::new(41000, 3000));
    assert_eq!(start.id, 2);
    assert_eq!(start.position, Vec2::new(40000, 0));
    assert_eq!(start.connections, vec![walk(1, 20000), walk(3, 20000)]);
    assert_eq!(start.g_cost, 0);
    assert_eq!(start.h_cost, 40000);
    assert_eq!(start.parent, None);
}

#[test]
fn of_equally_near_nodes_the_one_nearer_the_goal_starts() {
    let pathfinding = chain(Some(4));
    assert_eq!(get_start_node(&pathfinding, Vec2::new(30000, 0)).id, 2);
    let backward = chain(Some(0));
    assert_eq!(get_start_node(&backward, Vec2::new(30000, 0)).id, 1);
}

#[test]
fn of_equally_good_nodes_the_last_starts() {
    let pathfinding = graph(
        vec![node(0, -10000, 0, vec![]), node(1, 10000, 0, vec![]), node(2, 0, 50000, vec![])],
        Some(2),
    );
    assert_eq!(get_start_node(&pathfinding, Vec2::new(0, 0)).id, 1);
}

#[test]
fn without_nodes_the_search_starts_at_a_node_of_its_own() {
    let pathfinding = graph(vec![], None);
    let start = get_start_node(&pathfinding, Vec2::new(300, 400));
    assert_eq!(start.id, 0);
    assert_eq!(start.position, Vec2::zero());
    assert!(start.connections.is_empty());
    assert_eq!(start.h_cost, 0);
}

#[test]
fn a_chain_is_walked_node_by_node() {
    let pathfinding = chain(Some(4));
    let path = find_path(&pathfinding, Vec2::new(1000, 0));
    assert_eq!(ids(&path), Some(vec![0, 1, 2, 3, 4]));
    let path = path.unwrap();
    for step in path.iter() {
        assert_eq!(step.position, pathfinding.nodes[step.id].position);
    }
    // The edges walked add up to the length of the chain.
    let mut walked = 0;
    for pair in path.windows(2) {
        let link = pathfinding.nodes[pair[0].id]
            .walkable_connections
            .iter()
            .find(|l| l.node_id == pair[1].id)
            .unwrap();
        walked += link.dist;
    }
    assert_eq!(walked, 80000);
    assert_eq!(walked, pathfinding.nodes[4].position.minus(pathfinding.nodes[0].position).length());
}

#[test]
fn a_chain_of_three_is_walked_to_the_goal_node() {
    let pathfinding = graph(
        vec![
            node(0, 0, 0, vec![walk(1, 20000)]),
            node(1, 20000, 0, vec![walk(0, 20000), walk(2, 20000)]),
            node(2, 40000, 0, vec![walk(1, 20000)]),
        ],
        Some(2),
    );
    let path = find_path(&pathfinding, Vec2::new(0, 0)).unwrap();
    let found: Vec<usize> = path.iter().map(|step| step.id).collect();
    assert_eq!(found, vec![0, 1, 2]);
    assert_eq!(path[2].position, Vec2::new(40000, 0));
}

#[test]
fn a_chain_is_walked_backward_too() {
    let pathfinding = chain(Some(1));
    let path = find_path(&pathfinding, Vec2::new(79000, 0));
    assert_eq!(ids(&path), Some(vec![4, 3, 2, 1]));
}

#[test]
fn standing_on_the_goal_node_the_path_is_that_node() {
    let pathfinding = chain(Some(2));
    let path = find_path(&pathfinding, Vec2::new(40000, 100));
    assert_eq!(ids(&path), Some(vec![2]));
}

#[test]
fn next_to_the_goal_node_the_path_is_two_nodes() {
    let pathfinding = chain(Some(2));
    let path = find_path(&pathfinding, Vec2::new(20000, 100));
    assert_eq!(ids(&path), Some(vec![1, 2]));
}

#[test]
fn without_a_goal_there_is_no_path() {
    let pathfinding = chain(None);
    assert!(find_path(&pathfinding, Vec2::new(0, 0)).is_none());
    let nothing = graph(vec![], None);
    assert!(find_path(&nothing, Vec2::new(0, 0)).is_none());
}

#[test]
fn a_goal_without_connections_cannot_be_reached() {
    let pathfinding = graph(
        vec![
            node(0, 0, 0, vec![walk(1, 20000)]),
            node(1, 20000, 0, vec![walk(0, 20000), walk(2, 20000)]),
            node(2, 40000, 0, vec![walk(1, 20000)]),
            node(3, 100000, 0, vec![]),
        ],
        Some(3),
    );
    assert!(find_path(&pathfinding, Vec2::new(0, 0)).is_none());
}

#[test]
fn connections_are_followed_one_way_only() {
    // Node 1 leads to node 0, but nothing leads to node 1.
    let pathfinding = graph(vec![node(0, 0, 0, vec![]), node(1, 20000, 0, vec![walk(0, 20000)])], Some(1));
    assert!(find_path(&pathfinding, Vec2::new(0, 0)).is_none());
    let back = graph(vec![node(0, 0, 0, vec![]), node(1, 20000, 0, vec![walk(0, 20000)])], Some(0));
    assert_eq!(ids(&find_path(&back, Vec2::new(20000, 0))), Some(vec![1, 0]));
}

#[test]
fn jumps_are_followed_like_walks() {
    let mut nodes = vec![node(0, 0, 0, vec![]), node(1, 50000, 20000, vec![])];
    nodes[0].jumpable_connections = vec![jump(1, 53851)];
    let pathfinding = graph(nodes, Some(1));
    assert_eq!(ids(&find_path(&pathfinding, Vec2::new(0, 0))), Some(vec![0, 1]));
}

#[test]
fn the_shorter_of_two_ways_is_found() {
    // A detour over node 1 and the direct way over node 2.
    let pathfinding = graph(
        vec![
            node(0, 0, 0, vec![walk(1, 50000), walk(2, 20000)]),
            node(1, 0, 50000, vec![walk(0, 50000), walk(3, 64031)]),
            node(2, 20000, 0, vec![walk(0, 20000), walk(3, 20000)]),
            node(3, 40000, 0, vec![walk(1, 64031), walk(2, 20000)]),
            node(4, 60000, 0, vec![walk(3, 20000)]),
        ],
        Some(4),
    );
    let mut pathfinding = pathfinding;
    pathfinding.nodes[3].walkable_connections.push(walk(4, 20000));
    let path = find_path(&pathfinding, Vec2::new(0, 0));
    assert_eq!(ids(&path), Some(vec![0, 2, 3, 4]));
}

#[test]
fn the_goal_is_taken_up_as_soon_as_it_is_reached() {
    // The goal is first reached over the long connection from node 0, and
    // taken up before the short way over node 1 is tried.
    let pathfinding = graph(
        vec![
            node(0, 0, 0, vec![walk(1, 10000), walk(2, 90000)]),
            node(1, 10000, 0, vec![walk(0, 10000), walk(2, 10000)]),
            node(2, 20000, 0, vec![walk(0, 90000), walk(1, 10000)]),
        ],
        Some(2),
    );
    assert_eq!(ids(&find_path(&pathfinding, Vec2::new(0, 0))), Some(vec![0, 2]));
}

#[test]
fn the_estimate_measures_to_the_goal_position() {
    // The goal position lies away from the goal node; the start node is
    // the nearest to the start position, of equals the nearest to the goal
    // position.
    let mut pathfinding = chain(Some(4));
    pathfinding.goal_position = Vec2::new(0, 0);
    let start = get_start_node(&pathfinding, Vec2::new(30000, 0));
    assert_eq!(start.id, 1);
    assert_eq!(start.h_cost, 20000);
    assert_eq!(ids(&find_path(&pathfinding, Vec2::new(30000, 0))), Some(vec![1, 2, 3, 4]));
}

#[test]
fn of_equally_promising_nodes_the_first_entered_is_taken_up() {
    // Two ways of the same length; the way over node 1 was entered first.
    let pathfinding = graph(
        vec![
            node(0, 0, 0, vec![walk(1, 20000), walk(2, 20000)]),
            node(1, 0, 20000, vec![walk(0, 20000), walk(3, 20000)]),
            node(2, 0, -20000, vec![walk(0, 20000), walk(3, 20000)]),
            node(3, 20000, 0, vec![walk(1, 20000), walk(2, 20000)]),
            node(4, 40000, 0, vec![walk(3, 20000)]),
        ],
        Some(4),
    );
    let mut pathfinding = pathfinding;
    pathfinding.nodes[3].walkable_connections.push(walk(4, 20000));
    assert_eq!(ids(&find_path(&pathfinding, Vec2::new(0, 0))), Some(vec![0, 1, 3, 4]));
}
