//! What a search finds on simple graphs: along a chain, whose nodes are
//! connected in a row, and for a goal no connection leads to.
use vstd::prelude::*;
use crate::a_star::{
    is_route, is_start_node, is_walk, lemma_find_path_outcome, lemma_isolated_unreachable,
    lemma_route_reaches, lemma_start_node_unique, linked, reachable, PathNode,
};
use crate::expansion::spec_find_path;
use crate::pathfinding::{walkable_symmetric, GraphNodeView, Pathfinding};
use crate::vec2::Vec2;

verus! {

/// Whether connections lead from a node only to the node before it and the
/// node after it.
pub open spec fn links_to_neighbours_only(nodes: Seq<GraphNodeView>) -> bool {
    forall|a: int, b: int| 0 <= a < nodes.len() && #[trigger] linked(nodes, a, b) ==> b == a + 1 || b == a - 1
}

/// Whether node `a` and the node after it are connected both ways.
pub open spec fn step_linked(nodes: Seq<GraphNodeView>, a: int) -> bool {
    linked(nodes, a, a + 1) && linked(nodes, a + 1, a)
}

/// Whether every node is connected both ways with the node after it.
pub open spec fn neighbours_linked(nodes: Seq<GraphNodeView>) -> bool {
    forall|a: int| 0 <= a < nodes.len() - 1 ==> #[trigger] step_linked(nodes, a)
}

/// The id of step `i` on the way along a chain from node `s` toward node `g`.
pub open spec fn chain_step(s: int, g: int, i: int) -> int {
    if g > s {
        s + i
    } else {
        s - i
    }
}

/// Whether `path` runs along a chain from node `s` to node `g`, leaving out
/// none on the way.
pub open spec fn runs_along_chain(s: int, g: int, path: Seq<PathNode>) -> bool {
    &&& path.len() == if g > s {
        g - s + 1
    } else {
        s - g + 1
    }
    &&& forall|i: int| 0 <= i < path.len() ==> (#[trigger] path[i]).id == chain_step(s, g, i)
}

/// A route along a chain that sets out in one direction keeps to it.
proof fn lemma_route_keeps_direction(nodes: Seq<GraphNodeView>, s: int, g: int, path: Seq<PathNode>, i: int)
    requires
        links_to_neighbours_only(nodes),
        is_route(nodes, s, g, path),
        path.len() >= 2,
        0 <= i < path.len(),
    ensures
        path[i].id == if path[1].id > path[0].id {
            path[0].id + i
        } else {
            path[0].id - i
        },
    decreases i,
{
    assert(linked(nodes, path[0].id as int, path[1].id as int));
    if i >= 2 {
        lemma_route_keeps_direction(nodes, s, g, path, i - 1);
        lemma_route_keeps_direction(nodes, s, g, path, i - 2);
        assert(linked(nodes, path[i - 1].id as int, path[i].id as int));
        assert(path[i - 2].id != path[i].id);
    }
}

/// On a chain there is one route from a node to another: through every
/// node between them, in order.
pub proof fn lemma_chain_route(nodes: Seq<GraphNodeView>, s: int, g: int, path: Seq<PathNode>)
    requires
        links_to_neighbours_only(nodes),
        is_route(nodes, s, g, path),
        0 <= s < nodes.len(),
        0 <= g < nodes.len(),
    ensures
        runs_along_chain(s, g, path),
{
    let last = path.len() - 1;
    assert(path.last() == path[last]);
    if path.len() >= 2 {
        assert(path[0].id != path[last].id);
        lemma_route_keeps_direction(nodes, s, g, path, last);
        assert forall|i: int| 0 <= i < path.len() implies (#[trigger] path[i]).id == chain_step(s, g, i) by {
            lemma_route_keeps_direction(nodes, s, g, path, i);
        }
    }
}

/// The walk along a chain from node `s` to node `g`.
pub open spec fn chain_walk(s: int, g: int) -> Seq<int> {
    Seq::new(
        (if g > s {
            g - s + 1
        } else {
            s - g + 1
        }) as nat,
        |i: int| chain_step(s, g, i),
    )
}

/// On a chain whose neighbours are connected, every node can be reached
/// from every other.
pub proof fn lemma_chain_reachable(nodes: Seq<GraphNodeView>, s: int, g: int)
    requires
        neighbours_linked(nodes),
        0 <= s < nodes.len(),
        0 <= g < nodes.len(),
    ensures
        reachable(nodes, s, g),
{
    let walk = chain_walk(s, g);
    assert forall|i: int| 0 <= i < walk.len() - 1 implies linked(nodes, #[trigger] walk[i], walk[i + 1]) by {
        if g > s {
            assert(step_linked(nodes, s + i));
        } else {
            assert(step_linked(nodes, s - i - 1));
        }
    }
    assert(is_walk(nodes, walk));
    assert(walk[0] == s);
    assert(walk.last() == g);
}

/// A search along a chain finds the way through every node between the
/// start node and the goal node, in order.
pub proof fn lemma_chain_search(pathfinding: &Pathfinding, start_position: Vec2, s: int)
    requires
        pathfinding.wf(),
        pathfinding.nodes@.len() <= usize::MAX,
        pathfinding.goal_graph_node.is_some(),
        links_to_neighbours_only(pathfinding.graph()),
        neighbours_linked(pathfinding.graph()),
        is_start_node(pathfinding.graph(), pathfinding.goal_position, start_position, s),
    ensures
        spec_find_path(pathfinding, start_position).is_some(),
        runs_along_chain(
            s,
            pathfinding.goal_graph_node.unwrap().id as int,
            spec_find_path(pathfinding, start_position).unwrap(),
        ),
{
    let nodes = pathfinding.graph();
    let g = pathfinding.goal_graph_node.unwrap().id as int;
    let found = spec_find_path(pathfinding, start_position);
    lemma_find_path_outcome(pathfinding, start_position);
    let t = choose|t: int|
        {
            &&& #[trigger] is_start_node(nodes, pathfinding.goal_position, start_position, t)
            &&& match found {
                None => !reachable(nodes, t, g),
                Some(path) => is_route(nodes, t, g, path),
            }
        };
    lemma_start_node_unique(nodes, pathfinding.goal_position, start_position, s, t);
    lemma_chain_reachable(nodes, s, g);
    lemma_chain_route(nodes, s, g, found.unwrap());
}

/// A search for a goal node that stands alone finds nothing, unless it
/// starts there: where walking is undirected and nothing is jumped, a goal
/// node without walkable connections cannot be reached.
pub proof fn lemma_lone_goal_search(pathfinding: &Pathfinding, start_position: Vec2, s: int)
    requires
        pathfinding.wf(),
        pathfinding.nodes@.len() <= usize::MAX,
        pathfinding.goal_graph_node.is_some(),
        walkable_symmetric(pathfinding.graph()),
        forall|a: int|
            0 <= a < pathfinding.graph().len() ==> (#[trigger] pathfinding.graph()[a]).jumpable_connections.len()
                == 0,
        pathfinding.graph()[pathfinding.goal_graph_node.unwrap().id as int].walkable_connections.len() == 0,
        is_start_node(pathfinding.graph(), pathfinding.goal_position, start_position, s),
        s != pathfinding.goal_graph_node.unwrap().id,
    ensures
        spec_find_path(pathfinding, start_position).is_none(),
{
    let nodes = pathfinding.graph();
    let g = pathfinding.goal_graph_node.unwrap().id as int;
    let found = spec_find_path(pathfinding, start_position);
    lemma_find_path_outcome(pathfinding, start_position);
    let t = choose|t: int|
        {
            &&& #[trigger] is_start_node(nodes, pathfinding.goal_position, start_position, t)
            &&& match found {
                None => !reachable(nodes, t, g),
                Some(path) => is_route(nodes, t, g, path),
            }
        };
    lemma_start_node_unique(nodes, pathfinding.goal_position, start_position, s, t);
    lemma_isolated_unreachable(nodes, s, g);
    if found.is_some() {
        lemma_route_reaches(nodes, s, g, found.unwrap());
    }
}

} // verus!
