//! Making walkable connections run both ways.
use vstd::prelude::*;
use crate::pathfinding::{
    has_walk_link, ids_are_indices, link_mirrored, walk_dists_in_range, walk_link, walk_targets_below,
    walkable_symmetric, GraphNodeView, Pathfinding, PathfindingGraphConnection,
    PathfindingGraphConnectionType,
};

verus! {

/// The nodes with one more walkable connection on node `target`.
pub open spec fn push_walk_link(nodes: Seq<GraphNodeView>, target: int, link: PathfindingGraphConnection) -> Seq<
    GraphNodeView,
> {
    nodes.update(
        target,
        GraphNodeView {
            walkable_connections: nodes[target].walkable_connections.push(link),
            ..nodes[target]
        },
    )
}

/// The nodes after the first `count` of `links`, the walkable connections
/// of node `i`, have each been answered by a connection back to `i`.
pub open spec fn mirror_links(
    nodes: Seq<GraphNodeView>,
    i: int,
    links: Seq<PathfindingGraphConnection>,
    count: nat,
) -> Seq<GraphNodeView>
    decreases count,
{
    if count == 0 {
        nodes
    } else {
        let before = mirror_links(nodes, i, links, (count - 1) as nat);
        push_walk_link(
            before,
            links[count - 1].node_id as int,
            walk_link(i as usize, links[count - 1].dist),
        )
    }
}

/// The nodes after the first `count` of them have had their walkable
/// connections answered, node by node. A node's turn covers the connections
/// it holds by then, those it was given on earlier turns included.
pub open spec fn mirror_nodes(nodes: Seq<GraphNodeView>, count: nat) -> Seq<GraphNodeView>
    decreases count,
{
    if count == 0 {
        nodes
    } else {
        let before = mirror_nodes(nodes, (count - 1) as nat);
        let i = count - 1;
        mirror_links(before, i, before[i].walkable_connections, before[i].walkable_connections.len())
    }
}

/// Whether `later` is `earlier` with walkable connections added: every node
/// is as it was but for its walkable connections, which begin with those it
/// had.
pub open spec fn grown_from(later: Seq<GraphNodeView>, earlier: Seq<GraphNodeView>) -> bool {
    &&& later.len() == earlier.len()
    &&& forall|a: int|
        0 <= a < later.len() ==> {
            &&& (#[trigger] later[a]) == GraphNodeView {
                walkable_connections: later[a].walkable_connections,
                ..earlier[a]
            }
            &&& earlier[a].walkable_connections.is_prefix_of(later[a].walkable_connections)
        }
}

/// Whether walkable connection `k` of node `a` has been answered, in a
/// graph whose ids are indices.
pub open spec fn answered(nodes: Seq<GraphNodeView>, a: int, k: int) -> bool {
    has_walk_link(
        nodes[nodes[a].walkable_connections[k].node_id as int].walkable_connections,
        a,
        nodes[a].walkable_connections[k].dist as int,
    )
}

/// Whether walkable connection `k` of node `a` may still be unanswered when
/// the first `m` connections of node `i` have been: it is one the node began
/// with, and its turn has not come.
pub open spec fn pending(earliest: Seq<GraphNodeView>, i: int, m: int, a: int, k: int) -> bool {
    k < earliest[a].walkable_connections.len() && (a > i || (a == i && k >= m))
}

/// Whether every walkable connection is answered or may still be pending.
pub open spec fn answered_so_far(now: Seq<GraphNodeView>, earliest: Seq<GraphNodeView>, i: int, m: int) -> bool {
    forall|a: int, k: int|
        0 <= a < now.len() && 0 <= k < now[a].walkable_connections.len() ==> #[trigger] answered(now, a, k)
            || pending(earliest, i, m, a, k)
}

/// Answering one more connection of node `i` keeps everything in order.
pub proof fn lemma_answer_one(
    now: Seq<GraphNodeView>,
    earliest: Seq<GraphNodeView>,
    i: int,
    m: int,
)
    requires
        0 <= i < now.len() <= usize::MAX,
        0 <= m < now[i].walkable_connections.len(),
        now[i].walkable_connections[m].node_id < now.len(),
        grown_from(now, earliest),
        walk_targets_below(now, now.len() as int),
        answered_so_far(now, earliest, i, m),
    ensures
        ({
            let link = now[i].walkable_connections[m];
            let next = push_walk_link(now, link.node_id as int, walk_link(i as usize, link.dist));
            &&& grown_from(next, earliest)
            &&& walk_targets_below(next, now.len() as int)
            &&& answered_so_far(next, earliest, i, m + 1)
            &&& next[i].walkable_connections.len() >= now[i].walkable_connections.len()
            &&& walk_dists_in_range(now) ==> walk_dists_in_range(next)
            &&& forall|k: int|
                0 <= k < now[i].walkable_connections.len() ==> #[trigger] next[i].walkable_connections[k]
                    == now[i].walkable_connections[k]
        }),
{
    let link = now[i].walkable_connections[m];
    let t = link.node_id as int;
    let back = walk_link(i as usize, link.dist);
    let next = push_walk_link(now, t, back);
    let n = now.len() as int;
    assert forall|a: int| 0 <= a < n implies now[a].walkable_connections.is_prefix_of(
        #[trigger] next[a].walkable_connections,
    ) by {
        if a == t {
            assert(next[a].walkable_connections == now[a].walkable_connections.push(back));
        }
    }
    assert forall|a: int| 0 <= a < next.len() implies {
        &&& (#[trigger] next[a]) == GraphNodeView {
            walkable_connections: next[a].walkable_connections,
            ..earliest[a]
        }
        &&& earliest[a].walkable_connections.is_prefix_of(next[a].walkable_connections)
    } by {
        assert(now[a] == GraphNodeView { walkable_connections: now[a].walkable_connections, ..earliest[a] });
        assert(now[a].walkable_connections.is_prefix_of(next[a].walkable_connections));
    }
    assert forall|a: int, k: int|
        0 <= a < next.len() && 0 <= k < next[a].walkable_connections.len() implies (
    #[trigger] next[a].walkable_connections[k]).node_id < n by {
        if a == t && k == now[t].walkable_connections.len() {
        } else {
            assert(next[a].walkable_connections[k] == now[a].walkable_connections[k]);
        }
    }
    assert forall|a: int, k: int|
        0 <= a < next.len() && 0 <= k < next[a].walkable_connections.len() implies #[trigger] answered(
        next,
        a,
        k,
    ) || pending(earliest, i, m + 1, a, k) by {
        if a == t && k == now[t].walkable_connections.len() {
            assert(next[t].walkable_connections[k] == back);
            assert(now[i].walkable_connections.is_prefix_of(next[i].walkable_connections));
            assert(next[i].walkable_connections[m] == link);
        } else {
            assert(now[a].walkable_connections.is_prefix_of(next[a].walkable_connections));
            assert(next[a].walkable_connections[k] == now[a].walkable_connections[k]);
            let b = now[a].walkable_connections[k].node_id as int;
            let d = now[a].walkable_connections[k].dist as int;
            assert(b < n);
            assert(now[b].walkable_connections.is_prefix_of(next[b].walkable_connections));
            if a == i && k == m {
                let last = now[t].walkable_connections.len() as int;
                assert(next[t].walkable_connections[last] == back);
            } else {
                assert(answered(now, a, k) || pending(earliest, i, m, a, k));
                if answered(now, a, k) {
                    let w = choose|w: int|
                        0 <= w < now[b].walkable_connections.len() && (#[trigger] now[b].walkable_connections[w]).node_id
                            == a && now[b].walkable_connections[w].dist == d;
                    assert(next[b].walkable_connections[w] == now[b].walkable_connections[w]);
                }
            }
        }
    }
    assert(now[i].walkable_connections.is_prefix_of(next[i].walkable_connections));
    if walk_dists_in_range(now) {
        assert forall|a: int, k: int|
            0 <= a < next.len() && 0 <= k < next[a].walkable_connections.len() implies 0 <= (
        #[trigger] next[a].walkable_connections[k]).dist <= crate::pathfinding::DIST_LIMIT by {
            if a == t && k == now[t].walkable_connections.len() {
                assert(next[t].walkable_connections[k] == back);
                assert(0 <= now[i].walkable_connections[m].dist <= crate::pathfinding::DIST_LIMIT);
            } else {
                assert(next[a].walkable_connections[k] == now[a].walkable_connections[k]);
            }
        }
    }
}

/// Once every connection is answered, walking is undirected.
pub proof fn lemma_answered_symmetric(now: Seq<GraphNodeView>, earliest: Seq<GraphNodeView>)
    requires
        ids_are_indices(now),
        walk_targets_below(now, now.len() as int),
        answered_so_far(now, earliest, now.len() as int, 0),
    ensures
        walkable_symmetric(now),
{
    assert forall|a: int, k: int, b: int|
        0 <= a < now.len() && 0 <= k < now[a].walkable_connections.len() && 0 <= b < now.len() implies #[trigger] link_mirrored(
        now,
        a,
        k,
        b,
    ) by {
        assert(answered(now, a, k) || pending(earliest, now.len() as int, 0, a, k));
    }
}

/// Answers every walkable connection by one in the other direction.
///
/// Nodes take turns in order. On a node's turn, each node that it has a
/// walkable connection to is given a walkable connection back to it over the
/// same distance. Nothing is looked up first: where two nodes were connected
/// both ways to begin with, each ends up with two connections to the other.
pub fn make_walkable_connections_2_way(pathfinding: &mut Pathfinding)
    requires
        walk_targets_below(old(pathfinding).graph(), old(pathfinding).nodes@.len() as int),
    ensures
        final(pathfinding).graph() == mirror_nodes(old(pathfinding).graph(), old(pathfinding).nodes@.len()),
        grown_from(final(pathfinding).graph(), old(pathfinding).graph()),
        walk_targets_below(final(pathfinding).graph(), old(pathfinding).nodes@.len() as int),
        ids_are_indices(old(pathfinding).graph()) ==> walkable_symmetric(final(pathfinding).graph()),
        walk_dists_in_range(old(pathfinding).graph()) ==> walk_dists_in_range(final(pathfinding).graph()),
        final(pathfinding).goal_graph_node == old(pathfinding).goal_graph_node,
        final(pathfinding).goal_position == old(pathfinding).goal_position,
        final(pathfinding).active == old(pathfinding).active,
{
    let ghost earliest = pathfinding.graph();
    let n = pathfinding.nodes.len();
    let mut node_index: usize = 0;
    proof {
        assert forall|a: int| 0 <= a < earliest.len() implies earliest[a].walkable_connections.is_prefix_of(
            #[trigger] earliest[a].walkable_connections,
        ) by {}
    }
    while node_index < n
        invariant
            node_index <= n,
            n == pathfinding.nodes@.len(),
            n == earliest.len(),
            pathfinding.graph() == mirror_nodes(earliest, node_index as nat),
            grown_from(pathfinding.graph(), earliest),
            walk_targets_below(pathfinding.graph(), n as int),
            answered_so_far(pathfinding.graph(), earliest, node_index as int, 0),
            walk_dists_in_range(earliest) ==> walk_dists_in_range(pathfinding.graph()),
            pathfinding.goal_graph_node == old(pathfinding).goal_graph_node,
            pathfinding.goal_position == old(pathfinding).goal_position,
            pathfinding.active == old(pathfinding).active,
        decreases n - node_index,
    {
        let ghost before = pathfinding.graph();
        let ghost links = before[node_index as int].walkable_connections;
        let count = pathfinding.nodes[node_index].walkable_connections.len();
        let mut k: usize = 0;
        while k < count
            invariant
                k <= count,
                node_index < n,
                n == pathfinding.nodes@.len(),
                n == earliest.len(),
                count == links.len(),
                links.is_prefix_of(pathfinding.graph()[node_index as int].walkable_connections),
                links == before[node_index as int].walkable_connections,
                pathfinding.graph() == mirror_links(before, node_index as int, links, k as nat),
                grown_from(pathfinding.graph(), earliest),
                walk_targets_below(pathfinding.graph(), n as int),
                answered_so_far(pathfinding.graph(), earliest, node_index as int, k as int),
                walk_dists_in_range(earliest) ==> walk_dists_in_range(pathfinding.graph()),
                pathfinding.goal_graph_node == old(pathfinding).goal_graph_node,
                pathfinding.goal_position == old(pathfinding).goal_position,
                pathfinding.active == old(pathfinding).active,
            decreases count - k,
        {
            let ghost now = pathfinding.graph();
            let connection = pathfinding.nodes[node_index].walkable_connections[k];
            proof {
                assert(connection == now[node_index as int].walkable_connections[k as int]);
                assert(connection == links[k as int]);
                lemma_answer_one(now, earliest, node_index as int, k as int);
            }
            pathfinding.nodes[connection.node_id].walkable_connections.push(
                PathfindingGraphConnection {
                    node_id: node_index,
                    dist: connection.dist,
                    connection_type: PathfindingGraphConnectionType::Walkable,
                    effort: 0,
                },
            );
            proof {
                let next = push_walk_link(
                    now,
                    connection.node_id as int,
                    walk_link(node_index, connection.dist),
                );
                assert(pathfinding.graph() =~= next);
                assert(links.is_prefix_of(next[node_index as int].walkable_connections));
            }
            k += 1;
        }
        proof {
            let now = pathfinding.graph();
            assert forall|a: int, m: int|
                0 <= a < now.len() && 0 <= m < now[a].walkable_connections.len() implies #[trigger] answered(
                now,
                a,
                m,
            ) || pending(earliest, node_index + 1, 0, a, m) by {
                assert(answered(now, a, m) || pending(earliest, node_index as int, count as int, a, m));
                if a == node_index {
                    assert(earliest[a].walkable_connections.is_prefix_of(before[a].walkable_connections));
                }
            }
        }
        node_index += 1;
    }
    proof {
        if ids_are_indices(earliest) {
            lemma_answered_symmetric(pathfinding.graph(), earliest);
        }
    }
}

} // verus!
