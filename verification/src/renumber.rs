//! Making ids say where a node stands in the list.
use vstd::prelude::*;
use crate::dedup::{has_id, ids_distinct, targets_resolve};
use crate::pathfinding::{
    ids_are_indices, link_mirrored, walk_targets_below, walkable_symmetric, GraphNodeView, Pathfinding,
    PathfindingGraphConnection,
};

verus! {

/// Index of the first node from `from` on that has the id; the number of
/// nodes where none has.
pub open spec fn position_of_id(nodes: Seq<GraphNodeView>, id: int, from: int) -> int
    decreases nodes.len() - from,
{
    if from < 0 || from >= nodes.len() {
        nodes.len() as int
    } else if nodes[from].id == id {
        from
    } else {
        position_of_id(nodes, id, from + 1)
    }
}

/// The connection led to where the node with the id it names stands.
pub open spec fn renumbered_link(nodes: Seq<GraphNodeView>, link: PathfindingGraphConnection) -> PathfindingGraphConnection {
    PathfindingGraphConnection { node_id: position_of_id(nodes, link.node_id as int, 0) as usize, ..link }
}

/// Node `a` with its index for an id and its walkable connections led to
/// where the nodes they name stand.
pub open spec fn renumbered_node(nodes: Seq<GraphNodeView>, a: int) -> GraphNodeView {
    GraphNodeView {
        id: a as usize,
        walkable_connections: Seq::new(
            nodes[a].walkable_connections.len(),
            |k: int| renumbered_link(nodes, nodes[a].walkable_connections[k]),
        ),
        ..nodes[a]
    }
}

/// The nodes with ids and walkable connections brought in line with where
/// the nodes stand.
pub open spec fn renumbered(nodes: Seq<GraphNodeView>) -> Seq<GraphNodeView> {
    Seq::new(nodes.len(), |a: int| renumbered_node(nodes, a))
}

/// The position of an id is that of the first node that has it.
pub proof fn lemma_position_of_id(nodes: Seq<GraphNodeView>, id: int, from: int)
    requires
        0 <= from <= nodes.len(),
    ensures
        from <= position_of_id(nodes, id, from) <= nodes.len(),
        position_of_id(nodes, id, from) < nodes.len() ==> nodes[position_of_id(nodes, id, from)].id == id,
        forall|c: int| from <= c < position_of_id(nodes, id, from) ==> (#[trigger] nodes[c]).id != id,
    decreases nodes.len() - from,
{
    if from < nodes.len() && nodes[from].id != id {
        lemma_position_of_id(nodes, id, from + 1);
    }
}

/// Where ids are distinct, the position of a node's id is the node's index.
pub proof fn lemma_position_of_own_id(nodes: Seq<GraphNodeView>, a: int)
    requires
        ids_distinct(nodes),
        0 <= a < nodes.len(),
    ensures
        position_of_id(nodes, nodes[a].id as int, 0) == a,
{
    lemma_position_of_id(nodes, nodes[a].id as int, 0);
    let p = position_of_id(nodes, nodes[a].id as int, 0);
    if p > a {
        assert(nodes[a].id != nodes[a].id);
    } else if p < a {
        assert(nodes[p].id != nodes[a].id);
    }
}

/// Renumbering gives every node its index for an id and, where every walkable
/// connection named a node, leads every one of them to a node.
pub proof fn lemma_renumbered_in_line(nodes: Seq<GraphNodeView>)
    requires
        targets_resolve(nodes),
        nodes.len() <= usize::MAX,
    ensures
        ids_are_indices(renumbered(nodes)),
        walk_targets_below(renumbered(nodes), nodes.len() as int),
{
    let after = renumbered(nodes);
    assert forall|a: int, k: int|
        0 <= a < after.len() && 0 <= k < after[a].walkable_connections.len() implies (
    #[trigger] after[a].walkable_connections[k]).node_id < nodes.len() by {
        let link = nodes[a].walkable_connections[k];
        assert(has_id(nodes, link.node_id as int));
        let c = choose|c: int| 0 <= c < nodes.len() && (#[trigger] nodes[c]).id == link.node_id;
        lemma_position_of_id(nodes, link.node_id as int, 0);
    }
}

/// Renumbering keeps walking undirected where ids were distinct.
pub proof fn lemma_renumbered_symmetric(nodes: Seq<GraphNodeView>)
    requires
        ids_distinct(nodes),
        walkable_symmetric(nodes),
        nodes.len() <= usize::MAX,
    ensures
        walkable_symmetric(renumbered(nodes)),
{
    let after = renumbered(nodes);
    assert forall|a: int, k: int, b: int|
        0 <= a < after.len() && 0 <= k < after[a].walkable_connections.len() && 0 <= b < after.len() implies #[trigger] link_mirrored(
        after,
        a,
        k,
        b,
    ) by {
        let link = nodes[a].walkable_connections[k];
        assert(after[a].walkable_connections[k] == renumbered_link(nodes, link));
        if after[b].id == after[a].walkable_connections[k].node_id {
            lemma_position_of_id(nodes, link.node_id as int, 0);
            assert(nodes[b].id == link.node_id);
            assert(link_mirrored(nodes, a, k, b));
            let w = choose|w: int|
                0 <= w < nodes[b].walkable_connections.len() && (#[trigger] nodes[b].walkable_connections[w]).node_id
                    == nodes[a].id && nodes[b].walkable_connections[w].dist == link.dist;
            lemma_position_of_own_id(nodes, a);
            assert(after[b].walkable_connections[w] == renumbered_link(nodes, nodes[b].walkable_connections[w]));
            assert(after[b].walkable_connections[w].node_id == a);
            assert(after[b].walkable_connections[w].dist == link.dist);
        }
    }
}

/// Index of the first of `ids` equal to `id`.
fn find_position(ids: &Vec<usize>, id: usize, Ghost(nodes): Ghost<Seq<GraphNodeView>>) -> (r: usize)
    requires
        ids@.len() == nodes.len(),
        forall|c: int| 0 <= c < ids@.len() ==> #[trigger] ids@[c] == nodes[c].id,
        has_id(nodes, id as int),
    ensures
        r == position_of_id(nodes, id as int, 0),
        r < nodes.len(),
{
    let mut b: usize = 0;
    proof {
        lemma_position_of_id(nodes, id as int, 0);
    }
    while b < ids.len()
        invariant
            b <= ids@.len(),
            ids@.len() == nodes.len(),
            forall|c: int| 0 <= c < ids@.len() ==> #[trigger] ids@[c] == nodes[c].id,
            position_of_id(nodes, id as int, b as int) == position_of_id(nodes, id as int, 0),
            has_id(nodes, id as int),
            forall|c: int| 0 <= c < b ==> (#[trigger] nodes[c]).id != id,
        decreases ids@.len() - b,
    {
        if ids[b] == id {
            return b;
        }
        b += 1;
    }
    proof {
        let c = choose|c: int| 0 <= c < nodes.len() && (#[trigger] nodes[c]).id == id;
        assert(false);
    }
    b
}

/// Gives every node its index for an id, and leads every walkable connection
/// to where the node it names stands.
///
/// A connection names a node by the id it had before; where several nodes
/// had that id, the first of them is meant.
pub fn make_node_ids_indices(pathfinding: &mut Pathfinding)
    requires
        targets_resolve(old(pathfinding).graph()),
    ensures
        final(pathfinding).graph() == renumbered(old(pathfinding).graph()),
        ids_are_indices(final(pathfinding).graph()),
        walk_targets_below(final(pathfinding).graph(), final(pathfinding).nodes@.len() as int),
        ids_distinct(old(pathfinding).graph()) && walkable_symmetric(old(pathfinding).graph())
            ==> walkable_symmetric(final(pathfinding).graph()),
        final(pathfinding).goal_graph_node == old(pathfinding).goal_graph_node,
        final(pathfinding).goal_position == old(pathfinding).goal_position,
        final(pathfinding).active == old(pathfinding).active,
{
    let ghost before = pathfinding.graph();
    let n = pathfinding.nodes.len();
    let mut ids: Vec<usize> = Vec::new();
    let mut a: usize = 0;
    while a < n
        invariant
            a <= n,
            n == pathfinding.nodes@.len(),
            before == pathfinding.graph(),
            ids@.len() == a,
            forall|c: int| 0 <= c < a ==> #[trigger] ids@[c] == before[c].id,
        decreases n - a,
    {
        assert(before[a as int] == pathfinding.nodes@[a as int]@);
        ids.push(pathfinding.nodes[a].id);
        a += 1;
    }
    let mut node_index: usize = 0;
    while node_index < n
        invariant
            node_index <= n,
            n == pathfinding.nodes@.len(),
            n == before.len(),
            ids@.len() == n,
            forall|c: int| 0 <= c < n ==> #[trigger] ids@[c] == before[c].id,
            targets_resolve(before),
            forall|c: int| 0 <= c < node_index ==> #[trigger] pathfinding.graph()[c] == renumbered_node(before, c),
            forall|c: int| node_index <= c < n ==> #[trigger] pathfinding.graph()[c] == before[c],
            pathfinding.goal_graph_node == old(pathfinding).goal_graph_node,
            pathfinding.goal_position == old(pathfinding).goal_position,
            pathfinding.active == old(pathfinding).active,
        decreases n - node_index,
    {
        let ghost held = pathfinding.nodes@;
        let ghost now = pathfinding.graph();
        assert(pathfinding.graph()[node_index as int] == before[node_index as int]);
        pathfinding.nodes[node_index].id = node_index;
        let links = pathfinding.nodes[node_index].walkable_connections.len();
        let mut connection_index: usize = 0;
        while connection_index < links
            invariant
                connection_index <= links,
                node_index < n,
                n == pathfinding.nodes@.len(),
                n == before.len(),
                ids@.len() == n,
                forall|c: int| 0 <= c < n ==> #[trigger] ids@[c] == before[c].id,
                targets_resolve(before),
                links == before[node_index as int].walkable_connections.len(),
                held.len() == n,
                forall|c: int| 0 <= c < n && c != node_index ==> #[trigger] pathfinding.nodes@[c] == held[c],
                pathfinding.nodes@[node_index as int]@ == (GraphNodeView {
                    id: node_index,
                    walkable_connections: pathfinding.nodes@[node_index as int]@.walkable_connections,
                    ..before[node_index as int]
                }),
                pathfinding.nodes@[node_index as int]@.walkable_connections.len() == links,
                forall|m: int|
                    0 <= m < connection_index
                        ==> #[trigger] pathfinding.nodes@[node_index as int]@.walkable_connections[m]
                        == renumbered_link(before, before[node_index as int].walkable_connections[m]),
                forall|m: int|
                    connection_index <= m < links
                        ==> #[trigger] pathfinding.nodes@[node_index as int]@.walkable_connections[m]
                        == before[node_index as int].walkable_connections[m],
                pathfinding.goal_graph_node == old(pathfinding).goal_graph_node,
                pathfinding.goal_position == old(pathfinding).goal_position,
                pathfinding.active == old(pathfinding).active,
            decreases links - connection_index,
        {
            let named = pathfinding.nodes[node_index].walkable_connections[connection_index].node_id;
            proof {
                assert(named == before[node_index as int].walkable_connections[connection_index as int].node_id);
                assert(has_id(before, named as int));
            }
            let connected_node_id = find_position(&ids, named, Ghost(before));
            pathfinding.nodes[node_index].walkable_connections[connection_index].node_id = connected_node_id;
            connection_index += 1;
        }
        proof {
            assert(pathfinding.nodes@[node_index as int]@.walkable_connections =~= renumbered_node(
                before,
                node_index as int,
            ).walkable_connections);
            assert forall|c: int| 0 <= c < n && c != node_index implies #[trigger] pathfinding.graph()[c]
                == now[c] by {
                assert(pathfinding.nodes@[c] == held[c]);
                assert(now[c] == held[c]@);
            }
            assert(pathfinding.graph()[node_index as int] == renumbered_node(before, node_index as int));
        }
        node_index += 1;
    }
    proof {
        assert(pathfinding.graph() =~= renumbered(before));
        lemma_renumbered_in_line(before);
        if ids_distinct(before) && walkable_symmetric(before) {
            lemma_renumbered_symmetric(before);
        }
    }
}

} // verus!
