//! Merging nodes that lie on top of each other.
use vstd::prelude::*;
use crate::math::{COORD_LIMIT, UNIT};
use crate::pathfinding::{
    link_mirrored, no_drops, node_views, walk_dists_in_range, walkable_symmetric,
    GraphNodeView, Pathfinding, PathfindingGraphConnection, PathfindingGraphNode, DIST_LIMIT,
};
use crate::vec2::Vec2;

verus! {

/// Whether two points are less than one world unit apart.
pub open spec fn too_close(a: Vec2, b: Vec2) -> bool {
    a.spec_minus(b).spec_length_squared() < UNIT * UNIT
}

/// The connection led to node `to` where it led to node `from`.
pub open spec fn retarget(link: PathfindingGraphConnection, from: usize, to: usize) -> PathfindingGraphConnection {
    if link.node_id == from {
        PathfindingGraphConnection { node_id: to, ..link }
    } else {
        link
    }
}

/// The connections, each led to node `to` where it led to node `from`.
pub open spec fn retarget_links(links: Seq<PathfindingGraphConnection>, from: usize, to: usize) -> Seq<
    PathfindingGraphConnection,
> {
    Seq::new(links.len(), |k: int| retarget(links[k], from, to))
}

/// The node with its walkable connections led to node `to` where they led
/// to node `from`.
pub open spec fn retarget_node(node: GraphNodeView, from: usize, to: usize) -> GraphNodeView {
    GraphNodeView { walkable_connections: retarget_links(node.walkable_connections, from, to), ..node }
}

/// Node `a` taking over from node `b`: it gains the walkable connections of
/// `b` and the edges `b` lies on.
pub open spec fn absorb(a: GraphNodeView, b: GraphNodeView) -> GraphNodeView {
    GraphNodeView {
        walkable_connections: a.walkable_connections + b.walkable_connections,
        line_indicies: a.line_indicies + b.line_indicies,
        ..a
    }
}

/// The nodes after node `j` has been merged into node `i`: `i` takes over
/// from `j`, `j` is removed, and every walkable connection that led to `j`
/// leads to `i`.
pub open spec fn merge_nodes(nodes: Seq<GraphNodeView>, i: int, j: int) -> Seq<GraphNodeView> {
    let kept = nodes.update(i, absorb(nodes[i], nodes[j])).remove(j);
    Seq::new(kept.len(), |a: int| retarget_node(kept[a], nodes[j].id, nodes[i].id))
}

/// The nodes after merging has gone on from the pair `(i, j)`: node `i` is
/// held against each node after it in turn, from `j` on, and takes over
/// from those less than a world unit away; then the same for the nodes
/// after `i`.
pub open spec fn dedup_from(nodes: Seq<GraphNodeView>, i: int, j: int) -> Seq<GraphNodeView>
    decreases nodes.len() - i, nodes.len() - j,
{
    if i < 0 || j <= i || i >= nodes.len() {
        nodes
    } else if j >= nodes.len() {
        dedup_from(nodes, i + 1, i + 2)
    } else if too_close(nodes[i].position, nodes[j].position) {
        dedup_from(merge_nodes(nodes, i, j), i, j)
    } else {
        dedup_from(nodes, i, j + 1)
    }
}

/// The nodes with every pair less than a world unit apart merged.
pub open spec fn deduplicated(nodes: Seq<GraphNodeView>) -> Seq<GraphNodeView> {
    dedup_from(nodes, 0, 1)
}

/// Whether merging can work on the nodes: each lies within the coordinate
/// limit.
pub open spec fn mergeable(nodes: Seq<GraphNodeView>) -> bool {
    forall|a: int| 0 <= a < nodes.len() ==> (#[trigger] nodes[a]).position.within(COORD_LIMIT as int)
}

/// Whether no two nodes are less than a world unit apart.
pub open spec fn no_close_pairs(nodes: Seq<GraphNodeView>) -> bool {
    forall|a: int, b: int|
        0 <= a < b < nodes.len() ==> !too_close((#[trigger] nodes[a]).position, (#[trigger] nodes[b]).position)
}

/// Merging keeps the nodes mergeable.
pub proof fn lemma_merge_mergeable(nodes: Seq<GraphNodeView>, i: int, j: int)
    requires
        mergeable(nodes),
        0 <= i < j < nodes.len(),
    ensures
        mergeable(merge_nodes(nodes, i, j)),
        merge_nodes(nodes, i, j).len() == nodes.len() - 1,
{
    let merged = merge_nodes(nodes, i, j);
    assert forall|a: int| 0 <= a < merged.len() implies (#[trigger] merged[a]).position.within(
        COORD_LIMIT as int,
    ) by {
        if a < j {
            assert(nodes[a].position.within(COORD_LIMIT as int));
        } else {
            assert(nodes[a + 1].position.within(COORD_LIMIT as int));
        }
    }
}

/// Whether no pair is too close whose first node is before node `i`, or is
/// node `i` with the second before node `j`.
pub open spec fn cleared_to(nodes: Seq<GraphNodeView>, i: int, j: int) -> bool {
    forall|a: int, b: int|
        0 <= a < b < nodes.len() && (a < i || (a == i && b < j)) ==> !too_close(
            (#[trigger] nodes[a]).position,
            (#[trigger] nodes[b]).position,
        )
}

/// Where node `a` of the merged nodes stood before node `j` was removed.
pub open spec fn merge_source(j: int, a: int) -> int {
    if a < j {
        a
    } else {
        a + 1
    }
}

/// The node that held walkable connection `k` of merged node `a` before
/// node `j` was merged into node `i`.
pub open spec fn merge_owner(nodes: Seq<GraphNodeView>, i: int, j: int, a: int, k: int) -> int {
    if a == i && k >= nodes[i].walkable_connections.len() {
        j
    } else {
        merge_source(j, a)
    }
}

/// Where walkable connection `k` of merged node `a` stood in the list of
/// the node that held it.
pub open spec fn merge_slot(nodes: Seq<GraphNodeView>, i: int, a: int, k: int) -> int {
    if a == i && k >= nodes[i].walkable_connections.len() {
        k - nodes[i].walkable_connections.len()
    } else {
        k
    }
}

/// What merging node `j` into node `i` makes of each node and connection.
pub proof fn lemma_merge_shape(nodes: Seq<GraphNodeView>, i: int, j: int)
    requires
        0 <= i < j < nodes.len(),
    ensures
        merge_nodes(nodes, i, j).len() == nodes.len() - 1,
        forall|a: int|
            0 <= a < nodes.len() - 1 ==> {
                let node = #[trigger] merge_nodes(nodes, i, j)[a];
                let source = nodes[merge_source(j, a)];
                &&& node.id == source.id
                &&& node.position == source.position
                &&& node.polygon_index == source.polygon_index
                &&& node.jumpable_connections == source.jumpable_connections
                &&& node.droppable_connections == source.droppable_connections
                &&& node.normal == source.normal
                &&& node.is_corner == source.is_corner
                &&& node.is_external_corner == source.is_external_corner
                &&& node.line_indicies.len() >= source.line_indicies.len()
                &&& node.walkable_connections.len() == if a == i {
                    nodes[i].walkable_connections.len() + nodes[j].walkable_connections.len()
                } else {
                    source.walkable_connections.len()
                }
            },
        forall|a: int, k: int|
            0 <= a < nodes.len() - 1 && 0 <= k < merge_nodes(nodes, i, j)[a].walkable_connections.len() ==> {
                &&& 0 <= merge_slot(nodes, i, a, k) < nodes[merge_owner(nodes, i, j, a, k)].walkable_connections.len()
                &&& #[trigger] merge_nodes(nodes, i, j)[a].walkable_connections[k] == retarget(
                    nodes[merge_owner(nodes, i, j, a, k)].walkable_connections[merge_slot(nodes, i, a, k)],
                    nodes[j].id,
                    nodes[i].id,
                )
            },
{
}

/// Merging goes on until no two nodes are less than a world unit apart.
pub proof fn lemma_dedup_from_clears(nodes: Seq<GraphNodeView>, i: int, j: int)
    requires
        0 <= i < j,
        cleared_to(nodes, i, j),
    ensures
        no_close_pairs(dedup_from(nodes, i, j)),
    decreases nodes.len() - i, nodes.len() - j,
{
    if i >= nodes.len() {
    } else if j >= nodes.len() {
        lemma_dedup_from_clears(nodes, i + 1, i + 2);
    } else if too_close(nodes[i].position, nodes[j].position) {
        let merged = merge_nodes(nodes, i, j);
        lemma_merge_shape(nodes, i, j);
        assert forall|a: int, b: int|
            0 <= a < b < merged.len() && (a < i || (a == i && b < j)) implies !too_close(
            (#[trigger] merged[a]).position,
            (#[trigger] merged[b]).position,
        ) by {
            let sa = merge_source(j, a);
            let sb = merge_source(j, b);
            assert(merged[a].position == nodes[sa].position);
            assert(merged[b].position == nodes[sb].position);
            assert(!too_close(nodes[sa].position, nodes[sb].position));
        }
        lemma_dedup_from_clears(merged, i, j);
    } else {
        lemma_dedup_from_clears(nodes, i, j + 1);
    }
}

/// Where no two nodes are less than a world unit apart, merging changes
/// nothing.
pub proof fn lemma_dedup_from_fixed(nodes: Seq<GraphNodeView>, i: int, j: int)
    requires
        no_close_pairs(nodes),
    ensures
        dedup_from(nodes, i, j) == nodes,
    decreases nodes.len() - i, nodes.len() - j,
{
    if i < 0 || j <= i || i >= nodes.len() {
    } else if j >= nodes.len() {
        lemma_dedup_from_fixed(nodes, i + 1, i + 2);
    } else {
        assert(!too_close(nodes[i].position, nodes[j].position));
        lemma_dedup_from_fixed(nodes, i, j + 1);
    }
}

/// After merging, no two nodes are less than a world unit apart.
pub proof fn lemma_deduplicated_clear(nodes: Seq<GraphNodeView>)
    ensures
        no_close_pairs(deduplicated(nodes)),
{
    lemma_dedup_from_clears(nodes, 0, 1);
}

/// Merging a second time changes nothing.
pub proof fn lemma_deduplicated_twice(nodes: Seq<GraphNodeView>)
    ensures
        deduplicated(deduplicated(nodes)) == deduplicated(nodes),
{
    lemma_deduplicated_clear(nodes);
    lemma_dedup_from_fixed(deduplicated(nodes), 0, 1);
}

/// Whether no two nodes share an id.
pub open spec fn ids_distinct(nodes: Seq<GraphNodeView>) -> bool {
    forall|a: int, b: int| 0 <= a < b < nodes.len() ==> (#[trigger] nodes[a]).id != (#[trigger] nodes[b]).id
}

/// Whether some node has the id.
pub open spec fn has_id(nodes: Seq<GraphNodeView>, id: int) -> bool {
    exists|b: int| 0 <= b < nodes.len() && (#[trigger] nodes[b]).id == id
}

/// Whether every walkable connection leads to the id of a node.
pub open spec fn targets_resolve(nodes: Seq<GraphNodeView>) -> bool {
    forall|a: int, k: int|
        0 <= a < nodes.len() && 0 <= k < nodes[a].walkable_connections.len() ==> has_id(
            nodes,
            (#[trigger] nodes[a].walkable_connections[k]).node_id as int,
        )
}

/// Whether the nodes are fit for renumbering once merged: no two share an
/// id, every walkable connection leads to a node, and walking is undirected.
pub open spec fn well_linked(nodes: Seq<GraphNodeView>) -> bool {
    &&& ids_distinct(nodes)
    &&& targets_resolve(nodes)
    &&& walkable_symmetric(nodes)
}

/// Merging keeps ids distinct and connections leading to nodes.
pub proof fn lemma_merge_resolves(nodes: Seq<GraphNodeView>, i: int, j: int)
    requires
        ids_distinct(nodes),
        targets_resolve(nodes),
        0 <= i < j < nodes.len(),
    ensures
        ids_distinct(merge_nodes(nodes, i, j)),
        targets_resolve(merge_nodes(nodes, i, j)),
{
    let merged = merge_nodes(nodes, i, j);
    lemma_merge_shape(nodes, i, j);
    assert forall|a: int, b: int| 0 <= a < b < merged.len() implies (#[trigger] merged[a]).id != (
    #[trigger] merged[b]).id by {
        assert(merged[a].id == nodes[merge_source(j, a)].id);
        assert(merged[b].id == nodes[merge_source(j, b)].id);
    }
    assert forall|a: int, k: int|
        0 <= a < merged.len() && 0 <= k < merged[a].walkable_connections.len() implies has_id(
        merged,
        (#[trigger] merged[a].walkable_connections[k]).node_id as int,
    ) by {
        let o = merge_owner(nodes, i, j, a, k);
        let slot = merge_slot(nodes, i, a, k);
        let link = nodes[o].walkable_connections[slot];
        assert(merged[a].walkable_connections[k] == retarget(link, nodes[j].id, nodes[i].id));
        if link.node_id == nodes[j].id {
            assert(merged[i].id == nodes[i].id);
        } else {
            assert(has_id(nodes, link.node_id as int));
            let c = choose|c: int| 0 <= c < nodes.len() && (#[trigger] nodes[c]).id == link.node_id;
            assert(c != j);
            let at = if c < j { c } else { c - 1 };
            assert(merge_source(j, at) == c);
            assert(merged[at].id == nodes[c].id);
        }
    }
}

/// Merging keeps walking undirected.
pub proof fn lemma_merge_symmetric(nodes: Seq<GraphNodeView>, i: int, j: int)
    requires
        ids_distinct(nodes),
        walkable_symmetric(nodes),
        0 <= i < j < nodes.len(),
    ensures
        walkable_symmetric(merge_nodes(nodes, i, j)),
{
    let merged = merge_nodes(nodes, i, j);
    let first = nodes[i].id;
    let second = nodes[j].id;
    let own = nodes[i].walkable_connections.len() as int;
    lemma_merge_shape(nodes, i, j);
    assert(first != second);
    assert forall|a: int, k: int, b: int|
        0 <= a < merged.len() && 0 <= k < merged[a].walkable_connections.len() && 0 <= b < merged.len() implies #[trigger] link_mirrored(
        merged,
        a,
        k,
        b,
    ) by {
        let o = merge_owner(nodes, i, j, a, k);
        let slot = merge_slot(nodes, i, a, k);
        let link = nodes[o].walkable_connections[slot];
        let sa = merge_source(j, a);
        let sb = merge_source(j, b);
        assert(merged[a].walkable_connections[k] == retarget(link, second, first));
        assert(merged[a].id == nodes[sa].id);
        assert(merged[b].id == nodes[sb].id);
        assert(merged[i].id == first);
        if merged[b].id == merged[a].walkable_connections[k].node_id {
            // The id the answering connection must lead to.
            let back = merged[a].id;
            assert(retarget(PathfindingGraphConnection { node_id: nodes[o].id, ..link }, second, first).node_id
                == back) by {
                if o == j {
                    assert(a == i);
                } else {
                    assert(o == sa);
                    assert(nodes[sa].id != nodes[j].id);
                }
            }
            if link.node_id == second {
                assert(nodes[sb].id == nodes[i].id);
                assert(sb == i);
                assert(b == i);
                assert(link_mirrored(nodes, o, slot, j));
                let w = choose|w: int|
                    0 <= w < nodes[j].walkable_connections.len() && (#[trigger] nodes[j].walkable_connections[w]).node_id
                        == nodes[o].id && nodes[j].walkable_connections[w].dist == link.dist;
                assert(merge_owner(nodes, i, j, i, own + w) == j);
                assert(merge_slot(nodes, i, i, own + w) == w);
                assert(merged[i].walkable_connections[own + w] == retarget(
                    nodes[j].walkable_connections[w],
                    second,
                    first,
                ));
                assert(merged[b].walkable_connections[own + w].node_id == back);
                assert(merged[b].walkable_connections[own + w].dist == link.dist);
            } else {
                assert(link_mirrored(nodes, o, slot, sb));
                let w = choose|w: int|
                    0 <= w < nodes[sb].walkable_connections.len() && (#[trigger] nodes[sb].walkable_connections[w]).node_id
                        == nodes[o].id && nodes[sb].walkable_connections[w].dist == link.dist;
                assert(merge_owner(nodes, i, j, b, w) == sb);
                assert(merge_slot(nodes, i, b, w) == w);
                assert(merged[b].walkable_connections[w] == retarget(
                    nodes[sb].walkable_connections[w],
                    second,
                    first,
                ));
                assert(merged[b].walkable_connections[w].node_id == back);
                assert(merged[b].walkable_connections[w].dist == link.dist);
            }
        }
    }
}

/// Nodes fit for renumbering stay so while merging goes on.
pub proof fn lemma_dedup_from_linked(nodes: Seq<GraphNodeView>, i: int, j: int)
    requires
        well_linked(nodes),
    ensures
        well_linked(dedup_from(nodes, i, j)),
    decreases nodes.len() - i, nodes.len() - j,
{
    if i < 0 || j <= i || i >= nodes.len() {
    } else if j >= nodes.len() {
        lemma_dedup_from_linked(nodes, i + 1, i + 2);
    } else if too_close(nodes[i].position, nodes[j].position) {
        lemma_merge_resolves(nodes, i, j);
        lemma_merge_symmetric(nodes, i, j);
        lemma_dedup_from_linked(merge_nodes(nodes, i, j), i, j);
    } else {
        lemma_dedup_from_linked(nodes, i, j + 1);
    }
}

/// Whether the nodes carry nothing that merging would leave astray: no
/// droppable connections, and walkable ones over distances between zero and
/// the distance limit.
pub open spec fn tidy(nodes: Seq<GraphNodeView>) -> bool {
    &&& walk_dists_in_range(nodes)
    &&& no_drops(nodes)
}

/// Merging keeps tidy nodes tidy.
pub proof fn lemma_dedup_from_tidy(nodes: Seq<GraphNodeView>, i: int, j: int)
    requires
        tidy(nodes),
    ensures
        tidy(dedup_from(nodes, i, j)),
    decreases nodes.len() - i, nodes.len() - j,
{
    if i < 0 || j <= i || i >= nodes.len() {
    } else if j >= nodes.len() {
        lemma_dedup_from_tidy(nodes, i + 1, i + 2);
    } else if too_close(nodes[i].position, nodes[j].position) {
        let merged = merge_nodes(nodes, i, j);
        lemma_merge_shape(nodes, i, j);
        assert forall|a: int, k: int|
            0 <= a < merged.len() && 0 <= k < merged[a].walkable_connections.len() implies 0 <= (
        #[trigger] merged[a].walkable_connections[k]).dist <= DIST_LIMIT by {
            let o = merge_owner(nodes, i, j, a, k);
            let slot = merge_slot(nodes, i, a, k);
            assert(0 <= nodes[o].walkable_connections[slot].dist <= DIST_LIMIT);
        }
        assert forall|a: int| 0 <= a < merged.len() implies (#[trigger] merged[a]).droppable_connections.len()
            == 0 by {
            assert(nodes[merge_source(j, a)].droppable_connections.len() == 0);
        }
        lemma_dedup_from_tidy(merged, i, j);
    } else {
        lemma_dedup_from_tidy(nodes, i, j + 1);
    }
}

/// Tests whether two points are less than one world unit apart.
fn is_too_close(a: Vec2, b: Vec2) -> (r: bool)
    requires
        a.within(COORD_LIMIT as int),
        b.within(COORD_LIMIT as int),
    ensures
        r == too_close(a, b),
{
    let unit: i128 = UNIT as i128;
    assert(unit * unit == 1000000) by (nonlinear_arith)
        requires
            unit == 1000,
    ;
    a.minus(b).length_squared() < unit * unit
}

/// Merges node `j` into node `i`.
fn merge_pair(nodes: &mut Vec<PathfindingGraphNode>, i: usize, j: usize)
    requires
        i < j < old(nodes)@.len(),
    ensures
        node_views(final(nodes)@) == merge_nodes(node_views(old(nodes)@), i as int, j as int),
{
    let ghost before = node_views(nodes@);
    let count = nodes[j].walkable_connections.len();
    let mut k: usize = 0;
    while k < count
        invariant
            k <= count,
            i < j < nodes@.len(),
            nodes@.len() == before.len(),
            count == before[j as int].walkable_connections.len(),
            forall|a: int| 0 <= a < nodes@.len() && a != i ==> (#[trigger] nodes@[a])@ == before[a],
            nodes@[i as int]@ == (GraphNodeView {
                walkable_connections: before[i as int].walkable_connections
                    + before[j as int].walkable_connections.subrange(0, k as int),
                ..before[i as int]
            }),
        decreases count - k,
    {
        let link = nodes[j].walkable_connections[k];
        assert(nodes@[j as int]@ == before[j as int]);
        nodes[i].walkable_connections.push(link);
        assert(nodes@[i as int]@.walkable_connections =~= before[i as int].walkable_connections
            + before[j as int].walkable_connections.subrange(0, k + 1));
        k += 1;
    }
    assert(before[j as int].walkable_connections.subrange(0, count as int)
        =~= before[j as int].walkable_connections);
    let first_node_id = nodes[i].id;
    let second_node_id = nodes[j].id;
    let lines = nodes[j].line_indicies.len();
    let mut l: usize = 0;
    while l < lines
        invariant
            l <= lines,
            i < j < nodes@.len(),
            nodes@.len() == before.len(),
            lines == before[j as int].line_indicies.len(),
            forall|a: int| 0 <= a < nodes@.len() && a != i ==> (#[trigger] nodes@[a])@ == before[a],
            nodes@[i as int]@ == (GraphNodeView {
                walkable_connections: before[i as int].walkable_connections
                    + before[j as int].walkable_connections,
                line_indicies: before[i as int].line_indicies + before[j as int].line_indicies.subrange(
                    0,
                    l as int,
                ),
                ..before[i as int]
            }),
        decreases lines - l,
    {
        let line_index = nodes[j].line_indicies[l];
        assert(nodes@[j as int]@ == before[j as int]);
        nodes[i].line_indicies.push(line_index);
        assert(nodes@[i as int]@.line_indicies =~= before[i as int].line_indicies
            + before[j as int].line_indicies.subrange(0, l + 1));
        l += 1;
    }
    assert(before[j as int].line_indicies.subrange(0, lines as int) =~= before[j as int].line_indicies);
    assert(nodes@[j as int]@ == before[j as int]);
    assert(nodes@[i as int]@ == absorb(before[i as int], before[j as int]));
    let ghost grown = node_views(nodes@);
    assert(grown =~= before.update(i as int, absorb(before[i as int], before[j as int])));
    nodes.remove(j);
    let ghost kept = node_views(nodes@);
    assert(kept =~= grown.remove(j as int));
    let mut a: usize = 0;
    while a < nodes.len()
        invariant
            a <= nodes@.len(),
            nodes@.len() == kept.len(),
            forall|b: int| 0 <= b < a ==> (#[trigger] nodes@[b])@ == retarget_node(
                kept[b],
                second_node_id,
                first_node_id,
            ),
            forall|b: int| a <= b < nodes@.len() ==> (#[trigger] nodes@[b])@ == kept[b],
        decreases nodes@.len() - a,
    {
        let links = nodes[a].walkable_connections.len();
        let mut k: usize = 0;
        while k < links
            invariant
                k <= links,
                a < nodes@.len(),
                nodes@.len() == kept.len(),
                links == kept[a as int].walkable_connections.len(),
                forall|b: int| 0 <= b < a ==> (#[trigger] nodes@[b])@ == retarget_node(
                    kept[b],
                    second_node_id,
                    first_node_id,
                ),
                forall|b: int| a < b < nodes@.len() ==> (#[trigger] nodes@[b])@ == kept[b],
                nodes@[a as int]@ == (GraphNodeView {
                    walkable_connections: nodes@[a as int]@.walkable_connections,
                    ..kept[a as int]
                }),
                nodes@[a as int]@.walkable_connections.len() == links,
                forall|m: int|
                    0 <= m < k ==> #[trigger] nodes@[a as int]@.walkable_connections[m] == retarget(
                        kept[a as int].walkable_connections[m],
                        second_node_id,
                        first_node_id,
                    ),
                forall|m: int|
                    k <= m < links ==> #[trigger] nodes@[a as int]@.walkable_connections[m]
                        == kept[a as int].walkable_connections[m],
            decreases links - k,
        {
            if nodes[a].walkable_connections[k].node_id == second_node_id {
                nodes[a].walkable_connections[k].node_id = first_node_id;
            }
            k += 1;
        }
        assert(nodes@[a as int]@.walkable_connections =~= retarget_links(
            kept[a as int].walkable_connections,
            second_node_id,
            first_node_id,
        ));
        a += 1;
    }
    assert(node_views(nodes@) =~= merge_nodes(before, i as int, j as int));
}

/// Merges every pair of nodes less than a world unit apart.
///
/// Each node in turn is held against every node after it. Where two are too
/// close, the earlier takes over the walkable connections of the later and
/// the edges it lies on, the later is removed, and the connections that led
/// to it lead to the earlier. Ids are left as they are: after a merge
/// they no longer say where a node stands in the list.
pub fn remove_duplicate_nodes(pathfinding: &mut Pathfinding)
    requires
        mergeable(old(pathfinding).graph()),
    ensures
        final(pathfinding).graph() == deduplicated(old(pathfinding).graph()),
        no_close_pairs(final(pathfinding).graph()),
        no_close_pairs(old(pathfinding).graph()) ==> final(pathfinding).graph() == old(
            pathfinding,
        ).graph(),
        well_linked(old(pathfinding).graph()) ==> well_linked(final(pathfinding).graph()),
        tidy(old(pathfinding).graph()) ==> tidy(final(pathfinding).graph()),
        mergeable(final(pathfinding).graph()),
        final(pathfinding).goal_graph_node == old(pathfinding).goal_graph_node,
        final(pathfinding).goal_position == old(pathfinding).goal_position,
        final(pathfinding).active == old(pathfinding).active,
{
    let ghost earliest = pathfinding.graph();
    let mut i: usize = 0;
    while i < pathfinding.nodes.len()
        invariant
            mergeable(pathfinding.graph()),
            dedup_from(pathfinding.graph(), i as int, i + 1) == deduplicated(earliest),
            pathfinding.goal_graph_node == old(pathfinding).goal_graph_node,
            pathfinding.goal_position == old(pathfinding).goal_position,
            pathfinding.active == old(pathfinding).active,
        decreases pathfinding.nodes@.len() - i,
    {
        let mut j: usize = i + 1;
        let ghost length_before = pathfinding.nodes@.len();
        while j < pathfinding.nodes.len()
            invariant
                i < j,
                i < pathfinding.nodes@.len() <= length_before,
                mergeable(pathfinding.graph()),
                dedup_from(pathfinding.graph(), i as int, j as int) == deduplicated(earliest),
                pathfinding.goal_graph_node == old(pathfinding).goal_graph_node,
                pathfinding.goal_position == old(pathfinding).goal_position,
                pathfinding.active == old(pathfinding).active,
            decreases pathfinding.nodes@.len() - j,
        {
            let ghost now = pathfinding.graph();
            assert(now[i as int] == pathfinding.nodes@[i as int]@);
            assert(now[j as int] == pathfinding.nodes@[j as int]@);
            if is_too_close(pathfinding.nodes[i].position, pathfinding.nodes[j].position) {
                proof {
                    lemma_merge_mergeable(now, i as int, j as int);
                }
                merge_pair(&mut pathfinding.nodes, i, j);
            } else {
                j += 1;
            }
        }
        i += 1;
    }
    proof {
        lemma_deduplicated_clear(earliest);
        if no_close_pairs(earliest) {
            lemma_dedup_from_fixed(earliest, 0, 1);
        }
        if well_linked(earliest) {
            lemma_dedup_from_linked(earliest, 0, 1);
        }
        if tidy(earliest) {
            lemma_dedup_from_tidy(earliest, 0, 1);
        }
    }
}

} // verus!
