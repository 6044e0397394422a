//! What holds of the open and closed lists while a search runs.
use vstd::prelude::*;
use crate::a_star::{all_links, is_route, is_walk, link_target, linked, reachable, PathNode};
use crate::expansion::{
    closed_position, expanded, lemma_closed_position, lemma_lowest_of, lowest_of, opened, search_from,
    traced, SearchEntry,
};
use crate::math::COORD_LIMIT;
use crate::pathfinding::{graph_wf, links_in_range, GraphNodeView, DIST_LIMIT};
use crate::vec2::Vec2;

verus! {

/// The id of entry `q` of the list.
pub open spec fn id_at(list: Seq<SearchEntry>, q: int) -> int {
    list[q].id as int
}

/// Whether one of the first `bound` entries of `list` has the id.
pub open spec fn in_list(list: Seq<SearchEntry>, id: int, bound: int) -> bool {
    exists|q: int| 0 <= q < bound && q < list.len() && (#[trigger] id_at(list, q)) == id
}

/// Whether the entry is for a node of the graph.
pub open spec fn entry_ok(nodes: Seq<GraphNodeView>, e: SearchEntry) -> bool {
    e.id < nodes.len()
}

/// Whether the entry was reached properly: it is the start, or its
/// parent is connected to it and is one of the first `bound` closed nodes.
pub open spec fn parent_ok(nodes: Seq<GraphNodeView>, s: int, closed: Seq<SearchEntry>, e: SearchEntry, bound: int) -> bool {
    match e.parent {
        None => e.id == s,
        Some(p) => in_list(closed, p as int, bound) && linked(nodes, p as int, e.id as int),
    }
}

/// What holds of an open entry: it is for a node of the graph, was reached
/// from a closed node, and its costs are bounded.
pub open spec fn open_entry_ok(nodes: Seq<GraphNodeView>, s: int, closed: Seq<SearchEntry>, e: SearchEntry) -> bool {
    &&& entry_ok(nodes, e)
    &&& parent_ok(nodes, s, closed, e, closed.len() as int)
    &&& 0 <= e.g_cost <= closed.len() * DIST_LIMIT
    &&& 0 <= e.h_cost <= DIST_LIMIT
}

/// What holds of closed entry `k`: it is for a node of the graph, was
/// reached from a node closed before it, and is not the goal.
pub open spec fn closed_entry_ok(nodes: Seq<GraphNodeView>, s: int, g: int, closed: Seq<SearchEntry>, k: int) -> bool {
    &&& entry_ok(nodes, closed[k])
    &&& parent_ok(nodes, s, closed, closed[k], k)
    &&& closed[k].id != g
}

/// What holds of the closed list throughout a search from node `s` for
/// node `g`: every node in it was reached from one closed before it, none
/// occurs twice, and `g` is not among them.
pub open spec fn closed_ok(nodes: Seq<GraphNodeView>, s: int, g: int, closed: Seq<SearchEntry>) -> bool {
    &&& forall|k: int| 0 <= k < closed.len() ==> #[trigger] closed_entry_ok(nodes, s, g, closed, k)
    &&& forall|j: int, k: int|
        0 <= j < k < closed.len() ==> (#[trigger] id_at(closed, j)) != (#[trigger] id_at(closed, k))
}

/// What holds of the open list: every node in it is in order.
pub open spec fn open_ok(nodes: Seq<GraphNodeView>, s: int, open: Seq<SearchEntry>, closed: Seq<SearchEntry>) -> bool {
    forall|q: int| 0 <= q < open.len() ==> #[trigger] open_entry_ok(nodes, s, closed, open[q])
}

/// What holds of the open and closed lists throughout a search from node
/// `s` for node `g`.
pub open spec fn search_inv(nodes: Seq<GraphNodeView>, s: int, g: int, open: Seq<SearchEntry>, closed: Seq<SearchEntry>) -> bool {
    &&& open_ok(nodes, s, open, closed)
    &&& closed_ok(nodes, s, g, closed)
    &&& in_list(closed, s, closed.len() as int) || in_list(open, s, open.len() as int)
    &&& s == g ==> closed.len() == 0 && open.len() == 1 && open[0].parent.is_none()
    &&& closed.len() <= nodes.len()
}

/// Whether node `a` has a connection to node `b` among its first `upto`.
pub open spec fn linked_within(nodes: Seq<GraphNodeView>, a: int, b: int, upto: int) -> bool {
    exists|m: int| 0 <= m < upto && m < all_links(nodes[a]).len() && (#[trigger] link_target(nodes, a, m)) == b
}

/// Whether every node connected to a closed node is closed or open.
pub open spec fn frontier_covered(nodes: Seq<GraphNodeView>, open: Seq<SearchEntry>, closed: Seq<SearchEntry>) -> bool {
    forall|a: int, b: int|
        in_list(closed, a, closed.len() as int) && #[trigger] linked(nodes, a, b) ==> in_list(
            closed,
            b,
            closed.len() as int,
        ) || in_list(open, b, open.len() as int)
}

/// Whether every node connected to a closed node is closed or open, but for
/// the nodes that node `cur` reaches only by connections after its first
/// `upto`.
pub open spec fn frontier_covered_upto(
    nodes: Seq<GraphNodeView>,
    open: Seq<SearchEntry>,
    closed: Seq<SearchEntry>,
    cur: int,
    upto: int,
) -> bool {
    forall|a: int, b: int|
        in_list(closed, a, closed.len() as int) && #[trigger] linked(nodes, a, b) ==> {
            ||| a == cur && !linked_within(nodes, a, b, upto)
            ||| in_list(closed, b, closed.len() as int)
            ||| in_list(open, b, open.len() as int)
        }
}

/// A node in a list is still in it after another is pushed.
pub proof fn lemma_in_list_push(list: Seq<SearchEntry>, e: SearchEntry, id: int, bound: int)
    requires
        in_list(list, id, bound),
    ensures
        in_list(list.push(e), id, bound),
        in_list(list.push(e), id, (list.len() + 1) as int),
{
    let q = choose|q: int| 0 <= q < bound && q < list.len() && (#[trigger] id_at(list, q)) == id;
    assert(id_at(list.push(e), q) == id);
}

/// A pushed node is in the list.
pub proof fn lemma_in_list_last(list: Seq<SearchEntry>, e: SearchEntry)
    ensures
        in_list(list.push(e), e.id as int, (list.len() + 1) as int),
{
    assert(id_at(list.push(e), list.len() as int) == e.id);
}

/// A node in a list after a push was in it before, or is the one pushed.
pub proof fn lemma_in_list_pushed(list: Seq<SearchEntry>, e: SearchEntry, id: int, bound: int)
    requires
        in_list(list.push(e), id, bound),
    ensures
        id == e.id || in_list(list, id, bound),
{
    let more = list.push(e);
    let q = choose|q: int| 0 <= q < bound && q < more.len() && (#[trigger] id_at(more, q)) == id;
    if q < list.len() {
        assert(id_at(list, q) == id);
    }
}

/// A node in a list is still in it after another is removed, or is the one
/// removed.
pub proof fn lemma_in_list_remove(list: Seq<SearchEntry>, idx: int, id: int)
    requires
        in_list(list, id, list.len() as int),
        0 <= idx < list.len(),
    ensures
        id == id_at(list, idx) || in_list(list.remove(idx), id, list.len() - 1),
{
    let rest = list.remove(idx);
    let q = choose|q: int| 0 <= q < list.len() && (#[trigger] id_at(list, q)) == id;
    if q < idx {
        assert(id_at(rest, q) == id);
    } else if q > idx {
        assert(id_at(rest, q - 1) == id);
    }
}

/// An open node stays in order when the closed list grows.
pub proof fn lemma_open_entry_grow(nodes: Seq<GraphNodeView>, s: int, closed: Seq<SearchEntry>, c: SearchEntry, e: SearchEntry)
    requires
        open_entry_ok(nodes, s, closed, e),
    ensures
        open_entry_ok(nodes, s, closed.push(c), e),
{
    match e.parent {
        None => {},
        Some(p) => {
            lemma_in_list_push(closed, c, p as int, closed.len() as int);
        },
    }
    assert(closed.len() * DIST_LIMIT <= (closed.len() + 1) * DIST_LIMIT) by (nonlinear_arith)
        requires
            DIST_LIMIT >= 0,
    ;
}

/// Dropping an open node that is already closed keeps the search in order.
pub proof fn lemma_skip_step(
    nodes: Seq<GraphNodeView>,
    s: int,
    g: int,
    open: Seq<SearchEntry>,
    idx: int,
    closed: Seq<SearchEntry>,
)
    requires
        search_inv(nodes, s, g, open, closed),
        frontier_covered(nodes, open, closed),
        0 <= idx < open.len(),
        in_list(closed, open[idx].id as int, closed.len() as int),
        open[idx].id != g,
    ensures
        search_inv(nodes, s, g, open.remove(idx), closed),
        frontier_covered(nodes, open.remove(idx), closed),
{
    let rest = open.remove(idx);
    let cur = open[idx].id as int;
    assert(open_entry_ok(nodes, s, closed, open[idx]));
    assert forall|q: int| 0 <= q < rest.len() implies #[trigger] open_entry_ok(nodes, s, closed, rest[q]) by {
        if q < idx {
            assert(rest[q] == open[q]);
            assert(open_entry_ok(nodes, s, closed, open[q]));
        } else {
            assert(rest[q] == open[q + 1]);
            assert(open_entry_ok(nodes, s, closed, open[q + 1]));
        }
    }
    if in_list(open, s, open.len() as int) {
        lemma_in_list_remove(open, idx, s);
    }
    assert forall|a: int, b: int|
        in_list(closed, a, closed.len() as int) && #[trigger] linked(nodes, a, b) implies in_list(
        closed,
        b,
        closed.len() as int,
    ) || in_list(rest, b, rest.len() as int) by {
        if in_list(open, b, open.len() as int) {
            lemma_in_list_remove(open, idx, b);
        }
    }
}

/// Moving an open node that is not yet closed to the closed list keeps the
/// lists in order.
pub proof fn lemma_close_step(
    nodes: Seq<GraphNodeView>,
    s: int,
    g: int,
    open: Seq<SearchEntry>,
    idx: int,
    closed: Seq<SearchEntry>,
)
    requires
        search_inv(nodes, s, g, open, closed),
        0 <= idx < open.len(),
        !in_list(closed, open[idx].id as int, closed.len() as int),
        open[idx].id != g,
    ensures
        search_inv(nodes, s, g, open.remove(idx), closed.push(open[idx])),
        closed.len() < nodes.len(),
        s != g,
        entry_ok(nodes, open[idx]),
        0 <= open[idx].g_cost <= closed.len() * DIST_LIMIT,
{
    let rest = open.remove(idx);
    let current = open[idx];
    let cur = current.id as int;
    let more = closed.push(current);
    assert(open_entry_ok(nodes, s, closed, current));
    assert forall|q: int| 0 <= q < rest.len() implies #[trigger] open_entry_ok(nodes, s, more, rest[q]) by {
        if q < idx {
            assert(rest[q] == open[q]);
            assert(open_entry_ok(nodes, s, closed, open[q]));
            lemma_open_entry_grow(nodes, s, closed, current, open[q]);
        } else {
            assert(rest[q] == open[q + 1]);
            assert(open_entry_ok(nodes, s, closed, open[q + 1]));
            lemma_open_entry_grow(nodes, s, closed, current, open[q + 1]);
        }
    }
    assert forall|k: int| 0 <= k < more.len() implies #[trigger] closed_entry_ok(nodes, s, g, more, k) by {
        if k < closed.len() {
            assert(more[k] == closed[k]);
            assert(closed_entry_ok(nodes, s, g, closed, k));
            match closed[k].parent {
                None => {},
                Some(p) => {
                    lemma_in_list_push(closed, current, p as int, k);
                },
            }
        } else {
            match current.parent {
                None => {},
                Some(p) => {
                    lemma_in_list_push(closed, current, p as int, k);
                },
            }
        }
    }
    assert forall|j: int, k: int| 0 <= j < k < more.len() implies (#[trigger] id_at(more, j)) != (
    #[trigger] id_at(more, k)) by {
        if k < closed.len() {
            assert(id_at(more, j) == id_at(closed, j));
            assert(id_at(more, k) == id_at(closed, k));
        } else {
            assert(id_at(more, j) == id_at(closed, j));
            assert(id_at(more, k) == cur);
        }
    }
    if in_list(closed, s, closed.len() as int) {
        lemma_in_list_push(closed, current, s, closed.len() as int);
    } else {
        lemma_in_list_remove(open, idx, s);
        lemma_in_list_last(closed, current);
    }
    let ids = Seq::new(more.len(), |k: int| more[k].id as int);
    assert forall|i: int, j: int| 0 <= i < ids.len() && 0 <= j < ids.len() && i != j implies ids[i]
        != ids[j] by {
        assert(ids[i] == id_at(more, i));
        assert(ids[j] == id_at(more, j));
    }
    assert forall|i: int| 0 <= i < ids.len() implies 0 <= #[trigger] ids[i] < nodes.len() by {
        assert(closed_entry_ok(nodes, s, g, more, i));
    }
    lemma_distinct_ids_bounded(ids, nodes.len() as int);
    if s == g {
        assert(open[0] == current);
    }
}

/// Moving an open node to the closed list leaves only the nodes it is
/// connected to uncovered.
pub proof fn lemma_close_frontier(
    nodes: Seq<GraphNodeView>,
    open: Seq<SearchEntry>,
    idx: int,
    closed: Seq<SearchEntry>,
)
    requires
        frontier_covered(nodes, open, closed),
        0 <= idx < open.len(),
    ensures
        frontier_covered_upto(nodes, open.remove(idx), closed.push(open[idx]), open[idx].id as int, 0),
{
    let rest = open.remove(idx);
    let current = open[idx];
    let cur = current.id as int;
    let more = closed.push(current);
    assert forall|a: int, b: int|
        in_list(more, a, more.len() as int) && #[trigger] linked(nodes, a, b) implies {
        ||| a == cur && !linked_within(nodes, a, b, 0)
        ||| in_list(more, b, more.len() as int)
        ||| in_list(rest, b, rest.len() as int)
    } by {
        lemma_in_list_pushed(closed, current, a, more.len() as int);
        if a != cur {
            assert(in_list(closed, a, closed.len() as int)) by {
                let q = choose|q: int|
                    0 <= q < more.len() && q < closed.len() && (#[trigger] id_at(closed, q)) == a;
                assert(id_at(closed, q) == a);
            }
            if in_list(closed, b, closed.len() as int) {
                lemma_in_list_push(closed, current, b, closed.len() as int);
            } else {
                lemma_in_list_remove(open, idx, b);
                if b == cur {
                    lemma_in_list_last(closed, current);
                }
            }
        }
    }
}

/// Opening the node behind the next connection of the node just closed keeps
/// the search in order.
pub proof fn lemma_open_step(
    nodes: Seq<GraphNodeView>,
    s: int,
    g: int,
    open: Seq<SearchEntry>,
    closed: Seq<SearchEntry>,
    m: int,
    e: SearchEntry,
)
    requires
        search_inv(nodes, s, g, open, closed),
        closed.len() > 0,
        frontier_covered_upto(nodes, open, closed, closed.last().id as int, m),
        0 <= m < all_links(nodes[closed.last().id as int]).len(),
        entry_ok(nodes, e),
        e.id == link_target(nodes, closed.last().id as int, m),
        e.parent == Some(closed.last().id),
        0 <= e.g_cost <= closed.len() * DIST_LIMIT,
        0 <= e.h_cost <= DIST_LIMIT,
        s != g,
    ensures
        search_inv(nodes, s, g, open.push(e), closed),
        frontier_covered_upto(nodes, open.push(e), closed, closed.last().id as int, m + 1),
{
    let more = open.push(e);
    let cur = closed.last().id as int;
    assert(id_at(closed, closed.len() - 1) == cur);
    assert(in_list(closed, cur, closed.len() as int));
    assert(linked(nodes, cur, e.id as int));
    assert(open_entry_ok(nodes, s, closed, e));
    assert forall|q: int| 0 <= q < more.len() implies #[trigger] open_entry_ok(nodes, s, closed, more[q]) by {
        if q < open.len() {
            assert(more[q] == open[q]);
            assert(open_entry_ok(nodes, s, closed, open[q]));
        }
    }
    if in_list(open, s, open.len() as int) {
        lemma_in_list_push(open, e, s, open.len() as int);
    }
    lemma_in_list_last(open, e);
    assert forall|a: int, b: int|
        in_list(closed, a, closed.len() as int) && #[trigger] linked(nodes, a, b) implies {
        ||| a == cur && !linked_within(nodes, a, b, m + 1)
        ||| in_list(closed, b, closed.len() as int)
        ||| in_list(more, b, more.len() as int)
    } by {
        if in_list(open, b, open.len() as int) {
            lemma_in_list_push(open, e, b, open.len() as int);
        } else if a == cur && linked_within(nodes, a, b, m + 1) && !linked_within(nodes, a, b, m) {
            let w = choose|w: int|
                0 <= w < m + 1 && w < all_links(nodes[a]).len() && (#[trigger] link_target(nodes, a, w)) == b;
            if w < m {
                assert(link_target(nodes, a, w) == b);
                assert(linked_within(nodes, a, b, m));
            }
            assert(b == e.id);
        }
    }
}

/// Once every connection of the node just closed has been followed, every
/// node connected to a closed node is closed or open.
pub proof fn lemma_frontier_done(
    nodes: Seq<GraphNodeView>,
    open: Seq<SearchEntry>,
    closed: Seq<SearchEntry>,
    cur: int,
    upto: int,
)
    requires
        frontier_covered_upto(nodes, open, closed, cur, upto),
        upto >= all_links(nodes[cur]).len(),
    ensures
        frontier_covered(nodes, open, closed),
{
    assert forall|a: int, b: int|
        in_list(closed, a, closed.len() as int) && #[trigger] linked(nodes, a, b) implies in_list(
        closed,
        b,
        closed.len() as int,
    ) || in_list(open, b, open.len() as int) by {
        if a == cur {
            let w = choose|w: int| 0 <= w < all_links(nodes[a]).len() && (#[trigger] link_target(nodes, a, w)) == b;
            assert(link_target(nodes, a, w) == b);
            assert(linked_within(nodes, a, b, upto));
        }
    }
}

/// A walk that starts among closed nodes stays among them, where every node
/// connected to a closed node is closed.
pub proof fn lemma_walk_stays_closed(nodes: Seq<GraphNodeView>, closed: Seq<SearchEntry>, walk: Seq<int>, i: int)
    requires
        is_walk(nodes, walk),
        in_list(closed, walk[0], closed.len() as int),
        forall|a: int, b: int|
            in_list(closed, a, closed.len() as int) && #[trigger] linked(nodes, a, b) ==> in_list(
                closed,
                b,
                closed.len() as int,
            ),
        0 <= i < walk.len(),
    ensures
        in_list(closed, walk[i], closed.len() as int),
    decreases i,
{
    if i > 0 {
        lemma_walk_stays_closed(nodes, closed, walk, i - 1);
        assert(linked(nodes, walk[i - 1], walk[i]));
    }
}

/// With nothing left open, the goal cannot be reached from the start.
pub proof fn lemma_search_exhausted(nodes: Seq<GraphNodeView>, s: int, g: int, closed: Seq<SearchEntry>)
    requires
        search_inv(nodes, s, g, Seq::empty(), closed),
        frontier_covered(nodes, Seq::empty(), closed),
    ensures
        !reachable(nodes, s, g),
{
    let open = Seq::<SearchEntry>::empty();
    if reachable(nodes, s, g) {
        let walk = choose|walk: Seq<int>| #[trigger] is_walk(nodes, walk) && walk[0] == s && walk.last() == g;
        assert forall|a: int, b: int|
            in_list(closed, a, closed.len() as int) && #[trigger] linked(nodes, a, b) implies in_list(
            closed,
            b,
            closed.len() as int,
        ) by {
            assert(!in_list(open, b, open.len() as int));
        }
        assert(!in_list(open, s, open.len() as int));
        lemma_walk_stays_closed(nodes, closed, walk, walk.len() - 1);
        let q = choose|q: int| 0 <= q < closed.len() && (#[trigger] id_at(closed, q)) == g;
        assert(closed_entry_ok(nodes, s, g, closed, q));
    }
}

/// Whether the way back from `tail` begins properly: `tail` is the start,
/// or its parent is connected to it and among the first `bound` closed
/// entries.
pub open spec fn trace_ok(
    nodes: Seq<GraphNodeView>,
    s: int,
    closed: Seq<SearchEntry>,
    parent: Option<usize>,
    bound: int,
    tail: int,
) -> bool {
    match parent {
        None => tail == s,
        Some(p) => in_list(closed, p as int, bound) && linked(nodes, p as int, tail),
    }
}

/// What holds of the way traced back from a node: it begins at the start,
/// ends at the node's parent, each of its nodes is connected to the next,
/// and each occurs once and among the closed entries.
pub open spec fn is_trace(
    nodes: Seq<GraphNodeView>,
    s: int,
    g: int,
    closed: Seq<SearchEntry>,
    parent: Option<usize>,
    bound: int,
    path: Seq<PathNode>,
) -> bool {
    &&& (path.len() == 0 <==> parent.is_none())
    &&& forall|i: int|
        0 <= i < path.len() ==> {
            &&& (#[trigger] path[i]).id < nodes.len()
            &&& path[i].position == nodes[path[i].id as int].position
            &&& path[i].id != g
            &&& in_list(closed, path[i].id as int, bound)
        }
    &&& forall|i: int, j: int| 0 <= i < j < path.len() ==> (#[trigger] path[i]).id != (#[trigger] path[j]).id
    &&& path.len() > 0 ==> path[0].id == s && Some(path.last().id) == parent
    &&& forall|i: int| 0 <= i < path.len() - 1 ==> linked(nodes, (#[trigger] path[i]).id as int, path[i + 1].id as int)
}

/// The way traced back through a closed list in order is a proper way from
/// the start.
pub proof fn lemma_traced(
    nodes: Seq<GraphNodeView>,
    s: int,
    g: int,
    closed: Seq<SearchEntry>,
    parent: Option<usize>,
    bound: int,
    tail: int,
)
    requires
        closed_ok(nodes, s, g, closed),
        0 <= bound <= closed.len(),
        trace_ok(nodes, s, closed, parent, bound, tail),
    ensures
        is_trace(nodes, s, g, closed, parent, bound, traced(nodes, closed, parent, bound)),
    decreases bound,
{
    match parent {
        None => {},
        Some(p) => {
            let j = closed_position(closed, p, 0);
            lemma_closed_position(closed, p, 0);
            let q = choose|q: int| 0 <= q < bound && q < closed.len() && (#[trigger] id_at(closed, q)) == p;
            assert(closed[q].id == p);
            assert(j <= q);
            assert(id_at(closed, j) == id_at(closed, q));
            assert(j == q);
            assert(closed_entry_ok(nodes, s, g, closed, j));
            let before = traced(nodes, closed, closed[j].parent, j);
            lemma_traced(nodes, s, g, closed, closed[j].parent, j, p as int);
            let step = PathNode { id: p, position: nodes[p as int].position };
            let path = before.push(step);
            assert(traced(nodes, closed, parent, bound) == path);
            assert forall|i: int| 0 <= i < path.len() implies {
                &&& (#[trigger] path[i]).id < nodes.len()
                &&& path[i].position == nodes[path[i].id as int].position
                &&& path[i].id != g
                &&& in_list(closed, path[i].id as int, bound)
            } by {
                if i < before.len() {
                    assert(path[i] == before[i]);
                    let w = choose|w: int|
                        0 <= w < j && w < closed.len() && (#[trigger] id_at(closed, w)) == before[i].id;
                    assert(id_at(closed, w) == before[i].id);
                } else {
                    assert(id_at(closed, j) == p);
                }
            }
            assert forall|a: int, b: int| 0 <= a < b < path.len() implies (#[trigger] path[a]).id != (
            #[trigger] path[b]).id by {
                if b < before.len() {
                    assert(path[a] == before[a] && path[b] == before[b]);
                } else {
                    assert(path[a] == before[a]);
                    let w = choose|w: int|
                        0 <= w < j && w < closed.len() && (#[trigger] id_at(closed, w)) == before[a].id;
                    assert(id_at(closed, w) != id_at(closed, j));
                }
            }
            assert forall|i: int| 0 <= i < path.len() - 1 implies linked(
                nodes,
                (#[trigger] path[i]).id as int,
                path[i + 1].id as int,
            ) by {
                if i < before.len() - 1 {
                    assert(path[i] == before[i] && path[i + 1] == before[i + 1]);
                } else {
                    assert(path[i] == before.last());
                }
            }
            if before.len() > 0 {
                assert(path[0] == before[0]);
            }
        },
    }
}

/// The way traced back from the goal, with the goal node at its end, is a
/// route from the start to the goal.
pub proof fn lemma_route_from_trace(
    nodes: Seq<GraphNodeView>,
    s: int,
    g: int,
    closed: Seq<SearchEntry>,
    parent: Option<usize>,
    bound: int,
    trace: Seq<PathNode>,
)
    requires
        0 <= g < nodes.len() <= usize::MAX,
        is_trace(nodes, s, g, closed, parent, bound, trace),
        trace_ok(nodes, s, closed, parent, bound, g),
    ensures
        is_route(nodes, s, g, trace.push(PathNode { id: g as usize, position: nodes[g].position })),
{
    let step = PathNode { id: g as usize, position: nodes[g].position };
    let path = trace.push(step);
    assert(path.last() == step);
    assert forall|i: int| 0 <= i < path.len() implies {
        &&& (#[trigger] path[i]).id < nodes.len()
        &&& path[i].position == nodes[path[i].id as int].position
    } by {
        if i < trace.len() {
            assert(path[i] == trace[i]);
        }
    }
    assert forall|i: int, j: int| 0 <= i < j < path.len() implies (#[trigger] path[i]).id != (
    #[trigger] path[j]).id by {
        assert(path[i] == trace[i]);
        if j < trace.len() {
            assert(path[j] == trace[j]);
        }
    }
    assert forall|i: int| 0 <= i < path.len() - 1 implies linked(
        nodes,
        (#[trigger] path[i]).id as int,
        path[i + 1].id as int,
    ) by {
        assert(path[i] == trace[i]);
        if i < trace.len() - 1 {
            assert(path[i + 1] == trace[i + 1]);
        } else {
            assert(trace[i] == trace.last());
        }
    }
    if trace.len() > 0 {
        assert(path[0] == trace[0]);
    }
}

/// Entering the nodes that the node just closed is connected to keeps the
/// search in order.
pub proof fn lemma_expanded(
    nodes: Seq<GraphNodeView>,
    s: int,
    g: int,
    goal_position: Vec2,
    open: Seq<SearchEntry>,
    closed: Seq<SearchEntry>,
    count: nat,
)
    requires
        graph_wf(nodes),
        goal_position.within(COORD_LIMIT as int),
        0 <= g < nodes.len(),
        s != g,
        closed.len() > 0,
        search_inv(nodes, s, g, open, closed),
        frontier_covered_upto(nodes, open, closed, closed.last().id as int, 0),
        0 <= closed.last().g_cost <= (closed.len() - 1) * DIST_LIMIT,
        count <= all_links(nodes[closed.last().id as int]).len(),
    ensures
        search_inv(
            nodes,
            s,
            g,
            expanded(nodes, g as usize, goal_position, open, closed.last(), count),
            closed,
        ),
        frontier_covered_upto(
            nodes,
            expanded(nodes, g as usize, goal_position, open, closed.last(), count),
            closed,
            closed.last().id as int,
            count as int,
        ),
    decreases count,
{
    if count > 0 {
        lemma_expanded(nodes, s, g, goal_position, open, closed, (count - 1) as nat);
        let current = closed.last();
        let m = count - 1;
        let so_far = expanded(nodes, g as usize, goal_position, open, current, m as nat);
        let link = all_links(nodes[current.id as int])[m];
        let e = opened(nodes, g as usize, goal_position, current, link);
        assert(closed_entry_ok(nodes, s, g, closed, closed.len() - 1));
        lemma_link_in_range(nodes, current.id as int, m);
        goal_position.spec_minus(nodes[link.node_id as int].position).lemma_length_within(2 * COORD_LIMIT);
        assert(e.g_cost <= closed.len() * DIST_LIMIT) by (nonlinear_arith)
            requires
                e.g_cost <= DIST_LIMIT + current.g_cost,
                current.g_cost <= (closed.len() - 1) * DIST_LIMIT,
        ;
        lemma_open_step(nodes, s, g, so_far, closed, m, e);
    }
}

/// Every connection a search may follow leads to a node of the graph over
/// a distance within the limit.
pub proof fn lemma_link_in_range(nodes: Seq<GraphNodeView>, a: int, m: int)
    requires
        graph_wf(nodes),
        0 <= a < nodes.len(),
        0 <= m < all_links(nodes[a]).len(),
    ensures
        all_links(nodes[a])[m].node_id < nodes.len(),
        0 <= all_links(nodes[a])[m].dist <= DIST_LIMIT,
        all_links(nodes[a])[m].node_id == link_target(nodes, a, m),
        nodes[all_links(nodes[a])[m].node_id as int].position.within(COORD_LIMIT as int),
{
    let node = nodes[a];
    assert(links_in_range(node.walkable_connections, nodes.len() as int));
    assert(links_in_range(node.jumpable_connections, nodes.len() as int));
    if m < node.walkable_connections.len() {
        assert(all_links(node)[m] == node.walkable_connections[m]);
    } else {
        assert(all_links(node)[m] == node.jumpable_connections[m - node.walkable_connections.len()]);
    }
}

/// What a search comes to, from lists in order: a route from the start to
/// the goal, or nothing where the goal cannot be reached.
pub proof fn lemma_search_from(
    nodes: Seq<GraphNodeView>,
    s: int,
    g: int,
    goal_position: Vec2,
    open: Seq<SearchEntry>,
    closed: Seq<SearchEntry>,
)
    requires
        graph_wf(nodes),
        goal_position.within(COORD_LIMIT as int),
        0 <= g < nodes.len() <= usize::MAX,
        search_inv(nodes, s, g, open, closed),
        frontier_covered(nodes, open, closed),
    ensures
        match search_from(nodes, g as usize, goal_position, open, closed) {
            None => !reachable(nodes, s, g),
            Some(path) => is_route(nodes, s, g, path),
        },
    decreases nodes.len() - closed.len(), open.len(),
{
    if open.len() == 0 {
        assert(open =~= Seq::empty());
        lemma_search_exhausted(nodes, s, g, closed);
    } else {
        lemma_lowest_of(open, open.len());
        let idx = lowest_of(open, open.len());
        let current = open[idx];
        let rest = open.remove(idx);
        assert(open_entry_ok(nodes, s, closed, current));
        lemma_closed_position(closed, current.id, 0);
        let at = closed_position(closed, current.id, 0);
        if current.id == g {
            lemma_traced(nodes, s, g, closed, current.parent, closed.len() as int, g);
            let trace = traced(nodes, closed, current.parent, closed.len() as int);
            lemma_route_from_trace(nodes, s, g, closed, current.parent, closed.len() as int, trace);
        } else if at < closed.len() {
            assert(id_at(closed, at) == current.id);
            lemma_skip_step(nodes, s, g, open, idx, closed);
            lemma_search_from(nodes, s, g, goal_position, rest, closed);
        } else {
            assert(!in_list(closed, current.id as int, closed.len() as int)) by {
                if in_list(closed, current.id as int, closed.len() as int) {
                    let q = choose|q: int| 0 <= q < closed.len() && (#[trigger] id_at(closed, q)) == current.id;
                    assert(closed[q].id != current.id);
                }
            }
            lemma_close_step(nodes, s, g, open, idx, closed);
            lemma_close_frontier(nodes, open, idx, closed);
            let more = closed.push(current);
            assert(more.last() == current);
            let count = all_links(nodes[current.id as int]).len();
            lemma_expanded(nodes, s, g, goal_position, rest, more, count);
            let entered = expanded(nodes, g as usize, goal_position, rest, current, count);
            lemma_frontier_done(nodes, entered, more, current.id as int, count as int);
            lemma_search_from(nodes, s, g, goal_position, entered, more);
        }
    }
}

/// Distinct ids below `n` number at most `n`.
pub proof fn lemma_distinct_ids_bounded(ids: Seq<int>, n: int)
    requires
        forall|i: int| 0 <= i < ids.len() ==> 0 <= #[trigger] ids[i] < n,
        ids.no_duplicates(),
        n >= 0,
    ensures
        ids.len() <= n,
{
    ids.unique_seq_to_set();
    vstd::set_lib::lemma_int_range(0, n);
    assert(ids.to_set().subset_of(vstd::set_lib::set_int_range(0, n))) by {
        assert forall|x: int| ids.to_set().contains(x) implies vstd::set_lib::set_int_range(0, n).contains(x) by {
            let i = choose|i: int| 0 <= i < ids.len() && ids[i] == x;
            assert(0 <= ids[i] < n);
        }
    }
    vstd::set_lib::lemma_len_subset(ids.to_set(), vstd::set_lib::set_int_range(0, n));
}

} // verus!
