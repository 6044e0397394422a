//! The course of a search: which node is taken up next, what it opens, and
//! the path read off at the end.
use vstd::prelude::*;
use crate::a_star::{all_links, is_start_node, AStarNode, PathNode};
use crate::pathfinding::{GraphNodeView, Pathfinding, PathfindingGraphConnection};
use crate::vec2::Vec2;

verus! {

/// What a search records of a node: the distance travelled to it, the
/// distance left, and the node it was reached from.
pub struct SearchEntry {
    pub id: usize,
    pub g_cost: int,
    pub h_cost: int,
    pub parent: Option<usize>,
}

impl View for AStarNode {
    type V = SearchEntry;

    open spec fn view(&self) -> SearchEntry {
        SearchEntry { id: self.id, g_cost: self.g_cost as int, h_cost: self.h_cost as int, parent: self.parent }
    }
}

/// What a search records of each node of a list.
pub open spec fn entries(list: Seq<AStarNode>) -> Seq<SearchEntry> {
    Seq::new(list.len(), |q: int| list[q]@)
}

/// Estimated length of a way through the node.
pub open spec fn estimate(entry: SearchEntry) -> int {
    entry.g_cost + entry.h_cost
}

/// Index of the entry with the lowest estimate among the first `count`; of
/// equally low ones, the first.
pub open spec fn lowest_of(open: Seq<SearchEntry>, count: nat) -> int
    decreases count,
{
    if count <= 1 {
        0
    } else {
        let best = lowest_of(open, (count - 1) as nat);
        if estimate(open[count - 1]) < estimate(open[best]) {
            count - 1
        } else {
            best
        }
    }
}

/// Index of the first entry from `from` on with the id; the length of the
/// list where there is none.
pub open spec fn closed_position(closed: Seq<SearchEntry>, id: usize, from: int) -> int
    decreases closed.len() - from,
{
    if from < 0 || from >= closed.len() {
        closed.len() as int
    } else if closed[from].id == id {
        from
    } else {
        closed_position(closed, id, from + 1)
    }
}

/// The entry for the node a connection of `current` leads to. The goal node
/// is entered without costs, so that it is taken up next.
pub open spec fn opened(
    nodes: Seq<GraphNodeView>,
    goal_id: usize,
    goal_position: Vec2,
    current: SearchEntry,
    link: PathfindingGraphConnection,
) -> SearchEntry {
    if link.node_id == goal_id {
        SearchEntry { id: link.node_id, g_cost: 0, h_cost: 0, parent: Some(current.id) }
    } else {
        SearchEntry {
            id: link.node_id,
            g_cost: link.dist + current.g_cost,
            h_cost: goal_position.spec_minus(nodes[link.node_id as int].position).spec_length(),
            parent: Some(current.id),
        }
    }
}

/// The open list after the nodes behind the first `count` connections of
/// `current` have been entered, in order.
pub open spec fn expanded(
    nodes: Seq<GraphNodeView>,
    goal_id: usize,
    goal_position: Vec2,
    open: Seq<SearchEntry>,
    current: SearchEntry,
    count: nat,
) -> Seq<SearchEntry>
    decreases count,
{
    if count == 0 {
        open
    } else {
        expanded(nodes, goal_id, goal_position, open, current, (count - 1) as nat).push(
            opened(
                nodes,
                goal_id,
                goal_position,
                current,
                all_links(nodes[current.id as int])[count - 1],
            ),
        )
    }
}

/// The way from the start to the node `parent`, read off the parents
/// recorded among the first `bound` closed entries.
pub open spec fn traced(nodes: Seq<GraphNodeView>, closed: Seq<SearchEntry>, parent: Option<usize>, bound: int) -> Seq<
    PathNode,
>
    decreases bound,
{
    match parent {
        None => Seq::empty(),
        Some(p) => {
            let j = closed_position(closed, p, 0);
            if 0 <= j < bound && j < closed.len() {
                traced(nodes, closed, closed[j].parent, j).push(
                    PathNode { id: p, position: nodes[p as int].position },
                )
            } else {
                Seq::empty()
            }
        },
    }
}

/// What a search comes to from the given open and closed lists.
///
/// The open entry with the lowest estimate is taken up. If it is the goal,
/// the way to its parent and then the goal node itself is the path. If its
/// node is closed already, it is dropped. Else it is closed, and the nodes its connections lead to are
/// entered in the open list. With nothing left open there is no path.
pub open spec fn search_from(
    nodes: Seq<GraphNodeView>,
    goal_id: usize,
    goal_position: Vec2,
    open: Seq<SearchEntry>,
    closed: Seq<SearchEntry>,
) -> Option<Seq<PathNode>>
    decreases nodes.len() - closed.len(), open.len(),
    via search_from_decreases
{
    if open.len() == 0 {
        None
    } else {
        let idx = lowest_of(open, open.len());
        let current = open[idx];
        let rest = open.remove(idx);
        if current.id == goal_id {
            Some(
                traced(nodes, closed, current.parent, closed.len() as int).push(
                    PathNode { id: goal_id, position: nodes[goal_id as int].position },
                ),
            )
        } else if closed_position(closed, current.id, 0) < closed.len() {
            search_from(nodes, goal_id, goal_position, rest, closed)
        } else if closed.len() >= nodes.len() {
            None
        } else {
            search_from(
                nodes,
                goal_id,
                goal_position,
                expanded(
                    nodes,
                    goal_id,
                    goal_position,
                    rest,
                    current,
                    all_links(nodes[current.id as int]).len(),
                ),
                closed.push(current),
            )
        }
    }
}

#[via_fn]
proof fn search_from_decreases(
    nodes: Seq<GraphNodeView>,
    goal_id: usize,
    goal_position: Vec2,
    open: Seq<SearchEntry>,
    closed: Seq<SearchEntry>,
) {
    if open.len() > 0 {
        lemma_lowest_of(open, open.len());
    }
}

/// The lowest estimate is found among the entries looked at, and no entry
/// before it is as low.
pub proof fn lemma_lowest_of(open: Seq<SearchEntry>, count: nat)
    requires
        0 < count <= open.len(),
    ensures
        0 <= lowest_of(open, count) < count,
        forall|q: int| 0 <= q < count ==> estimate(open[lowest_of(open, count)]) <= estimate(#[trigger] open[q]),
        forall|q: int|
            0 <= q < lowest_of(open, count) ==> estimate(open[lowest_of(open, count)]) < estimate(
                #[trigger] open[q],
            ),
    decreases count,
{
    if count > 1 {
        lemma_lowest_of(open, (count - 1) as nat);
    }
}

/// The entry with the lowest estimate, and of equally low ones the first,
/// is the one `lowest_of` names.
pub proof fn lemma_lowest_is(open: Seq<SearchEntry>, best: int)
    requires
        0 <= best < open.len(),
        forall|q: int| 0 <= q < open.len() ==> estimate(open[best]) <= estimate(#[trigger] open[q]),
        forall|q: int| 0 <= q < best ==> estimate(open[best]) < estimate(#[trigger] open[q]),
    ensures
        lowest_of(open, open.len()) == best,
{
    lemma_lowest_of(open, open.len());
    let other = lowest_of(open, open.len());
    if other < best {
        assert(estimate(open[best]) < estimate(open[other]));
        assert(estimate(open[other]) <= estimate(open[best]));
    } else if best < other {
        assert(estimate(open[other]) < estimate(open[best]));
        assert(estimate(open[best]) <= estimate(open[other]));
    }
}

/// The position of an id is that of the first entry that has it.
pub proof fn lemma_closed_position(closed: Seq<SearchEntry>, id: usize, from: int)
    requires
        0 <= from <= closed.len(),
    ensures
        from <= closed_position(closed, id, from) <= closed.len(),
        closed_position(closed, id, from) < closed.len() ==> closed[closed_position(closed, id, from)].id == id,
        forall|c: int| from <= c < closed_position(closed, id, from) ==> (#[trigger] closed[c]).id != id,
    decreases closed.len() - from,
{
    if from < closed.len() && closed[from].id != id {
        lemma_closed_position(closed, id, from + 1);
    }
}

/// The first entry with an id is where `closed_position` finds it.
pub proof fn lemma_closed_position_is(closed: Seq<SearchEntry>, id: usize, j: int)
    requires
        0 <= j <= closed.len(),
        j < closed.len() ==> closed[j].id == id,
        forall|c: int| 0 <= c < j ==> (#[trigger] closed[c]).id != id,
    ensures
        closed_position(closed, id, 0) == j,
{
    lemma_closed_position(closed, id, 0);
    let p = closed_position(closed, id, 0);
    if p < j {
        assert(closed[p].id != id);
    } else if j < p {
        assert(closed[j].id != id);
    }
}

/// The node a search from `start_position` begins at.
pub open spec fn start_node_of(nodes: Seq<GraphNodeView>, goal_position: Vec2, start_position: Vec2) -> int {
    choose|s: int| is_start_node(nodes, goal_position, start_position, s)
}

/// The entry a search begins with: the start node, reached from nowhere
/// over no distance.
pub open spec fn start_entry(nodes: Seq<GraphNodeView>, goal_position: Vec2, s: int) -> SearchEntry {
    SearchEntry {
        id: s as usize,
        g_cost: 0,
        h_cost: goal_position.spec_minus(nodes[s].position).spec_length(),
        parent: None,
    }
}

/// The path a search from `start_position` finds: none without a goal
/// node, and else what the search comes to from the start node alone in the
/// open list.
pub open spec fn spec_find_path(pathfinding: &Pathfinding, start_position: Vec2) -> Option<Seq<PathNode>> {
    match pathfinding.goal_graph_node {
        None => None,
        Some(goal) => search_from(
            pathfinding.graph(),
            goal.id,
            pathfinding.goal_position,
            seq![
                start_entry(
                    pathfinding.graph(),
                    pathfinding.goal_position,
                    start_node_of(pathfinding.graph(), pathfinding.goal_position, start_position),
                ),
            ],
            Seq::empty(),
        ),
    }
}

} // verus!
