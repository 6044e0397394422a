//! Placing nodes along the walkable edges of a level.
use vstd::prelude::*;
use crate::level::{Level, Polygon};
use crate::math::{COORD_LIMIT, UNIT};
use crate::pathfinding::{
    node_views, walk_link, GraphNodeView, Pathfinding, PathfindingGraphConnection,
    PathfindingGraphConnectionType, PathfindingGraphNode, DIST_LIMIT,
};
use crate::vec2::{lemma_scaled_coordinate, Vec2};

verus! {

/// Largest gap between neighbouring nodes on an edge: twenty world units.
pub const NODE_SPACING: i64 = 20000;

/// Length of the edge from `start` to `end`, rounded down.
pub open spec fn edge_length(start: Vec2, end: Vec2) -> int {
    end.spec_minus(start).spec_length()
}

/// Whether an agent can stand on the edge: it has a length, and its
/// direction does not lean further backward than a tenth of a unit vector.
pub open spec fn edge_walkable(start: Vec2, end: Vec2) -> bool {
    let d = end.spec_minus(start);
    d.spec_length() > 0 && d.spec_normalize_or_zero().x > -(UNIT / 10)
}

/// Number of nodes placed before the end of the edge: its length divided by
/// the node spacing, rounded up.
pub open spec fn edge_node_count(start: Vec2, end: Vec2) -> int {
    (edge_length(start, end) + NODE_SPACING - 1) / (NODE_SPACING as int)
}

/// Distance between neighbouring nodes on the edge.
pub open spec fn edge_spacing(start: Vec2, end: Vec2) -> int {
    edge_length(start, end) / edge_node_count(start, end)
}

/// Distance of node `j` from the start of the edge: `j` spacings.
pub open spec fn edge_node_offset(start: Vec2, end: Vec2, j: int) -> int {
    j * edge_spacing(start, end)
}

/// Position of node `j` on the edge: `j` spacings from `start` toward `end`.
pub open spec fn edge_node_position(start: Vec2, end: Vec2, j: int) -> Vec2 {
    start.spec_plus(
        end.spec_minus(start).spec_scaled(edge_node_offset(start, end, j), edge_length(start, end)),
    )
}

/// Node `j` of the edge, for `j` from zero to the node count; the last one
/// sits on `end`. Each node but the first links back to the one before it.
/// `base` is the id of the edge's first node.
pub open spec fn edge_node(
    start: Vec2,
    end: Vec2,
    polygon_index: usize,
    line_index: usize,
    base: int,
    j: int,
) -> GraphNodeView {
    GraphNodeView {
        id: (base + j) as usize,
        position: if j < edge_node_count(start, end) {
            edge_node_position(start, end, j)
        } else {
            end
        },
        polygon_index,
        line_indicies: seq![line_index],
        walkable_connections: if j > 0 {
            seq![walk_link((base + j - 1) as usize, edge_spacing(start, end) as i64)]
        } else {
            Seq::empty()
        },
        jumpable_connections: Seq::empty(),
        droppable_connections: Seq::empty(),
        normal: Vec2::spec_zero(),
        is_corner: false,
        is_external_corner: None,
    }
}

/// The nodes of one walkable edge, in order.
pub open spec fn edge_nodes(
    start: Vec2,
    end: Vec2,
    polygon_index: usize,
    line_index: usize,
    base: int,
) -> Seq<GraphNodeView> {
    Seq::new(
        (edge_node_count(start, end) + 1) as nat,
        |j: int| edge_node(start, end, polygon_index, line_index, base, j),
    )
}

/// The nodes of the first `lines` edges of a polygon: the nodes of each
/// walkable edge in turn, numbered from `base`.
pub open spec fn polygon_nodes(points: Seq<Vec2>, polygon_index: usize, base: int, lines: nat) -> Seq<
    GraphNodeView,
>
    decreases lines,
{
    if lines == 0 {
        Seq::empty()
    } else {
        let before = polygon_nodes(points, polygon_index, base, (lines - 1) as nat);
        let start = points[lines - 1];
        let end = points[lines as int];
        if edge_walkable(start, end) {
            before + edge_nodes(start, end, polygon_index, (lines - 1) as usize, base + before.len())
        } else {
            before
        }
    }
}

/// Whether an odd number of the first `count` polygons are containers.
pub open spec fn container_parity(polygons: Seq<Polygon>, count: nat) -> bool
    decreases count,
{
    if count == 0 {
        false
    } else {
        container_parity(polygons, (count - 1) as nat) != polygons[count - 1].is_container
    }
}

/// Whether polygon `p` is passed over: it is a container, and an odd number
/// of containers stand before it. Containers come in pairs, an outer
/// boundary and then the inner one; the inner one is passed over.
pub open spec fn polygon_skipped(polygons: Seq<Polygon>, p: int) -> bool {
    polygons[p].is_container && container_parity(polygons, p as nat)
}

/// The nodes of the first `count` polygons of a level, numbered from `base`.
pub open spec fn level_nodes(polygons: Seq<Polygon>, base: int, count: nat) -> Seq<GraphNodeView>
    decreases count,
{
    if count == 0 {
        Seq::empty()
    } else {
        let before = level_nodes(polygons, base, (count - 1) as nat);
        let p = count - 1;
        if polygon_skipped(polygons, p) {
            before
        } else {
            before + polygon_nodes(
                polygons[p].points@,
                p as usize,
                base + before.len(),
                polygons[p].edge_count(),
            )
        }
    }
}

/// A walkable edge between points in range has at least one node before its
/// end, a spacing that fits the edge, and all its nodes in range.
pub proof fn lemma_edge_shape(start: Vec2, end: Vec2)
    requires
        start.within(COORD_LIMIT as int),
        end.within(COORD_LIMIT as int),
        edge_length(start, end) > 0,
    ensures
        1 <= edge_node_count(start, end) <= edge_length(start, end) <= 4 * COORD_LIMIT,
        1 <= edge_spacing(start, end) <= NODE_SPACING,
        edge_spacing(start, end) * edge_node_count(start, end) <= edge_length(start, end),
        forall|j: int|
            0 <= j <= edge_node_count(start, end) ==> 0 <= #[trigger] edge_node_offset(start, end, j)
                <= edge_length(start, end),
        forall|j: int|
            0 <= j <= edge_node_count(start, end) ==> (#[trigger] edge_node_position(
                start,
                end,
                j,
            )).within(COORD_LIMIT as int),
{
    let d = end.spec_minus(start);
    let len = edge_length(start, end);
    let count = edge_node_count(start, end);
    let spacing = edge_spacing(start, end);
    assert(d.within(2 * COORD_LIMIT));
    d.lemma_length_within(2 * COORD_LIMIT);
    assert(1 <= count <= len) by (nonlinear_arith)
        requires
            len > 0,
            count == (len + NODE_SPACING - 1) / (NODE_SPACING as int),
            NODE_SPACING == 20000,
    ;
    assert(count * NODE_SPACING >= len) by (nonlinear_arith)
        requires
            len > 0,
            count == (len + NODE_SPACING - 1) / (NODE_SPACING as int),
            NODE_SPACING == 20000,
    ;
    assert(1 <= spacing <= NODE_SPACING && spacing * count <= len) by (nonlinear_arith)
        requires
            1 <= count <= len,
            spacing == len / count,
            count * NODE_SPACING >= len,
    ;
    assert forall|j: int| 0 <= j <= count implies 0 <= #[trigger] edge_node_offset(start, end, j)
        <= len by {
        assert(0 <= j * spacing <= count * spacing) by (nonlinear_arith)
            requires
                0 <= j <= count,
                spacing >= 1,
        ;
        assert(count * spacing == spacing * count) by (nonlinear_arith);
    }
    assert forall|j: int| 0 <= j <= count implies (#[trigger] edge_node_position(
        start,
        end,
        j,
    )).within(COORD_LIMIT as int) by {
        assert(0 <= edge_node_offset(start, end, j) <= len);
        lemma_scaled_coordinate(d.x as int, j * spacing, len);
        lemma_scaled_coordinate(d.y as int, j * spacing, len);
    }
}

/// What holds of a node as it is placed under the id `id`: it lies within
/// the coordinate limit and on one edge, has no normal yet and no
/// connections but walkable ones, and those lead to nodes placed before it.
pub open spec fn node_fresh(node: GraphNodeView, id: int) -> bool {
    &&& node.id == id
    &&& node.position.within(COORD_LIMIT as int)
    &&& node.line_indicies.len() == 1
    &&& node.jumpable_connections.len() == 0
    &&& node.droppable_connections.len() == 0
    &&& node.normal == Vec2::spec_zero()
    &&& forall|k: int|
        0 <= k < node.walkable_connections.len() ==> (#[trigger] node.walkable_connections[k]).node_id < id
            && 0 <= node.walkable_connections[k].dist <= DIST_LIMIT
}

/// Whether the nodes are as placed, under ids counting up from `base`.
pub open spec fn freshly_placed(nodes: Seq<GraphNodeView>, base: int) -> bool {
    forall|a: int| 0 <= a < nodes.len() ==> node_fresh(#[trigger] nodes[a], base + a)
}

/// Nodes placed one run after another are as placed.
pub proof fn lemma_freshly_placed_concat(first: Seq<GraphNodeView>, second: Seq<GraphNodeView>, base: int)
    requires
        freshly_placed(first, base),
        freshly_placed(second, base + first.len()),
    ensures
        freshly_placed(first + second, base),
{
    let all = first + second;
    assert forall|a: int| 0 <= a < all.len() implies node_fresh(#[trigger] all[a], base + a) by {
        if a < first.len() {
            assert(all[a] == first[a]);
        } else {
            assert(all[a] == second[a - first.len()]);
        }
    }
}

/// The nodes of a walkable edge are as placed.
pub proof fn lemma_edge_nodes_fresh(start: Vec2, end: Vec2, polygon_index: usize, line_index: usize, base: int)
    requires
        start.within(COORD_LIMIT as int),
        end.within(COORD_LIMIT as int),
        edge_walkable(start, end),
        0 <= base,
        base + edge_node_count(start, end) <= usize::MAX,
    ensures
        freshly_placed(edge_nodes(start, end, polygon_index, line_index, base), base),
{
    lemma_edge_shape(start, end);
    let nodes = edge_nodes(start, end, polygon_index, line_index, base);
    assert forall|a: int| 0 <= a < nodes.len() implies node_fresh(#[trigger] nodes[a], base + a) by {
        assert(nodes[a] == edge_node(start, end, polygon_index, line_index, base, a));
        if a < edge_node_count(start, end) {
            assert(edge_node_position(start, end, a).within(COORD_LIMIT as int));
        }
    }
}

/// The nodes of a polygon are as placed.
pub proof fn lemma_polygon_nodes_fresh(points: Seq<Vec2>, polygon_index: usize, base: int, lines: nat)
    requires
        forall|k: int| 0 <= k < points.len() ==> (#[trigger] points[k]).within(COORD_LIMIT as int),
        lines < points.len() || lines == 0,
        0 <= base,
        base + polygon_nodes(points, polygon_index, base, lines).len() <= usize::MAX,
    ensures
        freshly_placed(polygon_nodes(points, polygon_index, base, lines), base),
    decreases lines,
{
    if lines > 0 {
        let before = polygon_nodes(points, polygon_index, base, (lines - 1) as nat);
        let start = points[lines - 1];
        let end = points[lines as int];
        if edge_walkable(start, end) {
            let added = edge_nodes(start, end, polygon_index, (lines - 1) as usize, base + before.len());
            lemma_polygon_nodes_fresh(points, polygon_index, base, (lines - 1) as nat);
            lemma_edge_nodes_fresh(start, end, polygon_index, (lines - 1) as usize, base + before.len());
            lemma_freshly_placed_concat(before, added, base);
        } else {
            lemma_polygon_nodes_fresh(points, polygon_index, base, (lines - 1) as nat);
        }
    }
}

/// The nodes of a level are as placed.
pub proof fn lemma_level_nodes_fresh(polygons: Seq<Polygon>, base: int, count: nat)
    requires
        forall|p: int| 0 <= p < polygons.len() ==> (#[trigger] polygons[p]).wf(),
        count <= polygons.len(),
        0 <= base,
        base + level_nodes(polygons, base, count).len() <= usize::MAX,
    ensures
        freshly_placed(level_nodes(polygons, base, count), base),
    decreases count,
{
    if count > 0 {
        let before = level_nodes(polygons, base, (count - 1) as nat);
        let p = count - 1;
        if polygon_skipped(polygons, p) {
            lemma_level_nodes_fresh(polygons, base, (count - 1) as nat);
        } else {
            let added = polygon_nodes(
                polygons[p].points@,
                p as usize,
                base + before.len(),
                polygons[p].edge_count(),
            );
            lemma_level_nodes_fresh(polygons, base, (count - 1) as nat);
            assert(polygons[p].wf());
            lemma_polygon_nodes_fresh(
                polygons[p].points@,
                p as usize,
                base + before.len(),
                polygons[p].edge_count(),
            );
            lemma_freshly_placed_concat(before, added, base);
        }
    }
}

/// Appends the nodes of one walkable edge.
fn place_edge_nodes(
    nodes: &mut Vec<PathfindingGraphNode>,
    start: Vec2,
    end: Vec2,
    polygon_index: usize,
    line_index: usize,
)
    requires
        start.within(COORD_LIMIT as int),
        end.within(COORD_LIMIT as int),
        edge_walkable(start, end),
    ensures
        node_views(final(nodes)@) =~= node_views(old(nodes)@) + edge_nodes(
            start,
            end,
            polygon_index,
            line_index,
            old(nodes)@.len() as int,
        ),
{
    let ghost base = nodes@.len() as int;
    let ghost before = node_views(nodes@);
    proof {
        lemma_edge_shape(start, end);
    }
    let d = end.minus(start);
    let length = d.length();
    let count = (length + NODE_SPACING - 1) / NODE_SPACING;
    let spacing = length / count;
    let mut j: i64 = 0;
    while j < count
        invariant
            0 <= j <= count,
            count == edge_node_count(start, end),
            spacing == edge_spacing(start, end),
            length == edge_length(start, end),
            0 < length <= 4 * COORD_LIMIT,
            base >= 0,
            d == end.spec_minus(start),
            d.within(2 * COORD_LIMIT),
            start.within(COORD_LIMIT as int),
            nodes@.len() == base + j,
            forall|k: int|
                0 <= k <= count ==> 0 <= #[trigger] edge_node_offset(start, end, k) <= edge_length(
                    start,
                    end,
                ),
            forall|k: int|
                0 <= k <= count ==> (#[trigger] edge_node_position(start, end, k)).within(
                    COORD_LIMIT as int,
                ),
            forall|i: int| 0 <= i < base ==> (#[trigger] nodes@[i])@ == before[i],
            forall|k: int|
                0 <= k < j ==> (#[trigger] nodes@[base + k])@ == edge_node(
                    start,
                    end,
                    polygon_index,
                    line_index,
                    base,
                    k,
                ),
        decreases count - j,
    {
        proof {
            assert(0 <= edge_node_offset(start, end, j as int) <= length);
            assert(edge_node_position(start, end, j as int).within(COORD_LIMIT as int));
        }
        let along = j * spacing;
        let node_pos = start.plus(d.scaled(along, length));
        let mut links: Vec<PathfindingGraphConnection> = Vec::new();
        if j > 0 {
            links.push(
                PathfindingGraphConnection {
                    node_id: nodes.len() - 1,
                    dist: spacing,
                    connection_type: PathfindingGraphConnectionType::Walkable,
                    effort: 0,
                },
            );
        }
        let mut lines: Vec<usize> = Vec::new();
        lines.push(line_index);
        let new_node = PathfindingGraphNode {
            id: nodes.len(),
            position: node_pos,
            polygon_index,
            line_indicies: lines,
            walkable_connections: links,
            jumpable_connections: Vec::new(),
            droppable_connections: Vec::new(),
            normal: Vec2::zero(),
            is_corner: false,
            is_external_corner: None,
        };
        proof {
            let want = edge_node(start, end, polygon_index, line_index, base, j as int);
            assert(new_node@.line_indicies =~= want.line_indicies);
            assert(new_node@.walkable_connections =~= want.walkable_connections);
            assert(new_node@.jumpable_connections =~= want.jumpable_connections);
            assert(new_node@.droppable_connections =~= want.droppable_connections);
            assert(new_node@ == want);
        }
        nodes.push(new_node);
        j += 1;
    }
    let mut links: Vec<PathfindingGraphConnection> = Vec::new();
    links.push(
        PathfindingGraphConnection {
            node_id: nodes.len() - 1,
            dist: spacing,
            connection_type: PathfindingGraphConnectionType::Walkable,
            effort: 0,
        },
    );
    let mut lines: Vec<usize> = Vec::new();
    lines.push(line_index);
    let end_node = PathfindingGraphNode {
        id: nodes.len(),
        position: end,
        polygon_index,
        line_indicies: lines,
        walkable_connections: links,
        jumpable_connections: Vec::new(),
        droppable_connections: Vec::new(),
        normal: Vec2::zero(),
        is_corner: false,
        is_external_corner: None,
    };
    proof {
        let want = edge_node(start, end, polygon_index, line_index, base, count as int);
        assert(end_node@.line_indicies =~= want.line_indicies);
        assert(end_node@.walkable_connections =~= want.walkable_connections);
        assert(end_node@.jumpable_connections =~= want.jumpable_connections);
        assert(end_node@.droppable_connections =~= want.droppable_connections);
        assert(end_node@ == want);
    }
    nodes.push(end_node);
}

/// Tests whether an agent can stand on the edge from `start` to `end`.
fn is_edge_walkable(start: Vec2, end: Vec2) -> (r: bool)
    requires
        start.within(COORD_LIMIT as int),
        end.within(COORD_LIMIT as int),
    ensures
        r == edge_walkable(start, end),
{
    let d = end.minus(start);
    let length = d.length();
    let dir = d.normalize_or_zero();
    length > 0 && dir.x > -(UNIT / 10)
}

/// Appends the nodes of every walkable edge of a polygon.
fn place_polygon_nodes(nodes: &mut Vec<PathfindingGraphNode>, polygon: &Polygon, polygon_index: usize)
    requires
        polygon.wf(),
    ensures
        node_views(final(nodes)@) =~= node_views(old(nodes)@) + polygon_nodes(
            polygon.points@,
            polygon_index,
            old(nodes)@.len() as int,
            polygon.edge_count(),
        ),
{
    let ghost base = nodes@.len() as int;
    let ghost before = node_views(nodes@);
    let mut line_index: usize = 1;
    assert(polygon_nodes(polygon.points@, polygon_index, base, 0) =~= Seq::empty());
    while line_index < polygon.points.len()
        invariant
            1 <= line_index,
            line_index <= polygon.points@.len() || polygon.points@.len() == 0,
            polygon.points@.len() == 0 ==> line_index == 1,
            before.len() == base,
            polygon.wf(),
            node_views(nodes@) =~= before + polygon_nodes(
                polygon.points@,
                polygon_index,
                base,
                (line_index - 1) as nat,
            ),
        decreases polygon.points@.len() - line_index,
    {
        let start = polygon.points[line_index - 1];
        let end = polygon.points[line_index];
        let ghost done = polygon_nodes(polygon.points@, polygon_index, base, (line_index - 1) as nat);
        if is_edge_walkable(start, end) {
            place_edge_nodes(nodes, start, end, polygon_index, line_index - 1);
            assert(node_views(nodes@) =~= before + (done + edge_nodes(
                start,
                end,
                polygon_index,
                (line_index - 1) as usize,
                base + done.len(),
            )));
        }
        line_index += 1;
    }
}

/// Appends a node for every stretch of walkable surface in the level.
///
/// Polygons are taken in order. Of the container polygons, the second, the
/// fourth and every other even one are passed over. Every remaining edge that an
/// agent can stand on gets a run of evenly spaced nodes and one node on its
/// end, each linked back to the node before it.
pub fn place_nodes(pathfinding: &mut Pathfinding, level: &Level)
    requires
        level.wf(),
    ensures
        final(pathfinding).graph() =~= old(pathfinding).graph() + level_nodes(
            level.polygons@,
            old(pathfinding).nodes@.len() as int,
            level.polygons@.len(),
        ),
        final(pathfinding).goal_graph_node == old(pathfinding).goal_graph_node,
        final(pathfinding).goal_position == old(pathfinding).goal_position,
        final(pathfinding).active == old(pathfinding).active,
{
    let ghost base = pathfinding.nodes@.len() as int;
    let ghost before = pathfinding.graph();
    let mut outer_container_seen = false;
    let mut polygon_index: usize = 0;
    assert(level_nodes(level.polygons@, base, 0) =~= Seq::empty());
    while polygon_index < level.polygons.len()
        invariant
            polygon_index <= level.polygons@.len(),
            before.len() == base,
            level.wf(),
            outer_container_seen == container_parity(level.polygons@, polygon_index as nat),
            pathfinding.graph() =~= before + level_nodes(level.polygons@, base, polygon_index as nat),
            pathfinding.goal_graph_node == old(pathfinding).goal_graph_node,
            pathfinding.goal_position == old(pathfinding).goal_position,
            pathfinding.active == old(pathfinding).active,
        decreases level.polygons@.len() - polygon_index,
    {
        let polygon = &level.polygons[polygon_index];
        let inner_pass = outer_container_seen && polygon.is_container;
        if polygon.is_container {
            outer_container_seen = !outer_container_seen;
        }
        let ghost done = level_nodes(level.polygons@, base, polygon_index as nat);
        if !inner_pass {
            place_polygon_nodes(&mut pathfinding.nodes, polygon, polygon_index);
            assert(pathfinding.graph() =~= before + (done + polygon_nodes(
                polygon.points@,
                polygon_index,
                base + done.len(),
                polygon.edge_count(),
            )));
        }
        polygon_index += 1;
    }
}

} // verus!
