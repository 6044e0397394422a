//! Building the navmesh of a level.
use vstd::prelude::*;
use crate::dedup::{
    deduplicated, has_id, mergeable, no_close_pairs, remove_duplicate_nodes, tidy, too_close, well_linked,
};
use crate::jumping::{
    efforts_within_force, jump_links, lemma_jump_links_in_range, make_jumpable_connections, with_jump_links,
};
use crate::level::Level;
use crate::math::{COORD_LIMIT, UNIT};
use crate::pathfinding::{
    graph_wf, ids_are_indices, link_mirrored, links_in_range, no_drops, walk_dists_in_range,
    walk_targets_below, walkable_symmetric, GraphNodeView, Pathfinding,
};
use crate::placement::{freshly_placed, lemma_level_nodes_fresh, level_nodes, node_fresh, place_nodes};
use crate::platformer_ai::PLATFORMER_AI_AGENT_RADIUS;
use crate::renumber::{make_node_ids_indices, renumbered, renumbered_node};
use crate::surface::{calculate_normals, setup_corners, with_corner, with_normal};
use crate::symmetry::{grown_from, make_walkable_connections_2_way, mirror_nodes};

verus! {

/// The nodes with their jump connections found, for an agent of the given
/// radius.
pub open spec fn with_jumps(level: &Level, nodes: Seq<GraphNodeView>, radius: int) -> Seq<GraphNodeView> {
    Seq::new(
        nodes.len(),
        |i: int| with_jump_links(nodes[i], jump_links(level, nodes, radius, i, nodes.len())),
    )
}

/// The nodes with their normals set.
pub open spec fn with_normals(level: &Level, nodes: Seq<GraphNodeView>) -> Seq<GraphNodeView> {
    Seq::new(nodes.len(), |i: int| with_normal(level, nodes[i]))
}

/// The nodes with their corners marked.
pub open spec fn with_corners(nodes: Seq<GraphNodeView>) -> Seq<GraphNodeView> {
    Seq::new(nodes.len(), |i: int| with_corner(nodes, i))
}

/// The nodes a level adds to those already there, before any are merged:
/// the nodes placed on its edges, with walkable connections both ways.
pub open spec fn laid_out(level: &Level, nodes: Seq<GraphNodeView>) -> Seq<GraphNodeView> {
    let placed = nodes + level_nodes(level.polygons@, nodes.len() as int, level.polygons@.len());
    mirror_nodes(placed, placed.len())
}

/// The part of the navmesh that is walked: nodes are placed and connected
/// both ways, those on top of each other merged, and ids brought in line.
pub open spec fn walking_graph(level: &Level, nodes: Seq<GraphNodeView>) -> Seq<GraphNodeView> {
    renumbered(deduplicated(laid_out(level, nodes)))
}

/// The navmesh of a level: the part that is walked, with jump connections,
/// normals and corners worked out.
pub open spec fn built_graph(level: &Level, nodes: Seq<GraphNodeView>) -> Seq<GraphNodeView> {
    with_corners(
        with_normals(level, with_jumps(level, walking_graph(level, nodes), PLATFORMER_AI_AGENT_RADIUS as int)),
    )
}

/// What building asks of the nodes already there: they are numbered by
/// index, their walkable connections stay among them, each lies within the
/// coordinate limit, and none has a droppable connection. Their jump
/// connections are worked out anew.
pub open spec fn groundwork(nodes: Seq<GraphNodeView>) -> bool {
    &&& ids_are_indices(nodes)
    &&& walk_targets_below(nodes, nodes.len() as int)
    &&& mergeable(nodes)
    &&& tidy(nodes)
}

/// Nodes as placed, added to groundwork, are groundwork.
pub proof fn lemma_groundwork_extended(nodes: Seq<GraphNodeView>, placed: Seq<GraphNodeView>)
    requires
        groundwork(nodes),
        freshly_placed(placed, nodes.len() as int),
    ensures
        groundwork(nodes + placed),
{
    let all = nodes + placed;
    let base = nodes.len() as int;
    assert forall|a: int| 0 <= a < all.len() implies #[trigger] all[a] == if a < base {
        nodes[a]
    } else {
        placed[a - base]
    } by {}
    assert forall|a: int| 0 <= a < all.len() implies (#[trigger] all[a]).id == a by {
        if a >= base {
            assert(node_fresh(placed[a - base], base + (a - base)));
        }
    }
    assert forall|a: int, k: int|
        0 <= a < all.len() && 0 <= k < all[a].walkable_connections.len() implies (
    #[trigger] all[a].walkable_connections[k]).node_id < all.len() && 0 <= all[a].walkable_connections[k].dist
        <= crate::pathfinding::DIST_LIMIT by {
        if a >= base {
            assert(node_fresh(placed[a - base], base + (a - base)));
        } else {
            assert(all[a] == nodes[a]);
            assert(nodes[a].walkable_connections[k].node_id < nodes.len());
        }
    }
    assert forall|a: int| 0 <= a < all.len() implies (#[trigger] all[a]).position.within(COORD_LIMIT as int)
        && all[a].droppable_connections.len() == 0 by {
        if a >= base {
            assert(node_fresh(placed[a - base], base + (a - base)));
        } else {
            assert(all[a] == nodes[a]);
        }
    }
}

/// Connecting both ways leaves groundwork fit for merging.
pub proof fn lemma_grown_groundwork(later: Seq<GraphNodeView>, earlier: Seq<GraphNodeView>)
    requires
        groundwork(earlier),
        grown_from(later, earlier),
        walk_targets_below(later, later.len() as int),
        walk_dists_in_range(later),
        walkable_symmetric(later),
    ensures
        well_linked(later),
        mergeable(later),
        tidy(later),
{
    assert forall|a: int| 0 <= a < later.len() implies (#[trigger] later[a]).id == a && later[a].position.within(
        COORD_LIMIT as int,
    ) && later[a].droppable_connections.len() == 0 by {
        assert(later[a] == GraphNodeView { walkable_connections: later[a].walkable_connections, ..earlier[a] });
        assert(earlier[a].id == a);
    }
    assert forall|a: int, k: int|
        0 <= a < later.len() && 0 <= k < later[a].walkable_connections.len() implies has_id(
        later,
        (#[trigger] later[a].walkable_connections[k]).node_id as int,
    ) by {
        let t = later[a].walkable_connections[k].node_id as int;
        assert(later[t].id == t);
    }
}

/// Renumbering turns merged nodes into a graph in order.
pub proof fn lemma_renumbered_groundwork(nodes: Seq<GraphNodeView>)
    requires
        well_linked(nodes),
        mergeable(nodes),
        tidy(nodes),
        no_close_pairs(nodes),
        nodes.len() <= usize::MAX,
    ensures
        groundwork(renumbered(nodes)),
        walkable_symmetric(renumbered(nodes)),
        no_close_pairs(renumbered(nodes)),
{
    let after = renumbered(nodes);
    crate::renumber::lemma_renumbered_in_line(nodes);
    crate::renumber::lemma_renumbered_symmetric(nodes);
    assert forall|a: int| 0 <= a < after.len() implies (#[trigger] after[a]).position == nodes[a].position
        && after[a].line_indicies == nodes[a].line_indicies && after[a].droppable_connections
        == nodes[a].droppable_connections && after[a].jumpable_connections == nodes[a].jumpable_connections by {
        assert(after[a] == renumbered_node(nodes, a));
    }
    assert forall|a: int| 0 <= a < after.len() implies (#[trigger] after[a]).position.within(
        COORD_LIMIT as int,
    ) by {
        assert(nodes[a].position.within(COORD_LIMIT as int));
    }
    assert forall|a: int, k: int|
        0 <= a < after.len() && 0 <= k < after[a].walkable_connections.len() implies 0 <= (
    #[trigger] after[a].walkable_connections[k]).dist <= crate::pathfinding::DIST_LIMIT by {
        assert(after[a] == renumbered_node(nodes, a));
        assert(0 <= nodes[a].walkable_connections[k].dist <= crate::pathfinding::DIST_LIMIT);
    }
    assert forall|a: int| 0 <= a < after.len() implies (#[trigger] after[a]).droppable_connections.len() == 0 by {
        assert(nodes[a].droppable_connections.len() == 0);
    }
    assert forall|a: int, b: int| 0 <= a < b < after.len() implies !too_close(
        (#[trigger] after[a]).position,
        (#[trigger] after[b]).position,
    ) by {
        assert(!too_close(nodes[a].position, nodes[b].position));
    }
}

/// Whether two runs of nodes agree in what walking depends on: ids,
/// positions and walkable connections.
pub open spec fn same_walking(later: Seq<GraphNodeView>, earlier: Seq<GraphNodeView>) -> bool {
    &&& later.len() == earlier.len()
    &&& forall|a: int|
        0 <= a < later.len() ==> {
            &&& (#[trigger] later[a]).id == earlier[a].id
            &&& later[a].position == earlier[a].position
            &&& later[a].walkable_connections == earlier[a].walkable_connections
            &&& later[a].droppable_connections == earlier[a].droppable_connections
            &&& later[a].line_indicies == earlier[a].line_indicies
        }
}

/// What holds of walking in one run of nodes holds in another that agrees
/// with it in what walking depends on.
pub proof fn lemma_same_walking(later: Seq<GraphNodeView>, earlier: Seq<GraphNodeView>)
    requires
        same_walking(later, earlier),
        ids_are_indices(earlier),
        walk_targets_below(earlier, earlier.len() as int),
        walk_dists_in_range(earlier),
        no_drops(earlier),
        walkable_symmetric(earlier),
        no_close_pairs(earlier),
        mergeable(earlier),
    ensures
        ids_are_indices(later),
        walk_targets_below(later, later.len() as int),
        walk_dists_in_range(later),
        no_drops(later),
        walkable_symmetric(later),
        no_close_pairs(later),
        mergeable(later),
{
    assert forall|a: int| 0 <= a < later.len() implies (#[trigger] later[a]).id == a && later[a].droppable_connections.len()
        == 0 && later[a].position.within(COORD_LIMIT as int) by {
        assert(earlier[a].id == a);
    }
    assert forall|a: int, k: int|
        0 <= a < later.len() && 0 <= k < later[a].walkable_connections.len() implies (
    #[trigger] later[a].walkable_connections[k]).node_id < later.len() && 0 <= later[a].walkable_connections[k].dist
        <= crate::pathfinding::DIST_LIMIT by {
        assert(later[a].walkable_connections[k] == earlier[a].walkable_connections[k]);
    }
    assert forall|a: int, k: int, b: int|
        0 <= a < later.len() && 0 <= k < later[a].walkable_connections.len() && 0 <= b < later.len() implies #[trigger] link_mirrored(
        later,
        a,
        k,
        b,
    ) by {
        assert(link_mirrored(earlier, a, k, b));
        assert(later[a].id == earlier[a].id);
        assert(later[b].id == earlier[b].id);
    }
    assert forall|a: int, b: int| 0 <= a < b < later.len() implies !too_close(
        (#[trigger] later[a]).position,
        (#[trigger] later[b]).position,
    ) by {
        assert(!too_close(earlier[a].position, earlier[b].position));
    }
}

/// Builds the part of the navmesh that is walked, on top of the nodes
/// already there.
///
/// Nodes are placed along the walkable edges and connected both ways; nodes
/// less than a world unit apart are merged, which is how corners come
/// about; and ids are brought in line with where the nodes stand.
pub fn init_pathfinding(level: &Level, pathfinding: &mut Pathfinding)
    requires
        level.wf(),
        groundwork(old(pathfinding).graph()),
    ensures
        final(pathfinding).graph() == walking_graph(level, old(pathfinding).graph()),
        groundwork(final(pathfinding).graph()),
        walkable_symmetric(final(pathfinding).graph()),
        no_close_pairs(final(pathfinding).graph()),
        final(pathfinding).goal_graph_node == old(pathfinding).goal_graph_node,
        final(pathfinding).goal_position == old(pathfinding).goal_position,
        final(pathfinding).active == old(pathfinding).active,
{
    let ghost start = pathfinding.graph();
    place_nodes(pathfinding, level);
    let ghost placed = pathfinding.graph();
    let placed_count = pathfinding.nodes.len();
    proof {
        let added = level_nodes(level.polygons@, start.len() as int, level.polygons@.len());
        assert(placed.len() == placed_count);
        assert(placed.len() == start.len() + added.len());
        lemma_level_nodes_fresh(level.polygons@, start.len() as int, level.polygons@.len());
        lemma_groundwork_extended(start, added);
        assert(placed == start + added);
    }
    make_walkable_connections_2_way(pathfinding);
    let ghost connected = pathfinding.graph();
    proof {
        lemma_grown_groundwork(connected, placed);
    }
    remove_duplicate_nodes(pathfinding);
    let ghost merged = pathfinding.graph();
    let merged_count = pathfinding.nodes.len();
    make_node_ids_indices(pathfinding);
    proof {
        assert(merged.len() == merged_count);
        lemma_renumbered_groundwork(merged);
    }
}

/// Builds the navmesh of a level on top of the nodes already there.
///
/// The part that is walked is built first; then jump connections are found
/// for an agent of the standard radius, and normals and corners are worked
/// out.
pub fn init_pathfinding_graph(level: &Level, pathfinding: &mut Pathfinding)
    requires
        level.wf(),
        groundwork(old(pathfinding).graph()),
    ensures
        final(pathfinding).graph() == built_graph(level, old(pathfinding).graph()),
        graph_wf(final(pathfinding).graph()),
        walkable_symmetric(final(pathfinding).graph()),
        no_close_pairs(final(pathfinding).graph()),
        efforts_within_force(final(pathfinding).graph()),
        final(pathfinding).goal_graph_node == old(pathfinding).goal_graph_node,
        final(pathfinding).goal_position == old(pathfinding).goal_position,
        final(pathfinding).active == old(pathfinding).active,
{
    init_pathfinding(level, pathfinding);
    let ghost numbered = pathfinding.graph();
    let numbered_count = pathfinding.nodes.len();
    assert(numbered.len() == numbered_count);
    make_jumpable_connections(pathfinding, level, PLATFORMER_AI_AGENT_RADIUS);
    let ghost jumped = pathfinding.graph();
    proof {
        assert(jumped =~= with_jumps(level, numbered, PLATFORMER_AI_AGENT_RADIUS as int));
        assert forall|a: int| 0 <= a < jumped.len() implies (#[trigger] jumped[a]).id == numbered[a].id
            && jumped[a].position == numbered[a].position && jumped[a].walkable_connections
            == numbered[a].walkable_connections && jumped[a].droppable_connections
            == numbered[a].droppable_connections && jumped[a].line_indicies == numbered[a].line_indicies
            && links_in_range(jumped[a].jumpable_connections, jumped.len() as int) by {
            lemma_jump_links_in_range(
                level,
                numbered,
                PLATFORMER_AI_AGENT_RADIUS as int,
                a,
                numbered.len(),
            );
        }
        lemma_same_walking(jumped, numbered);
    }
    calculate_normals(pathfinding, level);
    let ghost turned = pathfinding.graph();
    proof {
        assert(turned =~= with_normals(level, jumped));
        assert forall|a: int| 0 <= a < turned.len() implies (#[trigger] turned[a]).normal.within(UNIT as int)
            && turned[a].jumpable_connections == jumped[a].jumpable_connections by {
            assert(turned[a] == with_normal(level, jumped[a]));
            crate::surface::normal_sum(
                level,
                jumped[a].polygon_index as int,
                jumped[a].line_indicies,
                jumped[a].line_indicies.len(),
            ).lemma_normalize_within();
        }
        lemma_same_walking(turned, jumped);
    }
    setup_corners(pathfinding);
    proof {
        let done = pathfinding.graph();
        assert(done =~= with_corners(turned));
        assert forall|a: int| 0 <= a < done.len() implies (#[trigger] done[a]).normal == turned[a].normal
            && done[a].jumpable_connections == turned[a].jumpable_connections && done[a].id == turned[a].id
            && done[a].position == turned[a].position && done[a].walkable_connections
            == turned[a].walkable_connections && done[a].droppable_connections
            == turned[a].droppable_connections && done[a].line_indicies == turned[a].line_indicies by {
            assert(done[a] == with_corner(turned, a));
        }
        lemma_same_walking(done, turned);
        assert forall|i: int, k: int|
            0 <= i < done.len() && 0 <= k < done[i].jumpable_connections.len() implies 0 <= (
        #[trigger] done[i].jumpable_connections[k]).effort <= crate::ballistics::PLATFORMER_AI_JUMP_FORCE by {
            assert(done[i].jumpable_connections == turned[i].jumpable_connections);
            assert(turned[i].jumpable_connections == jumped[i].jumpable_connections);
            assert(0 <= jumped[i].jumpable_connections[k].effort <= crate::ballistics::PLATFORMER_AI_JUMP_FORCE);
        }
        assert forall|i: int| 0 <= i < done.len() implies {
            &&& links_in_range((#[trigger] done[i]).walkable_connections, done.len() as int)
            &&& links_in_range(done[i].jumpable_connections, done.len() as int)
            &&& links_in_range(done[i].droppable_connections, done.len() as int)
        } by {
            assert(done[i].jumpable_connections == jumped[i].jumpable_connections);
            assert(links_in_range(jumped[i].jumpable_connections, jumped.len() as int));
        }
    }
}

} // verus!
