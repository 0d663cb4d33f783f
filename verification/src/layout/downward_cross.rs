//! The permissive router: every connection is routed once, in order, and
//! may cross the connections before it.
//!
//! A crossing costs as much as many free steps, so a path crosses only where
//! the way round is long. The router never goes back on a path. It stops at
//! the first connection that it cannot route and returns those before it.

use vstd::prelude::*;
use crate::data::{BlockSpec, ConnectionSpec};
use crate::layout::connectors::{
    core_connectors,
    find_block_index,
    new_connection_points,
    spec_core_connectors,
    spec_find_block,
    spec_new_connection_points,
    spec_unused,
    unused_cells,
};
use crate::layout::constraint::{BlockConstraint, LayoutConstraint};
use crate::layout::display::{BlockDisplay, ConnectionDisplay, Position};
use crate::layout::path_conversion::{conn_display_with_path, spec_display_matches};
use crate::layout::pathfinder::{DisplayNodeFinder, RoutingPolicy};
use crate::layout::placement::{
    blocks_are_apart,
    spec_can_stack,
    spec_is_placed,
    spec_rows_follow,
    stack_blocks,
};
use crate::layout::routing::{
    all_pairs,
    all_placed,
    best_route,
    displays_match,
    extend_with_path,
    lemma_best_route_is_path,
    lemma_route_keeps_clearance,
    lemma_split_keeps_extent,
    path_keeps_clearance,
    routes_keep_clearance,
    spec_all_pairs,
    spec_best_route,
    spec_grid,
    split_blocks,
    Routed,
};

verus! {

/// A layout of one column of blocks whose connections may cross.
pub struct CrossingDownwardLayout {
    pub screen_width: u32,
    pub screen_height: u32,
}

/// How far the router has come: the connectors that each block still
/// offers, the cells of the paths so far, the routes so far, and whether the
/// router has stopped.
pub struct Crossing {
    pub open: Seq<Seq<Position>>,
    pub blocked: Seq<Position>,
    pub routes: Seq<Routed>,
    pub stopped: bool,
}

/// The start of routing: every block offers the midpoints of its edges.
pub open spec fn spec_crossing_start(blocks: Seq<(&BlockSpec, BlockDisplay)>) -> Crossing {
    Crossing {
        open: Seq::new(blocks.len(), |i: int| spec_core_connectors(blocks[i].1)),
        blocked: Seq::empty(),
        routes: Seq::empty(),
        stopped: false,
    }
}

/// The router with every step at a stop undone: it stays as it is.
pub open spec fn spec_crossing_stop(state: Crossing) -> Crossing {
    Crossing { open: state.open, blocked: state.blocked, routes: state.routes, stopped: true }
}

/// One connection is routed. The router stops where one of its blocks does
/// not exist or no pair of free connectors has a route. Else the shortest
/// route among those pairs is taken, its cells are added to the cells of the
/// paths, and each of the two blocks goes on to offer its free connectors and
/// the alternates of the one just used; for a connection from a block to
/// itself, those of its end.
pub open spec fn spec_crossing_step(
    blocks: Seq<(&BlockSpec, BlockDisplay)>,
    constraint: LayoutConstraint,
    connections: Seq<ConnectionSpec>,
    index: int,
    state: Crossing,
) -> Crossing {
    let conn = connections[index];
    if state.stopped {
        state
    } else {
        match (spec_find_block(blocks, conn.start@, 0), spec_find_block(blocks, conn.end@, 0)) {
            (Some(start_block), Some(end_block)) => {
                let start_conns = spec_unused(state.open[start_block], state.blocked);
                let end_conns = spec_unused(state.open[end_block], state.blocked);
                let pairs = spec_all_pairs(start_conns, end_conns);
                let grid = spec_grid(
                    blocks,
                    constraint,
                    conn,
                    state.blocked,
                    RoutingPolicy::Permissive,
                );
                match spec_best_route(grid, pairs, pairs.len() as int) {
                    Some(path) => {
                        let new_starts = start_conns + spec_new_connection_points(
                            path[0],
                            blocks[start_block].1,
                        );
                        let new_ends = end_conns + spec_new_connection_points(
                            path.last(),
                            blocks[end_block].1,
                        );
                        Crossing {
                            open: state.open.update(start_block, new_starts).update(
                                end_block,
                                new_ends,
                            ),
                            blocked: state.blocked + path,
                            routes: state.routes.push(Routed { connection: index, path: path }),
                            stopped: false,
                        }
                    },
                    None => spec_crossing_stop(state),
                }
            },
            _ => spec_crossing_stop(state),
        }
    }
}

/// The router after the first `upto` connections.
pub open spec fn spec_crossing_upto(
    blocks: Seq<(&BlockSpec, BlockDisplay)>,
    constraint: LayoutConstraint,
    connections: Seq<ConnectionSpec>,
    upto: int,
) -> Crossing
    decreases upto,
{
    if upto <= 0 {
        spec_crossing_start(blocks)
    } else {
        spec_crossing_step(
            blocks,
            constraint,
            connections,
            upto - 1,
            spec_crossing_upto(blocks, constraint, connections, upto - 1),
        )
    }
}

/// The routed connections of a layout, in the order of the connections.
pub open spec fn spec_crossing_layout(
    blocks: Seq<(&BlockSpec, BlockDisplay)>,
    constraint: LayoutConstraint,
    connections: Seq<ConnectionSpec>,
) -> Seq<Routed> {
    spec_crossing_upto(blocks, constraint, connections, connections.len() as int).routes
}

/// The cells of each list of a list of lists.
pub open spec fn cell_lists(lists: Seq<Vec<Position>>) -> Seq<Seq<Position>> {
    Seq::new(lists.len(), |i: int| lists[i]@)
}

/// Once the router has stopped, further connections change nothing.
pub proof fn lemma_crossing_stays_stopped(
    blocks: Seq<(&BlockSpec, BlockDisplay)>,
    constraint: LayoutConstraint,
    connections: Seq<ConnectionSpec>,
    at: int,
    upto: int,
)
    requires
        0 <= at <= upto,
        spec_crossing_upto(blocks, constraint, connections, at).stopped,
    ensures
        spec_crossing_upto(blocks, constraint, connections, upto) == spec_crossing_upto(
            blocks,
            constraint,
            connections,
            at,
        ),
    decreases upto - at,
{
    if at < upto {
        lemma_crossing_stays_stopped(blocks, constraint, connections, at, upto - 1);
    }
}

/// The routes of the router keep the clearance: every route is that of one
/// of the connections, and each of its cells after the first is its last or
/// keeps the clearance from the blocks that the connection does not attach
/// to and belongs to neither of the blocks that it attaches to.
pub proof fn lemma_crossing_keeps_clearance(
    blocks: Seq<(&BlockSpec, BlockDisplay)>,
    constraint: LayoutConstraint,
    connections: Seq<ConnectionSpec>,
    upto: int,
)
    requires
        upto <= connections.len(),
    ensures
        routes_keep_clearance(
            blocks,
            constraint,
            connections,
            spec_crossing_upto(blocks, constraint, connections, upto).routes,
        ),
    decreases upto,
{
    if upto > 0 {
        lemma_crossing_keeps_clearance(blocks, constraint, connections, upto - 1);
        let state = spec_crossing_upto(blocks, constraint, connections, upto - 1);
        let next = spec_crossing_upto(blocks, constraint, connections, upto);
        if next.routes != state.routes {
            let conn = connections[upto - 1];
            let start_block = spec_find_block(blocks, conn.start@, 0).unwrap();
            let end_block = spec_find_block(blocks, conn.end@, 0).unwrap();
            let pairs = spec_all_pairs(
                spec_unused(state.open[start_block], state.blocked),
                spec_unused(state.open[end_block], state.blocked),
            );
            let grid = spec_grid(
                blocks,
                constraint,
                conn,
                state.blocked,
                RoutingPolicy::Permissive,
            );
            let path = spec_best_route(grid, pairs, pairs.len() as int).unwrap();
            lemma_best_route_is_path(grid, pairs, pairs.len() as int);
            let k = choose|k: int|
                0 <= k < pairs.len() && grid.with_target((#[trigger] pairs[k]).1).is_route(
                    pairs[k].0,
                    path,
                );
            lemma_route_keeps_clearance(
                blocks,
                constraint,
                conn,
                state.blocked,
                RoutingPolicy::Permissive,
                pairs[k].0,
                pairs[k].1,
                path,
            );
            assert forall|i: int| 0 <= i < next.routes.len() implies 0 <= (
            #[trigger] next.routes[i]).connection < connections.len() && path_keeps_clearance(
                blocks,
                constraint,
                connections[next.routes[i].connection],
                next.routes[i].path,
            ) by {
                if i < state.routes.len() {
                    assert(next.routes[i] == state.routes[i]);
                }
            }
        }
    }
}

/// The cells of a list followed by the cells of another.
fn join_cells(first: Vec<Position>, second: &Vec<Position>) -> (all: Vec<Position>)
    ensures
        all@ == first@ + second@,
{
    let mut all = first;
    let mut at: usize = 0;
    while at < second.len()
        invariant
            at <= second@.len(),
            all@ == first@ + second@.take(at as int),
        decreases second.len() - at,
    {
        all.push(second[at]);
        proof {
            assert(all@ =~= first@ + second@.take(at as int + 1));
        }
        at = at + 1;
    }
    proof {
        assert(second@.take(at as int) =~= second@);
    }
    all
}

impl CrossingDownwardLayout {
    /// Sizes the blocks and stacks them in one column, centred on the
    /// screen: the first in row 0, every other where the block above it ends
    /// plus the distance between blocks, so that no two blocks share a cell.
    pub fn determine_block_vector_layout<'a>(
        &self,
        blocks: &'a [BlockSpec],
        constraint: &BlockConstraint,
    ) -> (displays: Vec<(&'a BlockSpec, BlockDisplay)>)
        requires
            spec_can_stack(blocks@, *constraint, self.screen_width),
        ensures
            displays@.len() == blocks@.len(),
            forall|i: int|
                0 <= i < blocks@.len() ==> spec_is_placed(
                    #[trigger] displays@[i],
                    blocks@,
                    *constraint,
                    self.screen_width,
                    i,
                ),
            spec_rows_follow(displays@, constraint.inter_block_distance),
            blocks_are_apart(displays@),
    {
        stack_blocks(self.screen_width, blocks, constraint)
    }

    /// Routes the connections in their order, each once. The result holds
    /// one display for every connection before the first that cannot be
    /// routed, in the order of the connections. Each route keeps the
    /// clearance from the blocks that its connection does not attach to.
    pub fn determine_connection_layout(
        &self,
        connections: &[ConnectionSpec],
        blocks: &[(&BlockSpec, BlockDisplay)],
        constraint: &LayoutConstraint,
    ) -> (displays: Vec<ConnectionDisplay>)
        requires
            all_placed(blocks@),
        ensures
            displays_match(
                displays@,
                connections@,
                spec_crossing_layout(blocks@, *constraint, connections@),
            ),
            routes_keep_clearance(
                blocks@,
                *constraint,
                connections@,
                spec_crossing_layout(blocks@, *constraint, connections@),
            ),
    {
        proof {
            lemma_crossing_keeps_clearance(
                blocks@,
                *constraint,
                connections@,
                connections@.len() as int,
            );
        }
        let mut open_connectors: Vec<Vec<Position>> = Vec::new();
        let mut filled: usize = 0;
        while filled < blocks.len()
            invariant
                filled <= blocks@.len(),
                all_placed(blocks@),
                open_connectors@.len() == filled,
                forall|i: int|
                    0 <= i < filled ==> (#[trigger] open_connectors@[i])@ == spec_core_connectors(
                        blocks@[i].1,
                    ),
            decreases blocks.len() - filled,
        {
            open_connectors.push(core_connectors(&blocks[filled].1));
            filled = filled + 1;
        }
        let mut blocked_positions: Vec<Position> = Vec::new();
        let mut paths: Vec<ConnectionDisplay> = Vec::new();
        let mut at: usize = 0;
        proof {
            assert(cell_lists(open_connectors@) =~= spec_crossing_start(blocks@).open);
        }
        while at < connections.len()
            invariant
                at <= connections@.len(),
                all_placed(blocks@),
                open_connectors@.len() == blocks@.len(),
                ({
                    let state = spec_crossing_upto(blocks@, *constraint, connections@, at as int);
                    &&& !state.stopped
                    &&& cell_lists(open_connectors@) == state.open
                    &&& blocked_positions@ == state.blocked
                    &&& displays_match(paths@, connections@, state.routes)
                }),
            ensures
                displays_match(
                    paths@,
                    connections@,
                    spec_crossing_layout(blocks@, *constraint, connections@),
                ),
            decreases connections.len() - at,
        {
            let conn = &connections[at];
            let ghost state = spec_crossing_upto(blocks@, *constraint, connections@, at as int);
            let ghost next = spec_crossing_upto(
                blocks@,
                *constraint,
                connections@,
                at as int + 1,
            );
            let start_index = find_block_index(&conn.start, blocks);
            let end_index = find_block_index(&conn.end, blocks);
            if start_index.is_none() || end_index.is_none() {
                proof {
                    assert(next == spec_crossing_stop(state));
                    lemma_crossing_stays_stopped(
                        blocks@,
                        *constraint,
                        connections@,
                        at as int + 1,
                        connections@.len() as int,
                    );
                }
                break ;
            }
            let start_at: usize = start_index.unwrap();
            let end_at: usize = end_index.unwrap();
            assert(cell_lists(open_connectors@)[start_at as int] == open_connectors@[start_at as int]@);
            assert(cell_lists(open_connectors@)[end_at as int] == open_connectors@[end_at as int]@);
            let start_conns = unused_cells(&open_connectors[start_at], &blocked_positions);
            let end_conns = unused_cells(&open_connectors[end_at], &blocked_positions);
            let (others, endpoints) = split_blocks(blocks, conn);
            proof {
                lemma_split_keeps_extent(blocks@, *conn, blocks@.len() as int);
            }
            let pairs = all_pairs(&start_conns, &end_conns);
            let ghost grid = spec_grid(
                blocks@,
                *constraint,
                *conn,
                blocked_positions@,
                RoutingPolicy::Permissive,
            );
            let mut node_finder = DisplayNodeFinder::new(
                others,
                endpoints,
                constraint,
                Position { x: 0, y: 0 },
                &blocked_positions,
                RoutingPolicy::Permissive,
            );
            let result = best_route(&mut node_finder, &pairs);
            let path = match result {
                Some(found) => found,
                None => {
                    proof {
                        assert(next == spec_crossing_stop(state));
                        lemma_crossing_stays_stopped(
                            blocks@,
                            *constraint,
                            connections@,
                            at as int + 1,
                            connections@.len() as int,
                        );
                    }
                    break ;
                },
            };
            proof {
                lemma_best_route_is_path(grid, pairs@, pairs@.len() as int);
            }
            let new_blocked = extend_with_path(&blocked_positions, &path);
            let first = path[0];
            let last = path[path.len() - 1];
            let new_starts = join_cells(start_conns, &new_connection_points(first, &blocks[start_at].1));
            let new_ends = join_cells(end_conns, &new_connection_points(last, &blocks[end_at].1));
            let ghost before = cell_lists(open_connectors@);
            open_connectors.set(start_at, new_starts);
            open_connectors.set(end_at, new_ends);
            blocked_positions = new_blocked;
            let ghost settled = paths@;
            paths.push(conn_display_with_path(conn, path));
            proof {
                assert(cell_lists(open_connectors@) =~= before.update(
                    start_at as int,
                    new_starts@,
                ).update(end_at as int, new_ends@));
                let routes = state.routes.push(Routed { connection: at as int, path: path@ });
                assert(next.routes == routes);
                assert forall|i: int| 0 <= i < routes.len() implies 0 <= (
                #[trigger] routes[i]).connection < connections@.len() && spec_display_matches(
                    paths@[i],
                    connections@[routes[i].connection],
                    routes[i].path,
                ) by {
                    if i < state.routes.len() {
                        assert(routes[i] == state.routes[i]);
                        assert(paths@[i] == settled[i]);
                    }
                }
            }
            at = at + 1;
        }
        paths
    }
}

} // verus!
