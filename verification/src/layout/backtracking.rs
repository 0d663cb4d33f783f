//! The backtracking router: one path for every connection, no two of which
//! share a cell.
//!
//! Connections are routed in their order. Each tries the shortest route
//! between the free connectors of its two blocks and hands the cells of that
//! route on to the connections after it as closed. Where those cannot be
//! routed, the connection drops candidates and tries again.

use vstd::prelude::*;
use crate::data::{BlockSpec, ConnectionSpec};
use crate::layout::connectors::{
    find_block_display,
    find_connection_points,
    lemma_all_connectors_are_free_at_first,
    lemma_connection_points_are_free,
    spec_core_connectors,
    spec_connection_points,
    spec_find_block,
};
use crate::layout::constraint::{BlockConstraint, LayoutConstraint};
use crate::layout::display::{BlockDisplay, ConnectionDisplay, Position};
use crate::layout::path_conversion::{conn_display_with_path, spec_display_matches};
use crate::layout::pathfinder::{DisplayNodeFinder, RoutingPolicy};
use crate::layout::placement::{
    blocks_are_apart,
    spec_can_stack,
    spec_is_placed,
    spec_rows_follow,
    stack_blocks,
};
use crate::layout::routing::{
    all_pairs,
    all_placed,
    best_route,
    displays_match,
    extend_with_path,
    lemma_attempt_limit_is_small,
    lemma_attempt_limit_positive,
    lemma_best_route_is_path,
    lemma_eight_to_bound,
    lemma_attempt_pairs_are_free,
    lemma_push_keeps_apart,
    lemma_route_keeps_clearance,
    lemma_same_best_route,
    lemma_shrink_below_limit,
    lemma_split_keeps_extent,
    lemma_strict_route_avoids_taken,
    path_keeps_clearance,
    routes_keep_apart,
    routes_keep_clearance,
    shrink_candidates,
    spec_all_pairs,
    spec_attempt_limit,
    spec_best_route,
    spec_grid,
    spec_shrink,
    split_blocks,
    Routed,
};

verus! {

/// A layout of one column of blocks whose connections never cross.
pub struct BacktrackingDownwardLayout {
    pub screen_width: u32,
    pub screen_height: u32,
}

/// Whether both blocks of a connection exist.
pub open spec fn spec_resolves(blocks: Seq<(&BlockSpec, BlockDisplay)>, conn: ConnectionSpec) -> bool {
    spec_find_block(blocks, conn.start@, 0).is_some() && spec_find_block(
        blocks,
        conn.end@,
        0,
    ).is_some()
}

/// The free connectors of the block at the start of a connection.
pub open spec fn spec_start_points(
    blocks: Seq<(&BlockSpec, BlockDisplay)>,
    conn: ConnectionSpec,
    taken: Seq<Position>,
) -> Seq<Position> {
    spec_connection_points(blocks[spec_find_block(blocks, conn.start@, 0).unwrap()].1, taken)
}

/// The free connectors of the block at the end of a connection.
pub open spec fn spec_end_points(
    blocks: Seq<(&BlockSpec, BlockDisplay)>,
    conn: ConnectionSpec,
    taken: Seq<Position>,
) -> Seq<Position> {
    spec_connection_points(blocks[spec_find_block(blocks, conn.end@, 0).unwrap()].1, taken)
}

/// The routes of the connections from index `from` on, given the cells that
/// the connections before hold. A connection one of whose blocks does not
/// exist is passed over. The routes stand in the order in which they are
/// settled: the last connection first. `None` says that the connections
/// cannot all be routed.
pub open spec fn spec_route_from(
    blocks: Seq<(&BlockSpec, BlockDisplay)>,
    constraint: LayoutConstraint,
    connections: Seq<ConnectionSpec>,
    from: int,
    taken: Seq<Position>,
) -> Option<Seq<Routed>>
    decreases connections.len() - from, 1nat, 0nat,
{
    if from < 0 || from >= connections.len() {
        Some(Seq::empty())
    } else if spec_resolves(blocks, connections[from]) {
        spec_attempts(blocks, constraint, connections, from, taken, 0)
    } else {
        spec_route_from(blocks, constraint, connections, from + 1, taken)
    }
}

/// The routes of the connections from index `from` on, where the connection
/// at `from` is at the given attempt. The attempt fails the search where it
/// leaves a candidate set empty or no candidate pair has a route. Else the
/// shortest route is taken, and the connections after it are routed with its
/// cells closed. Where they cannot be, the next attempt follows.
pub open spec fn spec_attempts(
    blocks: Seq<(&BlockSpec, BlockDisplay)>,
    constraint: LayoutConstraint,
    connections: Seq<ConnectionSpec>,
    from: int,
    taken: Seq<Position>,
    attempt: nat,
) -> Option<Seq<Routed>>
    decreases
        connections.len() - from,
        0nat,
        spec_attempt_limit(
            spec_start_points(blocks, connections[from], taken).len(),
            spec_end_points(blocks, connections[from], taken).len(),
            true,
        ) - attempt,
{
    if from < 0 || from >= connections.len() {
        None
    } else {
        let conn = connections[from];
        let starts = spec_start_points(blocks, conn, taken);
        let ends = spec_end_points(blocks, conn, taken);
        match spec_shrink(starts, ends, attempt, true) {
            None => None,
            Some((cur_starts, cur_ends)) => {
                let pairs = spec_all_pairs(cur_starts, cur_ends);
                let grid = spec_grid(blocks, constraint, conn, taken, RoutingPolicy::Strict);
                match spec_best_route(grid, pairs, pairs.len() as int) {
                    None => None,
                    Some(path) => match spec_route_from(
                        blocks,
                        constraint,
                        connections,
                        from + 1,
                        taken + path,
                    ) {
                        Some(rest) => Some(rest.push(Routed { connection: from, path: path })),
                        None => if attempt + 1 < spec_attempt_limit(
                            starts.len(),
                            ends.len(),
                            true,
                        ) {
                            spec_attempts(
                                blocks,
                                constraint,
                                connections,
                                from,
                                taken,
                                attempt + 1,
                            )
                        } else {
                            None
                        },
                    },
                }
            },
        }
    }
}

/// The routed connections of a layout: those of a search from the first
/// connection with no cell held, and none where that search fails.
pub open spec fn spec_connection_layout(
    blocks: Seq<(&BlockSpec, BlockDisplay)>,
    constraint: LayoutConstraint,
    connections: Seq<ConnectionSpec>,
) -> Seq<Routed> {
    match spec_route_from(blocks, constraint, connections, 0, Seq::empty()) {
        Some(routes) => routes,
        None => Seq::empty(),
    }
}

/// Whether a search result stands for the routes that are due.
pub open spec fn result_is(
    result: Option<Vec<ConnectionDisplay>>,
    connections: Seq<ConnectionSpec>,
    routes: Option<Seq<Routed>>,
) -> bool {
    match result {
        Some(displays) => routes.is_some() && displays_match(
            displays@,
            connections,
            routes.unwrap(),
        ),
        None => routes.is_none(),
    }
}

impl BacktrackingDownwardLayout {
    /// Sizes the blocks and stacks them in one column, centred on the
    /// screen: the first in row 0, every other where the block above it ends
    /// plus the distance between blocks, so that no two blocks share a cell.
    pub fn determine_block_vector_layout<'a>(
        &self,
        blocks: &'a [BlockSpec],
        constraint: &BlockConstraint,
    ) -> (displays: Vec<(&'a BlockSpec, BlockDisplay)>)
        requires
            spec_can_stack(blocks@, *constraint, self.screen_width),
        ensures
            displays@.len() == blocks@.len(),
            forall|i: int|
                0 <= i < blocks@.len() ==> spec_is_placed(
                    #[trigger] displays@[i],
                    blocks@,
                    *constraint,
                    self.screen_width,
                    i,
                ),
            spec_rows_follow(displays@, constraint.inter_block_distance),
            blocks_are_apart(displays@),
    {
        stack_blocks(self.screen_width, blocks, constraint)
    }

    /// Routes the connections. The result holds one display for every
    /// connection whose blocks exist, the last connection first, and is empty
    /// where the connections cannot all be routed without sharing a cell.
    /// The routes that are drawn move by unit steps, no two of them share a
    /// cell, and each keeps the clearance from the blocks that its connection
    /// does not attach to.
    pub fn determine_connection_layout(
        &self,
        connections: &[ConnectionSpec],
        blocks: &[(&BlockSpec, BlockDisplay)],
        constraint: &LayoutConstraint,
    ) -> (displays: Vec<ConnectionDisplay>)
        requires
            all_placed(blocks@),
        ensures
            displays_match(
                displays@,
                connections@,
                spec_connection_layout(blocks@, *constraint, connections@),
            ),
            routes_keep_apart(
                spec_connection_layout(blocks@, *constraint, connections@),
                Seq::empty(),
            ),
            routes_keep_clearance(
                blocks@,
                *constraint,
                connections@,
                spec_connection_layout(blocks@, *constraint, connections@),
            ),
    {
        let taken: Vec<Position> = Vec::new();
        proof {
            if spec_route_from(blocks@, *constraint, connections@, 0, Seq::empty()).is_some() {
                lemma_routes_never_overlap(blocks@, *constraint, connections@, 0, Seq::empty());
                lemma_routes_keep_clearance(blocks@, *constraint, connections@, 0, Seq::empty());
            }
        }
        match self.recursive_connection_determination(connections, 0, blocks, constraint, &taken) {
            Some(displays) => displays,
            None => Vec::new(),
        }
    }

    /// Routes the connections from index `from` on, given the cells that the
    /// connections before hold. `None` says that they cannot all be routed.
    pub fn recursive_connection_determination(
        &self,
        connections: &[ConnectionSpec],
        from: usize,
        blocks: &[(&BlockSpec, BlockDisplay)],
        constraint: &LayoutConstraint,
        current_paths: &Vec<Position>,
    ) -> (result: Option<Vec<ConnectionDisplay>>)
        requires
            all_placed(blocks@),
            from <= connections@.len(),
        ensures
            result_is(
                result,
                connections@,
                spec_route_from(blocks@, *constraint, connections@, from as int, current_paths@),
            ),
        decreases connections@.len() - from,
    {
        if from >= connections.len() {
            return Some(Vec::new());
        }
        let conn = &connections[from];
        let start_block = match find_block_display(&conn.start, blocks) {
            Some(x) => x,
            None => {
                return self.recursive_connection_determination(
                    connections,
                    from + 1,
                    blocks,
                    constraint,
                    current_paths,
                );
            },
        };
        let end_block = match find_block_display(&conn.end, blocks) {
            Some(x) => x,
            None => {
                return self.recursive_connection_determination(
                    connections,
                    from + 1,
                    blocks,
                    constraint,
                    current_paths,
                );
            },
        };
        let (others, endpoints) = split_blocks(blocks, conn);
        proof {
            lemma_split_keeps_extent(blocks@, *conn, blocks@.len() as int);
        }
        let mut finder = DisplayNodeFinder::new(
            others,
            endpoints,
            constraint,
            Position { x: 0, y: 0 },
            current_paths,
            RoutingPolicy::Strict,
        );
        let start_connections = find_connection_points(start_block, current_paths);
        let end_connections = find_connection_points(end_block, current_paths);
        let ghost grid = spec_grid(
            blocks@,
            *constraint,
            *conn,
            current_paths@,
            RoutingPolicy::Strict,
        );
        let ghost limit = spec_attempt_limit(
            start_connections@.len(),
            end_connections@.len(),
            true,
        );
        proof {
            lemma_attempt_limit_is_small(
                start_connections@.len(),
                end_connections@.len(),
                true,
            );
            lemma_eight_to_bound(start_connections@.len() + end_connections@.len());
            lemma_attempt_limit_positive(
                start_connections@.len(),
                end_connections@.len(),
                true,
            );
        }
        let mut iter_run: u64 = 0;
        loop
            invariant
                all_placed(blocks@),
                from < connections@.len() <= usize::MAX,
                *conn == connections@[from as int],
                spec_resolves(blocks@, *conn),
                start_connections@ == spec_start_points(blocks@, *conn, current_paths@),
                end_connections@ == spec_end_points(blocks@, *conn, current_paths@),
                limit == spec_attempt_limit(
                    start_connections@.len(),
                    end_connections@.len(),
                    true,
                ),
                limit <= 0x1_0000_0000_0000,
                iter_run <= limit,
                grid == spec_grid(
                    blocks@,
                    *constraint,
                    *conn,
                    current_paths@,
                    RoutingPolicy::Strict,
                ),
                finder@.with_target(grid.target) == grid,
                spec_route_from(blocks@, *constraint, connections@, from as int, current_paths@)
                    == (if iter_run < limit {
                    spec_attempts(
                        blocks@,
                        *constraint,
                        connections@,
                        from as int,
                        current_paths@,
                        iter_run as nat,
                    )
                } else {
                    None
                }),
            decreases limit - iter_run,
        {
            let shrunk = shrink_candidates(&start_connections, &end_connections, iter_run);
            proof {
                if spec_shrink(start_connections@, end_connections@, iter_run as nat, true).is_some() {
                    lemma_shrink_below_limit(
                        start_connections@,
                        end_connections@,
                        iter_run as nat,
                        true,
                    );
                }
            }
            let (cur_starts, cur_ends) = match shrunk {
                Some(sets) => sets,
                None => {
                    return None;
                },
            };
            let pairs = all_pairs(&cur_starts, &cur_ends);
            let ghost before = finder@;
            let result = best_route(&mut finder, &pairs);
            proof {
                assert(before.with_target(grid.target) == grid);
                lemma_same_best_route(before, grid, pairs@, pairs@.len() as int);
                assert(finder@.with_target(grid.target) == before.with_target(grid.target));
            }
            match result {
                Some(path) => {
                    proof {
                        lemma_best_route_is_path(grid, pairs@, pairs@.len() as int);
                    }
                    let new_paths = extend_with_path(current_paths, &path);
                    let lower_result = self.recursive_connection_determination(
                        connections,
                        from + 1,
                        blocks,
                        constraint,
                        &new_paths,
                    );
                    match lower_result {
                        Some(mut vals) => {
                            let ghost rest = spec_route_from(
                                blocks@,
                                *constraint,
                                connections@,
                                from as int + 1,
                                current_paths@ + path@,
                            ).unwrap();
                            let ghost settled = vals@;
                            vals.push(conn_display_with_path(conn, path));
                            proof {
                                let routes = rest.push(Routed { connection: from as int, path: path@ });
                                assert forall|i: int| 0 <= i < routes.len() implies 0 <= (
                                #[trigger] routes[i]).connection < connections@.len()
                                    && spec_display_matches(
                                    vals@[i],
                                    connections@[routes[i].connection],
                                    routes[i].path,
                                ) by {
                                    if i < rest.len() {
                                        assert(routes[i] == rest[i]);
                                        assert(vals@[i] == settled[i]);
                                    }
                                }
                            }
                            return Some(vals);
                        },
                        None => {},
                    }
                },
                None => {
                    return None;
                },
            }
            iter_run = iter_run + 1;
        }
    }
}

/// The routes of a search never overlap: every path moves by unit steps,
/// no path shares a cell with the cells that were held when the search
/// began, and no two paths share a cell.
pub proof fn lemma_routes_never_overlap(
    blocks: Seq<(&BlockSpec, BlockDisplay)>,
    constraint: LayoutConstraint,
    connections: Seq<ConnectionSpec>,
    from: int,
    taken: Seq<Position>,
)
    requires
        spec_route_from(blocks, constraint, connections, from, taken).is_some(),
    ensures
        routes_keep_apart(
            spec_route_from(blocks, constraint, connections, from, taken).unwrap(),
            taken,
        ),
    decreases connections.len() - from, 1nat, 0nat,
{
    if from < 0 || from >= connections.len() {
    } else if spec_resolves(blocks, connections[from]) {
        lemma_attempts_never_overlap(blocks, constraint, connections, from, taken, 0);
    } else {
        lemma_routes_never_overlap(blocks, constraint, connections, from + 1, taken);
    }
}

/// The routes of a search that is at a given attempt never overlap.
pub proof fn lemma_attempts_never_overlap(
    blocks: Seq<(&BlockSpec, BlockDisplay)>,
    constraint: LayoutConstraint,
    connections: Seq<ConnectionSpec>,
    from: int,
    taken: Seq<Position>,
    attempt: nat,
)
    requires
        spec_attempts(blocks, constraint, connections, from, taken, attempt).is_some(),
    ensures
        routes_keep_apart(
            spec_attempts(blocks, constraint, connections, from, taken, attempt).unwrap(),
            taken,
        ),
    decreases
        connections.len() - from,
        0nat,
        spec_attempt_limit(
            spec_start_points(blocks, connections[from], taken).len(),
            spec_end_points(blocks, connections[from], taken).len(),
            true,
        ) - attempt,
{
    let conn = connections[from];
    let starts = spec_start_points(blocks, conn, taken);
    let ends = spec_end_points(blocks, conn, taken);
    let shrunk = spec_shrink(starts, ends, attempt, true).unwrap();
    let pairs = spec_all_pairs(shrunk.0, shrunk.1);
    let grid = spec_grid(blocks, constraint, conn, taken, RoutingPolicy::Strict);
    let path = spec_best_route(grid, pairs, pairs.len() as int).unwrap();
    let lower = spec_route_from(blocks, constraint, connections, from + 1, taken + path);
    if lower.is_some() {
        let rest = lower.unwrap();
        lemma_routes_never_overlap(blocks, constraint, connections, from + 1, taken + path);
        lemma_best_route_is_path(grid, pairs, pairs.len() as int);
        let k = choose|k: int|
            0 <= k < pairs.len() && grid.with_target((#[trigger] pairs[k]).1).is_route(
                pairs[k].0,
                path,
            );
        lemma_connection_points_are_free(
            blocks[spec_find_block(blocks, conn.start@, 0).unwrap()].1,
            taken,
        );
        lemma_connection_points_are_free(
            blocks[spec_find_block(blocks, conn.end@, 0).unwrap()].1,
            taken,
        );
        lemma_attempt_pairs_are_free(starts, ends, attempt, taken);
        lemma_strict_route_avoids_taken(grid.with_target(pairs[k].1), pairs[k].0, path);
        lemma_push_keeps_apart(rest, taken, path, from);
    } else {
        lemma_attempts_never_overlap(blocks, constraint, connections, from, taken, attempt + 1);
    }
}

/// The routes of a search keep the clearance: every route is that of one
/// of the connections, and each of its cells after the first is its last or
/// keeps the clearance from the blocks that the connection does not attach
/// to and belongs to neither of the blocks that it attaches to.
pub proof fn lemma_routes_keep_clearance(
    blocks: Seq<(&BlockSpec, BlockDisplay)>,
    constraint: LayoutConstraint,
    connections: Seq<ConnectionSpec>,
    from: int,
    taken: Seq<Position>,
)
    requires
        spec_route_from(blocks, constraint, connections, from, taken).is_some(),
    ensures
        routes_keep_clearance(
            blocks,
            constraint,
            connections,
            spec_route_from(blocks, constraint, connections, from, taken).unwrap(),
        ),
    decreases connections.len() - from, 1nat, 0nat,
{
    if from < 0 || from >= connections.len() {
    } else if spec_resolves(blocks, connections[from]) {
        lemma_attempts_keep_clearance(blocks, constraint, connections, from, taken, 0);
    } else {
        lemma_routes_keep_clearance(blocks, constraint, connections, from + 1, taken);
    }
}

/// The routes of a search that is at a given attempt keep the clearance.
pub proof fn lemma_attempts_keep_clearance(
    blocks: Seq<(&BlockSpec, BlockDisplay)>,
    constraint: LayoutConstraint,
    connections: Seq<ConnectionSpec>,
    from: int,
    taken: Seq<Position>,
    attempt: nat,
)
    requires
        spec_attempts(blocks, constraint, connections, from, taken, attempt).is_some(),
    ensures
        routes_keep_clearance(
            blocks,
            constraint,
            connections,
            spec_attempts(blocks, constraint, connections, from, taken, attempt).unwrap(),
        ),
    decreases
        connections.len() - from,
        0nat,
        spec_attempt_limit(
            spec_start_points(blocks, connections[from], taken).len(),
            spec_end_points(blocks, connections[from], taken).len(),
            true,
        ) - attempt,
{
    let conn = connections[from];
    let starts = spec_start_points(blocks, conn, taken);
    let ends = spec_end_points(blocks, conn, taken);
    let shrunk = spec_shrink(starts, ends, attempt, true).unwrap();
    let pairs = spec_all_pairs(shrunk.0, shrunk.1);
    let grid = spec_grid(blocks, constraint, conn, taken, RoutingPolicy::Strict);
    let path = spec_best_route(grid, pairs, pairs.len() as int).unwrap();
    let lower = spec_route_from(blocks, constraint, connections, from + 1, taken + path);
    if lower.is_some() {
        let rest = lower.unwrap();
        let routes = rest.push(Routed { connection: from, path: path });
        lemma_routes_keep_clearance(blocks, constraint, connections, from + 1, taken + path);
        lemma_best_route_is_path(grid, pairs, pairs.len() as int);
        let k = choose|k: int|
            0 <= k < pairs.len() && grid.with_target((#[trigger] pairs[k]).1).is_route(
                pairs[k].0,
                path,
            );
        lemma_route_keeps_clearance(
            blocks,
            constraint,
            conn,
            taken,
            RoutingPolicy::Strict,
            pairs[k].0,
            pairs[k].1,
            path,
        );
        assert forall|i: int| 0 <= i < routes.len() implies 0 <= (
        #[trigger] routes[i]).connection < connections.len() && path_keeps_clearance(
            blocks,
            constraint,
            connections[routes[i].connection],
            routes[i].path,
        ) by {
            if i < rest.len() {
                assert(routes[i] == rest[i]);
            }
        }
    } else {
        lemma_attempts_keep_clearance(blocks, constraint, connections, from, taken, attempt + 1);
    }
}

/// The layout of a single connection whose blocks exist holds exactly one
/// route where a pair of edge midpoints of its two blocks has a route, and
/// that is the shortest among the routes of those pairs, the first among
/// equals; it holds none where no pair has a route.
pub proof fn lemma_one_connection_has_one_route(
    blocks: Seq<(&BlockSpec, BlockDisplay)>,
    constraint: LayoutConstraint,
    connections: Seq<ConnectionSpec>,
)
    requires
        connections.len() == 1,
        spec_resolves(blocks, connections[0]),
    ensures
        ({
            let conn = connections[0];
            let pairs = spec_all_pairs(
                spec_core_connectors(blocks[spec_find_block(blocks, conn.start@, 0).unwrap()].1),
                spec_core_connectors(blocks[spec_find_block(blocks, conn.end@, 0).unwrap()].1),
            );
            let grid = spec_grid(blocks, constraint, conn, Seq::empty(), RoutingPolicy::Strict);
            spec_connection_layout(blocks, constraint, connections) == match spec_best_route(
                grid,
                pairs,
                pairs.len() as int,
            ) {
                Some(path) => seq![Routed { connection: 0, path: path }],
                None => Seq::empty(),
            }
        }),
{
    let conn = connections[0];
    let none = Seq::<Position>::empty();
    let start_block = blocks[spec_find_block(blocks, conn.start@, 0).unwrap()].1;
    let end_block = blocks[spec_find_block(blocks, conn.end@, 0).unwrap()].1;
    lemma_all_connectors_are_free_at_first(start_block);
    lemma_all_connectors_are_free_at_first(end_block);
    let starts = spec_core_connectors(start_block);
    let ends = spec_core_connectors(end_block);
    assert(spec_shrink(starts, ends, 0, true) == Some((starts, ends)));
    let pairs = spec_all_pairs(starts, ends);
    let grid = spec_grid(blocks, constraint, conn, none, RoutingPolicy::Strict);
    let due = spec_route_from(blocks, constraint, connections, 0, none);
    assert(due == spec_attempts(blocks, constraint, connections, 0, none, 0));
    match spec_best_route(grid, pairs, pairs.len() as int) {
        Some(path) => {
            assert(spec_route_from(blocks, constraint, connections, 1, none + path) == Some(
                Seq::<Routed>::empty(),
            ));
            assert(Seq::<Routed>::empty().push(Routed { connection: 0, path: path }) =~= seq![
                Routed { connection: 0, path: path },
            ]);
        },
        None => {},
    }
}

/// A connection from a block to itself draws its start and its end
/// connectors from the same block.
pub proof fn lemma_self_connection_shares_block(
    blocks: Seq<(&BlockSpec, BlockDisplay)>,
    conn: ConnectionSpec,
    taken: Seq<Position>,
)
    requires
        conn.start@ == conn.end@,
    ensures
        spec_find_block(blocks, conn.start@, 0) == spec_find_block(blocks, conn.end@, 0),
        spec_start_points(blocks, conn, taken) == spec_end_points(blocks, conn, taken),
{
}

} // verus!
