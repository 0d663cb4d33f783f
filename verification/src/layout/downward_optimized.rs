//! The backtracking router with a memory: paths between pairs of cells are
//! kept in a cache and used again while the search backtracks.

use vstd::prelude::*;
use crate::data::{BlockSpec, ConnectionSpec};
use crate::layout::backtracking::{result_is, spec_end_points, spec_resolves, spec_start_points};
use crate::layout::connectors::{
    find_block_display,
    find_connection_points,
    lemma_connection_points_are_free,
    spec_find_block,
};
use crate::layout::constraint::{BlockConstraint, LayoutConstraint};
use crate::layout::display::{BlockDisplay, ConnectionDisplay, Position};
use crate::layout::memoizer::{
    cache_is_sound,
    is_path_between,
    spec_get_path,
    spec_empty_cache,
    spec_get_shortest_option,
    spec_pick,
    spec_scan,
    Cache,
    PathMemoizer,
};
use crate::layout::path_conversion::{conn_display_with_path, is_unit_path, spec_display_matches};
use crate::layout::pathfinder::{lemma_route_is_unit_path, DisplayNodeFinder, RoutingPolicy, SearchGrid};
use crate::layout::placement::{
    blocks_are_apart,
    spec_can_stack,
    spec_is_placed,
    spec_rows_follow,
    stack_blocks,
};
use crate::layout::routing::{
    all_pairs,
    all_placed,
    attaches_at,
    disjoint,
    displays_match,
    extend_with_path,
    lemma_attempt_limit_is_small,
    lemma_attempt_limit_positive,
    lemma_attached_alike,
    lemma_attempt_pairs_are_free,
    lemma_attempt_pairs_attach,
    lemma_eight_to_bound,
    lemma_push_keeps_apart,
    lemma_route_keeps_clearance,
    lemma_shrink_below_limit,
    lemma_split_keeps_extent,
    lemma_strict_route_avoids_taken,
    path_keeps_clearance,
    routes_keep_apart,
    routes_keep_clearance,
    same_problem,
    shrink_candidates,
    spec_all_pairs,
    spec_attempt_limit,
    spec_grid,
    spec_shrink,
    split_blocks,
    Routed,
};

verus! {

/// A layout of one column of blocks whose connections never cross, routed
/// with a cache of paths.
pub struct MemoizingDownwardLayout {
    pub screen_width: u32,
    pub screen_height: u32,
}

/// The outcome of a search with a cache: the routes, or `None` where the
/// connections cannot all be routed, and what the cache holds afterwards.
pub struct MemoRouting {
    pub routes: Option<Seq<Routed>>,
    pub cache: Cache,
}

/// The routes of the connections from index `from` on, given the cells that
/// the connections before hold and what the cache holds. A connection one
/// of whose blocks does not exist is passed over. The routes stand in the
/// order in which they are settled: the last connection first.
pub open spec fn spec_memo_route_from(
    blocks: Seq<(&BlockSpec, BlockDisplay)>,
    constraint: LayoutConstraint,
    connections: Seq<ConnectionSpec>,
    from: int,
    taken: Seq<Position>,
    cache: Cache,
) -> MemoRouting
    decreases connections.len() - from, 1nat, 0nat,
{
    if from < 0 || from >= connections.len() {
        MemoRouting { routes: Some(Seq::empty()), cache: cache }
    } else if spec_resolves(blocks, connections[from]) {
        spec_memo_attempts(
            blocks,
            constraint,
            connections,
            from,
            taken,
            cache,
            spec_grid(blocks, constraint, connections[from], taken, RoutingPolicy::Strict),
            0,
        )
    } else {
        spec_memo_route_from(blocks, constraint, connections, from + 1, taken, cache)
    }
}

/// The routes of the connections from index `from` on, where the connection
/// at `from` is at the given attempt and its search problem has come to be
/// `finder`. The attempt fails the search where it leaves a candidate set
/// empty or the cache and the search yield no path for any candidate pair.
/// Else the shortest path is taken, and the connections after it are routed
/// with its cells closed. Where they cannot be, the next attempt follows.
pub open spec fn spec_memo_attempts(
    blocks: Seq<(&BlockSpec, BlockDisplay)>,
    constraint: LayoutConstraint,
    connections: Seq<ConnectionSpec>,
    from: int,
    taken: Seq<Position>,
    cache: Cache,
    finder: SearchGrid,
    attempt: nat,
) -> MemoRouting
    decreases
        connections.len() - from,
        0nat,
        spec_attempt_limit(
            spec_start_points(blocks, connections[from], taken).len(),
            spec_end_points(blocks, connections[from], taken).len(),
            true,
        ) - attempt,
{
    if from < 0 || from >= connections.len() {
        MemoRouting { routes: None, cache: cache }
    } else {
        let conn = connections[from];
        let starts = spec_start_points(blocks, conn, taken);
        let ends = spec_end_points(blocks, conn, taken);
        match spec_shrink(starts, ends, attempt, true) {
            None => MemoRouting { routes: None, cache: cache },
            Some((cur_starts, cur_ends)) => {
                let pairs = spec_all_pairs(cur_starts, cur_ends);
                let got = spec_get_shortest_option::<DisplayNodeFinder>(cache, finder, pairs);
                match got.path {
                    None => MemoRouting { routes: None, cache: got.cache },
                    Some(path) => {
                        let lower = spec_memo_route_from(
                            blocks,
                            constraint,
                            connections,
                            from + 1,
                            taken + path,
                            got.cache,
                        );
                        match lower.routes {
                            Some(rest) => MemoRouting {
                                routes: Some(rest.push(Routed { connection: from, path: path })),
                                cache: lower.cache,
                            },
                            None => if attempt + 1 < spec_attempt_limit(
                                starts.len(),
                                ends.len(),
                                true,
                            ) {
                                spec_memo_attempts(
                                    blocks,
                                    constraint,
                                    connections,
                                    from,
                                    taken,
                                    lower.cache,
                                    got.creator,
                                    attempt + 1,
                                )
                            } else {
                                MemoRouting { routes: None, cache: lower.cache }
                            },
                        }
                    },
                }
            },
        }
    }
}

/// The routed connections of a layout: those of a search from the first
/// connection with no cell held and an empty cache, and none where that
/// search fails.
pub open spec fn spec_memo_connection_layout(
    blocks: Seq<(&BlockSpec, BlockDisplay)>,
    constraint: LayoutConstraint,
    connections: Seq<ConnectionSpec>,
) -> Seq<Routed> {
    match spec_memo_route_from(
        blocks,
        constraint,
        connections,
        0,
        Seq::empty(),
        spec_empty_cache(),
    ).routes {
        Some(routes) => routes,
        None => Seq::empty(),
    }
}

impl MemoizingDownwardLayout {
    /// Sizes the blocks and stacks them in one column, centred on the
    /// screen: the first in row 0, every other where the block above it ends
    /// plus the distance between blocks, so that no two blocks share a cell.
    pub fn determine_block_vector_layout<'a>(
        &self,
        blocks: &'a [BlockSpec],
        constraint: &BlockConstraint,
    ) -> (displays: Vec<(&'a BlockSpec, BlockDisplay)>)
        requires
            spec_can_stack(blocks@, *constraint, self.screen_width),
        ensures
            displays@.len() == blocks@.len(),
            forall|i: int|
                0 <= i < blocks@.len() ==> spec_is_placed(
                    #[trigger] displays@[i],
                    blocks@,
                    *constraint,
                    self.screen_width,
                    i,
                ),
            spec_rows_follow(displays@, constraint.inter_block_distance),
            blocks_are_apart(displays@),
    {
        stack_blocks(self.screen_width, blocks, constraint)
    }

    /// Routes the connections with a fresh cache. The result holds one
    /// display for every connection whose blocks exist, the last connection
    /// first, and is empty where the connections cannot all be routed
    /// without sharing a cell. The routes that are drawn move by unit steps
    /// and no two of them share a cell. Where no two blocks share a cell,
    /// each route also keeps the clearance from the blocks that its
    /// connection does not attach to; the cache files paths by their two
    /// ends alone, so between blocks that overlap a path may be used again
    /// for a connection of other blocks.
    pub fn determine_connection_layout(
        &self,
        connections: &[ConnectionSpec],
        blocks: &[(&BlockSpec, BlockDisplay)],
        constraint: &LayoutConstraint,
    ) -> (displays: Vec<ConnectionDisplay>)
        requires
            all_placed(blocks@),
        ensures
            displays_match(
                displays@,
                connections@,
                spec_memo_connection_layout(blocks@, *constraint, connections@),
            ),
            routes_keep_apart(
                spec_memo_connection_layout(blocks@, *constraint, connections@),
                Seq::empty(),
            ),
            blocks_are_apart(blocks@) ==> routes_keep_clearance(
                blocks@,
                *constraint,
                connections@,
                spec_memo_connection_layout(blocks@, *constraint, connections@),
            ),
    {
        let taken: Vec<Position> = Vec::new();
        let mut memoizer = PathMemoizer::new();
        proof {
            if blocks_are_apart(blocks@) {
                lemma_memo_routes_keep_clearance(
                    blocks@,
                    *constraint,
                    connections@,
                    0,
                    Seq::empty(),
                    spec_empty_cache(),
                );
            }
            lemma_memo_routes_never_overlap(
                blocks@,
                *constraint,
                connections@,
                0,
                Seq::empty(),
                spec_empty_cache(),
            );
        }
        match self.recursive_connection_determination(
            connections,
            0,
            blocks,
            constraint,
            &taken,
            &mut memoizer,
        ) {
            Some(displays) => displays,
            None => Vec::new(),
        }
    }

    /// Routes the connections from index `from` on, given the cells that the
    /// connections before hold. Paths are asked of the cache, which files
    /// those that it has to search. `None` says that the connections cannot
    /// all be routed.
    pub fn recursive_connection_determination(
        &self,
        connections: &[ConnectionSpec],
        from: usize,
        blocks: &[(&BlockSpec, BlockDisplay)],
        constraint: &LayoutConstraint,
        current_paths: &Vec<Position>,
        memoizer: &mut PathMemoizer,
    ) -> (result: Option<Vec<ConnectionDisplay>>)
        requires
            all_placed(blocks@),
            from <= connections@.len(),
            old(memoizer).wf(),
        ensures
            final(memoizer).wf(),
            result_is(
                result,
                connections@,
                spec_memo_route_from(
                    blocks@,
                    *constraint,
                    connections@,
                    from as int,
                    current_paths@,
                    old(memoizer)@,
                ).routes,
            ),
            final(memoizer)@ == spec_memo_route_from(
                blocks@,
                *constraint,
                connections@,
                from as int,
                current_paths@,
                old(memoizer)@,
            ).cache,
        decreases connections@.len() - from,
    {
        if from >= connections.len() {
            return Some(Vec::new());
        }
        let conn = &connections[from];
        let start_block = match find_block_display(&conn.start, blocks) {
            Some(x) => x,
            None => {
                return self.recursive_connection_determination(
                    connections,
                    from + 1,
                    blocks,
                    constraint,
                    current_paths,
                    memoizer,
                );
            },
        };
        let end_block = match find_block_display(&conn.end, blocks) {
            Some(x) => x,
            None => {
                return self.recursive_connection_determination(
                    connections,
                    from + 1,
                    blocks,
                    constraint,
                    current_paths,
                    memoizer,
                );
            },
        };
        let (others, endpoints) = split_blocks(blocks, conn);
        proof {
            lemma_split_keeps_extent(blocks@, *conn, blocks@.len() as int);
        }
        let mut node_finder = DisplayNodeFinder::new(
            others,
            endpoints,
            constraint,
            Position { x: 0, y: 0 },
            current_paths,
            RoutingPolicy::Strict,
        );
        let start_connections = find_connection_points(start_block, current_paths);
        let end_connections = find_connection_points(end_block, current_paths);
        let ghost limit = spec_attempt_limit(
            start_connections@.len(),
            end_connections@.len(),
            true,
        );
        let ghost due = spec_memo_route_from(
            blocks@,
            *constraint,
            connections@,
            from as int,
            current_paths@,
            old(memoizer)@,
        );
        proof {
            lemma_attempt_limit_is_small(
                start_connections@.len(),
                end_connections@.len(),
                true,
            );
            lemma_eight_to_bound(start_connections@.len() + end_connections@.len());
            lemma_attempt_limit_positive(
                start_connections@.len(),
                end_connections@.len(),
                true,
            );
        }
        let mut iter_run: u64 = 0;
        loop
            invariant
                all_placed(blocks@),
                from < connections@.len() <= usize::MAX,
                *conn == connections@[from as int],
                spec_resolves(blocks@, *conn),
                start_connections@ == spec_start_points(blocks@, *conn, current_paths@),
                end_connections@ == spec_end_points(blocks@, *conn, current_paths@),
                limit == spec_attempt_limit(
                    start_connections@.len(),
                    end_connections@.len(),
                    true,
                ),
                limit <= 0x1_0000_0000_0000,
                iter_run <= limit,
                memoizer.wf(),
                due == spec_memo_route_from(
                    blocks@,
                    *constraint,
                    connections@,
                    from as int,
                    current_paths@,
                    old(memoizer)@,
                ),
                iter_run < limit ==> due == spec_memo_attempts(
                    blocks@,
                    *constraint,
                    connections@,
                    from as int,
                    current_paths@,
                    memoizer@,
                    node_finder@,
                    iter_run as nat,
                ),
                iter_run >= limit ==> due == (MemoRouting { routes: None, cache: memoizer@ }),
            decreases limit - iter_run,
        {
            let shrunk = shrink_candidates(&start_connections, &end_connections, iter_run);
            proof {
                if spec_shrink(start_connections@, end_connections@, iter_run as nat, true).is_some() {
                    lemma_shrink_below_limit(
                        start_connections@,
                        end_connections@,
                        iter_run as nat,
                        true,
                    );
                }
            }
            let (cur_starts, cur_ends) = match shrunk {
                Some(sets) => sets,
                None => {
                    return None;
                },
            };
            let all_start_end_combos = all_pairs(&cur_starts, &cur_ends);
            let result = memoizer.get_shortest_option(all_start_end_combos, &mut node_finder);
            match result {
                Some(path) => {
                    let new_paths = extend_with_path(current_paths, &path);
                    let lower_result = self.recursive_connection_determination(
                        connections,
                        from + 1,
                        blocks,
                        constraint,
                        &new_paths,
                        memoizer,
                    );
                    match lower_result {
                        Some(mut vals) => {
                            let ghost rest = due.routes.unwrap().drop_last();
                            let ghost settled = vals@;
                            vals.push(conn_display_with_path(conn, path));
                            proof {
                                let routes = due.routes.unwrap();
                                assert(routes == rest.push(
                                    Routed { connection: from as int, path: path@ },
                                ));
                                assert forall|i: int| 0 <= i < routes.len() implies 0 <= (
                                #[trigger] routes[i]).connection < connections@.len()
                                    && spec_display_matches(
                                    vals@[i],
                                    connections@[routes[i].connection],
                                    routes[i].path,
                                ) by {
                                    if i < rest.len() {
                                        assert(routes[i] == rest[i]);
                                        assert(vals@[i] == settled[i]);
                                    }
                                }
                            }
                            return Some(vals);
                        },
                        None => {},
                    }
                },
                None => {
                    return None;
                },
            }
            iter_run = iter_run + 1;
        }
    }
}

/// The path that a lookup picks among cached paths shares no cell with the
/// cells held.
pub proof fn lemma_pick_avoids_taken(paths: Seq<Seq<Position>>, grid: SearchGrid, upto: int)
    requires
        upto <= paths.len(),
    ensures
        match spec_pick::<DisplayNodeFinder>(paths, grid, upto) {
            Some(at) => 0 <= at < upto && disjoint(paths[at], grid.taken),
            None => true,
        },
    decreases upto,
{
    if upto > 0 {
        lemma_pick_avoids_taken(paths, grid, upto - 1);
    }
}

/// A request to a sound cache under the strict policy, between two cells
/// that are not held: the cache stays sound, the search problem changes in
/// its target at most, and a path that is handed out leads from the one cell
/// to the other by unit steps and shares no cell with the cells held.
pub proof fn lemma_get_path_keeps_apart(cache: Cache, grid: SearchGrid, start: Position, end: Position)
    requires
        cache_is_sound(cache),
        grid.policy == RoutingPolicy::Strict,
        !grid.taken.contains(start),
        !grid.taken.contains(end),
    ensures
        ({
            let got = spec_get_path::<DisplayNodeFinder>(cache, grid, start, end);
            &&& cache_is_sound(got.cache)
            &&& same_problem(grid, got.creator)
            &&& got.path.is_some() ==> is_path_between(got.path.unwrap(), start, end) && disjoint(
                got.path.unwrap(),
                grid.taken,
            )
        }),
{
    let known = cache[(start, end)];
    let got = spec_get_path::<DisplayNodeFinder>(cache, grid, start, end);
    lemma_pick_avoids_taken(known, grid, known.len() as int);
    match spec_pick::<DisplayNodeFinder>(known, grid, known.len() as int) {
        Some(at) => {
            assert(is_path_between(cache[(start, end)][at], start, end));
        },
        None => {
            let found = grid.route_between(start, end);
            if found.is_some() {
                let path = found.unwrap();
                let here = grid.with_target(end);
                lemma_route_is_unit_path(here, start, path);
                lemma_strict_route_avoids_taken(here, start, path);
                assert forall|s: Position, e: Position, i: int|
                    0 <= i < got.cache[(s, e)].len() implies is_path_between(
                    #[trigger] got.cache[(s, e)][i],
                    s,
                    e,
                ) by {
                    if (s, e) == (start, end) && i == known.len() {
                    } else {
                        assert(got.cache[(s, e)][i] == cache[(s, e)][i]);
                    }
                }
            }
        },
    }
}

/// The comparison of candidate pairs none of whose cells is held, with a
/// sound cache and under the strict policy: the cache stays sound, the
/// search problem changes in its target at most, and the best pair is one of
/// those compared.
pub proof fn lemma_scan_keeps_apart(
    cache: Cache,
    grid: SearchGrid,
    pairs: Seq<(Position, Position)>,
    upto: int,
)
    requires
        cache_is_sound(cache),
        grid.policy == RoutingPolicy::Strict,
        upto <= pairs.len(),
        forall|k: int|
            0 <= k < pairs.len() ==> !grid.taken.contains((#[trigger] pairs[k]).0)
                && !grid.taken.contains(pairs[k].1),
    ensures
        ({
            let scanned = spec_scan::<DisplayNodeFinder>(cache, grid, pairs, upto);
            &&& cache_is_sound(scanned.cache)
            &&& same_problem(grid, scanned.creator)
            &&& scanned.best.is_some() ==> 0 <= scanned.best.unwrap().0 < upto
        }),
    decreases upto,
{
    if upto > 0 {
        lemma_scan_keeps_apart(cache, grid, pairs, upto - 1);
        let before = spec_scan::<DisplayNodeFinder>(cache, grid, pairs, upto - 1);
        let pair = pairs[upto - 1];
        lemma_get_path_keeps_apart(before.cache, before.creator, pair.0, pair.1);
    }
}

/// The shortest path among candidate pairs none of whose cells is held,
/// asked of a sound cache under the strict policy: the cache stays sound,
/// the search problem changes in its target at most, and the path moves by
/// unit steps and shares no cell with the cells held.
pub proof fn lemma_shortest_option_keeps_apart(
    cache: Cache,
    grid: SearchGrid,
    pairs: Seq<(Position, Position)>,
)
    requires
        cache_is_sound(cache),
        grid.policy == RoutingPolicy::Strict,
        forall|k: int|
            0 <= k < pairs.len() ==> !grid.taken.contains((#[trigger] pairs[k]).0)
                && !grid.taken.contains(pairs[k].1),
    ensures
        ({
            let got = spec_get_shortest_option::<DisplayNodeFinder>(cache, grid, pairs);
            &&& cache_is_sound(got.cache)
            &&& same_problem(grid, got.creator)
            &&& got.path.is_some() ==> is_unit_path(got.path.unwrap()) && disjoint(
                got.path.unwrap(),
                grid.taken,
            )
        }),
{
    lemma_scan_keeps_apart(cache, grid, pairs, pairs.len() as int);
    let scanned = spec_scan::<DisplayNodeFinder>(cache, grid, pairs, pairs.len() as int);
    if scanned.best.is_some() {
        let at = scanned.best.unwrap().0;
        let _ = pairs[at];
        lemma_get_path_keeps_apart(scanned.cache, scanned.creator, pairs[at].0, pairs[at].1);
    }
}

/// The routes of a search with a sound cache never overlap, and the cache
/// stays sound: every path moves by unit steps, no path shares a cell with
/// the cells that were held when the search began, and no two paths share a
/// cell.
pub proof fn lemma_memo_routes_never_overlap(
    blocks: Seq<(&BlockSpec, BlockDisplay)>,
    constraint: LayoutConstraint,
    connections: Seq<ConnectionSpec>,
    from: int,
    taken: Seq<Position>,
    cache: Cache,
)
    requires
        cache_is_sound(cache),
    ensures
        ({
            let due = spec_memo_route_from(blocks, constraint, connections, from, taken, cache);
            &&& cache_is_sound(due.cache)
            &&& due.routes.is_some() ==> routes_keep_apart(due.routes.unwrap(), taken)
        }),
    decreases connections.len() - from, 1nat, 0nat,
{
    if from < 0 || from >= connections.len() {
    } else if spec_resolves(blocks, connections[from]) {
        lemma_memo_attempts_never_overlap(
            blocks,
            constraint,
            connections,
            from,
            taken,
            cache,
            spec_grid(blocks, constraint, connections[from], taken, RoutingPolicy::Strict),
            0,
        );
    } else {
        lemma_memo_routes_never_overlap(blocks, constraint, connections, from + 1, taken, cache);
    }
}

/// The routes of a search with a sound cache that is at a given attempt
/// never overlap, and the cache stays sound.
pub proof fn lemma_memo_attempts_never_overlap(
    blocks: Seq<(&BlockSpec, BlockDisplay)>,
    constraint: LayoutConstraint,
    connections: Seq<ConnectionSpec>,
    from: int,
    taken: Seq<Position>,
    cache: Cache,
    finder: SearchGrid,
    attempt: nat,
)
    requires
        0 <= from < connections.len(),
        spec_resolves(blocks, connections[from]),
        cache_is_sound(cache),
        finder.policy == RoutingPolicy::Strict,
        finder.taken == taken,
    ensures
        ({
            let due = spec_memo_attempts(
                blocks,
                constraint,
                connections,
                from,
                taken,
                cache,
                finder,
                attempt,
            );
            &&& cache_is_sound(due.cache)
            &&& due.routes.is_some() ==> routes_keep_apart(due.routes.unwrap(), taken)
        }),
    decreases
        connections.len() - from,
        0nat,
        spec_attempt_limit(
            spec_start_points(blocks, connections[from], taken).len(),
            spec_end_points(blocks, connections[from], taken).len(),
            true,
        ) - attempt,
{
    let conn = connections[from];
    let starts = spec_start_points(blocks, conn, taken);
    let ends = spec_end_points(blocks, conn, taken);
    match spec_shrink(starts, ends, attempt, true) {
        None => {},
        Some(shrunk) => {
            let pairs = spec_all_pairs(shrunk.0, shrunk.1);
            lemma_connection_points_are_free(
                blocks[spec_find_block(blocks, conn.start@, 0).unwrap()].1,
                taken,
            );
            lemma_connection_points_are_free(
                blocks[spec_find_block(blocks, conn.end@, 0).unwrap()].1,
                taken,
            );
            lemma_attempt_pairs_are_free(starts, ends, attempt, taken);
            lemma_shortest_option_keeps_apart(cache, finder, pairs);
            let got = spec_get_shortest_option::<DisplayNodeFinder>(cache, finder, pairs);
            match got.path {
                None => {},
                Some(path) => {
                    lemma_memo_routes_never_overlap(
                        blocks,
                        constraint,
                        connections,
                        from + 1,
                        taken + path,
                        got.cache,
                    );
                    let lower = spec_memo_route_from(
                        blocks,
                        constraint,
                        connections,
                        from + 1,
                        taken + path,
                        got.cache,
                    );
                    match lower.routes {
                        Some(rest) => {
                            lemma_push_keeps_apart(rest, taken, path, from);
                        },
                        None => {
                            if attempt + 1 < spec_attempt_limit(starts.len(), ends.len(), true) {
                                lemma_memo_attempts_never_overlap(
                                    blocks,
                                    constraint,
                                    connections,
                                    from,
                                    taken,
                                    lower.cache,
                                    got.creator,
                                    attempt + 1,
                                );
                            }
                        },
                    }
                },
            }
        },
    }
}

/// Every path that the cache holds keeps the clearance for every
/// connection that attaches at the two cells that the path is filed for.
pub open spec fn cache_keeps_clearance(
    cache: Cache,
    blocks: Seq<(&BlockSpec, BlockDisplay)>,
    constraint: LayoutConstraint,
) -> bool {
    forall|start: Position, end: Position, i: int, conn: ConnectionSpec|
        #![trigger cache[(start, end)][i], attaches_at(blocks, conn, start, end)]
        0 <= i < cache[(start, end)].len() && attaches_at(blocks, conn, start, end)
            ==> path_keeps_clearance(blocks, constraint, conn, cache[(start, end)][i])
}

/// A request to the cache for a connection that attaches at the two cells,
/// between blocks no two of which share a cell: the paths of the cache go on
/// to keep the clearance, and so does a path that is handed out.
pub proof fn lemma_get_path_keeps_clearance(
    cache: Cache,
    grid: SearchGrid,
    blocks: Seq<(&BlockSpec, BlockDisplay)>,
    constraint: LayoutConstraint,
    conn: ConnectionSpec,
    start: Position,
    end: Position,
)
    requires
        blocks_are_apart(blocks),
        cache_keeps_clearance(cache, blocks, constraint),
        same_problem(spec_grid(blocks, constraint, conn, grid.taken, RoutingPolicy::Strict), grid),
        attaches_at(blocks, conn, start, end),
    ensures
        ({
            let got = spec_get_path::<DisplayNodeFinder>(cache, grid, start, end);
            &&& cache_keeps_clearance(got.cache, blocks, constraint)
            &&& same_problem(grid, got.creator)
            &&& got.path.is_some() ==> path_keeps_clearance(
                blocks,
                constraint,
                conn,
                got.path.unwrap(),
            )
        }),
{
    let known = cache[(start, end)];
    let got = spec_get_path::<DisplayNodeFinder>(cache, grid, start, end);
    lemma_pick_avoids_taken(known, grid, known.len() as int);
    match spec_pick::<DisplayNodeFinder>(known, grid, known.len() as int) {
        Some(at) => {
            assert(path_keeps_clearance(blocks, constraint, conn, cache[(start, end)][at]));
        },
        None => {
            let found = grid.route_between(start, end);
            if found.is_some() {
                let path = found.unwrap();
                lemma_route_keeps_clearance(
                    blocks,
                    constraint,
                    conn,
                    grid.taken,
                    RoutingPolicy::Strict,
                    start,
                    end,
                    path,
                );
                assert forall|s: Position, e: Position, i: int, other: ConnectionSpec|
                    #![trigger got.cache[(s, e)][i], attaches_at(blocks, other, s, e)]
                    0 <= i < got.cache[(s, e)].len() && attaches_at(
                        blocks,
                        other,
                        s,
                        e,
                    ) implies path_keeps_clearance(
                    blocks,
                    constraint,
                    other,
                    got.cache[(s, e)][i],
                ) by {
                    if (s, e) == (start, end) && i == known.len() {
                        lemma_attached_alike(blocks, constraint, conn, other, start, end, path);
                    } else {
                        assert(got.cache[(s, e)][i] == cache[(s, e)][i]);
                    }
                }
            }
        },
    }
}

/// The comparison of candidate pairs at which a connection attaches,
/// between blocks no two of which share a cell: the paths of the cache go on
/// to keep the clearance.
pub proof fn lemma_scan_keeps_clearance(
    cache: Cache,
    grid: SearchGrid,
    blocks: Seq<(&BlockSpec, BlockDisplay)>,
    constraint: LayoutConstraint,
    conn: ConnectionSpec,
    pairs: Seq<(Position, Position)>,
    upto: int,
)
    requires
        blocks_are_apart(blocks),
        cache_keeps_clearance(cache, blocks, constraint),
        same_problem(spec_grid(blocks, constraint, conn, grid.taken, RoutingPolicy::Strict), grid),
        upto <= pairs.len(),
        forall|k: int|
            0 <= k < pairs.len() ==> attaches_at(blocks, conn, (#[trigger] pairs[k]).0, pairs[k].1),
    ensures
        ({
            let scanned = spec_scan::<DisplayNodeFinder>(cache, grid, pairs, upto);
            &&& cache_keeps_clearance(scanned.cache, blocks, constraint)
            &&& same_problem(grid, scanned.creator)
            &&& scanned.best.is_some() ==> 0 <= scanned.best.unwrap().0 < upto
        }),
    decreases upto,
{
    if upto > 0 {
        lemma_scan_keeps_clearance(cache, grid, blocks, constraint, conn, pairs, upto - 1);
        let before = spec_scan::<DisplayNodeFinder>(cache, grid, pairs, upto - 1);
        let pair = pairs[upto - 1];
        lemma_get_path_keeps_clearance(
            before.cache,
            before.creator,
            blocks,
            constraint,
            conn,
            pair.0,
            pair.1,
        );
    }
}

/// The shortest path among candidate pairs at which a connection attaches,
/// between blocks no two of which share a cell: the paths of the cache go on
/// to keep the clearance, and so does the path that is handed out.
pub proof fn lemma_shortest_option_keeps_clearance(
    cache: Cache,
    grid: SearchGrid,
    blocks: Seq<(&BlockSpec, BlockDisplay)>,
    constraint: LayoutConstraint,
    conn: ConnectionSpec,
    pairs: Seq<(Position, Position)>,
)
    requires
        blocks_are_apart(blocks),
        cache_keeps_clearance(cache, blocks, constraint),
        same_problem(spec_grid(blocks, constraint, conn, grid.taken, RoutingPolicy::Strict), grid),
        forall|k: int|
            0 <= k < pairs.len() ==> attaches_at(blocks, conn, (#[trigger] pairs[k]).0, pairs[k].1),
    ensures
        ({
            let got = spec_get_shortest_option::<DisplayNodeFinder>(cache, grid, pairs);
            &&& cache_keeps_clearance(got.cache, blocks, constraint)
            &&& same_problem(grid, got.creator)
            &&& got.path.is_some() ==> path_keeps_clearance(
                blocks,
                constraint,
                conn,
                got.path.unwrap(),
            )
        }),
{
    lemma_scan_keeps_clearance(cache, grid, blocks, constraint, conn, pairs, pairs.len() as int);
    let scanned = spec_scan::<DisplayNodeFinder>(cache, grid, pairs, pairs.len() as int);
    if scanned.best.is_some() {
        let at = scanned.best.unwrap().0;
        let _ = pairs[at];
        lemma_get_path_keeps_clearance(
            scanned.cache,
            scanned.creator,
            blocks,
            constraint,
            conn,
            pairs[at].0,
            pairs[at].1,
        );
    }
}

/// Between blocks no two of which share a cell, the routes of a search with
/// a cache keep the clearance, and so do the paths that the cache comes to
/// hold: every route is that of one of the connections, and each of its
/// cells after the first is its last or keeps the clearance from the blocks
/// that the connection does not attach to and belongs to neither of the
/// blocks that it attaches to.
pub proof fn lemma_memo_routes_keep_clearance(
    blocks: Seq<(&BlockSpec, BlockDisplay)>,
    constraint: LayoutConstraint,
    connections: Seq<ConnectionSpec>,
    from: int,
    taken: Seq<Position>,
    cache: Cache,
)
    requires
        all_placed(blocks),
        blocks_are_apart(blocks),
        cache_keeps_clearance(cache, blocks, constraint),
    ensures
        ({
            let due = spec_memo_route_from(blocks, constraint, connections, from, taken, cache);
            &&& cache_keeps_clearance(due.cache, blocks, constraint)
            &&& due.routes.is_some() ==> routes_keep_clearance(
                blocks,
                constraint,
                connections,
                due.routes.unwrap(),
            )
        }),
    decreases connections.len() - from, 1nat, 0nat,
{
    if from < 0 || from >= connections.len() {
    } else if spec_resolves(blocks, connections[from]) {
        lemma_memo_attempts_keep_clearance(
            blocks,
            constraint,
            connections,
            from,
            taken,
            cache,
            spec_grid(blocks, constraint, connections[from], taken, RoutingPolicy::Strict),
            0,
        );
    } else {
        lemma_memo_routes_keep_clearance(blocks, constraint, connections, from + 1, taken, cache);
    }
}

/// Between blocks no two of which share a cell, the routes of a search with
/// a cache that is at a given attempt keep the clearance, and so do the
/// paths that the cache comes to hold.
pub proof fn lemma_memo_attempts_keep_clearance(
    blocks: Seq<(&BlockSpec, BlockDisplay)>,
    constraint: LayoutConstraint,
    connections: Seq<ConnectionSpec>,
    from: int,
    taken: Seq<Position>,
    cache: Cache,
    finder: SearchGrid,
    attempt: nat,
)
    requires
        0 <= from < connections.len(),
        spec_resolves(blocks, connections[from]),
        all_placed(blocks),
        blocks_are_apart(blocks),
        cache_keeps_clearance(cache, blocks, constraint),
        finder.taken == taken,
        same_problem(
            spec_grid(blocks, constraint, connections[from], taken, RoutingPolicy::Strict),
            finder,
        ),
    ensures
        ({
            let due = spec_memo_attempts(
                blocks,
                constraint,
                connections,
                from,
                taken,
                cache,
                finder,
                attempt,
            );
            &&& cache_keeps_clearance(due.cache, blocks, constraint)
            &&& due.routes.is_some() ==> routes_keep_clearance(
                blocks,
                constraint,
                connections,
                due.routes.unwrap(),
            )
        }),
    decreases
        connections.len() - from,
        0nat,
        spec_attempt_limit(
            spec_start_points(blocks, connections[from], taken).len(),
            spec_end_points(blocks, connections[from], taken).len(),
            true,
        ) - attempt,
{
    let conn = connections[from];
    let starts = spec_start_points(blocks, conn, taken);
    let ends = spec_end_points(blocks, conn, taken);
    match spec_shrink(starts, ends, attempt, true) {
        None => {},
        Some(shrunk) => {
            let pairs = spec_all_pairs(shrunk.0, shrunk.1);
            lemma_attempt_pairs_attach(blocks, conn, taken, attempt);
            lemma_shortest_option_keeps_clearance(cache, finder, blocks, constraint, conn, pairs);
            let got = spec_get_shortest_option::<DisplayNodeFinder>(cache, finder, pairs);
            match got.path {
                None => {},
                Some(path) => {
                    lemma_memo_routes_keep_clearance(
                        blocks,
                        constraint,
                        connections,
                        from + 1,
                        taken + path,
                        got.cache,
                    );
                    let lower = spec_memo_route_from(
                        blocks,
                        constraint,
                        connections,
                        from + 1,
                        taken + path,
                        got.cache,
                    );
                    match lower.routes {
                        Some(rest) => {
                            let routes = rest.push(Routed { connection: from, path: path });
                            assert forall|i: int| 0 <= i < routes.len() implies 0 <= (
                            #[trigger] routes[i]).connection < connections.len()
                                && path_keeps_clearance(
                                blocks,
                                constraint,
                                connections[routes[i].connection],
                                routes[i].path,
                            ) by {
                                if i < rest.len() {
                                    assert(routes[i] == rest[i]);
                                }
                            }
                        },
                        None => {
                            if attempt + 1 < spec_attempt_limit(starts.len(), ends.len(), true) {
                                lemma_memo_attempts_keep_clearance(
                                    blocks,
                                    constraint,
                                    connections,
                                    from,
                                    taken,
                                    lower.cache,
                                    got.creator,
                                    attempt + 1,
                                );
                            }
                        },
                    }
                },
            }
        },
    }
}

} // verus!
