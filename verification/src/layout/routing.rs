//! What the connection routers share: the search problem of a connection,
//! the shrinking of candidate sets between attempts and the choice of the
//! shortest route among candidate pairs.

use std::collections::VecDeque;
use vstd::prelude::*;
use crate::data::{BlockSpec, ConnectionSpec};
use crate::layout::connectors::{
    lemma_connection_points_lie_on_block,
    lemma_found_block_bears_name,
    spec_connection_points,
    spec_find_block,
};
use crate::layout::constraint::LayoutConstraint;
use crate::layout::display::{BlockDisplay, ConnectionDisplay, Position};
use crate::layout::memoizer::{route_is, PathCreator};
use crate::layout::path_conversion::{is_unit_path, spec_display_matches};
use crate::layout::placement::blocks_are_apart;
use crate::layout::pathfinder::{
    all_have_extent,
    lemma_route_is_unit_path,
    spec_displays,
    DisplayNodeFinder,
    RoutingPolicy,
    SearchGrid,
};

verus! {

/// A connection that has been routed: its index among the connections and
/// the cells of its path.
pub struct Routed {
    pub connection: int,
    pub path: Seq<Position>,
}

/// Every block covers at least one cell and its far edges can be represented.
pub open spec fn all_placed(blocks: Seq<(&BlockSpec, BlockDisplay)>) -> bool {
    forall|i: int| 0 <= i < blocks.len() ==> (#[trigger] blocks[i]).1.has_extent()
}

/// Whether a connection attaches to a block: the block bears the name of
/// its start or of its end.
pub open spec fn is_endpoint(block: BlockSpec, conn: ConnectionSpec) -> bool {
    block.name() == conn.start@ || block.name() == conn.end@
}

/// Those of the first `upto` blocks that the connection does not attach to.
pub open spec fn spec_others(
    blocks: Seq<(&BlockSpec, BlockDisplay)>,
    conn: ConnectionSpec,
    upto: int,
) -> Seq<BlockDisplay>
    decreases upto,
{
    if upto <= 0 {
        Seq::empty()
    } else if is_endpoint(*blocks[upto - 1].0, conn) {
        spec_others(blocks, conn, upto - 1)
    } else {
        spec_others(blocks, conn, upto - 1).push(blocks[upto - 1].1)
    }
}

/// Those of the first `upto` blocks that the connection attaches to.
pub open spec fn spec_endpoints(
    blocks: Seq<(&BlockSpec, BlockDisplay)>,
    conn: ConnectionSpec,
    upto: int,
) -> Seq<BlockDisplay>
    decreases upto,
{
    if upto <= 0 {
        Seq::empty()
    } else if is_endpoint(*blocks[upto - 1].0, conn) {
        spec_endpoints(blocks, conn, upto - 1).push(blocks[upto - 1].1)
    } else {
        spec_endpoints(blocks, conn, upto - 1)
    }
}

/// The search problem of a connection: a path keeps the clearance from the
/// blocks that the connection does not attach to, stays out of those that it
/// attaches to, and treats the cells in `taken` as the policy says. The
/// target is set by each search.
pub open spec fn spec_grid(
    blocks: Seq<(&BlockSpec, BlockDisplay)>,
    constraint: LayoutConstraint,
    conn: ConnectionSpec,
    taken: Seq<Position>,
    policy: RoutingPolicy,
) -> SearchGrid {
    SearchGrid {
        avoided: spec_others(blocks, conn, blocks.len() as int),
        connected: spec_endpoints(blocks, conn, blocks.len() as int),
        box_distance: constraint.connection.box_distance,
        max_width: constraint.max_width,
        max_height: constraint.max_height,
        taken: taken,
        policy: policy,
        target: Position { x: 0, y: 0 },
    }
}

/// Two search problems differ in their target at most.
pub open spec fn same_problem(a: SearchGrid, b: SearchGrid) -> bool {
    a.with_target(b.target) == b
}

/// The candidate sets of an attempt. The number of the attempt is read as
/// digits: while it is not zero, the digit for the length of the set whose
/// turn it is names the candidate to drop from it, the number is divided by
/// that length, and the turn passes to the other set. `None` says that a set
/// ran empty.
pub open spec fn spec_shrink(
    starts: Seq<Position>,
    ends: Seq<Position>,
    rem: nat,
    from_starts: bool,
) -> Option<(Seq<Position>, Seq<Position>)>
    decreases starts.len() + ends.len(),
{
    if rem == 0 {
        if starts.len() == 0 || ends.len() == 0 {
            None
        } else {
            Some((starts, ends))
        }
    } else if from_starts {
        if starts.len() == 0 {
            None
        } else {
            spec_shrink(
                starts.remove((rem % starts.len()) as int),
                ends,
                rem / starts.len(),
                false,
            )
        }
    } else {
        if ends.len() == 0 {
            None
        } else {
            spec_shrink(starts, ends.remove((rem % ends.len()) as int), rem / ends.len(), true)
        }
    }
}

/// A number that no attempt with candidate sets left reaches, for sets of
/// the given sizes: the product of the lengths that the digits are read for.
pub open spec fn spec_attempt_limit(starts: nat, ends: nat, from_starts: bool) -> nat
    decreases starts + ends,
{
    if from_starts {
        if starts == 0 {
            1
        } else {
            starts * spec_attempt_limit((starts - 1) as nat, ends, false)
        }
    } else {
        if ends == 0 {
            1
        } else {
            ends * spec_attempt_limit(starts, (ends - 1) as nat, true)
        }
    }
}

/// The limit of attempts is at least one.
pub proof fn lemma_attempt_limit_positive(starts: nat, ends: nat, from_starts: bool)
    ensures
        spec_attempt_limit(starts, ends, from_starts) >= 1,
    decreases starts + ends,
{
    if from_starts {
        if starts > 0 {
            lemma_attempt_limit_positive((starts - 1) as nat, ends, false);
            assert(starts * spec_attempt_limit((starts - 1) as nat, ends, false) >= 1)
                by (nonlinear_arith)
                requires
                    starts >= 1,
                    spec_attempt_limit((starts - 1) as nat, ends, false) >= 1,
            ;
        }
    } else {
        if ends > 0 {
            lemma_attempt_limit_positive(starts, (ends - 1) as nat, true);
            assert(ends * spec_attempt_limit(starts, (ends - 1) as nat, true) >= 1)
                by (nonlinear_arith)
                requires
                    ends >= 1,
                    spec_attempt_limit(starts, (ends - 1) as nat, true) >= 1,
            ;
        }
    }
}

/// An attempt that leaves candidate sets lies below the limit.
pub proof fn lemma_shrink_below_limit(
    starts: Seq<Position>,
    ends: Seq<Position>,
    rem: nat,
    from_starts: bool,
)
    requires
        spec_shrink(starts, ends, rem, from_starts).is_some(),
    ensures
        rem < spec_attempt_limit(starts.len(), ends.len(), from_starts),
    decreases starts.len() + ends.len(),
{
    lemma_attempt_limit_positive(starts.len(), ends.len(), from_starts);
    if rem > 0 {
        if from_starts {
            let length = starts.len();
            let rest = spec_attempt_limit((length - 1) as nat, ends.len(), false);
            lemma_shrink_below_limit(
                starts.remove((rem % length) as int),
                ends,
                rem / length,
                false,
            );
            assert(rem < length * rest) by (nonlinear_arith)
                requires
                    length >= 1,
                    rem / length < rest,
            ;
        } else {
            let length = ends.len();
            let rest = spec_attempt_limit(starts.len(), (length - 1) as nat, true);
            lemma_shrink_below_limit(
                starts,
                ends.remove((rem % length) as int),
                rem / length,
                true,
            );
            assert(rem < length * rest) by (nonlinear_arith)
                requires
                    length >= 1,
                    rem / length < rest,
            ;
        }
    }
}

/// Eight to the power of `exponent`.
pub open spec fn spec_eight_to(exponent: nat) -> nat
    decreases exponent,
{
    if exponent == 0 {
        1
    } else {
        8 * spec_eight_to((exponent - 1) as nat)
    }
}

/// For sets of at most eight candidates each, the limit of attempts is at
/// most eight to the power of their sizes taken together.
pub proof fn lemma_attempt_limit_is_small(starts: nat, ends: nat, from_starts: bool)
    requires
        starts <= 8,
        ends <= 8,
    ensures
        spec_attempt_limit(starts, ends, from_starts) <= spec_eight_to(starts + ends),
    decreases starts + ends,
{
    lemma_eight_to_positive(starts + ends);
    if from_starts {
        if starts > 0 {
            lemma_attempt_limit_is_small((starts - 1) as nat, ends, false);
            let rest = spec_attempt_limit((starts - 1) as nat, ends, false);
            let bound = spec_eight_to((starts + ends - 1) as nat);
            assert(spec_eight_to(starts + ends) == 8 * bound);
            assert(starts * rest <= 8 * bound) by (nonlinear_arith)
                requires
                    starts <= 8,
                    rest <= bound,
            ;
        }
    } else {
        if ends > 0 {
            lemma_attempt_limit_is_small(starts, (ends - 1) as nat, true);
            let rest = spec_attempt_limit(starts, (ends - 1) as nat, true);
            let bound = spec_eight_to((starts + ends - 1) as nat);
            assert(spec_eight_to(starts + ends) == 8 * bound);
            assert(ends * rest <= 8 * bound) by (nonlinear_arith)
                requires
                    ends <= 8,
                    rest <= bound,
            ;
        }
    }
}

/// Eight to any power is at least one.
pub proof fn lemma_eight_to_positive(exponent: nat)
    ensures
        spec_eight_to(exponent) >= 1,
    decreases exponent,
{
    if exponent > 0 {
        lemma_eight_to_positive((exponent - 1) as nat);
    }
}

/// Eight to a power of at most sixteen is at most 2 to the power of 48.
pub proof fn lemma_eight_to_bound(exponent: nat)
    requires
        exponent <= 16,
    ensures
        spec_eight_to(exponent) <= 0x1_0000_0000_0000,
    decreases 16 - exponent,
{
    if exponent < 16 {
        lemma_eight_to_bound(exponent + 1);
    } else {
        reveal_with_fuel(spec_eight_to, 17);
    }
}

/// The pairs of one start with the first `upto` ends.
pub open spec fn spec_pairs_with(start: Position, ends: Seq<Position>, upto: int) -> Seq<
    (Position, Position),
>
    decreases upto,
{
    if upto <= 0 {
        Seq::empty()
    } else {
        spec_pairs_with(start, ends, upto - 1).push((start, ends[upto - 1]))
    }
}

/// The pairs of the first `upto` starts with every end, start by start.
pub open spec fn spec_pairs_upto(starts: Seq<Position>, ends: Seq<Position>, upto: int) -> Seq<
    (Position, Position),
>
    decreases upto,
{
    if upto <= 0 {
        Seq::empty()
    } else {
        spec_pairs_upto(starts, ends, upto - 1) + spec_pairs_with(
            starts[upto - 1],
            ends,
            ends.len() as int,
        )
    }
}

/// Every pair of a start and an end, start by start.
pub open spec fn spec_all_pairs(starts: Seq<Position>, ends: Seq<Position>) -> Seq<
    (Position, Position),
> {
    spec_pairs_upto(starts, ends, starts.len() as int)
}

/// The shorter of the best route so far and a route found: a route takes
/// the place of none, and of one that is longer.
pub open spec fn spec_shorter(so_far: Option<Seq<Position>>, found: Option<Seq<Position>>) -> Option<
    Seq<Position>,
> {
    match found {
        Some(path) => match so_far {
            Some(best) => if best.len() > path.len() {
                found
            } else {
                so_far
            },
            None => found,
        },
        None => so_far,
    }
}

/// The shortest of the routes of the first `upto` pairs, the first among
/// equals, each route searched afresh. `None` says that no pair has a route.
pub open spec fn spec_best_route(grid: SearchGrid, pairs: Seq<(Position, Position)>, upto: int) -> Option<
    Seq<Position>,
>
    decreases upto,
{
    if upto <= 0 {
        None
    } else {
        spec_shorter(
            spec_best_route(grid, pairs, upto - 1),
            grid.route_between(pairs[upto - 1].0, pairs[upto - 1].1),
        )
    }
}

/// The best route among candidate pairs leads from the start to the end of
/// one of the pairs by unit steps, and is a route of the search problem
/// with that end as its target.
pub proof fn lemma_best_route_is_path(grid: SearchGrid, pairs: Seq<(Position, Position)>, upto: int)
    requires
        upto <= pairs.len(),
        spec_best_route(grid, pairs, upto).is_some(),
    ensures
        exists|i: int|
            0 <= i < upto && grid.with_target((#[trigger] pairs[i]).1).is_route(
                pairs[i].0,
                spec_best_route(grid, pairs, upto).unwrap(),
            ),
        is_unit_path(spec_best_route(grid, pairs, upto).unwrap()),
    decreases upto,
{
    if upto > 0 {
        let before = spec_best_route(grid, pairs, upto - 1);
        let found = grid.route_between(pairs[upto - 1].0, pairs[upto - 1].1);
        let best = spec_best_route(grid, pairs, upto);
        if best == found {
            let here = grid.with_target(pairs[upto - 1].1);
            assert(here.is_route(pairs[upto - 1].0, best.unwrap()));
            lemma_route_is_unit_path(here, pairs[upto - 1].0, best.unwrap());
        } else {
            lemma_best_route_is_path(grid, pairs, upto - 1);
            let i = choose|i: int|
                0 <= i < upto - 1 && grid.with_target((#[trigger] pairs[i]).1).is_route(
                    pairs[i].0,
                    before.unwrap(),
                );
            assert(0 <= i < upto && grid.with_target(pairs[i].1).is_route(pairs[i].0, best.unwrap()));
        }
    }
}

/// Every cell of a path after its first is the last, or keeps the clearance
/// from the blocks that the connection does not attach to and belongs to
/// neither of the blocks that it attaches to.
pub open spec fn path_keeps_clearance(
    blocks: Seq<(&BlockSpec, BlockDisplay)>,
    constraint: LayoutConstraint,
    conn: ConnectionSpec,
    path: Seq<Position>,
) -> bool {
    let grid = spec_grid(blocks, constraint, conn, Seq::empty(), RoutingPolicy::Strict);
    forall|i: int|
        1 <= i < path.len() ==> #[trigger] path[i] == path.last() || (grid.keeps_clear(path[i])
            && grid.stays_outside(path[i]))
}

/// Every route is that of a connection of the list and keeps the clearance.
pub open spec fn routes_keep_clearance(
    blocks: Seq<(&BlockSpec, BlockDisplay)>,
    constraint: LayoutConstraint,
    connections: Seq<ConnectionSpec>,
    routes: Seq<Routed>,
) -> bool {
    forall|i: int|
        0 <= i < routes.len() ==> 0 <= (#[trigger] routes[i]).connection < connections.len()
            && path_keeps_clearance(
            blocks,
            constraint,
            connections[routes[i].connection],
            routes[i].path,
        )
}

/// A route of the search problem of a connection keeps the clearance,
/// whatever cells are held and whatever the policy is.
pub proof fn lemma_route_keeps_clearance(
    blocks: Seq<(&BlockSpec, BlockDisplay)>,
    constraint: LayoutConstraint,
    conn: ConnectionSpec,
    taken: Seq<Position>,
    policy: RoutingPolicy,
    start: Position,
    end: Position,
    path: Seq<Position>,
)
    requires
        spec_grid(blocks, constraint, conn, taken, policy).with_target(end).is_route(start, path),
    ensures
        path_keeps_clearance(blocks, constraint, conn, path),
{
    let grid = spec_grid(blocks, constraint, conn, taken, policy).with_target(end);
    let bare = spec_grid(blocks, constraint, conn, Seq::empty(), RoutingPolicy::Strict);
    assert forall|i: int| 1 <= i < path.len() implies #[trigger] path[i] == path.last() || (
    bare.keeps_clear(path[i]) && bare.stays_outside(path[i])) by {
        assert(grid.is_step(path[i - 1], path[i - 1 + 1]));
        if path[i] != path.last() {
            assert(grid.is_valid_pos(path[i]));
            assert(grid.keeps_clear(path[i]));
            assert(grid.stays_outside(path[i]));
            assert(bare.avoided == grid.avoided && bare.connected == grid.connected);
            assert forall|b: int| 0 <= b < bare.avoided.len() implies (
            #[trigger] bare.avoided[b]).spec_distance(path[i]) >= bare.box_distance
                && !bare.avoided[b].encloses(path[i]) by {
                let _ = grid.avoided[b];
            }
            assert forall|b: int| 0 <= b < bare.connected.len() implies !(
            #[trigger] bare.connected[b]).covers(path[i]) by {
                let _ = grid.connected[b];
            }
        }
    }
}

/// Both blocks of the connection exist, `start` is a cell of the block at
/// its start and `end` a cell of the block at its end.
pub open spec fn attaches_at(
    blocks: Seq<(&BlockSpec, BlockDisplay)>,
    conn: ConnectionSpec,
    start: Position,
    end: Position,
) -> bool {
    &&& spec_find_block(blocks, conn.start@, 0).is_some()
    &&& spec_find_block(blocks, conn.end@, 0).is_some()
    &&& blocks[spec_find_block(blocks, conn.start@, 0).unwrap()].1.covers(start)
    &&& blocks[spec_find_block(blocks, conn.end@, 0).unwrap()].1.covers(end)
}

/// Connections with the same names at their ends sort the blocks alike.
pub proof fn lemma_same_names_same_split(
    blocks: Seq<(&BlockSpec, BlockDisplay)>,
    one: ConnectionSpec,
    other: ConnectionSpec,
    upto: int,
)
    requires
        one.start@ == other.start@,
        one.end@ == other.end@,
    ensures
        spec_others(blocks, one, upto) == spec_others(blocks, other, upto),
        spec_endpoints(blocks, one, upto) == spec_endpoints(blocks, other, upto),
    decreases upto,
{
    if upto > 0 {
        lemma_same_names_same_split(blocks, one, other, upto - 1);
    }
}

/// Where no two blocks share a cell, two connections that attach at the
/// same two cells bear the same names at their ends, and a path that keeps
/// the clearance for the one keeps it for the other.
pub proof fn lemma_attached_alike(
    blocks: Seq<(&BlockSpec, BlockDisplay)>,
    constraint: LayoutConstraint,
    one: ConnectionSpec,
    other: ConnectionSpec,
    start: Position,
    end: Position,
    path: Seq<Position>,
)
    requires
        blocks_are_apart(blocks),
        attaches_at(blocks, one, start, end),
        attaches_at(blocks, other, start, end),
        path_keeps_clearance(blocks, constraint, one, path),
    ensures
        one.start@ == other.start@,
        one.end@ == other.end@,
        path_keeps_clearance(blocks, constraint, other, path),
{
    lemma_found_block_bears_name(blocks, one.start@, 0);
    lemma_found_block_bears_name(blocks, other.start@, 0);
    lemma_found_block_bears_name(blocks, one.end@, 0);
    lemma_found_block_bears_name(blocks, other.end@, 0);
    let s1 = spec_find_block(blocks, one.start@, 0).unwrap();
    let s2 = spec_find_block(blocks, other.start@, 0).unwrap();
    let e1 = spec_find_block(blocks, one.end@, 0).unwrap();
    let e2 = spec_find_block(blocks, other.end@, 0).unwrap();
    assert(blocks[s1].1.covers(start) && blocks[s2].1.covers(start));
    assert(s1 == s2);
    assert(blocks[e1].1.covers(end) && blocks[e2].1.covers(end));
    assert(e1 == e2);
    lemma_same_names_same_split(blocks, one, other, blocks.len() as int);
}

/// The candidate pairs of an attempt attach to the two blocks of the
/// connection: each holds a cell of the block at its start and a cell of the
/// block at its end.
pub proof fn lemma_attempt_pairs_attach(
    blocks: Seq<(&BlockSpec, BlockDisplay)>,
    conn: ConnectionSpec,
    taken: Seq<Position>,
    attempt: nat,
)
    requires
        all_placed(blocks),
        spec_find_block(blocks, conn.start@, 0).is_some(),
        spec_find_block(blocks, conn.end@, 0).is_some(),
        spec_shrink(
            spec_connection_points(
                blocks[spec_find_block(blocks, conn.start@, 0).unwrap()].1,
                taken,
            ),
            spec_connection_points(blocks[spec_find_block(blocks, conn.end@, 0).unwrap()].1, taken),
            attempt,
            true,
        ).is_some(),
    ensures
        ({
            let shrunk = spec_shrink(
                spec_connection_points(
                    blocks[spec_find_block(blocks, conn.start@, 0).unwrap()].1,
                    taken,
                ),
                spec_connection_points(
                    blocks[spec_find_block(blocks, conn.end@, 0).unwrap()].1,
                    taken,
                ),
                attempt,
                true,
            ).unwrap();
            let pairs = spec_all_pairs(shrunk.0, shrunk.1);
            forall|k: int|
                0 <= k < pairs.len() ==> attaches_at(
                    blocks,
                    conn,
                    (#[trigger] pairs[k]).0,
                    pairs[k].1,
                )
        }),
{
    lemma_found_block_bears_name(blocks, conn.start@, 0);
    lemma_found_block_bears_name(blocks, conn.end@, 0);
    let start_block = blocks[spec_find_block(blocks, conn.start@, 0).unwrap()].1;
    let end_block = blocks[spec_find_block(blocks, conn.end@, 0).unwrap()].1;
    let starts = spec_connection_points(start_block, taken);
    let ends = spec_connection_points(end_block, taken);
    let shrunk = spec_shrink(starts, ends, attempt, true).unwrap();
    let pairs = spec_all_pairs(shrunk.0, shrunk.1);
    assert(blocks[spec_find_block(blocks, conn.start@, 0).unwrap()].1.has_extent());
    assert(blocks[spec_find_block(blocks, conn.end@, 0).unwrap()].1.has_extent());
    lemma_connection_points_lie_on_block(start_block, taken);
    lemma_connection_points_lie_on_block(end_block, taken);
    lemma_pairs_members(shrunk.0, shrunk.1, shrunk.0.len() as int);
    lemma_shrink_keeps_candidates(starts, ends, attempt, true);
    assert forall|k: int| 0 <= k < pairs.len() implies attaches_at(
        blocks,
        conn,
        (#[trigger] pairs[k]).0,
        pairs[k].1,
    ) by {
        let s = choose|i: int| 0 <= i < shrunk.0.len() && shrunk.0[i] == pairs[k].0;
        let t = choose|i: int| 0 <= i < starts.len() && starts[i] == shrunk.0[s];
        let u = choose|i: int| 0 <= i < shrunk.1.len() && shrunk.1[i] == pairs[k].1;
        let v = choose|i: int| 0 <= i < ends.len() && ends[i] == shrunk.1[u];
        assert(start_block.covers(starts[t]));
        assert(end_block.covers(ends[v]));
    }
}

/// No cell of the first list occurs in the second.
pub open spec fn disjoint(a: Seq<Position>, b: Seq<Position>) -> bool {
    forall|i: int| 0 <= i < a.len() ==> !b.contains(#[trigger] a[i])
}

/// The routes keep apart: every path moves by unit steps and shares no cell
/// with the cells in `taken`, and no two paths share a cell.
pub open spec fn routes_keep_apart(routes: Seq<Routed>, taken: Seq<Position>) -> bool {
    &&& forall|i: int|
        0 <= i < routes.len() ==> is_unit_path((#[trigger] routes[i]).path) && disjoint(
            routes[i].path,
            taken,
        )
    &&& forall|i: int, j: int|
        0 <= i < routes.len() && 0 <= j < routes.len() && i != j ==> disjoint(
            (#[trigger] routes[i]).path,
            (#[trigger] routes[j]).path,
        )
}

/// Sharing no cell goes both ways.
pub proof fn lemma_disjoint_is_symmetric(a: Seq<Position>, b: Seq<Position>)
    requires
        disjoint(a, b),
    ensures
        disjoint(b, a),
{
    assert forall|i: int| 0 <= i < b.len() implies !a.contains(#[trigger] b[i]) by {
        if a.contains(b[i]) {
            let j = choose|j: int| 0 <= j < a.len() && a[j] == b[i];
            assert(b.contains(a[j]));
        }
    }
}

/// Routes that keep apart from each other, from the cells held and from a
/// path still keep apart when the path joins them.
pub proof fn lemma_push_keeps_apart(
    rest: Seq<Routed>,
    taken: Seq<Position>,
    path: Seq<Position>,
    connection: int,
)
    requires
        routes_keep_apart(rest, taken + path),
        is_unit_path(path),
        disjoint(path, taken),
    ensures
        routes_keep_apart(rest.push(Routed { connection: connection, path: path }), taken),
{
    let routes = rest.push(Routed { connection: connection, path: path });
    assert forall|i: int| 0 <= i < rest.len() implies disjoint(
        (#[trigger] rest[i]).path,
        taken,
    ) && disjoint(rest[i].path, path) && disjoint(path, rest[i].path) by {
        assert(disjoint(rest[i].path, taken + path));
        assert forall|c: int| 0 <= c < rest[i].path.len() implies !taken.contains(
            #[trigger] rest[i].path[c],
        ) && !path.contains(rest[i].path[c]) by {
            if taken.contains(rest[i].path[c]) {
                let w = choose|w: int| 0 <= w < taken.len() && taken[w] == rest[i].path[c];
                assert((taken + path)[w] == rest[i].path[c]);
            }
            if path.contains(rest[i].path[c]) {
                let w = choose|w: int| 0 <= w < path.len() && path[w] == rest[i].path[c];
                assert((taken + path)[taken.len() + w] == rest[i].path[c]);
            }
        }
        lemma_disjoint_is_symmetric(rest[i].path, path);
    }
    assert forall|i: int| 0 <= i < routes.len() implies is_unit_path((#[trigger] routes[i]).path)
        && disjoint(routes[i].path, taken) by {
        if i < rest.len() {
            assert(routes[i] == rest[i]);
        }
    }
    assert forall|i: int, j: int|
        0 <= i < routes.len() && 0 <= j < routes.len() && i != j implies disjoint(
        (#[trigger] routes[i]).path,
        (#[trigger] routes[j]).path,
    ) by {
        if i < rest.len() {
            assert(routes[i] == rest[i]);
        }
        if j < rest.len() {
            assert(routes[j] == rest[j]);
        }
    }
}

/// The candidates of a pair that comes of an attempt are free: neither
/// lies among the cells held, provided that none of the candidates that
/// the attempt began with does.
pub proof fn lemma_attempt_pairs_are_free(
    starts: Seq<Position>,
    ends: Seq<Position>,
    attempt: nat,
    taken: Seq<Position>,
)
    requires
        spec_shrink(starts, ends, attempt, true).is_some(),
        disjoint(starts, taken),
        disjoint(ends, taken),
    ensures
        ({
            let shrunk = spec_shrink(starts, ends, attempt, true).unwrap();
            let pairs = spec_all_pairs(shrunk.0, shrunk.1);
            forall|k: int|
                0 <= k < pairs.len() ==> !taken.contains((#[trigger] pairs[k]).0)
                    && !taken.contains(pairs[k].1)
        }),
{
    let shrunk = spec_shrink(starts, ends, attempt, true).unwrap();
    let pairs = spec_all_pairs(shrunk.0, shrunk.1);
    lemma_pairs_members(shrunk.0, shrunk.1, shrunk.0.len() as int);
    lemma_shrink_keeps_candidates(starts, ends, attempt, true);
    assert forall|k: int| 0 <= k < pairs.len() implies !taken.contains((#[trigger] pairs[k]).0)
        && !taken.contains(pairs[k].1) by {
        let s = choose|i: int| 0 <= i < shrunk.0.len() && shrunk.0[i] == pairs[k].0;
        let t = choose|i: int| 0 <= i < starts.len() && starts[i] == shrunk.0[s];
        let u = choose|i: int| 0 <= i < shrunk.1.len() && shrunk.1[i] == pairs[k].1;
        let v = choose|i: int| 0 <= i < ends.len() && ends[i] == shrunk.1[u];
    }
}

/// The candidates that an attempt leaves are among those it began with.
pub proof fn lemma_shrink_keeps_candidates(
    starts: Seq<Position>,
    ends: Seq<Position>,
    rem: nat,
    from_starts: bool,
)
    requires
        spec_shrink(starts, ends, rem, from_starts).is_some(),
    ensures
        forall|i: int|
            0 <= i < spec_shrink(starts, ends, rem, from_starts).unwrap().0.len()
                ==> starts.contains(
                #[trigger] spec_shrink(starts, ends, rem, from_starts).unwrap().0[i],
            ),
        forall|i: int|
            0 <= i < spec_shrink(starts, ends, rem, from_starts).unwrap().1.len() ==> ends.contains(
                #[trigger] spec_shrink(starts, ends, rem, from_starts).unwrap().1[i],
            ),
    decreases starts.len() + ends.len(),
{
    let shrunk = spec_shrink(starts, ends, rem, from_starts).unwrap();
    if rem > 0 {
        if from_starts {
            let fewer = starts.remove((rem % starts.len()) as int);
            lemma_shrink_keeps_candidates(fewer, ends, rem / starts.len(), false);
            assert forall|i: int| 0 <= i < shrunk.0.len() implies starts.contains(
                #[trigger] shrunk.0[i],
            ) by {
                let j = choose|j: int| 0 <= j < fewer.len() && fewer[j] == shrunk.0[i];
                if j < (rem % starts.len()) as int {
                    assert(starts[j] == fewer[j]);
                } else {
                    assert(starts[j + 1] == fewer[j]);
                }
            }
        } else {
            let fewer = ends.remove((rem % ends.len()) as int);
            lemma_shrink_keeps_candidates(starts, fewer, rem / ends.len(), true);
            assert forall|i: int| 0 <= i < shrunk.1.len() implies ends.contains(
                #[trigger] shrunk.1[i],
            ) by {
                let j = choose|j: int| 0 <= j < fewer.len() && fewer[j] == shrunk.1[i];
                if j < (rem % ends.len()) as int {
                    assert(ends[j] == fewer[j]);
                } else {
                    assert(ends[j + 1] == fewer[j]);
                }
            }
        }
    }
}

/// Every pair of a start with the first `upto` ends holds that start and one of the ends.
pub proof fn lemma_pairs_with_members(start: Position, ends: Seq<Position>, upto: int)
    requires
        upto <= ends.len(),
    ensures
        forall|k: int|
            0 <= k < spec_pairs_with(start, ends, upto).len() ==> (#[trigger] spec_pairs_with(
                start,
                ends,
                upto,
            )[k]).0 == start && ends.contains(spec_pairs_with(start, ends, upto)[k].1),
    decreases upto,
{
    if upto > 0 {
        lemma_pairs_with_members(start, ends, upto - 1);
        assert(ends.contains(ends[upto - 1]));
        let before = spec_pairs_with(start, ends, upto - 1);
        let all = spec_pairs_with(start, ends, upto);
        assert forall|k: int| 0 <= k < all.len() implies (#[trigger] all[k]).0 == start
            && ends.contains(all[k].1) by {
            if k < before.len() {
                assert(all[k] == before[k]);
            }
        }
    }
}

/// Every candidate pair holds one of the starts and one of the ends.
pub proof fn lemma_pairs_members(starts: Seq<Position>, ends: Seq<Position>, upto: int)
    requires
        upto <= starts.len(),
    ensures
        forall|k: int|
            0 <= k < spec_pairs_upto(starts, ends, upto).len() ==> starts.contains(
                (#[trigger] spec_pairs_upto(starts, ends, upto)[k]).0,
            ) && ends.contains(spec_pairs_upto(starts, ends, upto)[k].1),
    decreases upto,
{
    if upto > 0 {
        lemma_pairs_members(starts, ends, upto - 1);
        lemma_pairs_with_members(starts[upto - 1], ends, ends.len() as int);
        assert(starts.contains(starts[upto - 1]));
        let before = spec_pairs_upto(starts, ends, upto - 1);
        let here = spec_pairs_with(starts[upto - 1], ends, ends.len() as int);
        let all = spec_pairs_upto(starts, ends, upto);
        assert forall|k: int| 0 <= k < all.len() implies starts.contains((#[trigger] all[k]).0)
            && ends.contains(all[k].1) by {
            if k < before.len() {
                assert(all[k] == before[k]);
            } else {
                assert(all[k] == here[k - before.len()]);
            }
        }
    }
}

/// Under the strict policy a route shares no cell with the cells of earlier
/// connections, provided that its start and its target do not.
pub proof fn lemma_strict_route_avoids_taken(grid: SearchGrid, start: Position, path: Seq<Position>)
    requires
        grid.policy == RoutingPolicy::Strict,
        grid.is_route(start, path),
        !grid.taken.contains(start),
        !grid.taken.contains(grid.target),
    ensures
        disjoint(path, grid.taken),
{
    assert forall|i: int| 0 <= i < path.len() implies !grid.taken.contains(#[trigger] path[i]) by {
        if i > 0 {
            assert(grid.is_step(path[i - 1], path[i - 1 + 1]));
        }
    }
}

/// Two search problems that differ in their target at most have the same
/// best route.
pub proof fn lemma_same_best_route(
    a: SearchGrid,
    b: SearchGrid,
    pairs: Seq<(Position, Position)>,
    upto: int,
)
    requires
        a.with_target(b.target) == b,
    ensures
        spec_best_route(a, pairs, upto) == spec_best_route(b, pairs, upto),
    decreases upto,
{
    if upto > 0 {
        lemma_same_best_route(a, b, pairs, upto - 1);
        let end = pairs[upto - 1].1;
        assert(a.with_target(end) == b.with_target(end));
    }
}

/// What is drawn stands for the routed connections, one display for each
/// in the same order.
pub open spec fn displays_match(
    displays: Seq<ConnectionDisplay>,
    connections: Seq<ConnectionSpec>,
    routes: Seq<Routed>,
) -> bool {
    &&& displays.len() == routes.len()
    &&& forall|i: int|
        0 <= i < routes.len() ==> 0 <= (#[trigger] routes[i]).connection < connections.len()
            && spec_display_matches(displays[i], connections[routes[i].connection], routes[i].path)
}

/// Whether two blocks share a cell.
pub fn blocks_overlap(one: &BlockDisplay, other: &BlockDisplay) -> (shared: bool)
    requires
        one.has_extent(),
        other.has_extent(),
    ensures
        shared == exists|cell: Position| one.covers(cell) && other.covers(cell),
{
    let shared = one.pos.x < other.pos.x + other.size.width && other.pos.x < one.pos.x
        + one.size.width && one.pos.y < other.pos.y + other.size.height && other.pos.y
        < one.pos.y + one.size.height;
    proof {
        if shared {
            let cell = Position {
                x: if one.pos.x > other.pos.x {
                    one.pos.x
                } else {
                    other.pos.x
                },
                y: if one.pos.y > other.pos.y {
                    one.pos.y
                } else {
                    other.pos.y
                },
            };
            assert(one.covers(cell) && other.covers(cell));
        }
    }
    shared
}

/// Whether no two blocks share a cell.
pub fn are_apart(blocks: &[(&BlockSpec, BlockDisplay)]) -> (apart: bool)
    requires
        all_placed(blocks@),
    ensures
        apart == blocks_are_apart(blocks@),
{
    let mut first: usize = 0;
    while first < blocks.len()
        invariant
            first <= blocks@.len(),
            all_placed(blocks@),
            forall|i: int, j: int, cell: Position|
                #![trigger blocks@[i].1.covers(cell), blocks@[j].1.covers(cell)]
                0 <= i < first && i < j < blocks@.len() ==> !(blocks@[i].1.covers(cell)
                    && blocks@[j].1.covers(cell)),
        decreases blocks.len() - first,
    {
        let mut second: usize = first + 1;
        while second < blocks.len()
            invariant
                first < second <= blocks@.len(),
                all_placed(blocks@),
                forall|j: int, cell: Position|
                    #![trigger blocks@[first as int].1.covers(cell), blocks@[j].1.covers(cell)]
                    first < j < second ==> !(blocks@[first as int].1.covers(cell)
                        && blocks@[j].1.covers(cell)),
            decreases blocks.len() - second,
        {
            assert(blocks@[first as int].1.has_extent() && blocks@[second as int].1.has_extent());
            if blocks_overlap(&blocks[first].1, &blocks[second].1) {
                proof {
                    let cell = choose|cell: Position|
                        blocks@[first as int].1.covers(cell) && blocks@[second as int].1.covers(
                            cell,
                        );
                    assert(blocks@[first as int].1.covers(cell) && blocks@[second as int].1.covers(
                        cell,
                    ));
                }
                return false;
            }
            second = second + 1;
        }
        first = first + 1;
    }
    proof {
        assert forall|i: int, j: int, cell: Position|
            #![trigger blocks@[i].1.covers(cell), blocks@[j].1.covers(cell)]
            0 <= i < blocks@.len() && 0 <= j < blocks@.len() && i != j implies !(
        blocks@[i].1.covers(cell) && blocks@[j].1.covers(cell)) by {
            if j < i {
                assert(!(blocks@[j].1.covers(cell) && blocks@[i].1.covers(cell)));
            }
        }
    }
    true
}

/// Sorts the blocks into those that a connection does not attach to and
/// those that it attaches to.
pub fn split_blocks<'a>(blocks: &'a [(&BlockSpec, BlockDisplay)], conn: &ConnectionSpec) -> (parts: (
    Vec<&'a BlockDisplay>,
    Vec<&'a BlockDisplay>,
))
    ensures
        spec_displays(parts.0@) == spec_others(blocks@, *conn, blocks@.len() as int),
        spec_displays(parts.1@) == spec_endpoints(blocks@, *conn, blocks@.len() as int),
{
    let mut others: Vec<&'a BlockDisplay> = Vec::new();
    let mut endpoints: Vec<&'a BlockDisplay> = Vec::new();
    let mut at: usize = 0;
    proof {
        assert(spec_displays(others@) =~= Seq::<BlockDisplay>::empty());
        assert(spec_displays(endpoints@) =~= Seq::<BlockDisplay>::empty());
    }
    while at < blocks.len()
        invariant
            at <= blocks@.len(),
            spec_displays(others@) == spec_others(blocks@, *conn, at as int),
            spec_displays(endpoints@) == spec_endpoints(blocks@, *conn, at as int),
        decreases blocks.len() - at,
    {
        let ghost others_before = others@;
        let ghost endpoints_before = endpoints@;
        let spec = blocks[at].0;
        if spec.is_named(&conn.start) || spec.is_named(&conn.end) {
            endpoints.push(&blocks[at].1);
            proof {
                assert(spec_displays(endpoints@) =~= spec_displays(endpoints_before).push(
                    blocks@[at as int].1,
                ));
            }
        } else {
            others.push(&blocks[at].1);
            proof {
                assert(spec_displays(others@) =~= spec_displays(others_before).push(
                    blocks@[at as int].1,
                ));
            }
        }
        at = at + 1;
    }
    (others, endpoints)
}

/// The filtered blocks of a connection all cover at least one cell.
pub proof fn lemma_split_keeps_extent(
    blocks: Seq<(&BlockSpec, BlockDisplay)>,
    conn: ConnectionSpec,
    upto: int,
)
    requires
        all_placed(blocks),
        upto <= blocks.len(),
    ensures
        all_have_extent(spec_others(blocks, conn, upto)),
        all_have_extent(spec_endpoints(blocks, conn, upto)),
    decreases upto,
{
    if upto > 0 {
        lemma_split_keeps_extent(blocks, conn, upto - 1);
        assert(blocks[upto - 1].1.has_extent());
    }
}

/// The candidate sets of an attempt, or `None` where a set ran empty.
pub fn shrink_candidates(starts: &Vec<Position>, ends: &Vec<Position>, attempt: u64) -> (shrunk:
    Option<(Vec<Position>, Vec<Position>)>)
    ensures
        match shrunk {
            Some((cur_starts, cur_ends)) => spec_shrink(starts@, ends@, attempt as nat, true)
                == Some((cur_starts@, cur_ends@)),
            None => spec_shrink(starts@, ends@, attempt as nat, true).is_none(),
        },
{
    let mut removing_start = true;
    let mut rem_indicator: u64 = attempt;
    let mut cur_starts = copy_cells(starts);
    let mut cur_ends = copy_cells(ends);
    while rem_indicator > 0
        invariant
            spec_shrink(starts@, ends@, attempt as nat, true) == spec_shrink(
                cur_starts@,
                cur_ends@,
                rem_indicator as nat,
                removing_start,
            ),
        decreases cur_starts@.len() + cur_ends@.len(),
    {
        if removing_start {
            let len: usize = cur_starts.len();
            if len == 0 {
                return None;
            }
            let drop: u64 = rem_indicator % (len as u64);
            cur_starts.remove(drop as usize);
            rem_indicator = rem_indicator / (len as u64);
        } else {
            let len: usize = cur_ends.len();
            if len == 0 {
                return None;
            }
            let drop: u64 = rem_indicator % (len as u64);
            cur_ends.remove(drop as usize);
            rem_indicator = rem_indicator / (len as u64);
        }
        removing_start = !removing_start;
    }
    if cur_starts.len() == 0 || cur_ends.len() == 0 {
        return None;
    }
    Some((cur_starts, cur_ends))
}

/// A copy of a list of cells.
pub fn copy_cells(cells: &Vec<Position>) -> (copy: Vec<Position>)
    ensures
        copy@ == cells@,
{
    let mut copy: Vec<Position> = Vec::new();
    let mut at: usize = 0;
    while at < cells.len()
        invariant
            at <= cells@.len(),
            copy@ == cells@.take(at as int),
        decreases cells.len() - at,
    {
        copy.push(cells[at]);
        proof {
            assert(copy@ =~= cells@.take(at as int + 1));
        }
        at = at + 1;
    }
    proof {
        assert(cells@.take(at as int) =~= cells@);
    }
    copy
}

/// The cells of a list followed by the cells of a path.
pub fn extend_with_path(cells: &Vec<Position>, path: &VecDeque<Position>) -> (all: Vec<Position>)
    ensures
        all@ == cells@ + path@,
{
    let mut all = copy_cells(cells);
    let mut at: usize = 0;
    while at < path.len()
        invariant
            at <= path@.len(),
            all@ == cells@ + path@.take(at as int),
        decreases path.len() - at,
    {
        all.push(path[at]);
        proof {
            assert(all@ =~= cells@ + path@.take(at as int + 1));
        }
        at = at + 1;
    }
    proof {
        assert(path@.take(at as int) =~= path@);
    }
    all
}

/// Every pair of a start and an end, start by start.
pub fn all_pairs(starts: &Vec<Position>, ends: &Vec<Position>) -> (pairs: Vec<(Position, Position)>)
    ensures
        pairs@ == spec_all_pairs(starts@, ends@),
{
    let mut pairs: Vec<(Position, Position)> = Vec::new();
    let mut at: usize = 0;
    while at < starts.len()
        invariant
            at <= starts@.len(),
            pairs@ == spec_pairs_upto(starts@, ends@, at as int),
        decreases starts.len() - at,
    {
        let start = starts[at];
        let ghost before = pairs@;
        let mut next: usize = 0;
        while next < ends.len()
            invariant
                next <= ends@.len(),
                pairs@ == before + spec_pairs_with(start, ends@, next as int),
            decreases ends.len() - next,
        {
            pairs.push((start, ends[next]));
            proof {
                assert(pairs@ =~= before + spec_pairs_with(start, ends@, next as int + 1));
            }
            next = next + 1;
        }
        at = at + 1;
    }
    pairs
}

/// The shortest route among candidate pairs, each searched afresh; the
/// first among equals. `None` says that no pair has a route.
pub fn best_route(finder: &mut DisplayNodeFinder, pairs: &Vec<(Position, Position)>) -> (best: Option<
    VecDeque<Position>,
>)
    ensures
        same_problem(old(finder)@, final(finder)@),
        route_is(best, spec_best_route(old(finder)@, pairs@, pairs@.len() as int)),
{
    let mut best: Option<VecDeque<Position>> = None;
    let mut at: usize = 0;
    while at < pairs.len()
        invariant
            at <= pairs@.len(),
            same_problem(old(finder)@, finder@),
            route_is(best, spec_best_route(old(finder)@, pairs@, at as int)),
        decreases pairs.len() - at,
    {
        let pair = pairs[at];
        let ghost before = finder@;
        let found = finder.calculate_new_path(pair.0, pair.1);
        proof {
            assert(before.with_target(pair.1) == old(finder)@.with_target(pair.1));
        }
        best = match found {
            Some(path) => match best {
                Some(so_far) => if so_far.len() > path.len() {
                    Some(path)
                } else {
                    Some(so_far)
                },
                None => Some(path),
            },
            None => best,
        };
        at = at + 1;
    }
    best
}

} // verus!
