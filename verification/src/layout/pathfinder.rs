//! Shortest-path search over the cells of the grid.
//!
//! A search runs from one cell to a target cell in unit steps. Cells near
//! unrelated blocks, cells of the two connected blocks and, under the strict
//! policy, cells of earlier connections are closed to it.

use std::collections::HashSet;
use std::collections::VecDeque;
use vstd::prelude::*;
use vstd::std_specs::iter::IteratorSpec;
use crate::layout::constraint::LayoutConstraint;
use crate::layout::display::{spec_gap, spec_manhattan, BlockDisplay, Position};
use crate::layout::memoizer::{route_is, PathCreator};
use crate::layout::path_conversion::{is_unit_path, is_unit_step, lemma_unit_path_spans_distance};

verus! {

/// How a search treats the cells of earlier connections.
#[derive(Debug, PartialEq, Eq, Copy, Clone, Structural)]
pub enum RoutingPolicy {
    /// Such cells are closed.
    Strict,
    /// Such cells may be crossed, at a price.
    Permissive,
}

/// What a step onto a free cell costs.
pub const STEP_COST: u128 = 1;

/// What a step onto a cell of an earlier connection costs under the
/// permissive policy.
pub const CROSSING_COST: u128 = 50;

/// One search problem: the blocks to stay clear of, the two connected
/// blocks, the grid limits, the cells of earlier connections and the target.
pub struct DisplayNodeFinder<'a> {
    blocks: Vec<&'a BlockDisplay>,
    non_checked_blocks: Vec<&'a BlockDisplay>,
    constraint: &'a LayoutConstraint,
    end_point: Position,
    blocked: &'a Vec<Position>,
    policy: RoutingPolicy,
}

/// A search problem as the search sees it.
pub struct SearchGrid {
    /// The blocks that a path keeps its clearance from.
    pub avoided: Seq<BlockDisplay>,
    /// The two connected blocks, which a path does not enter.
    pub connected: Seq<BlockDisplay>,
    /// The clearance.
    pub box_distance: u32,
    /// The column beyond which no step to the right leads.
    pub max_width: u32,
    /// The row beyond which no step down leads.
    pub max_height: u32,
    /// The cells of earlier connections.
    pub taken: Seq<Position>,
    /// How the cells of earlier connections are treated.
    pub policy: RoutingPolicy,
    /// The cell to reach.
    pub target: Position,
}

/// Every block of the list covers at least one cell.
pub open spec fn all_have_extent(blocks: Seq<BlockDisplay>) -> bool {
    forall|i: int| 0 <= i < blocks.len() ==> (#[trigger] blocks[i]).has_extent()
}

/// The blocks that a list of references leads to.
pub open spec fn spec_displays(blocks: Seq<&BlockDisplay>) -> Seq<BlockDisplay> {
    Seq::new(blocks.len(), |i: int| *blocks[i])
}

/// No cell occurs twice in the path.
pub open spec fn visits_no_cell_twice(path: Seq<Position>) -> bool {
    forall|i: int, j: int| 0 <= i < j < path.len() ==> path[i] != path[j]
}

/// The number that stands for a cell in a set of cells: its two coordinates
/// side by side, 32 bits each.
pub open spec fn spec_cell_key(cell: Position) -> u64 {
    (cell.x * 0x1_0000_0000 + cell.y) as u64
}

/// The path that the A* search of the `astar` crate returns for a step
/// relation, a target and a start cell, or `None` where it finds no path.
/// `steps` gives for every cell the cells that one step leads to, each with
/// the cost of the step, in the order in which the search is offered them.
pub uninterp spec fn astar_route(
    steps: Map<Position, Seq<(Position, u128)>>,
    goal: Position,
    start: Position,
) -> Option<Seq<Position>>;

impl SearchGrid {
    /// The same problem with another target.
    pub open spec fn with_target(self, end: Position) -> SearchGrid {
        SearchGrid {
            avoided: self.avoided,
            connected: self.connected,
            box_distance: self.box_distance,
            max_width: self.max_width,
            max_height: self.max_height,
            taken: self.taken,
            policy: self.policy,
            target: end,
        }
    }

    /// A cell keeps the clearance from every unrelated block and lies
    /// strictly inside none of them.
    pub open spec fn keeps_clear(self, pos: Position) -> bool {
        forall|i: int|
            0 <= i < self.avoided.len() ==> {
                &&& (#[trigger] self.avoided[i]).spec_distance(pos) >= self.box_distance
                &&& !self.avoided[i].encloses(pos)
            }
    }

    /// A cell belongs to neither of the two connected blocks.
    pub open spec fn stays_outside(self, pos: Position) -> bool {
        forall|i: int| 0 <= i < self.connected.len() ==> !(#[trigger] self.connected[i]).covers(pos)
    }

    /// Whether a path may step onto a cell. The target always is open. Any
    /// other cell is open if no earlier connection holds it (strict policy
    /// only), it keeps the clearance from the unrelated blocks and it does
    /// not belong to a connected block.
    pub open spec fn is_valid_pos(self, pos: Position) -> bool {
        pos == self.target || {
            &&& self.policy == RoutingPolicy::Strict ==> !self.taken.contains(pos)
            &&& self.keeps_clear(pos)
            &&& self.stays_outside(pos)
        }
    }

    /// What a step onto a cell costs.
    pub open spec fn cost(self, pos: Position) -> u128 {
        if self.policy == RoutingPolicy::Permissive && self.taken.contains(pos) {
            CROSSING_COST
        } else {
            STEP_COST
        }
    }

    /// Whether `to` is one unit step from `from` that does not leave the grid:
    /// any step left or up that stays at or above zero, a step right from
    /// below `max_width`, a step down from below `max_height`.
    pub open spec fn in_reach(self, from: Position, to: Position) -> bool {
        ||| from.x > 0 && to.x == from.x - 1 && to.y == from.y
        ||| from.y > 0 && to.x == from.x && to.y == from.y - 1
        ||| from.x < self.max_width && to.x == from.x + 1 && to.y == from.y
        ||| from.y < self.max_height && to.x == from.x && to.y == from.y + 1
    }

    /// Whether a path may go from `from` to `to` in one step.
    pub open spec fn is_step(self, from: Position, to: Position) -> bool {
        self.in_reach(from, to) && self.is_valid_pos(to)
    }

    /// The step to `to` with its cost if `wanted` holds and the cell is
    /// open, and nothing otherwise.
    pub open spec fn offer(self, wanted: bool, to: Position) -> Seq<(Position, u128)> {
        if wanted && self.is_valid_pos(to) {
            seq![(to, self.cost(to))]
        } else {
            Seq::empty()
        }
    }

    /// The steps that a path may take from a cell, each with its cost: left,
    /// up, right, down, those left out that leave the grid or lead to a
    /// closed cell.
    pub open spec fn neighbors(self, node: Position) -> Seq<(Position, u128)> {
        self.offer(node.x > 0, Position { x: (node.x - 1) as u32, y: node.y }) + self.offer(
            node.y > 0,
            Position { x: node.x, y: (node.y - 1) as u32 },
        ) + self.offer(node.x < self.max_width, Position { x: (node.x + 1) as u32, y: node.y })
            + self.offer(node.y < self.max_height, Position { x: node.x, y: (node.y + 1) as u32 })
    }

    /// The step relation of this problem: for every cell its steps.
    pub open spec fn steps(self) -> Map<Position, Seq<(Position, u128)>> {
        Map::total(|node: Position| self.neighbors(node))
    }

    /// A route from `start`: it begins there, ends at the target, each of
    /// its cells is one allowed step from the cell before, and it visits no
    /// cell twice.
    pub open spec fn is_route(self, start: Position, path: Seq<Position>) -> bool {
        &&& path.len() >= 1
        &&& path[0] == start
        &&& path.last() == self.target
        &&& forall|i: int| 0 <= i < path.len() - 1 ==> self.is_step(#[trigger] path[i], path[i + 1])
        &&& visits_no_cell_twice(path)
    }

    /// A search result as it is handed on: a route stays, anything else
    /// counts as no path.
    pub open spec fn accept(self, start: Position, found: Option<Seq<Position>>) -> Option<
        Seq<Position>,
    > {
        match found {
            Some(path) => if self.is_route(start, path) {
                Some(path)
            } else {
                None
            },
            None => None,
        }
    }

    /// The route that a search from `start` yields: the path of the A*
    /// search over the steps of this problem, provided that it is a route.
    pub open spec fn route(self, start: Position) -> Option<Seq<Position>> {
        self.accept(start, astar_route(self.steps(), self.target, start))
    }

    /// The route that a search from `start` to `end` yields.
    pub open spec fn route_between(self, start: Position, end: Position) -> Option<Seq<Position>> {
        self.with_target(end).route(start)
    }

    /// None of the cells of a path belongs to an earlier connection.
    pub open spec fn avoids_taken(self, path: Seq<Position>) -> bool {
        forall|i: int| 0 <= i < path.len() ==> !self.taken.contains(#[trigger] path[i])
    }
}

impl<'a> View for DisplayNodeFinder<'a> {
    type V = SearchGrid;

    closed spec fn view(&self) -> SearchGrid {
        SearchGrid {
            avoided: spec_displays(self.blocks@),
            connected: spec_displays(self.non_checked_blocks@),
            box_distance: self.constraint.connection.box_distance,
            max_width: self.constraint.max_width,
            max_height: self.constraint.max_height,
            taken: self.blocked@,
            policy: self.policy,
            target: self.end_point,
        }
    }
}

impl<'a> DisplayNodeFinder<'a> {
    #[verifier::type_invariant]
    closed spec fn inv(&self) -> bool {
        &&& all_have_extent(spec_displays(self.blocks@))
        &&& all_have_extent(spec_displays(self.non_checked_blocks@))
    }

    /// Sets up a search problem.
    pub fn new(
        blocks: Vec<&'a BlockDisplay>,
        non_checked_blocks: Vec<&'a BlockDisplay>,
        constraint: &'a LayoutConstraint,
        end_point: Position,
        blocked: &'a Vec<Position>,
        policy: RoutingPolicy,
    ) -> (finder: Self)
        requires
            all_have_extent(spec_displays(blocks@)),
            all_have_extent(spec_displays(non_checked_blocks@)),
        ensures
            finder@ == (SearchGrid {
                avoided: spec_displays(blocks@),
                connected: spec_displays(non_checked_blocks@),
                box_distance: constraint.connection.box_distance,
                max_width: constraint.max_width,
                max_height: constraint.max_height,
                taken: blocked@,
                policy: policy,
                target: end_point,
            }),
    {
        DisplayNodeFinder {
            blocks: blocks,
            non_checked_blocks: non_checked_blocks,
            constraint: constraint,
            end_point: end_point,
            blocked: blocked,
            policy: policy,
        }
    }

    /// Whether a cell is the target.
    pub fn is_end_point(&self, node: Position) -> (hit: bool)
        ensures
            hit == (node == self@.target),
    {
        node.x == self.end_point.x && node.y == self.end_point.y
    }

    /// The estimate of what is left to go from a cell: the number of unit
    /// steps to the target on an empty grid.
    pub fn heuristic_to_end(&self, node: Position) -> (estimate: u128)
        ensures
            estimate == spec_manhattan(node, self@.target),
    {
        let xdiff: u32 = if node.x > self.end_point.x {
            node.x - self.end_point.x
        } else {
            self.end_point.x - node.x
        };
        let ydiff: u32 = if node.y > self.end_point.y {
            node.y - self.end_point.y
        } else {
            self.end_point.y - node.y
        };
        xdiff as u128 + ydiff as u128
    }

    /// Whether an earlier connection holds a cell.
    pub fn is_taken(&self, pos: Position) -> (hit: bool)
        ensures
            hit == self@.taken.contains(pos),
    {
        contains_position(self.blocked, pos)
    }

    /// What a step onto a cell costs.
    pub fn cost(&self, pos: Position) -> (price: u128)
        ensures
            price == self@.cost(pos),
    {
        match self.policy {
            RoutingPolicy::Permissive => if self.is_taken(pos) {
                CROSSING_COST
            } else {
                STEP_COST
            },
            RoutingPolicy::Strict => STEP_COST,
        }
    }

    /// Whether a path may step onto a cell.
    pub fn is_valid_pos(&self, pos: Position) -> (ok: bool)
        ensures
            ok == self@.is_valid_pos(pos),
    {
        proof {
            use_type_invariant(self);
        }
        if self.is_end_point(pos) {
            return true;
        }
        match self.policy {
            RoutingPolicy::Strict => {
                if self.is_taken(pos) {
                    return false;
                }
            },
            RoutingPolicy::Permissive => {},
        }
        let box_distance: u32 = self.constraint.connection.box_distance;
        let mut at: usize = 0;
        while at < self.blocks.len()
            invariant
                at <= self.blocks@.len(),
                all_have_extent(spec_displays(self.blocks@)),
                pos != self.end_point,
                box_distance == self.constraint.connection.box_distance,
                forall|i: int|
                    0 <= i < at ==> {
                        &&& (#[trigger] self@.avoided[i]).spec_distance(pos) >= box_distance
                        &&& !self@.avoided[i].encloses(pos)
                    },
            decreases self.blocks.len() - at,
        {
            let block: &BlockDisplay = self.blocks[at];
            assert(*block == self@.avoided[at as int]);
            if gap_to(block, pos) < box_distance as u64 || is_enclosed(block, pos) {
                assert(!self@.keeps_clear(pos));
                return false;
            }
            at = at + 1;
        }
        let mut at: usize = 0;
        while at < self.non_checked_blocks.len()
            invariant
                at <= self.non_checked_blocks@.len(),
                all_have_extent(spec_displays(self.non_checked_blocks@)),
                pos != self.end_point,
                forall|i: int| 0 <= i < at ==> !(#[trigger] self@.connected[i]).covers(pos),
            decreases self.non_checked_blocks.len() - at,
        {
            let block: &BlockDisplay = self.non_checked_blocks[at];
            assert(*block == self@.connected[at as int]);
            if gap_to(block, pos) == 0 {
                assert(!self@.stays_outside(pos));
                return false;
            }
            at = at + 1;
        }
        true
    }

    /// The steps that a path may take from a cell, each with its cost.
    pub fn neighbors_of(&self, node: Position) -> (steps: Vec<(Position, u128)>)
        ensures
            steps@ == self@.neighbors(node),
    {
        let mut steps: Vec<(Position, u128)> = Vec::new();
        if node.x > 0 {
            let to = Position { x: node.x - 1, y: node.y };
            if self.is_valid_pos(to) {
                steps.push((to, self.cost(to)));
            }
        }
        let ghost first = steps@;
        if node.y > 0 {
            let to = Position { x: node.x, y: node.y - 1 };
            if self.is_valid_pos(to) {
                steps.push((to, self.cost(to)));
            }
        }
        let ghost second = steps@;
        if node.x < self.constraint.max_width {
            let to = Position { x: node.x + 1, y: node.y };
            if self.is_valid_pos(to) {
                steps.push((to, self.cost(to)));
            }
        }
        let ghost third = steps@;
        if node.y < self.constraint.max_height {
            let to = Position { x: node.x, y: node.y + 1 };
            if self.is_valid_pos(to) {
                steps.push((to, self.cost(to)));
            }
        }
        proof {
            let grid = self@;
            let left = grid.offer(node.x > 0, Position { x: (node.x - 1) as u32, y: node.y });
            let up = grid.offer(node.y > 0, Position { x: node.x, y: (node.y - 1) as u32 });
            let right = grid.offer(
                node.x < grid.max_width,
                Position { x: (node.x + 1) as u32, y: node.y },
            );
            let down = grid.offer(
                node.y < grid.max_height,
                Position { x: node.x, y: (node.y + 1) as u32 },
            );
            assert(first =~= left);
            assert(second =~= left + up);
            assert(third =~= left + up + right);
            assert(steps@ =~= left + up + right + down);
        }
        steps
    }

    /// Whether a path may go from `from` to `to` in one step.
    pub fn is_step(&self, from: Position, to: Position) -> (ok: bool)
        ensures
            ok == self@.is_step(from, to),
    {
        let in_reach = (from.x > 0 && to.x == from.x - 1 && to.y == from.y) || (from.y > 0 && to.x
            == from.x && to.y == from.y - 1) || (from.x < self.constraint.max_width && to.x
            == from.x + 1 && to.y == from.y) || (from.y < self.constraint.max_height && to.x
            == from.x && to.y == from.y + 1);
        in_reach && self.is_valid_pos(to)
    }

    /// Whether a path is a route from `start` to the target.
    pub fn is_route(&self, start: Position, path: &VecDeque<Position>) -> (ok: bool)
        ensures
            ok == self@.is_route(start, path@),
    {
        let length: usize = path.len();
        if length == 0 {
            return false;
        }
        let first = path[0];
        let last = path[length - 1];
        if !(first.x == start.x && first.y == start.y) || !self.is_end_point(last) {
            return false;
        }
        let mut at: usize = 1;
        while at < length
            invariant
                1 <= at <= length,
                length == path@.len(),
                forall|i: int|
                    0 <= i < at - 1 ==> self@.is_step(#[trigger] path@[i], path@[i + 1]),
            decreases length - at,
        {
            if !self.is_step(path[at - 1], path[at]) {
                assert(!self@.is_step(path@[at - 1], path@[at - 1 + 1]));
                return false;
            }
            at = at + 1;
        }
        visits_each_cell_once(path)
    }

    /// Hands on a search result: a route from `start` stays, anything else
    /// counts as no path. A path that visits a cell twice is no route.
    pub fn accept_route(&self, start: Position, found: Option<VecDeque<Position>>) -> (route:
        Option<VecDeque<Position>>)
        ensures
            route.is_some() == (found.is_some() && self@.is_route(start, found.unwrap()@)),
            route.is_some() ==> route == found,
            forall|named: Option<Seq<Position>>|
                route_is(found, named) ==> route_is(route, self@.accept(start, named)),
    {
        match found {
            Some(path) => if self.is_route(start, &path) {
                Some(path)
            } else {
                None
            },
            None => None,
        }
    }

    /// Searches a route from `start` to the target.
    ///
    /// The result is the path of the A* search over the steps of this
    /// problem, provided that it is a route; `None` says that the search
    /// found no way to the target. A route moves by unit steps and visits
    /// no cell twice; it holds at least one cell more than start and target
    /// are steps apart.
    pub fn find_route(&self, start: Position) -> (route: Option<VecDeque<Position>>)
        ensures
            route_is(route, self@.route(start)),
            route.is_some() ==> {
                &&& self@.is_route(start, route.unwrap()@)
                &&& is_unit_path(route.unwrap()@)
                &&& visits_no_cell_twice(route.unwrap()@)
                &&& route.unwrap()@.len() >= spec_manhattan(start, self@.target) + 1
            },
    {
        let found = run_astar(self, start);
        let route = self.accept_route(start, found);
        proof {
            if route.is_some() {
                lemma_route_is_unit_path(self@, start, route.unwrap()@);
                lemma_unit_path_spans_distance(route.unwrap()@);
            }
        }
        route
    }
}

impl<'a> PathCreator for DisplayNodeFinder<'a> {
    type Model = SearchGrid;

    open spec fn model(&self) -> SearchGrid {
        self@
    }

    open spec fn spec_new_path(model: SearchGrid, start: Position, end: Position) -> Option<
        Seq<Position>,
    > {
        model.route_between(start, end)
    }

    open spec fn spec_after_search(model: SearchGrid, start: Position, end: Position) -> SearchGrid {
        model.with_target(end)
    }

    open spec fn spec_is_valid_path(model: SearchGrid, path: Seq<Position>) -> bool {
        model.avoids_taken(path)
    }

    /// Sets the target and searches a route to it from `start`.
    fn calculate_new_path(&mut self, start: Position, end: Position) -> (path: Option<
        VecDeque<Position>,
    >) {
        proof {
            use_type_invariant(&*self);
        }
        self.end_point = end;
        self.find_route(start)
    }

    /// Whether none of the cells of a path belongs to an earlier connection.
    fn is_valid_path(&self, path: &VecDeque<Position>) -> (ok: bool) {
        let mut at: usize = 0;
        while at < path.len()
            invariant
                at <= path@.len(),
                forall|i: int| 0 <= i < at ==> !self@.taken.contains(#[trigger] path@[i]),
            decreases path.len() - at,
        {
            if self.is_taken(path[at]) {
                return false;
            }
            at = at + 1;
        }
        true
    }
}

impl<'a> astar::SearchProblem for DisplayNodeFinder<'a> {
    type Node = Position;

    type Cost = u128;

    type Iter = std::vec::IntoIter<(Position, u128)>;

    /// Whether a cell is the target of the search.
    fn is_end(&self, node: &Position) -> (hit: bool)
        ensures
            hit == (*node == self@.target),
    {
        self.is_end_point(*node)
    }

    /// The estimate of what is left to go from a cell: the number of unit
    /// steps to the target on an empty grid.
    fn heuristic(&self, node: &Position) -> (estimate: u128)
        ensures
            estimate == spec_manhattan(*node, self@.target),
    {
        self.heuristic_to_end(*node)
    }

    /// The steps that a path may take from a cell, each with its cost, in
    /// the order in which they are offered. What the path has cost so far
    /// does not matter.
    fn neighbors(&self, node: &Position, cost_so_far: &u128) -> (steps: std::vec::IntoIter<
        (Position, u128),
    >)
        ensures
            steps.remaining() == self@.neighbors(*node),
    {
        self.neighbors_of(*node).into_iter()
    }
}

/// Runs `astar::astar` on a search problem, from `start`, and keeps the
/// cells of the path that it returns.
///
/// The search sees the problem through its target test, its estimate and
/// its steps alone, and the estimate follows from the target. What it
/// returns is therefore taken to be settled by the step relation, the target
/// and the start cell. Nothing is claimed of the path itself.
#[verifier::external_body]
fn run_astar(finder: &DisplayNodeFinder, start: Position) -> (found: Option<VecDeque<Position>>)
    ensures
        route_is(found, astar_route(finder@.steps(), finder@.target, start)),
{
    astar::astar(finder, start).map(|found| found.0.into_iter().map(|step| step.0).collect())
}

/// Whether no cell occurs twice in a path.
pub fn visits_each_cell_once(path: &VecDeque<Position>) -> (ok: bool)
    ensures
        ok == visits_no_cell_twice(path@),
{
    let mut seen: HashSet<u64> = HashSet::new();
    let mut at: usize = 0;
    while at < path.len()
        invariant
            at <= path@.len(),
            forall|i: int, j: int| 0 <= i < j < at ==> path@[i] != path@[j],
            forall|i: int| 0 <= i < at ==> seen@.contains(spec_cell_key(#[trigger] path@[i])),
            forall|key: u64|
                seen@.contains(key) ==> exists|i: int|
                    0 <= i < at && spec_cell_key(#[trigger] path@[i]) == key,
        decreases path.len() - at,
    {
        let cell = path[at];
        let key: u64 = cell.x as u64 * 0x1_0000_0000 + cell.y as u64;
        let ghost before = seen@;
        let fresh = seen.insert(key);
        if !fresh {
            proof {
                let i = choose|i: int| 0 <= i < at && spec_cell_key(#[trigger] path@[i]) == key;
                assert(path@[i] == path@[at as int]);
            }
            return false;
        }
        proof {
            assert forall|other: u64| seen@.contains(other) implies exists|i: int|
                0 <= i < at + 1 && spec_cell_key(#[trigger] path@[i]) == other by {
                if other == key {
                    assert(spec_cell_key(path@[at as int]) == key);
                } else {
                    assert(before.contains(other));
                    let i = choose|i: int|
                        0 <= i < at && spec_cell_key(#[trigger] path@[i]) == other;
                    assert(0 <= i < at + 1 && spec_cell_key(path@[i]) == other);
                }
            }
            assert forall|i: int, j: int| 0 <= i < j < at + 1 implies path@[i] != path@[j] by {
                if j == at {
                    assert(before.contains(spec_cell_key(path@[i])));
                }
            }
        }
        at = at + 1;
    }
    true
}

/// The distance from a cell to the nearest cell of a block.
pub fn gap_to(block: &BlockDisplay, pos: Position) -> (gap: u64)
    requires
        block.has_extent(),
    ensures
        gap == block.spec_distance(pos),
        gap == 0 <==> block.covers(pos),
{
    let clamped = block.clamp_position(pos);
    let xdiff: u32 = if clamped.x > pos.x {
        clamped.x - pos.x
    } else {
        pos.x - clamped.x
    };
    let ydiff: u32 = if clamped.y > pos.y {
        clamped.y - pos.y
    } else {
        pos.y - clamped.y
    };
    xdiff as u64 + ydiff as u64
}

/// Whether a cell lies inside a block without touching its border.
pub fn is_enclosed(block: &BlockDisplay, pos: Position) -> (inside: bool)
    requires
        block.has_extent(),
    ensures
        inside == block.encloses(pos),
{
    block.pos.x < pos.x && pos.x < block.pos.x + block.size.width - 1 && block.pos.y < pos.y
        && pos.y < block.pos.y + block.size.height - 1
}

/// Whether a list of cells holds a cell.
pub fn contains_position(cells: &Vec<Position>, pos: Position) -> (hit: bool)
    ensures
        hit == cells@.contains(pos),
{
    let mut at: usize = 0;
    while at < cells.len()
        invariant
            at <= cells@.len(),
            forall|i: int| 0 <= i < at ==> cells@[i] != pos,
        decreases cells.len() - at,
    {
        let cell = cells[at];
        if cell.x == pos.x && cell.y == pos.y {
            return true;
        }
        at = at + 1;
    }
    false
}

/// The cell `i` steps along the way that leads from `start` along its row
/// to the column of `end` and then along that column to `end`.
pub open spec fn spec_direct_cell(start: Position, end: Position, i: int) -> Position {
    let across = spec_gap(start.x, end.x);
    if i <= across {
        Position {
            x: (if end.x >= start.x {
                start.x + i
            } else {
                start.x - i
            }) as u32,
            y: start.y,
        }
    } else {
        Position {
            x: end.x,
            y: (if end.y >= start.y {
                start.y + (i - across)
            } else {
                start.y - (i - across)
            }) as u32,
        }
    }
}

/// The path that leads from `start` along its row to the column of `end`
/// and then along that column to `end`.
pub open spec fn spec_direct_path(start: Position, end: Position) -> Seq<Position> {
    Seq::new(
        (spec_manhattan(start, end) + 1) as nat,
        |i: int| spec_direct_cell(start, end, i),
    )
}

/// Along the direct way every cell is one step from the cell before, and
/// the step does not leave a grid that holds both ends.
proof fn lemma_direct_cells_are_in_reach(grid: SearchGrid, start: Position, i: int)
    requires
        start.x <= grid.max_width,
        start.y <= grid.max_height,
        grid.target.x <= grid.max_width,
        grid.target.y <= grid.max_height,
        0 <= i < spec_manhattan(start, grid.target),
    ensures
        grid.in_reach(
            spec_direct_cell(start, grid.target, i),
            spec_direct_cell(start, grid.target, i + 1),
        ),
{
    let end = grid.target;
    let across = spec_gap(start.x, end.x);
    let from = spec_direct_cell(start, end, i);
    let to = spec_direct_cell(start, end, i + 1);
    if i + 1 <= across {
        if end.x >= start.x {
            assert(from.x == start.x + i && to.x == start.x + i + 1 && from.y == to.y);
            assert(from.x < grid.max_width);
        } else {
            assert(from.x == start.x - i && to.x == start.x - i - 1 && from.y == to.y);
            assert(from.x > 0);
        }
    } else {
        assert(from.x == end.x && to.x == end.x);
        if end.y >= start.y {
            assert(from.y == start.y + (i - across) && to.y == start.y + (i + 1 - across));
            assert(from.y < grid.max_height);
        } else {
            assert(from.y == start.y - (i - across) && to.y == start.y - (i + 1 - across));
            assert(from.y > 0);
        }
    }
}

/// Along the direct way no cell comes twice.
proof fn lemma_direct_cells_differ(start: Position, end: Position, i: int, j: int)
    requires
        0 <= i < j <= spec_manhattan(start, end),
    ensures
        spec_direct_cell(start, end, i) != spec_direct_cell(start, end, j),
{
    let across = spec_gap(start.x, end.x);
    let one = spec_direct_cell(start, end, i);
    let other = spec_direct_cell(start, end, j);
    if j <= across {
        assert(one.x != other.x);
    } else if i <= across {
        assert(one.y == start.y);
        assert(other.y != start.y);
    } else {
        assert(one.y != other.y);
    }
}

/// On a grid without blocks and without cells held, between two cells of
/// the grid, there is a route that holds exactly one cell more than the two
/// cells are steps apart: no route is shorter, and this one is as short.
pub proof fn lemma_free_grid_has_direct_route(grid: SearchGrid, start: Position)
    requires
        grid.avoided.len() == 0,
        grid.connected.len() == 0,
        grid.taken.len() == 0,
        start.x <= grid.max_width,
        start.y <= grid.max_height,
        grid.target.x <= grid.max_width,
        grid.target.y <= grid.max_height,
    ensures
        grid.is_route(start, spec_direct_path(start, grid.target)),
        spec_direct_path(start, grid.target).len() == spec_manhattan(start, grid.target) + 1,
{
    let end = grid.target;
    let path = spec_direct_path(start, end);
    assert(path[0] == start);
    assert(path.last() == end);
    assert forall|i: int| 0 <= i < path.len() - 1 implies grid.is_step(
        #[trigger] path[i],
        path[i + 1],
    ) by {
        lemma_direct_cells_are_in_reach(grid, start, i);
        let to = path[i + 1];
        if grid.taken.contains(to) {
            let k = choose|k: int| 0 <= k < grid.taken.len() && grid.taken[k] == to;
        }
        assert(grid.keeps_clear(to));
        assert(grid.stays_outside(to));
    }
    assert forall|i: int, j: int| 0 <= i < j < path.len() implies path[i] != path[j] by {
        lemma_direct_cells_differ(start, end, i, j);
    }
}

/// A route that starts on the grid stays on it: none of its cells lies
/// beyond `max_width` or `max_height`.
pub proof fn lemma_route_stays_on_grid(grid: SearchGrid, start: Position, path: Seq<Position>, upto: int)
    requires
        grid.is_route(start, path),
        start.x <= grid.max_width,
        start.y <= grid.max_height,
        0 <= upto <= path.len(),
    ensures
        forall|i: int|
            0 <= i < upto ==> (#[trigger] path[i]).x <= grid.max_width && path[i].y
                <= grid.max_height,
    decreases upto,
{
    if upto > 1 {
        lemma_route_stays_on_grid(grid, start, path, upto - 1);
        assert(grid.is_step(path[upto - 2], path[upto - 2 + 1]));
    }
}

/// A route moves by unit steps only.
pub proof fn lemma_route_is_unit_path(grid: SearchGrid, start: Position, path: Seq<Position>)
    requires
        grid.is_route(start, path),
    ensures
        is_unit_path(path),
{
    assert forall|i: int| 0 <= i < path.len() - 1 implies is_unit_step(
        #[trigger] path[i],
        path[i + 1],
    ) by {
        assert(grid.is_step(path[i], path[i + 1]));
    }
}

} // verus!
