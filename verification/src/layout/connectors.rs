//! The cells of a block's border at which connections attach.
//!
//! Every block offers the midpoints of its four edges. A midpoint that an
//! earlier connection holds gives way to the free cells one step along the
//! same edge to either side of it.

use vstd::prelude::*;
use crate::data::BlockSpec;
use crate::layout::display::{BlockDisplay, Position};
use crate::layout::pathfinder::contains_position;

verus! {

/// The midpoints of the left, top, right and bottom edge of a block.
pub open spec fn spec_core_connectors(display: BlockDisplay) -> Seq<Position> {
    seq![
        Position { x: display.pos.x, y: (display.pos.y + display.size.height / 2) as u32 },
        Position { x: (display.pos.x + display.size.width / 2) as u32, y: display.pos.y },
        Position {
            x: (display.pos.x + display.size.width - 1) as u32,
            y: (display.pos.y + display.size.height / 2) as u32,
        },
        Position {
            x: (display.pos.x + display.size.width / 2) as u32,
            y: (display.pos.y + display.size.height - 1) as u32,
        },
    ]
}

/// How far the alternates of a connector lie from it along an edge of the
/// given length: a quarter of the length, but at least two cells.
pub open spec fn spec_alternate_step(length: u32) -> int {
    if length / 4 > 2 {
        length as int / 4
    } else {
        2
    }
}

/// The cell if it is wanted, and nothing otherwise.
pub open spec fn spec_keep(wanted: bool, cell: Position) -> Seq<Position> {
    if wanted {
        seq![cell]
    } else {
        Seq::empty()
    }
}

/// Whether a connector lies in the column of the left or of the right edge.
pub open spec fn spec_on_side_edge(used: Position, block: BlockDisplay) -> bool {
    used.x == block.pos.x || used.x == block.pos.x + block.size.width - 1
}

/// The cell before `used` along its edge, and whether it lies on the edge
/// strictly between the corners.
pub open spec fn spec_alternate_before(used: Position, block: BlockDisplay) -> (bool, Position) {
    if spec_on_side_edge(used, block) {
        let change = spec_alternate_step(block.size.height);
        (used.y - change > block.pos.y, Position { x: used.x, y: (used.y - change) as u32 })
    } else {
        let change = spec_alternate_step(block.size.width);
        (used.x - change > block.pos.x, Position { x: (used.x - change) as u32, y: used.y })
    }
}

/// The cell after `used` along its edge, and whether it lies on the edge
/// strictly between the corners.
pub open spec fn spec_alternate_after(used: Position, block: BlockDisplay) -> (bool, Position) {
    if spec_on_side_edge(used, block) {
        let change = spec_alternate_step(block.size.height);
        (
            used.y + change < block.pos.y + block.size.height - 1,
            Position { x: used.x, y: (used.y + change) as u32 },
        )
    } else {
        let change = spec_alternate_step(block.size.width);
        (
            used.x + change < block.pos.x + block.size.width - 1,
            Position { x: (used.x + change) as u32, y: used.y },
        )
    }
}

/// The alternates of a connector: the cells one step before and after it
/// along its edge, as far as they lie strictly between the corners.
pub open spec fn spec_new_connection_points(used: Position, block: BlockDisplay) -> Seq<Position> {
    spec_keep(spec_alternate_before(used, block).0, spec_alternate_before(used, block).1)
        + spec_keep(spec_alternate_after(used, block).0, spec_alternate_after(used, block).1)
}

/// The cells of a list that no path holds, in order.
pub open spec fn spec_unused(cells: Seq<Position>, paths: Seq<Position>) -> Seq<Position>
    decreases cells.len(),
{
    if cells.len() == 0 {
        Seq::empty()
    } else {
        spec_unused(cells.drop_last(), paths) + spec_keep(
            !paths.contains(cells.last()),
            cells.last(),
        )
    }
}

/// What stands for one connector: the connector itself while it is free,
/// else its free alternates.
pub open spec fn spec_stand_ins(connector: Position, block: BlockDisplay, paths: Seq<Position>) -> Seq<
    Position,
> {
    if paths.contains(connector) {
        spec_unused(spec_new_connection_points(connector, block), paths)
    } else {
        seq![connector]
    }
}

/// The stand-ins of the first `upto` connectors of a list, in order.
pub open spec fn spec_all_stand_ins(
    connectors: Seq<Position>,
    block: BlockDisplay,
    paths: Seq<Position>,
    upto: int,
) -> Seq<Position>
    decreases upto,
{
    if upto <= 0 {
        Seq::empty()
    } else {
        spec_all_stand_ins(connectors, block, paths, upto - 1) + spec_stand_ins(
            connectors[upto - 1],
            block,
            paths,
        )
    }
}

/// The cells at which a new connection may attach to a block, given the
/// cells that earlier connections hold: the stand-ins of its four edge
/// midpoints.
pub open spec fn spec_connection_points(block: BlockDisplay, paths: Seq<Position>) -> Seq<Position> {
    spec_all_stand_ins(spec_core_connectors(block), block, paths, 4)
}

/// None of the cells kept as unused lies on a path.
pub proof fn lemma_unused_is_free(cells: Seq<Position>, paths: Seq<Position>)
    ensures
        forall|i: int|
            0 <= i < spec_unused(cells, paths).len() ==> !paths.contains(
                #[trigger] spec_unused(cells, paths)[i],
            ),
    decreases cells.len(),
{
    if cells.len() > 0 {
        lemma_unused_is_free(cells.drop_last(), paths);
        let before = spec_unused(cells.drop_last(), paths);
        let all = spec_unused(cells, paths);
        assert forall|i: int| 0 <= i < all.len() implies !paths.contains(#[trigger] all[i]) by {
            if i < before.len() {
                assert(all[i] == before[i]);
            }
        }
    }
}

/// None of the stand-ins of connectors lies on a path.
pub proof fn lemma_stand_ins_are_free(
    connectors: Seq<Position>,
    block: BlockDisplay,
    paths: Seq<Position>,
    upto: int,
)
    requires
        upto <= connectors.len(),
    ensures
        forall|i: int|
            0 <= i < spec_all_stand_ins(connectors, block, paths, upto).len() ==> !paths.contains(
                #[trigger] spec_all_stand_ins(connectors, block, paths, upto)[i],
            ),
    decreases upto,
{
    if upto > 0 {
        lemma_stand_ins_are_free(connectors, block, paths, upto - 1);
        lemma_unused_is_free(spec_new_connection_points(connectors[upto - 1], block), paths);
        let before = spec_all_stand_ins(connectors, block, paths, upto - 1);
        let here = spec_stand_ins(connectors[upto - 1], block, paths);
        let all = spec_all_stand_ins(connectors, block, paths, upto);
        assert forall|i: int| 0 <= i < all.len() implies !paths.contains(#[trigger] all[i]) by {
            if i < before.len() {
                assert(all[i] == before[i]);
            } else {
                assert(all[i] == here[i - before.len()]);
            }
        }
    }
}

/// No cell at which a new connection may attach lies on a path.
pub proof fn lemma_connection_points_are_free(block: BlockDisplay, paths: Seq<Position>)
    ensures
        forall|i: int|
            0 <= i < spec_connection_points(block, paths).len() ==> !paths.contains(
                #[trigger] spec_connection_points(block, paths)[i],
            ),
{
    lemma_stand_ins_are_free(spec_core_connectors(block), block, paths, 4);
}

/// The cells kept as unused are among the cells of the list.
pub proof fn lemma_unused_are_members(cells: Seq<Position>, paths: Seq<Position>)
    ensures
        forall|i: int|
            0 <= i < spec_unused(cells, paths).len() ==> cells.contains(
                #[trigger] spec_unused(cells, paths)[i],
            ),
    decreases cells.len(),
{
    if cells.len() > 0 {
        lemma_unused_are_members(cells.drop_last(), paths);
        let before = spec_unused(cells.drop_last(), paths);
        let all = spec_unused(cells, paths);
        assert forall|i: int| 0 <= i < all.len() implies cells.contains(#[trigger] all[i]) by {
            if i < before.len() {
                assert(all[i] == before[i]);
                let j = choose|j: int|
                    0 <= j < cells.drop_last().len() && cells.drop_last()[j] == before[i];
                assert(cells[j] == all[i]);
            } else {
                assert(cells[cells.len() - 1] == all[i]);
            }
        }
    }
}

/// The stand-ins of connectors that lie on a block lie on that block.
pub proof fn lemma_stand_ins_lie_on_block(
    connectors: Seq<Position>,
    block: BlockDisplay,
    paths: Seq<Position>,
    upto: int,
)
    requires
        block.has_extent(),
        upto <= connectors.len(),
        forall|i: int| 0 <= i < connectors.len() ==> block.covers(#[trigger] connectors[i]),
    ensures
        forall|i: int|
            0 <= i < spec_all_stand_ins(connectors, block, paths, upto).len() ==> block.covers(
                #[trigger] spec_all_stand_ins(connectors, block, paths, upto)[i],
            ),
    decreases upto,
{
    if upto > 0 {
        lemma_stand_ins_lie_on_block(connectors, block, paths, upto - 1);
        let used = connectors[upto - 1];
        let alternates = spec_new_connection_points(used, block);
        lemma_unused_are_members(alternates, paths);
        assert(block.covers(used));
        assert forall|k: int| 0 <= k < alternates.len() implies block.covers(
            #[trigger] alternates[k],
        ) by {}
        let before = spec_all_stand_ins(connectors, block, paths, upto - 1);
        let here = spec_stand_ins(used, block, paths);
        let all = spec_all_stand_ins(connectors, block, paths, upto);
        assert forall|i: int| 0 <= i < all.len() implies block.covers(#[trigger] all[i]) by {
            if i < before.len() {
                assert(all[i] == before[i]);
            } else {
                let cell = here[i - before.len()];
                assert(all[i] == cell);
                if paths.contains(used) {
                    let k = choose|k: int| 0 <= k < alternates.len() && alternates[k] == cell;
                    assert(block.covers(alternates[k]));
                }
            }
        }
    }
}

/// Every cell at which a new connection may attach to a block is a cell of
/// that block.
pub proof fn lemma_connection_points_lie_on_block(block: BlockDisplay, paths: Seq<Position>)
    requires
        block.has_extent(),
    ensures
        forall|i: int|
            0 <= i < spec_connection_points(block, paths).len() ==> block.covers(
                #[trigger] spec_connection_points(block, paths)[i],
            ),
{
    let core = spec_core_connectors(block);
    assert forall|i: int| 0 <= i < core.len() implies block.covers(#[trigger] core[i]) by {}
    lemma_stand_ins_lie_on_block(core, block, paths, 4);
}

/// The first block called `name`, where there is one, is a block of the
/// list and bears that name.
pub proof fn lemma_found_block_bears_name(
    blocks: Seq<(&BlockSpec, BlockDisplay)>,
    name: Seq<char>,
    from: int,
)
    requires
        0 <= from,
    ensures
        match spec_find_block(blocks, name, from) {
            Some(at) => from <= at < blocks.len() && blocks[at].0.name() == name,
            None => true,
        },
    decreases blocks.len() - from,
{
    if from < blocks.len() && blocks[from].0.name() != name {
        lemma_found_block_bears_name(blocks, name, from + 1);
    }
}

/// While no path holds a cell, a block offers the midpoints of its four edges.
pub proof fn lemma_all_connectors_are_free_at_first(block: BlockDisplay)
    ensures
        spec_connection_points(block, Seq::empty()) == spec_core_connectors(block),
{
    reveal_with_fuel(spec_all_stand_ins, 5);
    let none = Seq::<Position>::empty();
    let core = spec_core_connectors(block);
    assert forall|i: int| 0 <= i < 4 implies spec_stand_ins(core[i], block, none) == seq![core[i]] by {
        if none.contains(core[i]) {
            let k = choose|k: int| 0 <= k < none.len() && none[k] == core[i];
        }
    }
    assert(spec_connection_points(block, none) =~= core);
}

/// The index of the first block called `name` at or after `from`.
pub open spec fn spec_find_block(
    blocks: Seq<(&BlockSpec, BlockDisplay)>,
    name: Seq<char>,
    from: int,
) -> Option<int>
    decreases blocks.len() - from,
{
    if from < 0 || from >= blocks.len() {
        None
    } else if blocks[from].0.name() == name {
        Some(from)
    } else {
        spec_find_block(blocks, name, from + 1)
    }
}

/// The midpoints of the four edges of a block: left, top, right, bottom.
pub fn core_connectors(display: &BlockDisplay) -> (connectors: Vec<Position>)
    requires
        display.has_extent(),
    ensures
        connectors@ == spec_core_connectors(*display),
{
    let mut connectors: Vec<Position> = Vec::new();
    connectors.push(Position { x: display.pos.x, y: display.pos.y + (display.size.height / 2) });
    connectors.push(Position { x: display.pos.x + (display.size.width / 2), y: display.pos.y });
    connectors.push(
        Position {
            x: display.pos.x + display.size.width - 1,
            y: display.pos.y + (display.size.height / 2),
        },
    );
    connectors.push(
        Position {
            x: display.pos.x + (display.size.width / 2),
            y: display.pos.y + display.size.height - 1,
        },
    );
    assert(connectors@ =~= spec_core_connectors(*display));
    connectors
}

/// The alternates of a connector that is in use.
pub fn new_connection_points(used: Position, block: &BlockDisplay) -> (conns: Vec<Position>)
    requires
        block.has_extent(),
    ensures
        conns@ == spec_new_connection_points(used, *block),
{
    let mut conns: Vec<Position> = Vec::new();
    if used.x == block.pos.x || used.x == block.pos.x + block.size.width - 1 {
        let change: u32 = if block.size.height / 4 > 2 {
            block.size.height / 4
        } else {
            2
        };
        if used.y >= change && used.y - change > block.pos.y {
            conns.push(Position { x: used.x, y: used.y - change });
        }
        if (used.y as u64) + (change as u64) < (block.pos.y as u64) + (block.size.height as u64)
            - 1 {
            conns.push(Position { x: used.x, y: used.y + change });
        }
    } else {
        let change: u32 = if block.size.width / 4 > 2 {
            block.size.width / 4
        } else {
            2
        };
        if used.x >= change && used.x - change > block.pos.x {
            conns.push(Position { x: used.x - change, y: used.y });
        }
        if (used.x as u64) + (change as u64) < (block.pos.x as u64) + (block.size.width as u64)
            - 1 {
            conns.push(Position { x: used.x + change, y: used.y });
        }
    }
    assert(conns@ =~= spec_new_connection_points(used, *block));
    conns
}

/// The cells at which a new connection may attach to a block.
///
/// A midpoint of an edge that no path holds is offered as it is. One that a
/// path holds is replaced by those of its alternates that no path holds. No
/// cell that is offered lies on a path.
pub fn find_connection_points(block: &BlockDisplay, paths: &Vec<Position>) -> (points: Vec<Position>)
    requires
        block.has_extent(),
    ensures
        points@ == spec_connection_points(*block, paths@),
        points@.len() <= 8,
        forall|i: int| 0 <= i < points@.len() ==> !paths@.contains(#[trigger] points@[i]),
{
    let core = core_connectors(block);
    let mut points: Vec<Position> = Vec::new();
    let mut at: usize = 0;
    while at < core.len()
        invariant
            at <= core@.len(),
            core@ == spec_core_connectors(*block),
            block.has_extent(),
            points@ == spec_all_stand_ins(core@, *block, paths@, at as int),
            points@.len() <= 2 * at,
            forall|i: int| 0 <= i < points@.len() ==> !paths@.contains(#[trigger] points@[i]),
        decreases core.len() - at,
    {
        let connector = core[at];
        let ghost before = points@;
        if contains_position(paths, connector) {
            let alternates = new_connection_points(connector, block);
            let mut next: usize = 0;
            while next < alternates.len()
                invariant
                    next <= alternates@.len(),
                    alternates@.len() <= 2,
                    points@.len() <= before.len() + next,
                    points@ == before + spec_unused(alternates@.take(next as int), paths@),
                    forall|i: int|
                        0 <= i < points@.len() ==> !paths@.contains(#[trigger] points@[i]),
                decreases alternates.len() - next,
            {
                let alternate = alternates[next];
                proof {
                    assert(alternates@.take(next as int + 1).drop_last() =~= alternates@.take(
                        next as int,
                    ));
                }
                if !contains_position(paths, alternate) {
                    points.push(alternate);
                }
                next = next + 1;
            }
            proof {
                assert(alternates@.take(next as int) =~= alternates@);
            }
        } else {
            points.push(connector);
        }
        at = at + 1;
    }
    points
}

/// The cells of a list that no path holds, in order.
pub fn unused_cells(cells: &Vec<Position>, paths: &Vec<Position>) -> (free: Vec<Position>)
    ensures
        free@ == spec_unused(cells@, paths@),
{
    let mut free: Vec<Position> = Vec::new();
    let mut at: usize = 0;
    while at < cells.len()
        invariant
            at <= cells@.len(),
            free@ == spec_unused(cells@.take(at as int), paths@),
        decreases cells.len() - at,
    {
        let cell = cells[at];
        proof {
            assert(cells@.take(at as int + 1).drop_last() =~= cells@.take(at as int));
        }
        if !contains_position(paths, cell) {
            free.push(cell);
        }
        at = at + 1;
    }
    proof {
        assert(cells@.take(at as int) =~= cells@);
    }
    free
}

/// The index of the first block called `name`, if there is one.
pub fn find_block_index(name: &String, blocks: &[(&BlockSpec, BlockDisplay)]) -> (index: Option<usize>)
    ensures
        match index {
            Some(found) => found < blocks@.len() && spec_find_block(blocks@, name@, 0) == Some(
                found as int,
            ),
            None => spec_find_block(blocks@, name@, 0).is_none(),
        },
{
    let mut at: usize = 0;
    while at < blocks.len()
        invariant
            at <= blocks@.len(),
            spec_find_block(blocks@, name@, 0) == spec_find_block(blocks@, name@, at as int),
        decreases blocks.len() - at,
    {
        if blocks[at].0.is_named(name) {
            return Some(at);
        }
        at = at + 1;
    }
    None
}

/// The display of the first block called `name`, if there is one.
pub fn find_block_display<'a>(name: &String, blocks: &'a [(&BlockSpec, BlockDisplay)]) -> (display:
    Option<&'a BlockDisplay>)
    ensures
        match display {
            Some(found) => spec_find_block(blocks@, name@, 0).is_some() && 0 <= spec_find_block(
                blocks@,
                name@,
                0,
            ).unwrap() < blocks@.len() && *found == blocks@[spec_find_block(
                blocks@,
                name@,
                0,
            ).unwrap()].1,
            None => spec_find_block(blocks@, name@, 0).is_none(),
        },
{
    let mut at: usize = 0;
    while at < blocks.len()
        invariant
            at <= blocks@.len(),
            spec_find_block(blocks@, name@, 0) == spec_find_block(blocks@, name@, at as int),
        decreases blocks.len() - at,
    {
        if blocks[at].0.is_named(name) {
            return Some(&blocks[at].1);
        }
        at = at + 1;
    }
    None
}

} // verus!
