//! Placement of sized blocks: one column, centred on the screen, each
//! block below the one before it with the distance between blocks between
//! them.

use vstd::prelude::*;
use crate::data::BlockSpec;
use crate::layout::boxed::{spec_box_height, spec_box_lines, spec_box_width, spec_text_len, text_len};
use crate::layout::constraint::BlockConstraint;
use crate::layout::display::{BlockDisplay, Position};

verus! {

/// The row below a stack of the first `upto` blocks: every block of the
/// stack takes up its height and, below it, the distance between blocks.
pub open spec fn spec_stacked_y(blocks: Seq<BlockSpec>, constraint: BlockConstraint, upto: int) -> int
    decreases upto,
{
    if upto <= 0 {
        0
    } else {
        spec_stacked_y(blocks, constraint, upto - 1) + spec_box_height(
            blocks[upto - 1].text(),
            constraint.min_limited_width,
        ) + constraint.inter_block_distance
    }
}

/// The column of a box of the given width that is centred on the screen.
pub open spec fn spec_centered_x(screen_width: u32, width: nat) -> int {
    screen_width as int / 2 - width as int / 2
}

/// The blocks can be stacked: every text is short enough for the size of
/// its box to be represented, no box is wider than the screen allows for
/// centring, and the row of every box, which is the row below the stack of
/// the blocks before it, can be represented.
pub open spec fn spec_can_stack(
    blocks: Seq<BlockSpec>,
    constraint: BlockConstraint,
    screen_width: u32,
) -> bool {
    forall|i: int|
        0 <= i < blocks.len() ==> {
            &&& spec_text_len((#[trigger] blocks[i]).text()) + 4 <= u32::MAX
            &&& spec_centered_x(
                screen_width,
                spec_box_width(blocks[i].text(), constraint.min_limited_width),
            ) >= 0
            &&& spec_stacked_y(blocks, constraint, i) <= u32::MAX
        }
}

/// The blocks can be stacked and the bottom row of each can be represented.
pub open spec fn spec_can_place(
    blocks: Seq<BlockSpec>,
    constraint: BlockConstraint,
    screen_width: u32,
) -> bool {
    &&& spec_can_stack(blocks, constraint, screen_width)
    &&& forall|i: int|
        0 <= i < blocks.len() ==> spec_stacked_y(blocks, constraint, i) + spec_box_height(
            (#[trigger] blocks[i]).text(),
            constraint.min_limited_width,
        ) <= u32::MAX
}

/// A block that is placed in a stack whose bottom rows can be represented
/// covers at least one cell, and its far edges can be represented.
pub proof fn lemma_placed_has_extent(
    placed: (&BlockSpec, BlockDisplay),
    blocks: Seq<BlockSpec>,
    constraint: BlockConstraint,
    screen_width: u32,
    at: int,
)
    requires
        0 <= at < blocks.len(),
        spec_can_place(blocks, constraint, screen_width),
        spec_is_placed(placed, blocks, constraint, screen_width, at),
    ensures
        placed.1.has_extent(),
{
    let _ = blocks[at];
}

/// The block at index `at` of a stack, as it is placed: sized, centred on
/// the screen, and in the row below the stack of the blocks before it.
pub open spec fn spec_is_placed(
    placed: (&BlockSpec, BlockDisplay),
    blocks: Seq<BlockSpec>,
    constraint: BlockConstraint,
    screen_width: u32,
    at: int,
) -> bool {
    let text = blocks[at].text();
    let limit = constraint.min_limited_width;
    &&& *placed.0 == blocks[at]
    &&& placed.1.color == blocks[at].color()
    &&& placed.1.lines() == spec_box_lines(text, limit)
    &&& placed.1.size.width == spec_box_width(text, limit)
    &&& placed.1.size.height == spec_box_height(text, limit)
    &&& placed.1.pos.x == spec_centered_x(screen_width, spec_box_width(text, limit))
    &&& placed.1.pos.y == spec_stacked_y(blocks, constraint, at)
}

/// The first block stands in row 0, and every other block begins where the
/// block above it ends plus the distance between blocks.
pub open spec fn spec_rows_follow(displays: Seq<(&BlockSpec, BlockDisplay)>, distance: u32) -> bool {
    &&& displays.len() > 0 ==> displays[0].1.pos.y == 0
    &&& forall|i: int|
        0 <= i && i + 1 < displays.len() ==> (#[trigger] displays[i + 1]).1.pos.y
            == displays[i].1.pos.y + displays[i].1.size.height + distance
}

/// Blocks that are placed as the blocks of a stack stand one below the
/// other, the distance between blocks apart.
pub proof fn lemma_placed_rows_follow(
    displays: Seq<(&BlockSpec, BlockDisplay)>,
    blocks: Seq<BlockSpec>,
    constraint: BlockConstraint,
    screen_width: u32,
)
    requires
        displays.len() == blocks.len(),
        forall|i: int|
            0 <= i < blocks.len() ==> spec_is_placed(
                #[trigger] displays[i],
                blocks,
                constraint,
                screen_width,
                i,
            ),
    ensures
        spec_rows_follow(displays, constraint.inter_block_distance),
{
    assert forall|i: int| 0 <= i && i + 1 < displays.len() implies (
    #[trigger] displays[i + 1]).1.pos.y == displays[i].1.pos.y + displays[i].1.size.height
        + constraint.inter_block_distance by {
        assert(spec_is_placed(displays[i], blocks, constraint, screen_width, i));
        assert(spec_is_placed(displays[i + 1], blocks, constraint, screen_width, i + 1));
    }
    if displays.len() > 0 {
        assert(spec_is_placed(displays[0], blocks, constraint, screen_width, 0));
    }
}

/// No two blocks share a cell.
pub open spec fn blocks_are_apart(blocks: Seq<(&BlockSpec, BlockDisplay)>) -> bool {
    forall|i: int, j: int, cell: Position|
        #![trigger blocks[i].1.covers(cell), blocks[j].1.covers(cell)]
        0 <= i < blocks.len() && 0 <= j < blocks.len() && i != j ==> !(blocks[i].1.covers(cell)
            && blocks[j].1.covers(cell))
}

/// In a stack a later block begins no higher than an earlier one ends plus
/// the distance between blocks.
pub proof fn lemma_later_block_is_lower(
    displays: Seq<(&BlockSpec, BlockDisplay)>,
    distance: u32,
    upper: int,
    lower: int,
)
    requires
        spec_rows_follow(displays, distance),
        0 <= upper < lower < displays.len(),
    ensures
        displays[lower].1.pos.y >= displays[upper].1.pos.y + displays[upper].1.size.height
            + distance,
    decreases lower - upper,
{
    let _ = displays[lower - 1 + 1];
    if upper + 1 < lower {
        lemma_later_block_is_lower(displays, distance, upper, lower - 1);
    }
}

/// The blocks of a stack share no cell.
pub proof fn lemma_stacked_blocks_are_apart(displays: Seq<(&BlockSpec, BlockDisplay)>, distance: u32)
    requires
        spec_rows_follow(displays, distance),
    ensures
        blocks_are_apart(displays),
{
    assert forall|i: int, j: int, cell: Position|
        #![trigger displays[i].1.covers(cell), displays[j].1.covers(cell)]
        0 <= i < displays.len() && 0 <= j < displays.len() && i != j implies !(
    displays[i].1.covers(cell) && displays[j].1.covers(cell)) by {
        if i < j {
            lemma_later_block_is_lower(displays, distance, i, j);
        } else {
            lemma_later_block_is_lower(displays, distance, j, i);
        }
    }
}

/// Whether the blocks can be stacked and the bottom row of each can be
/// represented.
pub fn can_place(blocks: &[BlockSpec], constraint: &BlockConstraint, screen_width: u32) -> (ok: bool)
    ensures
        ok == spec_can_place(blocks@, *constraint, screen_width),
{
    let mut last_end_y: u64 = 0;
    let mut at: usize = 0;
    while at < blocks.len()
        invariant
            at <= blocks@.len(),
            last_end_y == spec_stacked_y(blocks@, *constraint, at as int),
            last_end_y <= 3 * u32::MAX,
            forall|i: int|
                0 <= i < at ==> {
                    &&& spec_text_len((#[trigger] blocks@[i]).text()) + 4 <= u32::MAX
                    &&& spec_centered_x(
                        screen_width,
                        spec_box_width(blocks@[i].text(), constraint.min_limited_width),
                    ) >= 0
                    &&& spec_stacked_y(blocks@, *constraint, i) <= u32::MAX
                    &&& spec_stacked_y(blocks@, *constraint, i) + spec_box_height(
                        blocks@[i].text(),
                        constraint.min_limited_width,
                    ) <= u32::MAX
                },
        decreases blocks.len() - at,
    {
        let block = &blocks[at];
        let ghost here = blocks@[at as int];
        if text_len(block.get_text()) as u128 + 4 > u32::MAX as u128 {
            return false;
        }
        let display = BlockDisplay::create_unpositioned_from_spec(block, constraint);
        if display.size.width / 2 > screen_width / 2 {
            return false;
        }
        if last_end_y + display.size.height as u64 > u32::MAX as u64 {
            return false;
        }
        last_end_y = last_end_y + display.size.height as u64 + constraint.inter_block_distance as u64;
        at = at + 1;
    }
    true
}

/// Sizes the blocks and stacks them top to bottom in their order, each
/// centred on the screen width: the first block stands in row 0, and every
/// other block begins where the block above it ends plus the distance
/// between blocks. No two blocks share a cell.
pub fn stack_blocks<'a>(screen_width: u32, blocks: &'a [BlockSpec], constraint: &BlockConstraint) -> (displays:
    Vec<(&'a BlockSpec, BlockDisplay)>)
    requires
        spec_can_stack(blocks@, *constraint, screen_width),
    ensures
        displays@.len() == blocks@.len(),
        forall|i: int|
            0 <= i < blocks@.len() ==> spec_is_placed(
                #[trigger] displays@[i],
                blocks@,
                *constraint,
                screen_width,
                i,
            ),
        spec_rows_follow(displays@, constraint.inter_block_distance),
        blocks_are_apart(displays@),
{
    let mut displays: Vec<(&'a BlockSpec, BlockDisplay)> = Vec::new();
    let y_spacing: u32 = constraint.inter_block_distance;
    let mut last_end_y: u64 = 0;
    let mut at: usize = 0;
    while at < blocks.len()
        invariant
            at <= blocks@.len(),
            displays@.len() == at,
            spec_can_stack(blocks@, *constraint, screen_width),
            y_spacing == constraint.inter_block_distance,
            last_end_y == spec_stacked_y(blocks@, *constraint, at as int),
            forall|i: int|
                0 <= i < at ==> spec_is_placed(
                    #[trigger] displays@[i],
                    blocks@,
                    *constraint,
                    screen_width,
                    i,
                ),
        decreases blocks.len() - at,
    {
        let spec: &'a BlockSpec = &blocks[at];
        assert(spec_stacked_y(blocks@, *constraint, at as int) <= u32::MAX) by {
            let _ = blocks@[at as int];
        }
        let mut block_display = BlockDisplay::create_unpositioned_from_spec(spec, constraint);
        let x: u32 = screen_width / 2 - block_display.size.width / 2;
        let y: u32 = last_end_y as u32;
        block_display.pos = Position { x: x, y: y };
        last_end_y = y as u64 + block_display.size.height as u64 + y_spacing as u64;
        displays.push((spec, block_display));
        at = at + 1;
    }
    proof {
        lemma_placed_rows_follow(displays@, blocks@, *constraint, screen_width);
        lemma_stacked_blocks_are_apart(displays@, constraint.inter_block_distance);
    }
    displays
}

/// The vertical space that the gaps of a layout take: one gap for every
/// block beyond the number of columns.
pub fn calculate_required_vertical_space(block_count: usize, spacing_per_block: u32, columns: u32) -> (space:
    u32)
    requires
        columns <= block_count <= u32::MAX,
        (block_count - columns) * spacing_per_block <= u32::MAX,
    ensures
        space == (block_count - columns) * spacing_per_block,
{
    (block_count as u32 - columns) * spacing_per_block
}

} // verus!
