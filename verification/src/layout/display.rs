//! Grid geometry and the displayable pieces of a finished layout.

use vstd::prelude::*;
use crate::data::{spec_texts, BlockSpec, Coloring};
use crate::layout::boxed::{
    create_unpositioned_from_box_spec,
    spec_box_height,
    spec_box_lines,
    spec_box_width,
    spec_text_len,
};
use crate::layout::constraint::BlockConstraint;

verus! {

/// A cell of the character grid.
#[derive(Debug, PartialEq, Eq, Copy, Clone, Hash, Structural)]
pub struct Position {
    pub x: u32,
    pub y: u32,
}

/// The extent of a box, in cells.
#[derive(Debug, PartialEq, Eq, Copy, Clone, Structural)]
pub struct Size {
    pub width: u32,
    pub height: u32,
}

/// A block as it is drawn: colour, wrapped text, top-left cell and extent.
#[derive(Debug, PartialEq, Eq, Clone)]
pub struct BlockDisplay {
    pub color: Coloring,
    pub content_lines: Vec<String>,
    pub pos: Position,
    pub size: Size,
}

/// The corners of a box, in the order in which they are visited.
#[derive(Debug, PartialEq, Eq, Copy, Clone, Structural)]
pub enum BlockCorner {
    TopLeft,
    TopRight,
    BottomLeft,
    BottomRight,
}

/// Walks the four corner cells of a box.
pub struct BlockCornerIter {
    top_left: Position,
    block_size: Size,
    current_corner: Option<BlockCorner>,
}

/// One straight run of a routed connection.
#[derive(Debug, PartialEq, Eq, Copy, Clone, Structural)]
pub struct ConnectionPart {
    pub start: Position,
    pub end: Position,
    pub internal_character: char,
}

/// A routed connection as it is drawn: its straight runs in order, the
/// glyph at the joints between runs and the glyphs at its two ends.
#[derive(Debug, PartialEq, Eq, Clone)]
pub struct ConnectionDisplay {
    pub parts: Vec<ConnectionPart>,
    pub color: Coloring,
    pub part_end_char: char,
    pub total_start_char: char,
    pub total_end_char: char,
}

/// The absolute difference of two coordinates.
pub open spec fn spec_gap(a: u32, b: u32) -> int {
    if a > b {
        a - b
    } else {
        b - a
    }
}

/// The number of unit steps between two cells when only horizontal and
/// vertical moves are allowed.
pub open spec fn spec_manhattan(a: Position, b: Position) -> int {
    spec_gap(a.x, b.x) + spec_gap(a.y, b.y)
}

/// `v` moved into the closed interval from `low` to `high`.
pub open spec fn spec_clamp(v: u32, low: u32, high: int) -> int {
    if v < low {
        low as int
    } else if v > high {
        high
    } else {
        v as int
    }
}

impl Position {
    pub fn new(x: u32, y: u32) -> (p: Position)
        ensures
            p.x == x,
            p.y == y,
    {
        Position { x: x, y: y }
    }

    pub fn add_x(self, addx: u32) -> (p: Position)
        requires
            self.x + addx <= u32::MAX,
        ensures
            p.x == self.x + addx,
            p.y == self.y,
    {
        Position { x: self.x + addx, y: self.y }
    }

    pub fn add_y(self, addy: u32) -> (p: Position)
        requires
            self.y + addy <= u32::MAX,
        ensures
            p.x == self.x,
            p.y == self.y + addy,
    {
        Position { x: self.x, y: self.y + addy }
    }

    pub fn add_size(self, size: Size) -> (p: Position)
        requires
            self.x + size.width <= u32::MAX,
            self.y + size.height <= u32::MAX,
        ensures
            p.x == self.x + size.width,
            p.y == self.y + size.height,
    {
        Position { x: self.x + size.width, y: self.y + size.height }
    }

    /// The component-wise sum of two positions.
    pub fn add(self, rhs: Position) -> (p: Position)
        requires
            self.x + rhs.x <= u32::MAX,
            self.y + rhs.y <= u32::MAX,
        ensures
            p.x == self.x + rhs.x,
            p.y == self.y + rhs.y,
    {
        Position { x: self.x + rhs.x, y: self.y + rhs.y }
    }

    pub fn manhattan_distance(self, other: Position) -> (d: u32)
        requires
            spec_manhattan(self, other) <= u32::MAX,
        ensures
            d == spec_manhattan(self, other),
    {
        let xdiff: u32 = if self.x > other.x {
            self.x - other.x
        } else {
            other.x - self.x
        };
        let ydiff: u32 = if self.y > other.y {
            self.y - other.y
        } else {
            other.y - self.y
        };
        xdiff + ydiff
    }
}

impl BlockDisplay {
    /// The box covers at least one cell and its far edges are representable.
    pub open spec fn has_extent(&self) -> bool {
        &&& self.size.width >= 1
        &&& self.size.height >= 1
        &&& self.pos.x + self.size.width <= u32::MAX
        &&& self.pos.y + self.size.height <= u32::MAX
    }

    /// The text lines of the box, each as a sequence of characters.
    pub open spec fn lines(&self) -> Seq<Seq<char>> {
        spec_texts(self.content_lines@)
    }

    /// The cell of the box nearest to `pos`.
    pub open spec fn spec_clamp_position(&self, pos: Position) -> Position {
        Position {
            x: spec_clamp(pos.x, self.pos.x, self.pos.x + self.size.width - 1) as u32,
            y: spec_clamp(pos.y, self.pos.y, self.pos.y + self.size.height - 1) as u32,
        }
    }

    /// The distance from `pos` to the nearest cell of the box; zero exactly
    /// for the cells the box covers.
    pub open spec fn spec_distance(&self, pos: Position) -> int {
        spec_manhattan(self.spec_clamp_position(pos), pos)
    }

    /// Whether the box covers `pos`.
    pub open spec fn covers(&self, pos: Position) -> bool {
        &&& self.pos.x <= pos.x < self.pos.x + self.size.width
        &&& self.pos.y <= pos.y < self.pos.y + self.size.height
    }

    /// Whether `pos` lies inside the box without touching its border.
    pub open spec fn encloses(&self, pos: Position) -> bool {
        &&& self.pos.x < pos.x < self.pos.x + self.size.width - 1
        &&& self.pos.y < pos.y < self.pos.y + self.size.height - 1
    }

    /// Whether the box covers at least one cell and its far edges can be
    /// represented.
    pub fn check_extent(&self) -> (ok: bool)
        ensures
            ok == self.has_extent(),
    {
        self.size.width >= 1 && self.size.height >= 1 && self.size.width <= u32::MAX - self.pos.x
            && self.size.height <= u32::MAX - self.pos.y
    }

    /// Sizes the box for a block and leaves it at the origin.
    pub fn create_unpositioned_from_spec(spec: &BlockSpec, constraint: &BlockConstraint) -> (display:
        BlockDisplay)
        requires
            spec_text_len(spec.text()) + 4 <= u32::MAX,
        ensures
            display.color == spec.color(),
            display.pos == (Position { x: 0, y: 0 }),
            display.lines() == spec_box_lines(spec.text(), constraint.min_limited_width),
            display.size.width == spec_box_width(spec.text(), constraint.min_limited_width),
            display.size.height == spec_box_height(spec.text(), constraint.min_limited_width),
    {
        match spec {
            BlockSpec::Boxed(_, color, text) => create_unpositioned_from_box_spec(
                *color,
                text.as_str(),
                constraint,
            ),
        }
    }

    /// The cell in the middle of the box.
    pub fn center(&self) -> (c: Position)
        requires
            self.pos.x + self.size.width / 2 <= u32::MAX,
            self.pos.y + self.size.height / 2 <= u32::MAX,
        ensures
            c.x == self.pos.x + self.size.width / 2,
            c.y == self.pos.y + self.size.height / 2,
    {
        Position { x: self.pos.x + self.size.width / 2, y: self.pos.y + self.size.height / 2 }
    }

    /// An iterator over the four corner cells: top left, top right, bottom
    /// left, bottom right.
    pub fn corners(&self) -> (iter: BlockCornerIter)
        requires
            self.has_extent(),
        ensures
            iter.wf(),
            iter.top_left() == self.pos,
            iter.block_size() == self.size,
            iter.remaining() == seq![
                self.pos,
                Position { x: (self.pos.x + self.size.width - 1) as u32, y: self.pos.y },
                Position { x: self.pos.x, y: (self.pos.y + self.size.height - 1) as u32 },
                Position {
                    x: (self.pos.x + self.size.width - 1) as u32,
                    y: (self.pos.y + self.size.height - 1) as u32,
                },
            ],
    {
        let iter = BlockCornerIter {
            top_left: self.pos,
            block_size: self.size,
            current_corner: Some(BlockCorner::first_for_iter()),
        };
        reveal_with_fuel(BlockCornerIter::positions_from, 5);
        assert(iter.remaining() =~= seq![
            self.pos,
            Position { x: (self.pos.x + self.size.width - 1) as u32, y: self.pos.y },
            Position { x: self.pos.x, y: (self.pos.y + self.size.height - 1) as u32 },
            Position {
                x: (self.pos.x + self.size.width - 1) as u32,
                y: (self.pos.y + self.size.height - 1) as u32,
            },
        ]);
        iter
    }

    pub fn distance_to_position(&self, pos: Position) -> (d: u32)
        requires
            self.has_extent(),
            self.spec_distance(pos) <= u32::MAX,
        ensures
            d == self.spec_distance(pos),
            d == 0 <==> self.covers(pos),
    {
        let clamped = self.clamp_position(pos);
        clamped.manhattan_distance(pos)
    }

    /// The cell of the box nearest to `pos`.
    pub fn clamp_position(&self, pos: Position) -> (clamped: Position)
        requires
            self.has_extent(),
        ensures
            clamped == self.spec_clamp_position(pos),
            self.covers(clamped),
    {
        let right: u32 = self.pos.x + self.size.width - 1;
        let bottom: u32 = self.pos.y + self.size.height - 1;
        let near_x: u32 = if pos.x < right {
            pos.x
        } else {
            right
        };
        let near_y: u32 = if pos.y < bottom {
            pos.y
        } else {
            bottom
        };
        let clamped_x: u32 = if near_x > self.pos.x {
            near_x
        } else {
            self.pos.x
        };
        let clamped_y: u32 = if near_y > self.pos.y {
            near_y
        } else {
            self.pos.y
        };
        Position { x: clamped_x, y: clamped_y }
    }
}

impl BlockCorner {
    /// The corner that comes after this one, if any.
    pub open spec fn spec_next(self) -> Option<BlockCorner> {
        match self {
            BlockCorner::TopLeft => Some(BlockCorner::TopRight),
            BlockCorner::TopRight => Some(BlockCorner::BottomLeft),
            BlockCorner::BottomLeft => Some(BlockCorner::BottomRight),
            BlockCorner::BottomRight => None,
        }
    }

    /// How many corners follow this one.
    pub open spec fn rank(self) -> nat {
        match self {
            BlockCorner::TopLeft => 3,
            BlockCorner::TopRight => 2,
            BlockCorner::BottomLeft => 1,
            BlockCorner::BottomRight => 0,
        }
    }

    pub fn first_for_iter() -> (corner: BlockCorner)
        ensures
            corner == BlockCorner::TopLeft,
    {
        BlockCorner::TopLeft
    }

    pub fn next(self) -> (following: Option<BlockCorner>)
        ensures
            following == self.spec_next(),
    {
        match self {
            BlockCorner::TopLeft => Some(BlockCorner::TopRight),
            BlockCorner::TopRight => Some(BlockCorner::BottomLeft),
            BlockCorner::BottomLeft => Some(BlockCorner::BottomRight),
            BlockCorner::BottomRight => None,
        }
    }
}

impl BlockCornerIter {
    /// The top-left cell of the box that is walked.
    pub closed spec fn top_left(&self) -> Position {
        self.top_left
    }

    /// The extent of the box that is walked.
    pub closed spec fn block_size(&self) -> Size {
        self.block_size
    }

    /// The box that is walked has at least one cell and representable edges.
    pub open spec fn wf(&self) -> bool {
        &&& self.block_size().width >= 1
        &&& self.block_size().height >= 1
        &&& self.top_left().x + self.block_size().width <= u32::MAX
        &&& self.top_left().y + self.block_size().height <= u32::MAX
    }

    /// The cell at the given corner of the box.
    pub open spec fn spec_position_for_corner(&self, corner: BlockCorner) -> Position {
        match corner {
            BlockCorner::TopLeft => self.top_left(),
            BlockCorner::TopRight => Position {
                x: (self.top_left().x + self.block_size().width - 1) as u32,
                y: self.top_left().y,
            },
            BlockCorner::BottomLeft => Position {
                x: self.top_left().x,
                y: (self.top_left().y + self.block_size().height - 1) as u32,
            },
            BlockCorner::BottomRight => Position {
                x: (self.top_left().x + self.block_size().width - 1) as u32,
                y: (self.top_left().y + self.block_size().height - 1) as u32,
            },
        }
    }

    /// The corner cells from the given corner on.
    pub closed spec fn positions_from(&self, corner: Option<BlockCorner>) -> Seq<Position>
        decreases
            match corner {
                Some(c) => c.rank() + 1,
                None => 0,
            },
    {
        match corner {
            None => Seq::empty(),
            Some(c) => seq![self.spec_position_for_corner(c)] + self.positions_from(c.spec_next()),
        }
    }

    /// The corner cells that `next` has yet to hand out, in order.
    pub closed spec fn remaining(&self) -> Seq<Position> {
        self.positions_from(self.current_corner)
    }

    /// Hands out the next corner cell, or `None` once all four are out.
    pub fn next(&mut self) -> (item: Option<Position>)
        requires
            old(self).wf(),
        ensures
            final(self).wf(),
            final(self).top_left() == old(self).top_left(),
            final(self).block_size() == old(self).block_size(),
            old(self).remaining().len() == 0 ==> item.is_none() && final(self).remaining().len() == 0,
            old(self).remaining().len() > 0 ==> item == Some(old(self).remaining()[0])
                && final(self).remaining() == old(self).remaining().drop_first(),
    {
        match self.current_corner {
            None => None,
            Some(corner) => {
                let result_pos = self.position_for_corner(corner);
                self.current_corner = corner.next();
                proof {
                    let rest = old(self).positions_from(corner.spec_next());
                    assert(old(self).remaining() == seq![result_pos] + rest);
                    assert(self.positions_from(corner.spec_next()) == rest) by {
                        reveal_with_fuel(BlockCornerIter::positions_from, 5);
                    }
                    assert((seq![result_pos] + rest).drop_first() =~= rest);
                }
                Some(result_pos)
            },
        }
    }

    pub fn position_for_corner(&self, corner: BlockCorner) -> (p: Position)
        requires
            self.wf(),
        ensures
            p == self.spec_position_for_corner(corner),
    {
        match corner {
            BlockCorner::TopLeft => self.top_left,
            BlockCorner::TopRight => self.top_left.add_x(self.block_size.width - 1),
            BlockCorner::BottomLeft => self.top_left.add_y(self.block_size.height - 1),
            BlockCorner::BottomRight => self.top_left.add_x(self.block_size.width - 1).add_y(
                self.block_size.height - 1,
            ),
        }
    }
}

} // verus!
