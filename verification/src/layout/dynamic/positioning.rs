//! The cells around a base cell, ring by ring.

use vstd::prelude::*;
use crate::layout::display::Position;

verus! {

/// Walks the cells diagonally around a base cell: the four corners one
/// diagonal step away, then the four corners two steps away, and so on.
///
/// ```text
/// 1 2
///  B
/// 3 4
/// ```
pub struct LocalPositionIterator {
    // Base position to iterate out from
    base_position: Position,
    // The four corners of the current set
    current_positions: [Position; 4],
    // Index into the list of current positions
    current_position_idx: usize,
    // How many diagonal steps the current set lies from the base position
    position_set: u32,
}

/// Whether the four corners `set` diagonal steps from `base` are cells of
/// the grid.
pub open spec fn spec_set_fits(base: Position, set: int) -> bool {
    &&& base.x - set >= 0
    &&& base.y - set >= 0
    &&& base.x + set <= u32::MAX
    &&& base.y + set <= u32::MAX
}

/// The four corners `set` diagonal steps from `base`: upper left, upper
/// right, lower left, lower right.
pub open spec fn spec_corners(base: Position, set: int) -> Seq<Position> {
    seq![
        Position { x: (base.x - set) as u32, y: (base.y - set) as u32 },
        Position { x: (base.x + set) as u32, y: (base.y - set) as u32 },
        Position { x: (base.x - set) as u32, y: (base.y + set) as u32 },
        Position { x: (base.x + set) as u32, y: (base.y + set) as u32 },
    ]
}

impl LocalPositionIterator {
    /// The cell that is walked around.
    pub closed spec fn base(&self) -> Position {
        self.base_position
    }

    /// How many diagonal steps the current corners lie from the base.
    pub closed spec fn set(&self) -> int {
        self.position_set as int
    }

    /// How many of the current corners have been handed out.
    pub closed spec fn handed_out(&self) -> int {
        self.current_position_idx as int
    }

    /// The current corners are those of the current set, and they are
    /// cells of the grid.
    pub closed spec fn wf(&self) -> bool {
        &&& self.position_set >= 1
        &&& spec_set_fits(self.base_position, self.position_set as int)
        &&& self.current_positions@ == spec_corners(self.base_position, self.position_set as int)
        &&& self.current_position_idx <= 4
    }

    /// The corner of the current set that lies the given way from the base.
    pub fn gen_position(&self, to_the_left: bool, upwards: bool) -> (corner: Position)
        requires
            spec_set_fits(self.base(), self.set()),
        ensures
            corner.x == if to_the_left {
                self.base().x - self.set()
            } else {
                self.base().x + self.set()
            },
            corner.y == if upwards {
                self.base().y - self.set()
            } else {
                self.base().y + self.set()
            },
    {
        let x: u32 = if to_the_left {
            self.base_position.x - self.position_set
        } else {
            self.base_position.x + self.position_set
        };
        let y: u32 = if upwards {
            self.base_position.y - self.position_set
        } else {
            self.base_position.y + self.position_set
        };
        Position { x: x, y: y }
    }

    /// Moves on to the corners of another set.
    pub fn go_to_set(&mut self, new_position_set: u32)
        requires
            new_position_set >= 1,
            spec_set_fits(old(self).base(), new_position_set as int),
        ensures
            final(self).wf(),
            final(self).base() == old(self).base(),
            final(self).set() == new_position_set,
            final(self).handed_out() == 0,
    {
        self.current_position_idx = 0;
        self.position_set = new_position_set;
        let upper_left = self.gen_position(true, true);
        let upper_right = self.gen_position(false, true);
        let lower_left = self.gen_position(true, false);
        let lower_right = self.gen_position(false, false);
        self.current_positions = [upper_left, upper_right, lower_left, lower_right];
        assert(self.current_positions@ =~= spec_corners(
            self.base_position,
            self.position_set as int,
        ));
    }

    /// An iterator over the cells around `base`, at the corners one
    /// diagonal step away.
    pub fn new(base: Position) -> (iter: LocalPositionIterator)
        requires
            spec_set_fits(base, 1),
        ensures
            iter.wf(),
            iter.base() == base,
            iter.set() == 1,
            iter.handed_out() == 0,
    {
        let origin = Position { x: 0, y: 0 };
        let mut iter = LocalPositionIterator {
            base_position: base,
            current_positions: [origin, origin, origin, origin],
            current_position_idx: 0,
            position_set: 0,
        };
        iter.go_to_set(1);
        iter
    }

    /// Hands out the next cell.
    ///
    /// The corners of a set come in their order. After the fourth the set
    /// one step further out follows; `None` says that its corners are no
    /// cells of the grid, and then nothing changes.
    pub fn next(&mut self) -> (cell: Option<Position>)
        requires
            old(self).wf(),
        ensures
            final(self).wf(),
            final(self).base() == old(self).base(),
            old(self).handed_out() < 4 ==> {
                &&& cell == Some(
                    spec_corners(old(self).base(), old(self).set())[old(self).handed_out()],
                )
                &&& final(self).set() == old(self).set()
                &&& final(self).handed_out() == old(self).handed_out() + 1
            },
            old(self).handed_out() >= 4 && spec_set_fits(old(self).base(), old(self).set() + 1) ==> {
                &&& cell == Some(spec_corners(old(self).base(), old(self).set() + 1)[0])
                &&& final(self).set() == old(self).set() + 1
                &&& final(self).handed_out() == 1
            },
            old(self).handed_out() >= 4 && !spec_set_fits(old(self).base(), old(self).set() + 1)
                ==> {
                &&& cell.is_none()
                &&& final(self).set() == old(self).set()
                &&& final(self).handed_out() == old(self).handed_out()
            },
    {
        // Recreate position list if we're out
        if self.current_position_idx >= 4 {
            let set: u32 = self.position_set;
            let base = self.base_position;
            if set == u32::MAX || base.x <= set || base.y <= set || base.x >= u32::MAX - set
                || base.y >= u32::MAX - set {
                return None;
            }
            self.go_to_set(set + 1);
        }
        // Get next position and advance index
        let res_idx: usize = self.current_position_idx;
        self.current_position_idx = self.current_position_idx + 1;
        Some(self.current_positions[res_idx])
    }
}

} // verus!
