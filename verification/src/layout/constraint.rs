//! Limits that a layout has to respect.

use vstd::prelude::*;

verus! {

/// Limits on routed connections.
pub struct ConnectionConstraint {
    pub min_length: u32,
    pub max_length: u32,
    /// The clearance a connection keeps from every block it does not attach to.
    pub box_distance: u32,
}

/// Limits on block boxes.
pub struct BlockConstraint {
    /// The widest a box may be before its text is wrapped.
    pub min_limited_width: u32,
    pub max_height_per_width: u32,
    pub max_width_per_height: u32,
    /// The vertical gap between stacked blocks.
    pub inter_block_distance: u32,
}

/// All limits of one layout run, with the extent of the routing grid.
pub struct LayoutConstraint {
    pub connection: ConnectionConstraint,
    pub block: BlockConstraint,
    pub max_width: u32,
    pub max_height: u32,
}

impl BlockConstraint {
    /// The width a box of the given height may take: the height scaled by
    /// `max_width_per_height`, but never less than `min_limited_width`.
    pub open spec fn spec_max_width_for_height(&self, height: u32) -> int {
        if height * self.max_width_per_height >= self.min_limited_width {
            height * self.max_width_per_height
        } else {
            self.min_limited_width as int
        }
    }

    pub fn max_width_for_height(&self, height: u32) -> (width: u32)
        requires
            height * self.max_width_per_height <= u32::MAX,
        ensures
            width == self.spec_max_width_for_height(height),
    {
        let scaled: u32 = height * self.max_width_per_height;
        if scaled >= self.min_limited_width {
            scaled
        } else {
            self.min_limited_width
        }
    }

    /// The height a box of the given width may take.
    pub fn max_height_for_width(&self, width: u32) -> (height: u32)
        requires
            width * self.max_height_per_width <= u32::MAX,
        ensures
            height == width * self.max_height_per_width,
    {
        width * self.max_height_per_width
    }
}

} // verus!
