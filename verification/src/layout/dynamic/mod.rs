//! Placement of blocks around one another.

pub mod positioning;
