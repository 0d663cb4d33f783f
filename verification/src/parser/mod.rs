//! Reading a diagram description from its text.

pub mod driver;
pub mod nodes;
