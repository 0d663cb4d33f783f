//! Layout engine for text-described diagrams: labelled boxes joined by
//! orthogonal connector lines on a character grid.
//!
//! A description is a list of block and connection records. The crate reads
//! it ([`parser`]), turns it into a validated graph ([`graph`]), sizes the
//! blocks and stacks them in one column, and routes every connection over
//! the grid ([`layout`]). The strict routers never let two connector lines
//! share a cell; the permissive one lets lines cross at a price.
//!
//! What comes out is a [`layout::Layout`]: the blocks with their places and
//! the connections as straight runs with the glyphs for their ends, ready to
//! be painted.

pub mod data;
pub mod graph;
pub mod graphsort;
pub mod layout;
pub mod parser;
