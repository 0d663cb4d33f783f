//! The flat records a diagram description is made of.

use vstd::prelude::*;

verus! {

/// The colour a block or a connection is drawn in.
#[derive(Debug, PartialEq, Eq, Copy, Clone, Hash, Structural)]
pub enum Coloring {
    Default,
    Black,
    White,
    Red,
    Green,
    Yellow,
    Blue,
    Magenta,
    Cyan,
}

/// How the two ends of a connection are decorated.
#[derive(Debug, PartialEq, Eq, Copy, Clone, Hash, Structural)]
pub enum ConnectionType {
    /// An arrow head at the end only.
    Singular,
    /// Arrow heads at both ends.
    Dual,
    /// A plain junction at both ends.
    Generic,
}

/// A block: its unique name, its colour and the text shown inside it.
#[derive(Debug, PartialEq, Eq, Clone, Hash)]
pub enum BlockSpec {
    Boxed(String, Coloring, String),
}

/// A connection between two blocks, each given by name.
#[derive(Debug, PartialEq, Eq, Clone, Hash)]
pub struct ConnectionSpec {
    pub ty: ConnectionType,
    pub start: String,
    pub end: String,
    pub color: Coloring,
}

/// One record of a diagram description.
#[derive(Debug, PartialEq, Eq, Clone, Hash)]
pub enum DataSpec {
    BlockDataSpec(BlockSpec),
    ConnectionDataSpec(ConnectionSpec),
}

/// The character sequences of a list of strings.
pub open spec fn spec_texts(lines: Seq<String>) -> Seq<Seq<char>> {
    Seq::new(lines.len(), |i: int| lines[i]@)
}

/// The character sequences of a list of string slices.
pub open spec fn spec_views(words: Seq<&str>) -> Seq<Seq<char>> {
    Seq::new(words.len(), |i: int| words[i]@)
}

impl BlockSpec {
    /// The block's name as a sequence of characters.
    pub open spec fn name(&self) -> Seq<char> {
        match self {
            BlockSpec::Boxed(name, _, _) => name@,
        }
    }

    /// The block's colour.
    pub open spec fn color(&self) -> Coloring {
        match self {
            BlockSpec::Boxed(_, color, _) => *color,
        }
    }

    /// The block's display text as a sequence of characters.
    pub open spec fn text(&self) -> Seq<char> {
        match self {
            BlockSpec::Boxed(_, _, text) => text@,
        }
    }

    /// The name by which connections refer to this block.
    pub fn get_name(&self) -> (name: &str)
        ensures
            name@ == self.name(),
    {
        match self {
            BlockSpec::Boxed(name, _, _) => name.as_str(),
        }
    }

    /// The text shown inside the block.
    pub fn get_text(&self) -> (text: &str)
        ensures
            text@ == self.text(),
    {
        match self {
            BlockSpec::Boxed(_, _, text) => text.as_str(),
        }
    }

    /// Whether a connection end called `name` refers to this block.
    pub fn is_named(&self, name: &String) -> (hit: bool)
        ensures
            hit == (self.name() == name@),
    {
        match self {
            BlockSpec::Boxed(own, _, _) => *own == *name,
        }
    }
}

} // verus!
