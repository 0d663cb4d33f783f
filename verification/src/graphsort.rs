//! Ordering blocks by how many connections they have.

use core::cmp::Ordering;
use vstd::prelude::*;
use crate::graph::GraphBlock;

verus! {

/// A block that is compared by the number of connection ends at it:
/// two blocks are equal when they have equally many, and the block with
/// fewer comes first.
pub struct ConnectionCountSortedBlock<'a>(pub &'a GraphBlock);

impl<'a> ConnectionCountSortedBlock<'a> {
    /// The number of connection ends at the block.
    pub open spec fn spec_connection_count(&self) -> nat {
        self.0.connections@.len()
    }

    /// The number of connection ends at the block.
    pub fn connection_count(&self) -> (count: usize)
        ensures
            count == self.spec_connection_count(),
    {
        self.0.connection_count()
    }
}

impl<'a> PartialEq for ConnectionCountSortedBlock<'a> {
    fn eq(&self, other: &ConnectionCountSortedBlock<'a>) -> (same: bool) {
        self.connection_count() == other.connection_count()
    }
}

impl<'a> vstd::std_specs::cmp::PartialEqSpecImpl for ConnectionCountSortedBlock<'a> {
    open spec fn obeys_eq_spec() -> bool {
        true
    }

    open spec fn eq_spec(&self, other: &ConnectionCountSortedBlock<'a>) -> bool {
        self.spec_connection_count() == other.spec_connection_count()
    }
}

impl<'a> PartialOrd for ConnectionCountSortedBlock<'a> {
    fn partial_cmp(&self, other: &ConnectionCountSortedBlock<'a>) -> (order: Option<Ordering>) {
        let own: usize = self.connection_count();
        let others: usize = other.connection_count();
        if own < others {
            Some(Ordering::Less)
        } else if own == others {
            Some(Ordering::Equal)
        } else {
            Some(Ordering::Greater)
        }
    }
}

impl<'a> vstd::std_specs::cmp::PartialOrdSpecImpl for ConnectionCountSortedBlock<'a> {
    open spec fn obeys_partial_cmp_spec() -> bool {
        true
    }

    open spec fn partial_cmp_spec(&self, other: &ConnectionCountSortedBlock<'a>) -> Option<
        Ordering,
    > {
        if self.spec_connection_count() < other.spec_connection_count() {
            Some(Ordering::Less)
        } else if self.spec_connection_count() == other.spec_connection_count() {
            Some(Ordering::Equal)
        } else {
            Some(Ordering::Greater)
        }
    }
}

} // verus!
