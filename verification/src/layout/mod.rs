//! Sizing, placement and connection routing.

pub mod backtracking;
pub mod boxed;
pub mod connectors;
pub mod constraint;
pub mod display;
pub mod downward_cross;
pub mod downward_optimized;
pub mod dynamic;
pub mod memoizer;
pub mod path_conversion;
pub mod pathfinder;
pub mod placement;
pub mod routing;

use vstd::prelude::*;
use crate::data::{BlockSpec, ConnectionSpec};
use crate::graph::Graph;
use crate::layout::backtracking::{spec_connection_layout, BacktrackingDownwardLayout};
use crate::layout::display::{BlockDisplay, ConnectionDisplay};
use crate::layout::downward_cross::{spec_crossing_layout, CrossingDownwardLayout};
use crate::layout::downward_optimized::{spec_memo_connection_layout, MemoizingDownwardLayout};
use crate::layout::placement::{
    blocks_are_apart,
    lemma_placed_has_extent,
    spec_can_place,
    spec_is_placed,
};
use crate::layout::routing::{displays_match, routes_keep_clearance, Routed};

pub use self::constraint::LayoutConstraint as Constraint;

verus! {

/// A finished layout: the blocks with their places and the connections
/// with their routes, each in the order in which they are drawn.
pub struct Layout {
    pub blocks: Vec<BlockDisplay>,
    pub connections: Vec<ConnectionDisplay>,
}

/// The blocks with their displays, pair by pair.
pub open spec fn spec_pair_up<'a>(specs: Seq<BlockSpec>, displays: Seq<BlockDisplay>) -> Seq<
    (&'a BlockSpec, BlockDisplay),
> {
    Seq::new(specs.len(), |i: int| (&specs[i], displays[i]))
}

/// Whether a layout is the one of a graph: every block sized, centred on
/// the screen and stacked in its order, and the connections drawn as the
/// routes say.
pub open spec fn spec_is_layout_of(
    layout: Layout,
    graph: Graph,
    constraints: Constraint,
    screen_width: u32,
    routes: Seq<Routed>,
) -> bool {
    &&& layout.blocks@.len() == graph.block_specs().len()
    &&& forall|i: int|
        0 <= i < layout.blocks@.len() ==> spec_is_placed(
            (&graph.block_specs()[i], #[trigger] layout.blocks@[i]),
            graph.block_specs(),
            constraints.block,
            screen_width,
            i,
        )
    &&& displays_match(layout.connections@, graph.connection_specs(), routes)
}

/// A way to lay a graph out.
pub trait LayoutCreator {
    /// The width of the screen that the blocks are centred on.
    spec fn spec_screen_width(&self) -> u32;

    /// The routes that this way of routing yields for placed blocks.
    spec fn spec_routes(
        &self,
        blocks: Seq<(&BlockSpec, BlockDisplay)>,
        constraints: Constraint,
        connections: Seq<ConnectionSpec>,
    ) -> Seq<Routed>;

    /// Lays the graph out: places its blocks, no two of which share a cell,
    /// then routes its connections between them. Every route keeps the
    /// clearance from the blocks that its connection does not attach to.
    fn build_layout(&self, g: Graph, constraints: Constraint) -> (layout: Layout)
        requires
            spec_can_place(g.block_specs(), constraints.block, self.spec_screen_width()),
        ensures
            spec_is_layout_of(
                layout,
                g,
                constraints,
                self.spec_screen_width(),
                self.spec_routes(
                    spec_pair_up(g.block_specs(), layout.blocks@),
                    constraints,
                    g.connection_specs(),
                ),
            ),
            blocks_are_apart(spec_pair_up(g.block_specs(), layout.blocks@)),
            routes_keep_clearance(
                spec_pair_up(g.block_specs(), layout.blocks@),
                constraints,
                g.connection_specs(),
                self.spec_routes(
                    spec_pair_up(g.block_specs(), layout.blocks@),
                    constraints,
                    g.connection_specs(),
                ),
            ),
    ;
}

/// The block records and the connection records of a graph.
pub fn split_graph(g: Graph) -> (parts: (Vec<BlockSpec>, Vec<ConnectionSpec>))
    ensures
        parts.0@ == g.block_specs(),
        parts.1@ == g.connection_specs(),
{
    let ghost before = g;
    let Graph { blocks, connections } = g;
    let mut block_specs: Vec<BlockSpec> = Vec::new();
    for block in it: blocks
        invariant
            it.seq() == before.blocks@,
            block_specs@.len() == it.index(),
            forall|i: int| 0 <= i < block_specs@.len() ==> block_specs@[i] == before.blocks@[i].spec,
    {
        block_specs.push(block.spec);
    }
    let mut connection_specs: Vec<ConnectionSpec> = Vec::new();
    for connection in it: connections
        invariant
            it.seq() == before.connections@,
            connection_specs@.len() == it.index(),
            forall|i: int|
                0 <= i < connection_specs@.len() ==> connection_specs@[i]
                    == before.connections@[i].spec,
    {
        connection_specs.push(connection.spec);
    }
    proof {
        assert(block_specs@ =~= before.block_specs());
        assert(connection_specs@ =~= before.connection_specs());
    }
    (block_specs, connection_specs)
}

/// The displays of placed blocks, in order.
pub fn displays_of(placed: Vec<(&BlockSpec, BlockDisplay)>) -> (displays: Vec<BlockDisplay>)
    ensures
        displays@.len() == placed@.len(),
        forall|i: int| 0 <= i < placed@.len() ==> displays@[i] == placed@[i].1,
{
    let mut displays: Vec<BlockDisplay> = Vec::new();
    for pair in it: placed
        invariant
            it.seq() == placed@,
            displays@.len() == it.index(),
            forall|i: int| 0 <= i < displays@.len() ==> displays@[i] == placed@[i].1,
    {
        displays.push(pair.1);
    }
    displays
}

impl LayoutCreator for BacktrackingDownwardLayout {
    open spec fn spec_screen_width(&self) -> u32 {
        self.screen_width
    }

    open spec fn spec_routes(
        &self,
        blocks: Seq<(&BlockSpec, BlockDisplay)>,
        constraints: Constraint,
        connections: Seq<ConnectionSpec>,
    ) -> Seq<Routed> {
        spec_connection_layout(blocks, constraints, connections)
    }

    fn build_layout(&self, g: Graph, constraints: Constraint) -> (layout: Layout) {
        let (specs, connections) = split_graph(g);
        let placed = self.determine_block_vector_layout(specs.as_slice(), &constraints.block);
        proof {
            assert forall|i: int| 0 <= i < placed@.len() implies (#[trigger] placed@[i]).1.has_extent() by {
                lemma_placed_has_extent(placed@[i], specs@, constraints.block, self.screen_width, i);
            }
        }
        let routed = self.determine_connection_layout(
            connections.as_slice(),
            placed.as_slice(),
            &constraints,
        );
        let ghost pairs = placed@;
        let blocks = displays_of(placed);
        proof {
            assert(spec_pair_up(specs@, blocks@) =~= pairs);
        }
        Layout { blocks: blocks, connections: routed }
    }
}

impl LayoutCreator for MemoizingDownwardLayout {
    open spec fn spec_screen_width(&self) -> u32 {
        self.screen_width
    }

    open spec fn spec_routes(
        &self,
        blocks: Seq<(&BlockSpec, BlockDisplay)>,
        constraints: Constraint,
        connections: Seq<ConnectionSpec>,
    ) -> Seq<Routed> {
        spec_memo_connection_layout(blocks, constraints, connections)
    }

    fn build_layout(&self, g: Graph, constraints: Constraint) -> (layout: Layout) {
        let (specs, connections) = split_graph(g);
        let placed = self.determine_block_vector_layout(specs.as_slice(), &constraints.block);
        proof {
            assert forall|i: int| 0 <= i < placed@.len() implies (#[trigger] placed@[i]).1.has_extent() by {
                lemma_placed_has_extent(placed@[i], specs@, constraints.block, self.screen_width, i);
            }
        }
        let routed = self.determine_connection_layout(
            connections.as_slice(),
            placed.as_slice(),
            &constraints,
        );
        let ghost pairs = placed@;
        let blocks = displays_of(placed);
        proof {
            assert(spec_pair_up(specs@, blocks@) =~= pairs);
        }
        Layout { blocks: blocks, connections: routed }
    }
}

impl LayoutCreator for CrossingDownwardLayout {
    open spec fn spec_screen_width(&self) -> u32 {
        self.screen_width
    }

    open spec fn spec_routes(
        &self,
        blocks: Seq<(&BlockSpec, BlockDisplay)>,
        constraints: Constraint,
        connections: Seq<ConnectionSpec>,
    ) -> Seq<Routed> {
        spec_crossing_layout(blocks, constraints, connections)
    }

    fn build_layout(&self, g: Graph, constraints: Constraint) -> (layout: Layout) {
        let (specs, connections) = split_graph(g);
        let placed = self.determine_block_vector_layout(specs.as_slice(), &constraints.block);
        proof {
            assert forall|i: int| 0 <= i < placed@.len() implies (#[trigger] placed@[i]).1.has_extent() by {
                lemma_placed_has_extent(placed@[i], specs@, constraints.block, self.screen_width, i);
            }
        }
        let routed = self.determine_connection_layout(
            connections.as_slice(),
            placed.as_slice(),
            &constraints,
        );
        let ghost pairs = placed@;
        let blocks = displays_of(placed);
        proof {
            assert(spec_pair_up(specs@, blocks@) =~= pairs);
        }
        Layout { blocks: blocks, connections: routed }
    }
}

} // verus!
