use cog::data::{BlockSpec, Coloring, ConnectionSpec, ConnectionType, DataSpec};
use cog::graph::{Graph, GraphBlock};
use cog::graphsort::ConnectionCountSortedBlock;
use cog::layout::backtracking::BacktrackingDownwardLayout;
use cog::layout::boxed::text_len;
use cog::layout::constraint::{BlockConstraint, ConnectionConstraint, LayoutConstraint};
use cog::layout::display::{Position, Size};
use cog::layout::downward_cross::CrossingDownwardLayout;
use cog::layout::downward_optimized::MemoizingDownwardLayout;
use cog::layout::memoizer::copy_path;
use cog::layout::routing::copy_cells;
use cog::layout::{displays_of, split_graph, Constraint, Layout, LayoutCreator};
use std::collections::VecDeque;

fn constraints() -> Constraint {
    LayoutConstraint {
        connection: ConnectionConstraint { min_length: 10, max_length: 1000, box_distance: 3 },
        block: BlockConstraint {
            min_limited_width: 40,
            max_height_per_width: 1,
            max_width_per_height: 10,
            inter_block_distance: 5,
        },
        max_width: 150,
        max_height: 100,
    }
}

fn block(name: &str, text: &str) -> DataSpec {
    DataSpec::BlockDataSpec(BlockSpec::Boxed(name.to_owned(), Coloring::Default, text.to_owned()))
}

fn conn(ty: ConnectionType, start: &str, end: &str) -> DataSpec {
    DataSpec::ConnectionDataSpec(ConnectionSpec {
        ty,
        start: start.to_owned(),
        end: end.to_owned(),
        color: Coloring::Magenta,
    })
}

fn graph() -> Graph {
    Graph::from_dataspec_vec(vec![
        block("a", "A"),
        block("b", "B"),
        conn(ConnectionType::Singular, "a", "b"),
        block("c", "A block at the bottom"),
    ])
    .unwrap()
}

fn check(layout: &Layout) {
    assert_eq!(layout.blocks.len(), 3);
    assert_eq!(layout.blocks[0].pos, Position { x: 38, y: 0 });
    assert_eq!(layout.blocks[0].size, Size { width: 5, height: 3 });
    assert_eq!(layout.blocks[1].pos, Position { x: 38, y: 8 });
    assert_eq!(layout.blocks[2].pos, Position { x: 28, y: 16 });
    assert_eq!(layout.blocks[2].size, Size { width: 25, height: 3 });
    assert_eq!(layout.blocks[2].content_lines, vec!["A block at the bottom".to_owned()]);
    assert_eq!(layout.connections.len(), 1);
    let connection = &layout.connections[0];
    assert_eq!(connection.color, Coloring::Magenta);
    assert_eq!(connection.total_start_char, '#');
    assert_eq!(connection.total_end_char, 'v');
    assert_eq!(connection.parts.len(), 1);
    assert_eq!(connection.parts[0].start, Position { x: 40, y: 2 });
    assert_eq!(connection.parts[0].end, Position { x: 40, y: 8 });
    assert_eq!(connection.parts[0].internal_character, '|');
}

#[test]
fn every_creator_lays_a_graph_out() {
    check(&BacktrackingDownwardLayout { screen_width: 80, screen_height: 40 }.build_layout(graph(), constraints()));
    check(&MemoizingDownwardLayout { screen_width: 80, screen_height: 40 }.build_layout(graph(), constraints()));
    check(&CrossingDownwardLayout { screen_width: 80, screen_height: 40 }.build_layout(graph(), constraints()));
}

#[test]
fn an_empty_graph_has_an_empty_layout() {
    let empty = Graph::from_dataspec_vec(vec![]).unwrap();
    let layout = BacktrackingDownwardLayout { screen_width: 80, screen_height: 40 }
        .build_layout(empty, constraints());
    assert!(layout.blocks.is_empty());
    assert!(layout.connections.is_empty());
}

#[test]
fn a_graph_is_split_into_its_records() {
    let (blocks, connections) = split_graph(graph());
    assert_eq!(blocks.len(), 3);
    assert_eq!(blocks[0].get_name(), "a");
    assert_eq!(blocks[1].get_name(), "b");
    assert_eq!(blocks[2].get_name(), "c");
    assert!(blocks[2].is_named(&"c".to_owned()));
    assert!(!blocks[2].is_named(&"a".to_owned()));
    assert_eq!(connections.len(), 1);
    assert_eq!(connections[0].ty, ConnectionType::Singular);
    let layout = BacktrackingDownwardLayout { screen_width: 80, screen_height: 40 };
    let placed = layout.determine_block_vector_layout(&blocks, &constraints().block);
    let expected: Vec<Position> = placed.iter().map(|pair| pair.1.pos).collect();
    let displays = displays_of(placed);
    assert_eq!(displays.iter().map(|d| d.pos).collect::<Vec<_>>(), expected);
}

#[test]
fn blocks_are_ordered_by_their_connections() {
    let built = Graph::from_dataspec_vec(vec![
        block("a", "A"),
        block("b", "B"),
        block("c", "C"),
        conn(ConnectionType::Generic, "a", "b"),
        conn(ConnectionType::Generic, "a", "a"),
        conn(ConnectionType::Generic, "c", "b"),
    ])
    .unwrap();
    let a = ConnectionCountSortedBlock(&built.blocks[0]);
    let b = ConnectionCountSortedBlock(&built.blocks[1]);
    let c = ConnectionCountSortedBlock(&built.blocks[2]);
    assert_eq!(a.connection_count(), 3);
    assert_eq!(b.connection_count(), 2);
    assert_eq!(c.connection_count(), 1);
    assert!(c < b && b < a && c < a);
    assert!(a > b && !(a < b) && !(a == b));
    assert!(a >= a && a <= a);
    let lonely = GraphBlock::new(BlockSpec::Boxed("x".to_owned(), Coloring::Red, "X".to_owned()));
    let other = GraphBlock::new(BlockSpec::Boxed("y".to_owned(), Coloring::Blue, "Y".to_owned()));
    assert!(ConnectionCountSortedBlock(&lonely) == ConnectionCountSortedBlock(&other));
    assert!(ConnectionCountSortedBlock(&lonely) < c);
}

#[test]
fn copies_and_lengths() {
    assert_eq!(text_len("hi"), 2);
    assert_eq!(text_len("grün"), 5);
    assert_eq!(text_len(""), 0);
    let cells = vec![Position { x: 1, y: 2 }, Position { x: 3, y: 4 }];
    assert_eq!(copy_cells(&cells), cells);
    let path: VecDeque<Position> = cells.iter().cloned().collect();
    assert_eq!(copy_path(&path), path);
}
