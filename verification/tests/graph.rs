use cog::data::{BlockSpec, Coloring, ConnectionSpec, ConnectionType, DataSpec};
use cog::graph::{
    divide_into_block_and_connection, find_start_and_end, graphize_data, missing_block_message,
    BlockSearchResult, Graph, GraphBlock, GraphConnection,
};

fn block(name: &str) -> BlockSpec {
    BlockSpec::Boxed(name.to_owned(), Coloring::Default, format!("text of {}", name))
}

fn conn(start: &str, end: &str) -> ConnectionSpec {
    ConnectionSpec {
        ty: ConnectionType::Generic,
        start: start.to_owned(),
        end: end.to_owned(),
        color: Coloring::Default,
    }
}

fn graph_blocks(names: &[&str]) -> Vec<GraphBlock> {
    names.iter().map(|n| GraphBlock::new(block(n))).collect()
}

#[test]
fn a_description_is_built_in_its_order() {
    let data = vec![
        DataSpec::ConnectionDataSpec(conn("a", "b")),
        DataSpec::BlockDataSpec(block("a")),
        DataSpec::BlockDataSpec(block("b")),
        DataSpec::ConnectionDataSpec(conn("c", "a")),
        DataSpec::BlockDataSpec(block("c")),
    ];
    let graph = Graph::from_dataspec_vec(data).unwrap();
    assert_eq!(graph.blocks.len(), 3);
    assert_eq!(graph.connections.len(), 2);
    assert_eq!(graph.blocks[0].spec, block("a"));
    assert_eq!(graph.blocks[1].spec, block("b"));
    assert_eq!(graph.blocks[2].spec, block("c"));
    assert_eq!(graph.connections[0].spec, conn("a", "b"));
    assert_eq!(graph.connections[0].start_block, 0);
    assert_eq!(graph.connections[0].end_block, 1);
    assert_eq!(graph.connections[1].start_block, 2);
    assert_eq!(graph.connections[1].end_block, 0);
    assert_eq!(graph.blocks[0].connections, vec![0, 1]);
    assert_eq!(graph.blocks[1].connections, vec![0]);
    assert_eq!(graph.blocks[2].connections, vec![1]);
    assert_eq!(graph.blocks[0].connection_count(), 2);
    assert_eq!(graph.connections[0].get_far_end(0), 1);
    assert_eq!(graph.connections[0].get_far_end(1), 0);
    assert_eq!(graph.connections[1].get_far_end(0), 2);
}

#[test]
fn a_connection_of_a_block_to_itself_counts_twice() {
    let without = graphize_data(vec![
        DataSpec::BlockDataSpec(block("a")),
        DataSpec::BlockDataSpec(block("b")),
        DataSpec::ConnectionDataSpec(conn("a", "b")),
    ])
    .unwrap();
    let with = graphize_data(vec![
        DataSpec::BlockDataSpec(block("a")),
        DataSpec::BlockDataSpec(block("b")),
        DataSpec::ConnectionDataSpec(conn("a", "b")),
        DataSpec::ConnectionDataSpec(conn("a", "a")),
    ])
    .unwrap();
    assert_eq!(without.blocks[0].connection_count(), 1);
    assert_eq!(with.blocks[0].connection_count(), 3);
    assert_eq!(with.blocks[1].connection_count(), without.blocks[1].connection_count());
    assert_eq!(with.blocks[0].connections, vec![0, 1, 1]);
    assert_eq!(with.connections[1].start_block, 0);
    assert_eq!(with.connections[1].end_block, 0);
    assert_eq!(with.connections[1].get_far_end(0), 0);
}

#[test]
fn every_missing_name_is_reported_and_no_graph_is_built() {
    let data = vec![
        DataSpec::BlockDataSpec(block("a")),
        DataSpec::ConnectionDataSpec(conn("a", "x")),
        DataSpec::ConnectionDataSpec(conn("a", "a")),
        DataSpec::ConnectionDataSpec(conn("y", "z")),
        DataSpec::ConnectionDataSpec(conn("w", "a")),
        DataSpec::ConnectionDataSpec(conn("v", "v")),
    ];
    let errors = Graph::from_dataspec_vec(data).unwrap_err();
    assert_eq!(
        errors,
        vec![
            "Block x does not exist".to_owned(),
            "Block y does not exist".to_owned(),
            "Block z does not exist".to_owned(),
            "Block w does not exist".to_owned(),
            "Block v does not exist".to_owned(),
        ]
    );
}

#[test]
fn an_empty_description_is_an_empty_graph() {
    let graph = Graph::from_dataspec_vec(vec![]).unwrap();
    assert!(graph.blocks.is_empty());
    assert!(graph.connections.is_empty());
}

#[test]
fn a_connection_without_any_block_is_an_error() {
    let errors = graphize_data(vec![DataSpec::ConnectionDataSpec(conn("a", "b"))]).unwrap_err();
    assert_eq!(errors, vec!["Block a does not exist".to_owned(), "Block b does not exist".to_owned()]);
}

#[test]
fn records_are_divided_by_kind() {
    let (blocks, connections) = divide_into_block_and_connection(vec![
        DataSpec::ConnectionDataSpec(conn("a", "b")),
        DataSpec::BlockDataSpec(block("b")),
        DataSpec::ConnectionDataSpec(conn("b", "a")),
        DataSpec::BlockDataSpec(block("a")),
    ]);
    assert_eq!(blocks, vec![block("b"), block("a")]);
    assert_eq!(connections, vec![conn("a", "b"), conn("b", "a")]);
}

#[test]
fn the_search_finds_both_ends() {
    let blocks = graph_blocks(&["a", "b", "c", "d", "e"]);
    let found = find_start_and_end(&blocks, &"d".to_owned(), &"b".to_owned());
    assert_eq!(found, BlockSearchResult { start: Some(3), end: Some(1), are_same: false });
    let found = find_start_and_end(&blocks, &"c".to_owned(), &"c".to_owned());
    assert_eq!(found, BlockSearchResult { start: Some(2), end: None, are_same: true });
    let found = find_start_and_end(&blocks, &"x".to_owned(), &"e".to_owned());
    assert_eq!(found, BlockSearchResult { start: None, end: Some(4), are_same: false });
    let found = find_start_and_end(&blocks, &"x".to_owned(), &"x".to_owned());
    assert_eq!(found, BlockSearchResult { start: None, end: None, are_same: false });
    let found = find_start_and_end(&[], &"a".to_owned(), &"b".to_owned());
    assert_eq!(found, BlockSearchResult { start: None, end: None, are_same: false });
}

#[test]
fn the_first_of_two_blocks_of_one_name_is_found() {
    let blocks = graph_blocks(&["a", "b", "a", "b"]);
    let found = find_start_and_end(&blocks, &"b".to_owned(), &"a".to_owned());
    assert_eq!(found, BlockSearchResult { start: Some(1), end: Some(0), are_same: false });
}

#[test]
fn results_are_merged_with_the_first_taking_precedence() {
    let first = BlockSearchResult { start: Some(1), end: None, are_same: false };
    let second = BlockSearchResult { start: Some(5), end: Some(6), are_same: true };
    assert_eq!(
        BlockSearchResult::merge(first, second),
        BlockSearchResult { start: Some(1), end: Some(6), are_same: true }
    );
    assert_eq!(
        BlockSearchResult::single_block_result(&graph_blocks(&["a"]), 0, &"a".to_owned(), &"b".to_owned()),
        BlockSearchResult { start: Some(0), end: None, are_same: false }
    );
}

#[test]
fn connections_are_pushed_to_both_ends() {
    let mut blocks = graph_blocks(&["a", "b"]);
    BlockSearchResult { start: Some(0), end: Some(1), are_same: false }.push_connections(&mut blocks, 7);
    BlockSearchResult { start: Some(1), end: None, are_same: true }.push_connections(&mut blocks, 8);
    assert_eq!(blocks[0].connections, vec![7]);
    assert_eq!(blocks[1].connections, vec![7, 8, 8]);
}

#[test]
fn a_new_connection_resolves_or_reports() {
    let mut blocks = graph_blocks(&["a", "b"]);
    let made = GraphConnection::new(conn("b", "a"), &mut blocks, 0).unwrap();
    assert_eq!((made.start_block, made.end_block), (1, 0));
    assert_eq!(blocks[0].connections, vec![0]);
    let errors = GraphConnection::new(conn("b", "q"), &mut blocks, 1).unwrap_err();
    assert_eq!(errors, vec!["Block q does not exist".to_owned()]);
    assert_eq!(blocks[1].connections, vec![0]);
    assert_eq!(missing_block_message(&"foo".to_owned()), "Block foo does not exist");
}
