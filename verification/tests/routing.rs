use cog::data::{BlockSpec, Coloring, ConnectionSpec, ConnectionType};
use cog::layout::backtracking::BacktrackingDownwardLayout;
use cog::layout::connectors::{
    core_connectors, find_block_display, find_block_index, find_connection_points,
    new_connection_points, unused_cells,
};
use cog::layout::constraint::{BlockConstraint, ConnectionConstraint, LayoutConstraint};
use cog::layout::display::{BlockDisplay, ConnectionDisplay, Position, Size};
use cog::layout::downward_cross::CrossingDownwardLayout;
use cog::layout::downward_optimized::MemoizingDownwardLayout;
use cog::layout::dynamic::positioning::LocalPositionIterator;
use cog::layout::memoizer::PathMemoizer;
use cog::layout::pathfinder::{DisplayNodeFinder, RoutingPolicy};
use cog::layout::routing::{
    all_pairs, are_apart, best_route, blocks_overlap, extend_with_path, shrink_candidates, split_blocks,
};
use std::collections::VecDeque;

fn block_constraint() -> BlockConstraint {
    BlockConstraint {
        min_limited_width: 40,
        max_height_per_width: 1,
        max_width_per_height: 10,
        inter_block_distance: 5,
    }
}

fn layout_constraint() -> LayoutConstraint {
    limits(150, 100, 3)
}

fn limits(max_width: u32, max_height: u32, box_distance: u32) -> LayoutConstraint {
    LayoutConstraint {
        connection: ConnectionConstraint { min_length: 10, max_length: 1000, box_distance },
        block: block_constraint(),
        max_width,
        max_height,
    }
}

fn connection(ty: ConnectionType, start: &str, end: &str) -> ConnectionSpec {
    ConnectionSpec { ty, start: start.to_owned(), end: end.to_owned(), color: Coloring::Default }
}

fn generic(start: &str, end: &str) -> ConnectionSpec {
    connection(ConnectionType::Generic, start, end)
}

fn spec(name: &str) -> BlockSpec {
    BlockSpec::Boxed(name.to_owned(), Coloring::Default, name.to_uppercase())
}

fn display_at(x: u32, y: u32, width: u32, height: u32) -> BlockDisplay {
    BlockDisplay {
        color: Coloring::Default,
        content_lines: vec![],
        pos: Position { x, y },
        size: Size { width, height },
    }
}

fn at(x: u32, y: u32) -> Position {
    Position { x, y }
}

/// The cells that a drawn connection covers.
fn cells_of(display: &ConnectionDisplay) -> Vec<Position> {
    let mut cells = vec![];
    for part in display.parts.iter() {
        let mut cell = part.start;
        loop {
            if !cells.contains(&cell) {
                cells.push(cell);
            }
            if cell == part.end {
                break;
            }
            if cell.x < part.end.x {
                cell.x += 1;
            } else if cell.x > part.end.x {
                cell.x -= 1;
            } else if cell.y < part.end.y {
                cell.y += 1;
            } else {
                cell.y -= 1;
            }
        }
    }
    cells
}

fn assert_no_overlap(displays: &[ConnectionDisplay]) {
    for i in 0..displays.len() {
        let first = cells_of(&displays[i]);
        for j in i + 1..displays.len() {
            for cell in cells_of(&displays[j]) {
                assert!(!first.contains(&cell), "connections {} and {} share {:?}", i, j, cell);
            }
        }
    }
}

#[test]
fn two_stacked_blocks_are_joined_by_one_downward_line() {
    let layout = BacktrackingDownwardLayout { screen_width: 80, screen_height: 40 };
    let specs = vec![
        BlockSpec::Boxed("a".to_owned(), Coloring::Default, "A".to_owned()),
        BlockSpec::Boxed("b".to_owned(), Coloring::Default, "B".to_owned()),
    ];
    let blocks = layout.determine_block_vector_layout(&specs, &block_constraint());
    assert_eq!(blocks.len(), 2);
    assert_eq!(blocks[0].1.size, Size { width: 5, height: 3 });
    assert_eq!(blocks[0].1.pos, Position { x: 38, y: 0 });
    assert_eq!(blocks[1].1.pos, Position { x: 38, y: 8 });
    let connections = vec![generic("a", "b")];
    let displays = layout.determine_connection_layout(&connections, &blocks, &layout_constraint());
    assert_eq!(displays.len(), 1);
    let display = &displays[0];
    assert_eq!(display.total_start_char, '#');
    assert_eq!(display.total_end_char, '#');
    assert_eq!(display.part_end_char, '+');
    assert_eq!(display.parts.len(), 1);
    let part = &display.parts[0];
    assert_eq!(part.internal_character, '|');
    assert_eq!(part.start, Position { x: 40, y: 2 });
    assert_eq!(part.end, Position { x: 40, y: 8 });
}

#[test]
fn the_three_routers_agree_on_one_connection() {
    let specs = vec![spec("a"), spec("b")];
    let connections = vec![connection(ConnectionType::Dual, "b", "a")];
    let constraint = layout_constraint();
    let backtracking = BacktrackingDownwardLayout { screen_width: 80, screen_height: 40 };
    let memoizing = MemoizingDownwardLayout { screen_width: 80, screen_height: 40 };
    let crossing = CrossingDownwardLayout { screen_width: 80, screen_height: 40 };
    let blocks = backtracking.determine_block_vector_layout(&specs, &block_constraint());
    assert_eq!(blocks, memoizing.determine_block_vector_layout(&specs, &block_constraint()));
    assert_eq!(blocks, crossing.determine_block_vector_layout(&specs, &block_constraint()));
    let first = backtracking.determine_connection_layout(&connections, &blocks, &constraint);
    assert_eq!(first.len(), 1);
    assert_eq!(first[0].parts.len(), 1);
    assert_eq!(first[0].parts[0].start, at(40, 8));
    assert_eq!(first[0].parts[0].end, at(40, 2));
    // the line runs upwards: it leaves b going up and arrives at a going up
    assert_eq!(first[0].total_start_char, 'v');
    assert_eq!(first[0].total_end_char, '^');
    assert_eq!(first, memoizing.determine_connection_layout(&connections, &blocks, &constraint));
    assert_eq!(first, crossing.determine_connection_layout(&connections, &blocks, &constraint));
}

#[test]
fn strict_routers_never_let_paths_overlap() {
    let specs = vec![spec("a"), spec("b"), spec("c")];
    let blocks = vec![
        (&specs[0], display_at(10, 2, 7, 5)),
        (&specs[1], display_at(10, 14, 7, 5)),
        (&specs[2], display_at(10, 26, 7, 5)),
    ];
    let connections = vec![
        generic("a", "b"),
        generic("c", "b"),
        generic("a", "b"),
        generic("b", "c"),
        generic("a", "c"),
    ];
    let constraint = limits(40, 40, 1);
    let backtracking = BacktrackingDownwardLayout { screen_width: 40, screen_height: 40 };
    let displays = backtracking.determine_connection_layout(&connections, &blocks, &constraint);
    assert!(displays.is_empty() || displays.len() == connections.len());
    assert_eq!(displays.len(), 5);
    assert_no_overlap(&displays);
    let memoizing = MemoizingDownwardLayout { screen_width: 40, screen_height: 40 };
    let remembered = memoizing.determine_connection_layout(&connections, &blocks, &constraint);
    assert_eq!(remembered.len(), 5);
    assert_no_overlap(&remembered);
    // the first connection is settled last: it is the straight line from a down to b
    assert_eq!(displays[4].parts.len(), 1);
    assert_eq!(displays[4].parts[0].start, at(13, 6));
    assert_eq!(displays[4].parts[0].end, at(13, 14));
    assert_eq!(remembered[4], displays[4]);
}

#[test]
fn a_connection_that_cannot_be_routed_empties_a_strict_layout() {
    let specs = vec![spec("a"), spec("b"), spec("wall")];
    // the wall cuts the grid in two
    let blocks = vec![
        (&specs[0], display_at(2, 0, 5, 3)),
        (&specs[1], display_at(2, 12, 5, 3)),
        (&specs[2], display_at(0, 7, 21, 1)),
    ];
    let constraint = limits(20, 20, 1);
    let connections = vec![generic("a", "a"), generic("a", "b")];
    let backtracking = BacktrackingDownwardLayout { screen_width: 20, screen_height: 20 };
    assert!(backtracking.determine_connection_layout(&connections, &blocks, &constraint).is_empty());
    let memoizing = MemoizingDownwardLayout { screen_width: 20, screen_height: 20 };
    assert!(memoizing.determine_connection_layout(&connections, &blocks, &constraint).is_empty());
    // the permissive router keeps what it has routed before
    let crossing = CrossingDownwardLayout { screen_width: 20, screen_height: 20 };
    let kept = crossing.determine_connection_layout(&connections, &blocks, &constraint);
    assert_eq!(kept.len(), 1);
    // and without the second connection the strict routers route the first
    let alone = backtracking.determine_connection_layout(&connections[..1], &blocks, &constraint);
    assert_eq!(alone.len(), 1);
    assert_eq!(alone, memoizing.determine_connection_layout(&connections[..1], &blocks, &constraint));
}

#[test]
fn a_connection_to_a_block_that_does_not_exist_is_passed_over_or_stops_the_router() {
    let specs = vec![spec("a"), spec("b")];
    let blocks = vec![(&specs[0], display_at(10, 2, 5, 3)), (&specs[1], display_at(10, 12, 5, 3))];
    let constraint = limits(40, 40, 1);
    let connections = vec![generic("a", "b"), generic("a", "nowhere"), generic("b", "a")];
    let backtracking = BacktrackingDownwardLayout { screen_width: 40, screen_height: 40 };
    let strict = backtracking.determine_connection_layout(&connections, &blocks, &constraint);
    assert_eq!(strict.len(), 2);
    assert_no_overlap(&strict);
    let memoizing = MemoizingDownwardLayout { screen_width: 40, screen_height: 40 };
    assert_eq!(memoizing.determine_connection_layout(&connections, &blocks, &constraint).len(), 2);
    let crossing = CrossingDownwardLayout { screen_width: 40, screen_height: 40 };
    let permissive = crossing.determine_connection_layout(&connections, &blocks, &constraint);
    assert_eq!(permissive.len(), 1);
    assert_eq!(permissive[0].parts[0].start, at(12, 4));
    assert!(backtracking.determine_connection_layout(&[], &blocks, &constraint).is_empty());
    assert!(crossing.determine_connection_layout(&[], &blocks, &constraint).is_empty());
}

#[test]
fn the_permissive_router_routes_in_order_and_may_cross() {
    let specs = vec![spec("a"), spec("b"), spec("c"), spec("d")];
    // a and b face each other left and right, c and d above and below the middle
    let blocks = vec![
        (&specs[0], display_at(0, 10, 3, 3)),
        (&specs[1], display_at(20, 10, 3, 3)),
        (&specs[2], display_at(10, 0, 3, 3)),
        (&specs[3], display_at(10, 20, 3, 3)),
    ];
    let constraint = limits(22, 22, 1);
    let connections = vec![generic("a", "b"), generic("c", "d")];
    let crossing = CrossingDownwardLayout { screen_width: 24, screen_height: 24 };
    let displays = crossing.determine_connection_layout(&connections, &blocks, &constraint);
    assert_eq!(displays.len(), 2);
    assert_eq!(displays[0].parts.len(), 1);
    assert_eq!(displays[0].parts[0].start, at(2, 11));
    assert_eq!(displays[0].parts[0].end, at(20, 11));
    assert_eq!(displays[1].parts.len(), 1);
    assert_eq!(displays[1].parts[0].start, at(11, 2));
    assert_eq!(displays[1].parts[0].end, at(11, 20));
    // the strict router cannot route both, for the first line cuts the grid in two
    let backtracking = BacktrackingDownwardLayout { screen_width: 24, screen_height: 24 };
    let strict = backtracking.determine_connection_layout(&connections, &blocks, &constraint);
    assert_no_overlap(&strict);
    assert!(strict.is_empty() || strict.len() == 2);
}

#[test]
fn a_self_connection_draws_both_ends_from_one_block() {
    let specs = vec![spec("a")];
    let blocks = vec![(&specs[0], display_at(10, 10, 9, 5))];
    let constraint = limits(40, 40, 1);
    let connections = vec![generic("a", "a")];
    let backtracking = BacktrackingDownwardLayout { screen_width: 40, screen_height: 40 };
    let displays = backtracking.determine_connection_layout(&connections, &blocks, &constraint);
    assert_eq!(displays.len(), 1);
    // the shortest route between two connectors of one block is from a connector to itself
    assert!(displays[0].parts.is_empty());
    let start = find_block_display(&connections[0].start, &blocks).unwrap();
    let end = find_block_display(&connections[0].end, &blocks).unwrap();
    assert_eq!(start, end);
    assert_eq!(find_connection_points(start, &vec![]), find_connection_points(end, &vec![]));
}

#[test]
fn connectors_are_the_midpoints_of_the_edges() {
    let block = display_at(10, 20, 9, 5);
    assert_eq!(core_connectors(&block), vec![at(10, 22), at(14, 20), at(18, 22), at(14, 24)]);
    let tiny = display_at(3, 3, 1, 1);
    assert_eq!(core_connectors(&tiny), vec![at(3, 3), at(3, 3), at(3, 3), at(3, 3)]);
}

#[test]
fn alternates_lie_along_the_edge() {
    let block = display_at(10, 20, 17, 13);
    // top edge: a quarter of the width is 4
    assert_eq!(new_connection_points(at(18, 20), &block), vec![at(14, 20), at(22, 20)]);
    // left edge: a quarter of the height is 3
    assert_eq!(new_connection_points(at(10, 26), &block), vec![at(10, 23), at(10, 29)]);
    // near a corner only one side is left
    assert_eq!(new_connection_points(at(12, 20), &block), vec![at(16, 20)]);
    assert_eq!(new_connection_points(at(25, 32), &block), vec![at(21, 32)]);
    // on a small block the step is two cells and leads nowhere
    let small = display_at(0, 0, 5, 3);
    assert_eq!(new_connection_points(at(2, 0), &small), vec![]);
    assert_eq!(new_connection_points(at(0, 1), &small), vec![]);
}

#[test]
fn used_connectors_give_way_to_their_free_alternates() {
    let block = display_at(10, 20, 17, 13);
    assert_eq!(
        find_connection_points(&block, &vec![]),
        vec![at(10, 26), at(18, 20), at(26, 26), at(18, 32)]
    );
    let paths = vec![at(18, 20), at(18, 19), at(22, 20), at(26, 26)];
    assert_eq!(
        find_connection_points(&block, &paths),
        vec![at(10, 26), at(14, 20), at(26, 23), at(26, 29), at(18, 32)]
    );
    assert_eq!(unused_cells(&vec![at(1, 1), at(18, 19), at(2, 2)], &paths), vec![at(1, 1), at(2, 2)]);
}

#[test]
fn blocks_are_found_by_name() {
    let specs = vec![spec("a"), spec("b"), spec("a")];
    let blocks = vec![
        (&specs[0], display_at(0, 0, 1, 1)),
        (&specs[1], display_at(5, 5, 1, 1)),
        (&specs[2], display_at(9, 9, 1, 1)),
    ];
    assert_eq!(find_block_index(&"a".to_owned(), &blocks), Some(0));
    assert_eq!(find_block_index(&"b".to_owned(), &blocks), Some(1));
    assert_eq!(find_block_index(&"c".to_owned(), &blocks), None);
    assert_eq!(find_block_display(&"a".to_owned(), &blocks).unwrap().pos, at(0, 0));
    assert!(find_block_display(&"".to_owned(), &blocks).is_none());
    let (others, endpoints) = split_blocks(&blocks, &generic("a", "c"));
    assert_eq!(others, vec![&blocks[1].1]);
    assert_eq!(endpoints, vec![&blocks[0].1, &blocks[2].1]);
}

#[test]
fn attempts_shrink_the_candidate_sets() {
    let starts = vec![at(0, 0), at(1, 0), at(2, 0)];
    let ends = vec![at(0, 9), at(1, 9)];
    assert_eq!(shrink_candidates(&starts, &ends, 0), Some((starts.clone(), ends.clone())));
    // 1 = 1 + 3 * 0: the start at index 1 goes
    assert_eq!(shrink_candidates(&starts, &ends, 1), Some((vec![at(0, 0), at(2, 0)], ends.clone())));
    assert_eq!(shrink_candidates(&starts, &ends, 2), Some((vec![at(0, 0), at(1, 0)], ends.clone())));
    // 3 = 0 + 3 * 1: the start at index 0 goes, then the end at index 1
    assert_eq!(shrink_candidates(&starts, &ends, 3), Some((vec![at(1, 0), at(2, 0)], vec![at(0, 9)])));
    // 7 = 1 + 3 * (0 + 2 * 1): start 1, end 0, then of the two starts left the one at index 1
    assert_eq!(shrink_candidates(&starts, &ends, 7), Some((vec![at(0, 0)], vec![at(1, 9)])));
    // 13 = 1 + 3 * (0 + 2 * (0 + 2 * 1)): the ends run empty
    assert_eq!(shrink_candidates(&starts, &ends, 13), None);
    assert_eq!(shrink_candidates(&starts, &ends, 1_000_000), None);
    assert_eq!(shrink_candidates(&vec![], &ends, 0), None);
    assert_eq!(shrink_candidates(&starts, &vec![], 0), None);
    assert_eq!(shrink_candidates(&vec![], &vec![], 5), None);
    assert_eq!(shrink_candidates(&vec![at(0, 0)], &vec![at(1, 1)], 1), None);
}

#[test]
fn pairs_go_start_by_start() {
    let starts = vec![at(0, 0), at(1, 0)];
    let ends = vec![at(0, 9), at(1, 9), at(2, 9)];
    assert_eq!(
        all_pairs(&starts, &ends),
        vec![
            (at(0, 0), at(0, 9)),
            (at(0, 0), at(1, 9)),
            (at(0, 0), at(2, 9)),
            (at(1, 0), at(0, 9)),
            (at(1, 0), at(1, 9)),
            (at(1, 0), at(2, 9)),
        ]
    );
    assert!(all_pairs(&starts, &vec![]).is_empty());
    let path: VecDeque<Position> = vec![at(5, 5), at(5, 6)].into();
    assert_eq!(extend_with_path(&starts, &path), vec![at(0, 0), at(1, 0), at(5, 5), at(5, 6)]);
}

#[test]
fn the_best_route_is_the_first_among_the_shortest() {
    let constraint = limits(20, 20, 1);
    let blocked = vec![];
    let mut finder =
        DisplayNodeFinder::new(vec![], vec![], &constraint, at(0, 0), &blocked, RoutingPolicy::Strict);
    let pairs = vec![
        (at(0, 0), at(5, 5)),
        (at(1, 1), at(3, 1)),
        (at(7, 7), at(7, 9)),
        (at(9, 9), at(0, 0)),
    ];
    let best = best_route(&mut finder, &pairs).unwrap();
    assert_eq!(best, VecDeque::from(vec![at(1, 1), at(2, 1), at(3, 1)]));
    assert_eq!(best_route(&mut finder, &vec![]), None);
    let mut memoizer = PathMemoizer::new();
    assert_eq!(memoizer.get_shortest_option(pairs, &mut finder), Some(best));
}

#[test]
fn cells_around_a_base_come_ring_by_ring() {
    let mut around = LocalPositionIterator::new(at(2, 3));
    let mut cells = vec![];
    while let Some(cell) = around.next() {
        cells.push(cell);
    }
    assert_eq!(
        cells,
        vec![at(1, 2), at(3, 2), at(1, 4), at(3, 4), at(0, 1), at(4, 1), at(0, 5), at(4, 5)]
    );
    assert_eq!(around.next(), None);
    let mut far = LocalPositionIterator::new(at(100, 100));
    let first: Vec<Position> = (0..9).map(|_| far.next().unwrap()).collect();
    assert_eq!(first[3], at(101, 101));
    assert_eq!(first[4], at(98, 98));
    assert_eq!(first[8], at(97, 97));
    assert_eq!(far.gen_position(true, false), at(97, 103));
}

/// A block `b` with walls above and below it, a block `c` at the end of a
/// corridor that leads to the left side of `b` and nowhere else, and a block
/// `a` that is nearer to the left side of `b` than to its right side.
fn contested() -> Vec<BlockSpec> {
    vec![spec("a"), spec("b"), spec("c"), spec("wt"), spec("wb"), spec("ca"), spec("cb")]
}

fn contested_blocks(specs: &[BlockSpec]) -> Vec<(&BlockSpec, BlockDisplay)> {
    vec![
        (&specs[0], display_at(8, 4, 3, 3)),
        (&specs[1], display_at(10, 10, 3, 3)),
        (&specs[2], display_at(0, 11, 3, 1)),
        (&specs[3], display_at(10, 9, 3, 1)),
        (&specs[4], display_at(10, 13, 3, 1)),
        (&specs[5], display_at(0, 10, 9, 1)),
        (&specs[6], display_at(0, 12, 9, 1)),
    ]
}

#[test]
fn a_connector_that_two_connections_need_goes_to_the_one_that_has_no_other() {
    let specs = contested();
    let blocks = contested_blocks(&specs);
    let constraint = limits(20, 20, 1);
    let connections = vec![generic("a", "b"), generic("c", "b")];
    // alone, the first connection takes the short way to the left side of b
    let backtracking = BacktrackingDownwardLayout { screen_width: 20, screen_height: 20 };
    let alone = backtracking.determine_connection_layout(&connections[..1], &blocks, &constraint);
    assert_eq!(alone.len(), 1);
    assert_eq!(cells_of(&alone[0]).len(), 7);
    assert_eq!(alone[0].parts[0].start, at(9, 6));
    assert_eq!(alone[0].parts.last().unwrap().end, at(10, 11));
    // with the second connection, which can reach nothing else, it has to give way
    for displays in [
        backtracking.determine_connection_layout(&connections, &blocks, &constraint),
        MemoizingDownwardLayout { screen_width: 20, screen_height: 20 }
            .determine_connection_layout(&connections, &blocks, &constraint),
    ] {
        assert_eq!(displays.len(), 2);
        assert_no_overlap(&displays);
        let second = &displays[0];
        let first = &displays[1];
        assert_eq!(second.parts.len(), 1);
        assert_eq!(second.parts[0].start, at(2, 11));
        assert_eq!(second.parts[0].end, at(10, 11));
        assert_eq!(first.parts.last().unwrap().end, at(12, 11));
        assert_eq!(cells_of(first).len(), 11);
        assert!(!cells_of(first).contains(&at(9, 11)));
    }
    // the permissive router keeps the short way and lets the second connection cross it
    let crossing = CrossingDownwardLayout { screen_width: 20, screen_height: 20 };
    let crossed = crossing.determine_connection_layout(&connections, &blocks, &constraint);
    assert_eq!(crossed.len(), 2);
    assert_eq!(crossed[0], alone[0]);
    assert!(cells_of(&crossed[1]).contains(&at(9, 11)));
    assert_eq!(crossed[1].parts[0].start, at(2, 11));
    assert_eq!(crossed[1].parts.last().unwrap().end, at(12, 11));
}

#[test]
fn blocks_that_share_a_cell_are_not_apart() {
    let one = display_at(10, 10, 5, 3);
    assert!(blocks_overlap(&one, &one));
    assert!(blocks_overlap(&one, &display_at(14, 12, 1, 1)));
    assert!(blocks_overlap(&display_at(12, 11, 1, 1), &one));
    assert!(blocks_overlap(&one, &display_at(0, 0, 11, 11)));
    assert!(!blocks_overlap(&one, &display_at(15, 10, 5, 3)));
    assert!(!blocks_overlap(&one, &display_at(10, 13, 5, 3)));
    assert!(!blocks_overlap(&one, &display_at(0, 0, 10, 20)));
    assert!(!blocks_overlap(&display_at(0, 0, 20, 10), &one));
    let specs = contested();
    assert!(are_apart(&contested_blocks(&specs)));
    let mut crowded = contested_blocks(&specs);
    crowded[6].1 = display_at(2, 11, 1, 5);
    assert!(!are_apart(&crowded));
    let stacked = BacktrackingDownwardLayout { screen_width: 80, screen_height: 40 }
        .determine_block_vector_layout(&specs, &block_constraint());
    assert!(are_apart(&stacked));
    assert!(are_apart(&[]));
}
