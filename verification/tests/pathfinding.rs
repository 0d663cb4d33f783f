use cog::data::Coloring;
use cog::layout::constraint::{BlockConstraint, ConnectionConstraint, LayoutConstraint};
use cog::layout::display::{BlockDisplay, Position, Size};
use cog::layout::memoizer::{is_new_short_path, PathCreator, PathMemoizer};
use cog::layout::pathfinder::{
    contains_position, gap_to, is_enclosed, visits_each_cell_once, DisplayNodeFinder, RoutingPolicy,
};
use std::collections::VecDeque;

fn constraint(max_width: u32, max_height: u32, box_distance: u32) -> LayoutConstraint {
    LayoutConstraint {
        connection: ConnectionConstraint { min_length: 10, max_length: 1000, box_distance },
        block: BlockConstraint {
            min_limited_width: 40,
            max_height_per_width: 1,
            max_width_per_height: 10,
            inter_block_distance: 5,
        },
        max_width,
        max_height,
    }
}

fn display_at(x: u32, y: u32, width: u32, height: u32) -> BlockDisplay {
    BlockDisplay {
        color: Coloring::Default,
        content_lines: vec![],
        pos: Position { x, y },
        size: Size { width, height },
    }
}

fn at(x: u32, y: u32) -> Position {
    Position { x, y }
}

fn assert_unit_steps(path: &VecDeque<Position>) {
    for i in 1..path.len() {
        let (a, b) = (path[i - 1], path[i]);
        let dx = if a.x > b.x { a.x - b.x } else { b.x - a.x };
        let dy = if a.y > b.y { a.y - b.y } else { b.y - a.y };
        assert_eq!(dx + dy, 1, "step {} from {:?} to {:?}", i, a, b);
    }
}

#[test]
fn a_route_on_an_empty_grid_is_as_long_as_the_manhattan_distance() {
    let limits = constraint(30, 20, 3);
    let blocked = vec![];
    for (start, end) in [
        (at(0, 0), at(30, 20)),
        (at(30, 20), at(0, 0)),
        (at(5, 17), at(22, 3)),
        (at(7, 7), at(7, 7)),
        (at(3, 9), at(3, 15)),
        (at(12, 4), at(2, 4)),
    ] {
        let finder = DisplayNodeFinder::new(vec![], vec![], &limits, end, &blocked, RoutingPolicy::Strict);
        let path = finder.find_route(start).unwrap();
        assert_eq!(path.len() as u32, start.manhattan_distance(end) + 1);
        assert_eq!(path[0], start);
        assert_eq!(path[path.len() - 1], end);
        assert_unit_steps(&path);
        assert!(finder.is_route(start, &path));
    }
}

#[test]
fn a_route_goes_round_a_block() {
    let limits = constraint(20, 20, 2);
    let wall = display_at(5, 0, 3, 11);
    let blocked = vec![];
    let finder =
        DisplayNodeFinder::new(vec![&wall], vec![], &limits, at(12, 5), &blocked, RoutingPolicy::Strict);
    let path = finder.find_route(at(0, 5)).unwrap();
    assert_unit_steps(&path);
    assert!(path.len() > 13);
    for cell in path.iter() {
        if *cell != at(12, 5) {
            assert!(wall.distance_to_position(*cell) >= 2, "{:?} is too near", cell);
        }
    }
    // the wall reaches from row 0 to row 10 and the clearance is 2: the way round leads through row 12
    assert_eq!(path.len(), 12 + 7 + 7 + 1);
}

#[test]
fn no_route_leads_out_of_a_closed_grid() {
    let limits = constraint(10, 4, 1);
    let wall = display_at(5, 0, 1, 5);
    let blocked = vec![];
    let finder =
        DisplayNodeFinder::new(vec![&wall], vec![], &limits, at(9, 2), &blocked, RoutingPolicy::Strict);
    assert!(finder.find_route(at(0, 2)).is_none());
}

#[test]
fn the_strict_policy_closes_taken_cells_and_the_permissive_one_prices_them() {
    let limits = constraint(10, 10, 1);
    let blocked: Vec<Position> = (0..=10).map(|x| at(x, 5)).collect();
    let strict = DisplayNodeFinder::new(vec![], vec![], &limits, at(4, 9), &blocked, RoutingPolicy::Strict);
    assert!(strict.find_route(at(4, 0)).is_none());
    assert!(!strict.is_valid_pos(at(4, 5)));
    assert!(strict.is_valid_pos(at(4, 4)));
    assert_eq!(strict.cost(at(4, 5)), 1);
    let permissive =
        DisplayNodeFinder::new(vec![], vec![], &limits, at(4, 9), &blocked, RoutingPolicy::Permissive);
    assert!(permissive.is_valid_pos(at(4, 5)));
    assert_eq!(permissive.cost(at(4, 5)), 50);
    assert_eq!(permissive.cost(at(4, 4)), 1);
    let path = permissive.find_route(at(4, 0)).unwrap();
    assert_eq!(path.len(), 10);
    assert_unit_steps(&path);
    assert!(!permissive.is_valid_path(&path));
    assert!(permissive.is_valid_path(&path.iter().take(5).cloned().collect()));
}

#[test]
fn a_crossing_is_avoided_where_the_way_round_is_cheaper() {
    let limits = constraint(10, 10, 1);
    // a short fence with a gap five cells to the right
    let blocked: Vec<Position> = (0..=8).map(|x| at(x, 5)).collect();
    let finder =
        DisplayNodeFinder::new(vec![], vec![], &limits, at(4, 9), &blocked, RoutingPolicy::Permissive);
    let path = finder.find_route(at(4, 0)).unwrap();
    assert!(finder.is_valid_path(&path));
    assert_eq!(path.len(), 9 + 5 + 5 + 1);
}

#[test]
fn valid_positions() {
    let limits = constraint(50, 50, 3);
    let other = display_at(10, 10, 5, 5);
    let endpoint = display_at(30, 30, 5, 5);
    let blocked = vec![at(1, 1)];
    let finder = DisplayNodeFinder::new(
        vec![&other],
        vec![&endpoint],
        &limits,
        at(12, 12),
        &blocked,
        RoutingPolicy::Strict,
    );
    // the target is always open, even inside a block
    assert!(finder.is_valid_pos(at(12, 12)));
    assert!(finder.is_end_point(at(12, 12)));
    assert!(!finder.is_valid_pos(at(11, 11)));
    // two cells from the block is too near, three is fine
    assert!(!finder.is_valid_pos(at(16, 12)));
    assert!(finder.is_valid_pos(at(17, 12)));
    assert!(!finder.is_valid_pos(at(9, 9)));
    assert!(finder.is_valid_pos(at(8, 9)));
    assert!(finder.is_valid_pos(at(7, 10)));
    // the blocks that are connected may be touched from outside only
    assert!(finder.is_valid_pos(at(29, 32)));
    assert!(!finder.is_valid_pos(at(30, 32)));
    assert!(!finder.is_valid_pos(at(34, 34)));
    assert!(finder.is_valid_pos(at(35, 34)));
    assert!(!finder.is_valid_pos(at(1, 1)));
    assert!(finder.is_taken(at(1, 1)));
    assert_eq!(finder.heuristic_to_end(at(0, 0)), 24);
}

#[test]
fn neighbors_stay_on_the_grid() {
    let limits = constraint(5, 5, 1);
    let blocked = vec![at(1, 0)];
    let finder = DisplayNodeFinder::new(vec![], vec![], &limits, at(9, 9), &blocked, RoutingPolicy::Strict);
    assert_eq!(finder.neighbors_of(at(0, 0)), vec![(at(0, 1), 1)]);
    assert_eq!(
        finder.neighbors_of(at(2, 2)),
        vec![(at(1, 2), 1), (at(2, 1), 1), (at(3, 2), 1), (at(2, 3), 1)]
    );
    assert_eq!(finder.neighbors_of(at(5, 5)), vec![(at(4, 5), 1), (at(5, 4), 1)]);
    // beyond the limits only the way back is open
    assert_eq!(finder.neighbors_of(at(8, 2)), vec![(at(7, 2), 1), (at(8, 1), 1), (at(8, 3), 1)]);
    assert!(finder.is_step(at(2, 2), at(2, 3)));
    assert!(!finder.is_step(at(2, 2), at(3, 3)));
    assert!(!finder.is_step(at(0, 0), at(1, 0)));
    assert!(!finder.is_step(at(5, 5), at(6, 5)));
    let permissive =
        DisplayNodeFinder::new(vec![], vec![], &limits, at(9, 9), &blocked, RoutingPolicy::Permissive);
    assert_eq!(permissive.neighbors_of(at(0, 0)), vec![(at(1, 0), 50), (at(0, 1), 1)]);
}

#[test]
fn a_search_result_that_is_no_route_counts_as_no_path() {
    let limits = constraint(5, 5, 1);
    let blocked = vec![];
    let finder = DisplayNodeFinder::new(vec![], vec![], &limits, at(2, 0), &blocked, RoutingPolicy::Strict);
    let good: VecDeque<Position> = vec![at(0, 0), at(1, 0), at(2, 0)].into();
    let short: VecDeque<Position> = vec![at(0, 0), at(1, 0)].into();
    let jumping: VecDeque<Position> = vec![at(0, 0), at(2, 0)].into();
    assert_eq!(finder.accept_route(at(0, 0), Some(good.clone())), Some(good.clone()));
    assert_eq!(finder.accept_route(at(1, 0), Some(good)), None);
    assert_eq!(finder.accept_route(at(0, 0), Some(short)), None);
    assert_eq!(finder.accept_route(at(0, 0), Some(jumping)), None);
    assert_eq!(finder.accept_route(at(0, 0), Some(VecDeque::new())), None);
    let wandering: VecDeque<Position> =
        vec![at(0, 0), at(1, 0), at(1, 1), at(0, 1), at(0, 0), at(1, 0), at(2, 0)].into();
    assert!(!visits_each_cell_once(&wandering));
    assert!(!finder.is_route(at(0, 0), &wandering));
    assert_eq!(finder.accept_route(at(0, 0), Some(wandering)), None);
    let winding: VecDeque<Position> = vec![at(0, 0), at(0, 1), at(1, 1), at(2, 1), at(2, 0)].into();
    assert!(visits_each_cell_once(&winding));
    assert_eq!(finder.accept_route(at(0, 0), Some(winding.clone())), Some(winding));
    assert!(visits_each_cell_once(&VecDeque::new()));
    let far: VecDeque<Position> =
        vec![at(1, 0), at(0, 1), at(u32::MAX, 0), at(0, u32::MAX), at(u32::MAX, u32::MAX)].into();
    assert!(visits_each_cell_once(&far));
    assert_eq!(finder.accept_route(at(0, 0), None), None);
}

#[test]
fn gaps_and_lists() {
    let block = display_at(10, 10, 5, 5);
    assert_eq!(gap_to(&block, at(0, 0)), 20);
    assert_eq!(gap_to(&block, at(12, 12)), 0);
    assert_eq!(gap_to(&block, at(4_000_000_000, 4_000_000_000)), 7_999_999_972);
    assert!(is_enclosed(&block, at(12, 12)));
    assert!(!is_enclosed(&block, at(10, 12)));
    assert!(!is_enclosed(&block, at(14, 12)));
    assert!(contains_position(&vec![at(1, 2), at(3, 4)], at(3, 4)));
    assert!(!contains_position(&vec![at(1, 2), at(3, 4)], at(4, 3)));
}

/// A creator that walks right along a row, refuses the cells in `blocked`,
/// and counts its searches.
struct RowWalker {
    searches: u32,
    blocked: Vec<Position>,
    detour: u32,
}

impl PathCreator for RowWalker {
    type Model = ();

    fn calculate_new_path(&mut self, start: Position, end: Position) -> Option<VecDeque<Position>> {
        self.searches += 1;
        if start.y != end.y || start.x > end.x {
            return None;
        }
        let mut path = VecDeque::new();
        if self.detour == 0 {
            for x in start.x..=end.x {
                path.push_back(at(x, start.y));
            }
        } else {
            for y in start.y..=start.y + self.detour {
                path.push_back(at(start.x, y));
            }
            for x in start.x + 1..=end.x {
                path.push_back(at(x, start.y + self.detour));
            }
            for y in (start.y..start.y + self.detour).rev() {
                path.push_back(at(end.x, y));
            }
        }
        Some(path)
    }

    fn is_valid_path(&self, path: &VecDeque<Position>) -> bool {
        path.iter().all(|cell| !self.blocked.contains(cell))
    }
}

#[test]
fn a_second_request_is_served_without_a_search() {
    let mut memoizer = PathMemoizer::new();
    let mut creator = RowWalker { searches: 0, blocked: vec![], detour: 0 };
    let first = memoizer.get_path(at(0, 0), at(5, 0), &mut creator).unwrap();
    assert_eq!(creator.searches, 1);
    assert_eq!(first.len(), 6);
    let second = memoizer.get_path(at(0, 0), at(5, 0), &mut creator).unwrap();
    assert_eq!(creator.searches, 1);
    assert_eq!(second, first);
    // another pair is searched
    let other = memoizer.get_path(at(0, 0), at(4, 0), &mut creator).unwrap();
    assert_eq!(creator.searches, 2);
    assert_eq!(other.len(), 5);
}

#[test]
fn a_path_that_is_no_longer_valid_gives_way_to_a_new_one() {
    let mut memoizer = PathMemoizer::new();
    let mut creator = RowWalker { searches: 0, blocked: vec![], detour: 0 };
    let straight = memoizer.get_path(at(0, 0), at(5, 0), &mut creator).unwrap();
    creator.blocked = vec![at(3, 0)];
    creator.detour = 2;
    let round = memoizer.get_path(at(0, 0), at(5, 0), &mut creator).unwrap();
    assert_eq!(creator.searches, 2);
    assert_ne!(round, straight);
    assert!(round.iter().all(|cell| *cell != at(3, 0)));
    // both are kept: with the obstacle gone the shorter one is handed out again, and without a search
    creator.blocked = vec![];
    let again = memoizer.get_path(at(0, 0), at(5, 0), &mut creator).unwrap();
    assert_eq!(again, straight);
    assert_eq!(creator.searches, 2);
    // with the obstacle back the longer one is still there
    creator.blocked = vec![at(3, 0)];
    let kept = memoizer.get_path(at(0, 0), at(5, 0), &mut creator).unwrap();
    assert_eq!(kept, round);
    assert_eq!(creator.searches, 2);
}

#[test]
fn a_pair_without_a_path_is_searched_each_time() {
    let mut memoizer = PathMemoizer::new();
    let mut creator = RowWalker { searches: 0, blocked: vec![], detour: 0 };
    assert_eq!(memoizer.get_path(at(0, 0), at(5, 1), &mut creator), None);
    assert_eq!(memoizer.get_path(at(0, 0), at(5, 1), &mut creator), None);
    assert_eq!(creator.searches, 2);
    assert_eq!(memoizer.get_new_path(at(0, 0), at(5, 1), &mut creator), None);
    assert_eq!(memoizer.get_new_path(at(0, 0), at(2, 0), &mut creator).unwrap().len(), 3);
    assert_eq!(memoizer.get_new_path(at(0, 0), at(2, 0), &mut creator).unwrap().len(), 3);
    assert_eq!(creator.searches, 5);
}

#[test]
fn the_shortest_option_is_the_first_among_the_shortest() {
    let mut memoizer = PathMemoizer::new();
    let mut creator = RowWalker { searches: 0, blocked: vec![], detour: 0 };
    let pairs = vec![
        (at(0, 0), at(7, 0)),
        (at(0, 1), at(9, 2)),
        (at(2, 3), at(5, 3)),
        (at(1, 4), at(4, 4)),
        (at(0, 5), at(9, 5)),
    ];
    let best = memoizer.get_shortest_option(pairs.clone(), &mut creator).unwrap();
    assert_eq!(best, VecDeque::from(vec![at(2, 3), at(3, 3), at(4, 3), at(5, 3)]));
    assert_eq!(creator.searches, 5);
    // the pair without a path is the only one that is searched again
    let again = memoizer.get_shortest_option(pairs, &mut creator).unwrap();
    assert_eq!(again, best);
    assert_eq!(creator.searches, 6);
    assert_eq!(memoizer.get_shortest_option(vec![], &mut creator), None);
    assert_eq!(memoizer.get_shortest_option(vec![(at(0, 1), at(9, 2))], &mut creator), None);
}

#[test]
fn the_finder_is_a_path_creator() {
    let limits = constraint(10, 10, 1);
    let blocked = vec![at(2, 0)];
    let mut finder =
        DisplayNodeFinder::new(vec![], vec![], &limits, at(0, 0), &blocked, RoutingPolicy::Strict);
    let mut memoizer = PathMemoizer::new();
    let path = memoizer.get_path(at(0, 0), at(4, 0), &mut finder).unwrap();
    assert_eq!(path.len(), 7);
    assert_unit_steps(&path);
    assert!(finder.is_valid_path(&path));
    assert!(finder.is_end_point(at(4, 0)));
    let straight: VecDeque<Position> = (0..=4).map(|x| at(x, 0)).collect();
    assert!(!finder.is_valid_path(&straight));
    assert_eq!(finder.calculate_new_path(at(3, 3), at(3, 6)).unwrap().len(), 4);
}

#[test]
fn new_short_paths() {
    let long: VecDeque<Position> = vec![at(0, 0), at(1, 0), at(2, 0)].into();
    let short: VecDeque<Position> = vec![at(0, 0), at(1, 0)].into();
    assert!(is_new_short_path(&short, None));
    assert!(is_new_short_path(&short, Some(&long)));
    assert!(!is_new_short_path(&long, Some(&short)));
    assert!(!is_new_short_path(&long, Some(&long)));
}
