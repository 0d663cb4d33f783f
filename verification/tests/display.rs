use cog::data::{BlockSpec, Coloring};
use cog::layout::boxed::{create_unpositioned_from_box_spec, naive_single_line_display, split_words};
use cog::layout::constraint::BlockConstraint;
use cog::layout::display::{BlockCorner, BlockDisplay, Position, Size};
use cog::layout::placement::{calculate_required_vertical_space, can_place, stack_blocks};

fn limit(width: u32) -> BlockConstraint {
    BlockConstraint {
        min_limited_width: width,
        max_height_per_width: 1,
        max_width_per_height: 10,
        inter_block_distance: 5,
    }
}

fn display_at(x: u32, y: u32, width: u32, height: u32) -> BlockDisplay {
    BlockDisplay {
        color: Coloring::Default,
        content_lines: vec![],
        pos: Position { x, y },
        size: Size { width, height },
    }
}

#[test]
fn display_test_block_display_center() {
    let display = BlockDisplay {
        color: Coloring::Default,
        content_lines: vec![],
        pos: Position { x: 20, y: 20 },
        size: Size { width: 30, height: 30 },
    };
    assert_eq!(display.center(), Position { x: 35, y: 35 });
}

#[test]
fn mod_test_block_display_center() {
    let display = BlockDisplay {
        color: Coloring::Default,
        content_lines: vec![],
        pos: Position { x: 20, y: 20 },
        size: Size { width: 30, height: 30 },
    };
    assert_eq!(display.center(), Position { x: 35, y: 35 });
}

#[test]
fn position_arithmetic() {
    let p = Position::new(3, 4);
    assert_eq!(p, Position { x: 3, y: 4 });
    assert_eq!(p.add_x(2), Position { x: 5, y: 4 });
    assert_eq!(p.add_y(2), Position { x: 3, y: 6 });
    assert_eq!(p.add_size(Size { width: 10, height: 20 }), Position { x: 13, y: 24 });
    assert_eq!(p.add(Position { x: 1, y: 1 }), Position { x: 4, y: 5 });
    assert_eq!(p.manhattan_distance(Position { x: 0, y: 10 }), 9);
    assert_eq!(Position::new(0, 10).manhattan_distance(p), 9);
    assert_eq!(p.manhattan_distance(p), 0);
}

#[test]
fn corners_come_in_reading_order() {
    let display = display_at(2, 3, 5, 4);
    let mut corners = display.corners();
    assert_eq!(corners.next(), Some(Position { x: 2, y: 3 }));
    assert_eq!(corners.next(), Some(Position { x: 6, y: 3 }));
    assert_eq!(corners.next(), Some(Position { x: 2, y: 6 }));
    assert_eq!(corners.next(), Some(Position { x: 6, y: 6 }));
    assert_eq!(corners.next(), None);
    assert_eq!(corners.next(), None);
    assert_eq!(BlockCorner::first_for_iter(), BlockCorner::TopLeft);
    assert_eq!(BlockCorner::TopLeft.next(), Some(BlockCorner::TopRight));
    assert_eq!(BlockCorner::TopRight.next(), Some(BlockCorner::BottomLeft));
    assert_eq!(BlockCorner::BottomLeft.next(), Some(BlockCorner::BottomRight));
    assert_eq!(BlockCorner::BottomRight.next(), None);
}

#[test]
fn distance_to_a_block_is_measured_from_its_nearest_cell() {
    let display = display_at(10, 10, 5, 3);
    assert_eq!(display.distance_to_position(Position { x: 10, y: 10 }), 0);
    assert_eq!(display.distance_to_position(Position { x: 14, y: 12 }), 0);
    assert_eq!(display.distance_to_position(Position { x: 15, y: 12 }), 1);
    assert_eq!(display.distance_to_position(Position { x: 9, y: 9 }), 2);
    assert_eq!(display.distance_to_position(Position { x: 12, y: 20 }), 8);
    assert_eq!(display.distance_to_position(Position { x: 0, y: 0 }), 20);
    assert_eq!(display.clamp_position(Position { x: 0, y: 11 }), Position { x: 10, y: 11 });
    assert_eq!(display.clamp_position(Position { x: 100, y: 100 }), Position { x: 14, y: 12 });
}

#[test]
fn short_text_makes_a_box_of_one_line() {
    let display = create_unpositioned_from_box_spec(Coloring::Blue, "hi", &limit(20));
    assert_eq!(display.size, Size { width: 6, height: 3 });
    assert_eq!(display.content_lines, vec!["hi".to_owned()]);
    assert_eq!(display.pos, Position { x: 0, y: 0 });
    assert_eq!(display.color, Coloring::Blue);
}

#[test]
fn text_that_just_fits_stays_on_one_line() {
    // 16 bytes and 4 for the border make 20
    let display = create_unpositioned_from_box_spec(Coloring::Default, "0123456789 abcde", &limit(20));
    assert_eq!(display.size, Size { width: 20, height: 3 });
    assert_eq!(display.content_lines, vec!["0123456789 abcde".to_owned()]);
    assert!(naive_single_line_display(Coloring::Default, "0123456789 abcde", &limit(20)).is_some());
    assert!(naive_single_line_display(Coloring::Default, "0123456789 abcdef", &limit(20)).is_none());
}

#[test]
fn long_text_is_wrapped_at_spaces() {
    let text = "the quick brown fox jumps over the lazy dog";
    let display = create_unpositioned_from_box_spec(Coloring::Default, text, &limit(20));
    assert_eq!(
        display.content_lines,
        vec![
            "the quick brown".to_owned(),
            "fox jumps over".to_owned(),
            "the lazy dog".to_owned(),
        ]
    );
    assert_eq!(display.size, Size { width: 19, height: 5 });
}

#[test]
fn a_hundred_characters_of_single_letter_words_wrap_within_the_limit() {
    let mut text = String::new();
    for i in 0..50 {
        if i > 0 {
            text.push(' ');
        }
        text.push('w');
    }
    text.push('x');
    assert_eq!(text.len(), 100);
    let display = create_unpositioned_from_box_spec(Coloring::Default, &text, &limit(20));
    assert!(display.size.height > 3);
    assert_eq!(display.size.height as usize, display.content_lines.len() + 2);
    for line in display.content_lines.iter() {
        assert!(line.len() <= 20);
    }
    let widest = display.content_lines.iter().map(|l| l.len()).max().unwrap();
    assert_eq!(display.size.width as usize, widest + 4);
}

#[test]
fn a_word_longer_than_the_limit_follows_an_empty_line() {
    let text = "abcdefghijklmnopqrstuvwxyz";
    let display = create_unpositioned_from_box_spec(Coloring::Default, text, &limit(20));
    assert_eq!(display.content_lines, vec!["".to_owned(), text.to_owned()]);
    assert_eq!(display.size, Size { width: 30, height: 4 });
}

#[test]
fn words_are_the_pieces_between_spaces() {
    assert_eq!(split_words("a b"), vec!["a", "b"]);
    assert_eq!(split_words("a  b"), vec!["a", "", "b"]);
    assert_eq!(split_words(""), vec![""]);
    assert_eq!(split_words(" x "), vec!["", "x", ""]);
    assert_eq!(split_words("héllo wörld"), vec!["héllo", "wörld"]);
}

#[test]
fn text_length_counts_bytes() {
    // 15 characters, 17 bytes: with 4 for the border that is over the limit of 20
    let display = create_unpositioned_from_box_spec(Coloring::Default, "héllo wörld abc", &limit(20));
    assert_eq!(display.size.height, 4);
    assert_eq!(display.content_lines, vec!["héllo wörld".to_owned(), "abc".to_owned()]);
    assert_eq!(display.size.width, 17);
}

#[test]
fn blocks_are_stacked_and_centred() {
    let specs = vec![
        BlockSpec::Boxed("a".to_owned(), Coloring::Default, "A".to_owned()),
        BlockSpec::Boxed("b".to_owned(), Coloring::Red, "a longer text".to_owned()),
        BlockSpec::Boxed("c".to_owned(), Coloring::Default, "C".to_owned()),
    ];
    let constraint = limit(40);
    let displays = stack_blocks(80, &specs, &constraint);
    assert_eq!(displays.len(), 3);
    assert_eq!(displays[0].0, &specs[0]);
    assert_eq!(displays[1].0, &specs[1]);
    assert_eq!(displays[2].0, &specs[2]);
    assert_eq!(displays[0].1.size, Size { width: 5, height: 3 });
    assert_eq!(displays[1].1.size, Size { width: 17, height: 3 });
    assert_eq!(displays[0].1.pos, Position { x: 38, y: 0 });
    assert_eq!(displays[1].1.pos, Position { x: 32, y: 8 });
    assert_eq!(displays[2].1.pos, Position { x: 38, y: 16 });
    assert_eq!(displays[1].1.color, Coloring::Red);
    assert!(stack_blocks(80, &[], &constraint).is_empty());
}

#[test]
fn vertical_space_is_one_gap_for_each_block_beyond_the_columns() {
    assert_eq!(calculate_required_vertical_space(5, 3, 1), 12);
    assert_eq!(calculate_required_vertical_space(2, 7, 2), 0);
}

#[test]
fn constraint_limits() {
    let constraint = limit(40);
    assert_eq!(constraint.max_width_for_height(3), 40);
    assert_eq!(constraint.max_width_for_height(5), 50);
    assert_eq!(constraint.max_height_for_width(7), 7);
}

#[test]
fn blocks_that_do_not_fit_cannot_be_placed() {
    let specs = vec![
        BlockSpec::Boxed("a".to_owned(), Coloring::Default, "A".to_owned()),
        BlockSpec::Boxed("b".to_owned(), Coloring::Default, "a longer text".to_owned()),
    ];
    assert_eq!(specs[1].get_text(), "a longer text");
    assert!(can_place(&specs, &limit(40), 80));
    assert!(can_place(&specs, &limit(40), 16));
    // a box of width 17 is centred on a screen no narrower than 16
    assert!(!can_place(&specs, &limit(40), 15));
    assert!(can_place(&specs[..1], &limit(40), 15));
    let mut far = limit(40);
    // a single box stands in row 0, whatever the distance
    far.inter_block_distance = u32::MAX;
    assert!(can_place(&specs[..1], &far, 80));
    // the second box begins in row 3 + distance and is three rows high
    far.inter_block_distance = 2_000_000_000;
    assert!(can_place(&specs, &far, 80));
    far.inter_block_distance = u32::MAX - 6;
    assert!(can_place(&specs, &far, 80));
    far.inter_block_distance = u32::MAX - 5;
    assert!(!can_place(&specs, &far, 80));
    // a third box begins in row 6 + 2 * distance
    let three = vec![specs[0].clone(), specs[1].clone(), specs[0].clone()];
    far.inter_block_distance = 2_147_483_643;
    assert!(can_place(&three, &far, 80));
    far.inter_block_distance = 2_147_483_644;
    assert!(!can_place(&three, &far, 80));
    assert!(can_place(&[], &far, 0));
}

#[test]
fn a_block_needs_a_cell_and_edges_on_the_grid() {
    assert!(display_at(0, 0, 1, 1).check_extent());
    assert!(display_at(u32::MAX - 1, u32::MAX - 5, 1, 5).check_extent());
    assert!(!display_at(u32::MAX, 0, 1, 1).check_extent());
    assert!(!display_at(0, u32::MAX - 5, 1, 6).check_extent());
    assert!(!display_at(5, 5, 0, 3).check_extent());
    assert!(!display_at(5, 5, 3, 0).check_extent());
}

#[test]
fn a_block_begins_where_the_one_above_ends_plus_the_distance() {
    let specs = vec![
        BlockSpec::Boxed("tall".to_owned(), Coloring::Default, "one two three four five six".to_owned()),
        BlockSpec::Boxed("short".to_owned(), Coloring::Default, "B".to_owned()),
        BlockSpec::Boxed("last".to_owned(), Coloring::Default, "C".to_owned()),
    ];
    for distance in [0, 1, 5] {
        let mut constraint = limit(12);
        constraint.inter_block_distance = distance;
        let displays = stack_blocks(40, &specs, &constraint);
        assert_eq!(displays[0].1.size.height, 6);
        assert_eq!(displays[1].1.size.height, 3);
        assert_eq!(displays[0].1.pos.y, 0);
        assert_eq!(displays[1].1.pos.y, 6 + distance);
        assert_eq!(displays[2].1.pos.y, 6 + distance + 3 + distance);
        for pair in displays.windows(2) {
            assert_eq!(pair[1].1.pos.y, pair[0].1.pos.y + pair[0].1.size.height + distance);
        }
    }
}
