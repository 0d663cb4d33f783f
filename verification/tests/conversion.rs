use cog::data::{Coloring, ConnectionSpec, ConnectionType};
use cog::layout::display::{ConnectionPart, Position};
use cog::layout::path_conversion::{
    checked_conn_display_with_path, conn_display_with_path, incoming_for_change, is_unit_step_path,
    total_chars,
};
use std::collections::VecDeque;

fn conn(ty: ConnectionType) -> ConnectionSpec {
    ConnectionSpec { ty, start: "a".to_owned(), end: "b".to_owned(), color: Coloring::Green }
}

fn path(cells: &[(u32, u32)]) -> VecDeque<Position> {
    cells.iter().map(|&(x, y)| Position { x, y }).collect()
}

fn part(from: (u32, u32), to: (u32, u32), fill: char) -> ConnectionPart {
    ConnectionPart {
        start: Position { x: from.0, y: from.1 },
        end: Position { x: to.0, y: to.1 },
        internal_character: fill,
    }
}

#[test]
fn a_straight_path_is_one_part() {
    let display = conn_display_with_path(&conn(ConnectionType::Generic), path(&[(3, 1), (3, 2), (3, 3), (3, 4)]));
    assert_eq!(display.parts, vec![part((3, 1), (3, 4), '|')]);
    assert_eq!(display.color, Coloring::Green);
    assert_eq!(display.part_end_char, '+');
    assert_eq!(display.total_start_char, '#');
    assert_eq!(display.total_end_char, '#');
}

#[test]
fn every_bend_starts_a_new_part() {
    let cells = [(1, 1), (2, 1), (3, 1), (3, 2), (3, 3), (2, 3), (2, 2)];
    let display = conn_display_with_path(&conn(ConnectionType::Dual), path(&cells));
    assert_eq!(
        display.parts,
        vec![
            part((1, 1), (3, 1), '-'),
            part((3, 1), (3, 3), '|'),
            part((3, 3), (2, 3), '-'),
            part((2, 3), (2, 2), '|'),
        ]
    );
    // the line leaves to the right, so the arrow at its start points left
    assert_eq!(display.total_start_char, '<');
    // and it arrives going up
    assert_eq!(display.total_end_char, '^');
}

#[test]
fn a_singular_connection_has_an_arrow_at_its_end_only() {
    let display = conn_display_with_path(&conn(ConnectionType::Singular), path(&[(5, 5), (4, 5)]));
    assert_eq!(display.parts, vec![part((5, 5), (4, 5), '-')]);
    assert_eq!(display.total_start_char, '#');
    assert_eq!(display.total_end_char, '<');
    let down = conn_display_with_path(&conn(ConnectionType::Singular), path(&[(5, 5), (5, 6)]));
    assert_eq!(down.total_end_char, 'v');
    let right = conn_display_with_path(&conn(ConnectionType::Dual), path(&[(5, 5), (6, 5)]));
    assert_eq!(right.total_end_char, '>');
    assert_eq!(right.total_start_char, '<');
    let up = conn_display_with_path(&conn(ConnectionType::Dual), path(&[(5, 5), (5, 4)]));
    assert_eq!(up.total_start_char, 'v');
    assert_eq!(up.total_end_char, '^');
}

#[test]
fn a_path_without_a_step_has_no_part() {
    for cells in [path(&[]), path(&[(2, 2)])] {
        let display = conn_display_with_path(&conn(ConnectionType::Dual), cells);
        assert!(display.parts.is_empty());
        assert_eq!(display.total_start_char, '#');
        assert_eq!(display.total_end_char, '#');
    }
}

#[test]
fn a_broken_path_is_a_fault() {
    let diagonal = path(&[(1, 1), (2, 2)]);
    let jump = path(&[(1, 1), (1, 3)]);
    let still = path(&[(1, 1), (1, 1)]);
    assert!(!is_unit_step_path(&diagonal));
    assert!(!is_unit_step_path(&jump));
    assert!(!is_unit_step_path(&still));
    assert!(is_unit_step_path(&path(&[(1, 1), (1, 2), (0, 2)])));
    assert!(checked_conn_display_with_path(&conn(ConnectionType::Generic), diagonal).is_none());
    assert!(checked_conn_display_with_path(&conn(ConnectionType::Generic), jump).is_none());
    assert!(checked_conn_display_with_path(&conn(ConnectionType::Generic), still).is_none());
    let fine = checked_conn_display_with_path(&conn(ConnectionType::Generic), path(&[(1, 1), (1, 2)]));
    assert_eq!(fine.unwrap().parts, vec![part((1, 1), (1, 2), '|')]);
}

#[test]
fn glyphs_for_changes() {
    assert_eq!(incoming_for_change(Some((-1, 0))), '<');
    assert_eq!(incoming_for_change(Some((1, 0))), '>');
    assert_eq!(incoming_for_change(Some((0, -1))), '^');
    assert_eq!(incoming_for_change(Some((0, 1))), 'v');
    assert_eq!(incoming_for_change(None), '#');
    assert_eq!(total_chars(Some((1, 0)), Some((0, 1)), ConnectionType::Generic), ('#', '#'));
    assert_eq!(total_chars(Some((1, 0)), Some((0, 1)), ConnectionType::Singular), ('#', 'v'));
    assert_eq!(total_chars(Some((1, 0)), Some((0, 1)), ConnectionType::Dual), ('>', 'v'));
}
