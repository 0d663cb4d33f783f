//! Turning a routed grid path into the straight runs and end glyphs that
//! are drawn for a connection.

use std::collections::VecDeque;
use vstd::prelude::*;
use crate::data::{ConnectionSpec, ConnectionType};
use crate::layout::display::{spec_manhattan, ConnectionDisplay, ConnectionPart, Position};

verus! {

/// Two cells are neighbours: they differ by one in exactly one coordinate.
pub open spec fn is_unit_step(a: Position, b: Position) -> bool {
    spec_manhattan(a, b) == 1
}

/// Every cell of the path is a neighbour of the one before it.
pub open spec fn is_unit_path(path: Seq<Position>) -> bool {
    forall|i: int| 0 <= i < path.len() - 1 ==> is_unit_step(#[trigger] path[i], path[i + 1])
}

/// A path of unit steps holds at least one cell more than its two ends are
/// steps apart.
pub proof fn lemma_unit_path_spans_distance(path: Seq<Position>)
    requires
        path.len() >= 1,
        is_unit_path(path),
    ensures
        path.len() - 1 >= spec_manhattan(path[0], path.last()),
    decreases path.len(),
{
    if path.len() > 1 {
        let shorter = path.drop_last();
        assert forall|i: int| 0 <= i < shorter.len() - 1 implies is_unit_step(
            #[trigger] shorter[i],
            shorter[i + 1],
        ) by {
            assert(is_unit_step(path[i], path[i + 1]));
        }
        lemma_unit_path_spans_distance(shorter);
        assert(is_unit_step(path[path.len() - 2], path[path.len() - 2 + 1]));
    }
}

/// A path of unit steps that is as short as its two ends allow and leads
/// down a column is the straight line: its cells follow one another down
/// that column.
pub proof fn lemma_direct_path_down_is_straight(path: Seq<Position>)
    requires
        path.len() >= 1,
        is_unit_path(path),
        path[0].x == path.last().x,
        path[0].y <= path.last().y,
        path.len() - 1 == spec_manhattan(path[0], path.last()),
    ensures
        forall|i: int|
            0 <= i < path.len() ==> (#[trigger] path[i]).x == path[0].x && path[i].y == path[0].y
                + i,
{
    assert forall|i: int| 0 <= i < path.len() implies (#[trigger] path[i]).x == path[0].x
        && path[i].y == path[0].y + i by {
        let head = path.subrange(0, i + 1);
        let tail = path.subrange(i, path.len() as int);
        assert forall|k: int| 0 <= k < head.len() - 1 implies is_unit_step(
            #[trigger] head[k],
            head[k + 1],
        ) by {
            assert(is_unit_step(path[k], path[k + 1]));
        }
        assert forall|k: int| 0 <= k < tail.len() - 1 implies is_unit_step(
            #[trigger] tail[k],
            tail[k + 1],
        ) by {
            assert(is_unit_step(path[i + k], path[i + k + 1]));
        }
        lemma_unit_path_spans_distance(head);
        lemma_unit_path_spans_distance(tail);
        assert(head[0] == path[0] && head.last() == path[i]);
        assert(tail[0] == path[i] && tail.last() == path.last());
    }
}

/// A path of two cells or more that leads straight down a column is drawn
/// as one vertical part from its first cell to its last.
pub proof fn lemma_straight_down_is_one_part(path: Seq<Position>)
    requires
        path.len() >= 2,
        forall|i: int|
            0 <= i < path.len() ==> (#[trigger] path[i]).x == path[0].x && path[i].y == path[0].y
                + i,
    ensures
        spec_parts(path) == seq![
            ConnectionPart { start: path[0], end: path.last(), internal_character: '|' },
        ],
    decreases path.len(),
{
    let from = path[path.len() - 2];
    let to = path[path.len() - 1];
    assert(spec_change(from, to) == (0i8, 1i8));
    if path.len() > 2 {
        let shorter = path.drop_last();
        assert forall|i: int| 0 <= i < shorter.len() implies (#[trigger] shorter[i]).x
            == shorter[0].x && shorter[i].y == shorter[0].y + i by {
            assert(shorter[i] == path[i]);
        }
        lemma_straight_down_is_one_part(shorter);
        let before = spec_parts(shorter);
        assert(spec_change(path[path.len() - 3], from) == (0i8, 1i8));
        assert(before.update(
            before.len() - 1,
            ConnectionPart {
                start: before.last().start,
                end: to,
                internal_character: before.last().internal_character,
            },
        ) =~= seq![ConnectionPart { start: path[0], end: to, internal_character: '|' }]);
    }
}

/// The change in x and in y from a cell to a neighbour of it.
pub open spec fn spec_change(a: Position, b: Position) -> (i8, i8) {
    if a.x == b.x {
        if a.y > b.y {
            (0i8, -1i8)
        } else {
            (0i8, 1i8)
        }
    } else if a.x > b.x {
        (-1i8, 0i8)
    } else {
        (1i8, 0i8)
    }
}

/// The glyph that fills a run in the given direction.
pub open spec fn spec_fill(change: (i8, i8)) -> char {
    if change.0 == 0 {
        '|'
    } else {
        '-'
    }
}

/// The straight runs of a path, in order. A path of fewer than two cells
/// has none. Each further step lengthens the last run when it keeps the
/// direction and opens a new run at the bend when it does not.
pub open spec fn spec_parts(path: Seq<Position>) -> Seq<ConnectionPart>
    decreases path.len(),
{
    if path.len() < 2 {
        Seq::empty()
    } else {
        let from = path[path.len() - 2];
        let to = path[path.len() - 1];
        let change = spec_change(from, to);
        let fresh = ConnectionPart { start: from, end: to, internal_character: spec_fill(change) };
        if path.len() == 2 {
            seq![fresh]
        } else {
            let before = spec_parts(path.drop_last());
            if spec_change(path[path.len() - 3], from) == change {
                before.update(
                    before.len() - 1,
                    ConnectionPart {
                        start: before.last().start,
                        end: to,
                        internal_character: before.last().internal_character,
                    },
                )
            } else {
                before.push(fresh)
            }
        }
    }
}

/// The arrow head for a line that arrives with the given change, or the
/// plain junction where there is no change to go by.
pub open spec fn spec_incoming_for_change(change: Option<(i8, i8)>) -> char {
    match change {
        Some((x, y)) => if x == -1 {
            '<'
        } else if x == 1 {
            '>'
        } else if y == -1 {
            '^'
        } else {
            'v'
        },
        None => '#',
    }
}

/// The glyphs at the start and at the end of a connection of the given
/// kind. `first_change` is the change by which the line arrives at its
/// start when walked backwards, `last_change` the one by which it arrives
/// at its end.
pub open spec fn spec_total_chars(
    first_change: Option<(i8, i8)>,
    last_change: Option<(i8, i8)>,
    ty: ConnectionType,
) -> (char, char) {
    match ty {
        ConnectionType::Generic => ('#', '#'),
        ConnectionType::Singular => ('#', spec_incoming_for_change(last_change)),
        ConnectionType::Dual => (
            spec_incoming_for_change(first_change),
            spec_incoming_for_change(last_change),
        ),
    }
}

/// The change of the first step of a path, reversed.
pub open spec fn spec_first_change(path: Seq<Position>) -> Option<(i8, i8)> {
    if path.len() < 2 {
        None
    } else {
        let change = spec_change(path[0], path[1]);
        Some(((-change.0) as i8, (-change.1) as i8))
    }
}

/// The change of the last step of a path.
pub open spec fn spec_last_change(path: Seq<Position>) -> Option<(i8, i8)> {
    if path.len() < 2 {
        None
    } else {
        Some(spec_change(path[path.len() - 2], path[path.len() - 1]))
    }
}

/// What is drawn for a connection routed along `path`.
pub open spec fn spec_display_matches(
    display: ConnectionDisplay,
    conn: ConnectionSpec,
    path: Seq<Position>,
) -> bool {
    &&& display.parts@ == spec_parts(path)
    &&& display.color == conn.color
    &&& display.part_end_char == '+'
    &&& display.total_start_char == spec_total_chars(
        spec_first_change(path),
        spec_last_change(path),
        conn.ty,
    ).0
    &&& display.total_end_char == spec_total_chars(
        spec_first_change(path),
        spec_last_change(path),
        conn.ty,
    ).1
}

/// Whether every cell of the path is a neighbour of the one before it.
pub fn is_unit_step_path(path: &VecDeque<Position>) -> (ok: bool)
    ensures
        ok == is_unit_path(path@),
{
    let mut at: usize = 1;
    while at < path.len()
        invariant
            1 <= at,
            forall|i: int| 0 <= i < at - 1 && i < path@.len() - 1 ==> is_unit_step(
                #[trigger] path@[i],
                path@[i + 1],
            ),
        decreases path.len() - at,
    {
        let a = path[at - 1];
        let b = path[at];
        let xdiff: u32 = if a.x > b.x {
            a.x - b.x
        } else {
            b.x - a.x
        };
        let ydiff: u32 = if a.y > b.y {
            a.y - b.y
        } else {
            b.y - a.y
        };
        if !((xdiff == 1 && ydiff == 0) || (xdiff == 0 && ydiff == 1)) {
            assert(!is_unit_step(path@[at - 1], path@[at - 1 + 1]));
            return false;
        }
        at = at + 1;
    }
    true
}

/// Takes a connection and a path, and converts them to what is drawn.
///
/// The path is broken down into its straight runs; the connection gives
/// the colour and decides the glyphs at the two ends.
pub fn conn_display_with_path(conn: &ConnectionSpec, path: VecDeque<Position>) -> (display:
    ConnectionDisplay)
    requires
        is_unit_path(path@),
    ensures
        spec_display_matches(display, *conn, path@),
{
    let mut last_change: Option<(i8, i8)> = None;
    let mut first_change: Option<(i8, i8)> = None;
    let mut part_vec: Vec<ConnectionPart> = Vec::new();
    let mut part_start: Option<Position> = None;
    let mut last_point: Option<Position> = None;
    let mut at: usize = 1;
    while at < path.len()
        invariant
            1 <= at,
            at == 1 || at <= path@.len(),
            is_unit_path(path@),
            at == 1 ==> part_vec@.len() == 0 && part_start.is_none()
                && last_point.is_none() && last_change.is_none() && first_change.is_none(),
            at > 1 && at <= path@.len() ==> {
                &&& part_start.is_some()
                &&& last_point == Some(path@[at - 1])
                &&& last_change == Some(spec_change(path@[at - 2], path@[at - 1]))
                &&& first_change == Some(spec_change(path@[0], path@[1]))
                &&& spec_parts(path@.take(at as int)) == part_vec@.push(
                    ConnectionPart {
                        start: part_start.unwrap(),
                        end: path@[at - 1],
                        internal_character: spec_fill(last_change.unwrap()),
                    },
                )
            },
        decreases path.len() - at,
    {
        let a = path[at - 1];
        let b = path[at];
        assert(is_unit_step(path@[at - 1], path@[at - 1 + 1]));
        // A part that has not been started (or was just finished) starts here.
        if part_start.is_none() {
            part_start = Some(a);
        }
        let new_change: (i8, i8) = if a.x == b.x {
            if a.y > b.y {
                (0, -1)
            } else {
                (0, 1)
            }
        } else {
            if a.x > b.x {
                (-1, 0)
            } else {
                (1, 0)
            }
        };
        proof {
            let upto = path@.take(at as int + 1);
            assert(upto.drop_last() =~= path@.take(at as int));
            assert(upto[upto.len() - 1] == b);
            assert(upto[upto.len() - 2] == a);
            if at > 1 {
                assert(upto[upto.len() - 3] == path@[at - 2]);
            }
        }
        if let Some(old_change) = last_change {
            // A change of direction ends the part in progress at the bend.
            if new_change.0 != old_change.0 || new_change.1 != old_change.1 {
                let part_char = if old_change.0 == 0 {
                    '|'
                } else {
                    '-'
                };
                part_vec.push(
                    ConnectionPart {
                        start: part_start.unwrap(),
                        end: a,
                        internal_character: part_char,
                    },
                );
                part_start = Some(a);
            }
        }
        last_change = Some(new_change);
        if first_change.is_none() {
            first_change = Some(new_change);
        }
        last_point = Some(b);
        at = at + 1;
    }
    // A part in progress ends with the path.
    if part_start.is_some() && last_point.is_some() && last_change.is_some() {
        let part_char = if last_change.unwrap().0 == 0 {
            '|'
        } else {
            '-'
        };
        part_vec.push(
            ConnectionPart {
                start: part_start.unwrap(),
                end: last_point.unwrap(),
                internal_character: part_char,
            },
        );
    }
    proof {
        if path@.len() >= 2 {
            assert(path@.take(at as int) =~= path@);
        }
    }
    let reversed_first: Option<(i8, i8)> = match first_change {
        Some(fc) => Some((-fc.0, -fc.1)),
        None => None,
    };
    let (total_start, total_end) = total_chars(reversed_first, last_change, conn.ty);
    assert(part_vec@ == spec_parts(path@));
    assert(reversed_first == spec_first_change(path@));
    assert(last_change == spec_last_change(path@));
    ConnectionDisplay {
        parts: part_vec,
        color: conn.color,
        part_end_char: '+',
        total_start_char: total_start,
        total_end_char: total_end,
    }
}

/// Converts a path that may be broken: `None` is the fault reported for a
/// path with a step that is not to a neighbouring cell.
pub fn checked_conn_display_with_path(conn: &ConnectionSpec, path: VecDeque<Position>) -> (display:
    Option<ConnectionDisplay>)
    ensures
        display.is_some() == is_unit_path(path@),
        display.is_some() ==> spec_display_matches(display.unwrap(), *conn, path@),
{
    if is_unit_step_path(&path) {
        Some(conn_display_with_path(conn, path))
    } else {
        None
    }
}

/// Figures out what characters to place on the ends of a connection.
pub fn total_chars(
    first_change: Option<(i8, i8)>,
    last_change: Option<(i8, i8)>,
    ty: ConnectionType,
) -> (ends: (char, char))
    ensures
        ends == spec_total_chars(first_change, last_change, ty),
{
    match ty {
        ConnectionType::Generic => ('#', '#'),
        ConnectionType::Singular => ('#', incoming_for_change(last_change)),
        ConnectionType::Dual => (
            incoming_for_change(first_change),
            incoming_for_change(last_change),
        ),
    }
}

/// Determines what character to use for a position change when entering a block.
pub fn incoming_for_change(change: Option<(i8, i8)>) -> (glyph: char)
    ensures
        glyph == spec_incoming_for_change(change),
{
    if let Some((x, y)) = change {
        if x == -1 {
            '<'
        } else if x == 1 {
            '>'
        } else if y == -1 {
            '^'
        } else {
            'v'
        }
    } else {
        '#'
    }
}

} // verus!
