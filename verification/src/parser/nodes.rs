//! The grammar of a diagram description.
//!
//! A description is a list of records with blank space between them.
//!
//! ```text
//! description := [ record { separator record } ]
//! separator   := { [ space ] line-end }+
//! record      := connection | box
//! connection  := [ space ] [ kind space ] "connection" space name space name [ space color ]
//! box         := [ space ] "box" space "text" space name [ space color ] [ space ] line-end text
//! kind        := "generic" | "singular" | "dual"
//! color       := "color" space ( "red" | "cyan" | "blue" | "black" | "green"
//!                              | "white" | "yellow" | "magenta" | "default" )
//! name        := letters and digits, at least one
//! space       := blanks and tabs, at least one
//! line-end    := "\n" | "\r\n"
//! text        := the rest of the line
//! ```
//!
//! Every rule takes as much as it can get, and choices are tried in the
//! order given.

use vstd::prelude::*;
use vstd::slice::slice_subrange;
use vstd::string::StringExecFns;
use vstd::utf8::{decode_utf8, encode_utf8, valid_utf8};
use crate::data::{
    spec_views,
    BlockSpec,
    Coloring,
    ConnectionSpec,
    ConnectionType,
    DataSpec,
};

verus! {

/// The outcome of a rule: the text that is left over with what was read,
/// or that the text does not begin as the rule demands.
#[derive(Debug, PartialEq, Eq)]
pub enum Parsed<'a, O> {
    Done(&'a [u8], O),
    Error,
}

/// A connection as it is read.
pub struct ConnectionModel {
    pub ty: ConnectionType,
    pub start: Seq<char>,
    pub end: Seq<char>,
    pub color: Coloring,
}

/// A block as it is read.
pub struct BlockModel {
    pub name: Seq<char>,
    pub color: Coloring,
    pub text: Seq<char>,
}

/// A record as it is read.
pub enum RecordModel {
    Block(BlockModel),
    Connection(ConnectionModel),
}

/// Whether a connection is the one read.
pub open spec fn connection_is(conn: ConnectionSpec, model: ConnectionModel) -> bool {
    &&& conn.ty == model.ty
    &&& conn.start@ == model.start
    &&& conn.end@ == model.end
    &&& conn.color == model.color
}

/// Whether a block is the one read.
pub open spec fn block_is(block: BlockSpec, model: BlockModel) -> bool {
    &&& block.name() == model.name
    &&& block.color() == model.color
    &&& block.text() == model.text
}

/// Whether a record is the one read.
pub open spec fn record_is(record: DataSpec, model: RecordModel) -> bool {
    match (record, model) {
        (DataSpec::BlockDataSpec(block), RecordModel::Block(read)) => block_is(block, read),
        (DataSpec::ConnectionDataSpec(conn), RecordModel::Connection(read)) => connection_is(
            conn,
            read,
        ),
        _ => false,
    }
}

/// Whether the records are those read, one for one.
pub open spec fn records_are(records: Seq<DataSpec>, models: Seq<RecordModel>) -> bool {
    &&& records.len() == models.len()
    &&& forall|i: int| 0 <= i < records.len() ==> record_is(#[trigger] records[i], models[i])
}

/// A blank or a tab.
pub open spec fn spec_is_space(byte: u8) -> bool {
    byte == 32 || byte == 9
}

/// A letter or a digit.
pub open spec fn spec_is_alphanumeric(byte: u8) -> bool {
    ||| 48 <= byte <= 57
    ||| 65 <= byte <= 90
    ||| 97 <= byte <= 122
}

/// A byte that ends a line.
pub open spec fn spec_is_line_break(byte: u8) -> bool {
    byte == 10 || byte == 13
}

/// Where the blanks and tabs that begin at `at` end.
pub open spec fn spec_spaces_end(input: Seq<u8>, at: int) -> int
    decreases input.len() - at,
{
    if 0 <= at < input.len() && spec_is_space(input[at]) {
        spec_spaces_end(input, at + 1)
    } else {
        at
    }
}

/// Where the letters and digits that begin at `at` end.
pub open spec fn spec_name_end(input: Seq<u8>, at: int) -> int
    decreases input.len() - at,
{
    if 0 <= at < input.len() && spec_is_alphanumeric(input[at]) {
        spec_name_end(input, at + 1)
    } else {
        at
    }
}

/// Where the line that begins at `at` ends: at its line break or at the
/// end of the text.
pub open spec fn spec_line_end(input: Seq<u8>, at: int) -> int
    decreases input.len() - at,
{
    if 0 <= at < input.len() && !spec_is_line_break(input[at]) {
        spec_line_end(input, at + 1)
    } else {
        at
    }
}

/// The rule `space`: where it ends, if there is a blank or a tab at `at`.
pub open spec fn spec_space(input: Seq<u8>, at: int) -> Option<int> {
    if spec_spaces_end(input, at) > at {
        Some(spec_spaces_end(input, at))
    } else {
        None
    }
}

/// A word of the grammar: where it ends, if the text goes on with it at `at`.
pub open spec fn spec_tag(input: Seq<u8>, at: int, tag: Seq<char>) -> Option<int> {
    let bytes = encode_utf8(tag);
    if 0 <= at && at + bytes.len() <= input.len() && input.subrange(at, at + bytes.len())
        == bytes {
        Some(at + bytes.len())
    } else {
        None
    }
}

/// The rule `line-end`.
pub open spec fn spec_line_ending(input: Seq<u8>, at: int) -> Option<int> {
    if 0 <= at < input.len() && input[at] == 10 {
        Some(at + 1)
    } else if 0 <= at && at + 1 < input.len() && input[at] == 13 && input[at + 1] == 10 {
        Some(at + 2)
    } else {
        None
    }
}

/// The first of the given words with which the text goes on at `at`, as its
/// index among them, with where it ends.
pub open spec fn spec_first_tag(input: Seq<u8>, at: int, tags: Seq<Seq<char>>, from: int) -> Option<
    (int, int),
>
    decreases tags.len() - from,
{
    if from < 0 || from >= tags.len() {
        None
    } else {
        match spec_tag(input, at, tags[from]) {
            Some(next) => Some((next, from)),
            None => spec_first_tag(input, at, tags, from + 1),
        }
    }
}

/// The names of the colours, in the order in which they are tried.
pub open spec fn spec_color_names() -> Seq<Seq<char>> {
    seq![
        "red"@,
        "cyan"@,
        "blue"@,
        "black"@,
        "green"@,
        "white"@,
        "yellow"@,
        "magenta"@,
        "default"@,
    ]
}

/// The colours, in the order of their names.
pub open spec fn spec_colors() -> Seq<Coloring> {
    seq![
        Coloring::Red,
        Coloring::Cyan,
        Coloring::Blue,
        Coloring::Black,
        Coloring::Green,
        Coloring::White,
        Coloring::Yellow,
        Coloring::Magenta,
        Coloring::Default,
    ]
}

/// The names of the kinds of connection, in the order in which they are tried.
pub open spec fn spec_kind_names() -> Seq<Seq<char>> {
    seq!["generic"@, "singular"@, "dual"@]
}

/// The kinds of connection, in the order of their names.
pub open spec fn spec_kinds() -> Seq<ConnectionType> {
    seq![ConnectionType::Generic, ConnectionType::Singular, ConnectionType::Dual]
}

/// The name of a colour.
pub open spec fn spec_color_select(input: Seq<u8>, at: int) -> Option<(int, Coloring)> {
    match spec_first_tag(input, at, spec_color_names(), 0) {
        Some((next, index)) => Some((next, spec_colors()[index])),
        None => None,
    }
}

/// The rule `color`.
pub open spec fn spec_coloring_spec(input: Seq<u8>, at: int) -> Option<(int, Coloring)> {
    match spec_tag(input, at, "color"@) {
        Some(word_end) => match spec_space(input, word_end) {
            Some(space_end) => spec_color_select(input, space_end),
            None => None,
        },
        None => None,
    }
}

/// A colour after space, or the default colour and nothing read.
pub open spec fn spec_defaulted_color(input: Seq<u8>, at: int) -> (int, Coloring) {
    match spec_space(input, at) {
        Some(space_end) => match spec_coloring_spec(input, space_end) {
            Some(read) => read,
            None => (at, Coloring::Default),
        },
        None => (at, Coloring::Default),
    }
}

/// The rule `kind`.
pub open spec fn spec_conn_type_spec(input: Seq<u8>, at: int) -> Option<(int, ConnectionType)> {
    match spec_first_tag(input, at, spec_kind_names(), 0) {
        Some((next, index)) => Some((next, spec_kinds()[index])),
        None => None,
    }
}

/// A kind followed by space, or the generic kind and nothing read.
pub open spec fn spec_defaulted_kind(input: Seq<u8>, at: int) -> (int, ConnectionType) {
    match spec_conn_type_spec(input, at) {
        Some((kind_end, kind)) => match spec_space(input, kind_end) {
            Some(space_end) => (space_end, kind),
            None => (at, ConnectionType::Generic),
        },
        None => (at, ConnectionType::Generic),
    }
}

/// The rule `name`.
pub open spec fn spec_ident_str(input: Seq<u8>, at: int) -> Option<(int, Seq<char>)> {
    let end = spec_name_end(input, at);
    if 0 <= at < end <= input.len() && valid_utf8(input.subrange(at, end)) {
        Some((end, decode_utf8(input.subrange(at, end))))
    } else {
        None
    }
}

/// Space, then a name.
pub open spec fn spec_spaced_name(input: Seq<u8>, at: int) -> Option<(int, Seq<char>)> {
    match spec_space(input, at) {
        Some(space_end) => spec_ident_str(input, space_end),
        None => None,
    }
}

/// The rule `connection`.
pub open spec fn spec_connection_spec(input: Seq<u8>, at: int) -> Option<(int, ConnectionModel)> {
    let kind = spec_defaulted_kind(input, spec_spaces_end(input, at));
    match spec_tag(input, kind.0, "connection"@) {
        Some(word_end) => match spec_spaced_name(input, word_end) {
            Some((first_end, first)) => match spec_spaced_name(input, first_end) {
                Some((second_end, second)) => {
                    let color = spec_defaulted_color(input, second_end);
                    Some(
                        (
                            color.0,
                            ConnectionModel {
                                ty: kind.1,
                                start: first,
                                end: second,
                                color: color.1,
                            },
                        ),
                    )
                },
                None => None,
            },
            None => None,
        },
        None => None,
    }
}

/// A character that counts as white space.
pub open spec fn spec_is_whitespace(c: char) -> bool {
    ||| '\u{9}' <= c <= '\u{d}'
    ||| c == ' '
    ||| c == '\u{85}'
    ||| c == '\u{a0}'
    ||| c == '\u{1680}'
    ||| '\u{2000}' <= c <= '\u{200a}'
    ||| c == '\u{2028}'
    ||| c == '\u{2029}'
    ||| c == '\u{202f}'
    ||| c == '\u{205f}'
    ||| c == '\u{3000}'
}

/// Where the white space that begins a text at `at` ends.
pub open spec fn spec_blank_end(text: Seq<char>, at: int) -> int
    decreases text.len() - at,
{
    if 0 <= at < text.len() && spec_is_whitespace(text[at]) {
        spec_blank_end(text, at + 1)
    } else {
        at
    }
}

/// Where the white space that ends a text before `upto` begins, but not
/// before `low`.
pub open spec fn spec_blank_start(text: Seq<char>, low: int, upto: int) -> int
    decreases upto,
{
    if 0 <= low < upto <= text.len() && spec_is_whitespace(text[upto - 1]) {
        spec_blank_start(text, low, upto - 1)
    } else {
        upto
    }
}

/// A text without the white space at its two ends.
pub open spec fn spec_trim(text: Seq<char>) -> Seq<char> {
    let from = spec_blank_end(text, 0);
    text.subrange(from, spec_blank_start(text, from, text.len() as int))
}

/// The rule `box`.
pub open spec fn spec_box_spec(input: Seq<u8>, at: int) -> Option<(int, BlockModel)> {
    match spec_tag(input, spec_spaces_end(input, at), "box"@) {
        Some(box_end) => match spec_space(input, box_end) {
            Some(space_end) => match spec_tag(input, space_end, "text"@) {
                Some(text_end) => match spec_spaced_name(input, text_end) {
                    Some((name_end, name)) => {
                        let color = spec_defaulted_color(input, name_end);
                        match spec_line_ending(input, spec_spaces_end(input, color.0)) {
                            Some(line_start) => {
                                let line_end = spec_line_end(input, line_start);
                                let line = input.subrange(line_start, line_end);
                                if line_start <= line_end <= input.len() && valid_utf8(line) {
                                    Some(
                                        (
                                            line_end,
                                            BlockModel {
                                                name: name,
                                                color: color.1,
                                                text: spec_trim(decode_utf8(line)),
                                            },
                                        ),
                                    )
                                } else {
                                    None
                                }
                            },
                            None => None,
                        }
                    },
                    None => None,
                },
                None => None,
            },
            None => None,
        },
        None => None,
    }
}

/// The rule `record`.
pub open spec fn spec_data_spec(input: Seq<u8>, at: int) -> Option<(int, RecordModel)> {
    match spec_connection_spec(input, at) {
        Some((next, conn)) => Some((next, RecordModel::Connection(conn))),
        None => match spec_box_spec(input, at) {
            Some((next, block)) => Some((next, RecordModel::Block(block))),
            None => None,
        },
    }
}

/// Where the line ends, each after optional space, that begin at `at` end.
pub open spec fn spec_eols_end(input: Seq<u8>, at: int) -> int
    decreases input.len() - at,
{
    match spec_line_ending(input, spec_spaces_end(input, at)) {
        Some(next) => if at < next <= input.len() {
            spec_eols_end(input, next)
        } else {
            at
        },
        None => at,
    }
}

/// The rule `separator`.
pub open spec fn spec_eol_space_spec(input: Seq<u8>, at: int) -> Option<int> {
    if spec_eols_end(input, at) > at {
        Some(spec_eols_end(input, at))
    } else {
        None
    }
}

/// The records that follow those read up to `at`, each after a separator,
/// with where the last of them ends.
pub open spec fn spec_more_records(input: Seq<u8>, at: int, read: Seq<RecordModel>) -> (
    int,
    Seq<RecordModel>,
)
    decreases input.len() - at,
{
    match spec_eol_space_spec(input, at) {
        Some(next) => match spec_data_spec(input, next) {
            Some((end, record)) => if at < end <= input.len() {
                spec_more_records(input, end, read.push(record))
            } else {
                (at, read)
            },
            None => (at, read),
        },
        None => (at, read),
    }
}

/// The rule `description`: where the records end, and the records.
pub open spec fn spec_full_graph_spec(input: Seq<u8>) -> (int, Seq<RecordModel>) {
    match spec_data_spec(input, 0) {
        Some((end, record)) => if 0 <= end <= input.len() {
            spec_more_records(input, end, seq![record])
        } else {
            (0, Seq::empty())
        },
        None => (0, Seq::empty()),
    }
}

/// The text that bytes encode in UTF-8, by `core::str::from_utf8`: `None`
/// where the bytes are no valid UTF-8, else the text that they decode to.
#[verifier::external_body]
fn utf8_text(bytes: &[u8]) -> (text: Option<&str>)
    ensures
        text.is_some() == valid_utf8(bytes@),
        text.is_some() ==> text.unwrap()@ == decode_utf8(bytes@),
{
    std::str::from_utf8(bytes).ok()
}

/// Whether a rule's outcome is the one due, where the rule reads a value
/// that the predicate `is` holds against its model.
pub open spec fn spec_done<O, M>(
    parsed: Parsed<O>,
    input: Seq<u8>,
    due: Option<(int, M)>,
    is: spec_fn(O, M) -> bool,
) -> bool {
    match parsed {
        Parsed::Done(rest, value) => due.is_some() && 0 <= due.unwrap().0 <= input.len() && rest@
            == input.subrange(due.unwrap().0, input.len() as int) && is(value, due.unwrap().1),
        Parsed::Error => due.is_none(),
    }
}

/// Where the blanks and tabs that begin at `at` end.
fn spaces_end(input: &[u8], at: usize) -> (end: usize)
    requires
        at <= input@.len(),
    ensures
        end == spec_spaces_end(input@, at as int),
        at <= end <= input@.len(),
{
    let mut end: usize = at;
    while end < input.len() && (input[end] == 32 || input[end] == 9)
        invariant
            at <= end <= input@.len(),
            spec_spaces_end(input@, at as int) == spec_spaces_end(input@, end as int),
        decreases input@.len() - end,
    {
        end = end + 1;
    }
    end
}

/// Where the letters and digits that begin at `at` end.
fn name_end(input: &[u8], at: usize) -> (end: usize)
    requires
        at <= input@.len(),
    ensures
        end == spec_name_end(input@, at as int),
        at <= end <= input@.len(),
{
    let mut end: usize = at;
    while end < input.len() && is_alphanumeric(input[end])
        invariant
            at <= end <= input@.len(),
            spec_name_end(input@, at as int) == spec_name_end(input@, end as int),
        decreases input@.len() - end,
    {
        end = end + 1;
    }
    end
}

/// Whether a byte is a letter or a digit.
pub fn is_alphanumeric(byte: u8) -> (hit: bool)
    ensures
        hit == spec_is_alphanumeric(byte),
{
    (48 <= byte && byte <= 57) || (65 <= byte && byte <= 90) || (97 <= byte && byte <= 122)
}

/// Where the line that begins at `at` ends.
fn line_end(input: &[u8], at: usize) -> (end: usize)
    requires
        at <= input@.len(),
    ensures
        end == spec_line_end(input@, at as int),
        at <= end <= input@.len(),
{
    let mut end: usize = at;
    while end < input.len() && input[end] != 10 && input[end] != 13
        invariant
            at <= end <= input@.len(),
            spec_line_end(input@, at as int) == spec_line_end(input@, end as int),
        decreases input@.len() - end,
    {
        end = end + 1;
    }
    end
}

/// The rule `space` at a place in the text.
fn space_at(input: &[u8], at: usize) -> (end: Option<usize>)
    requires
        at <= input@.len(),
    ensures
        match end {
            Some(next) => spec_space(input@, at as int) == Some(next as int) && at < next
                <= input@.len(),
            None => spec_space(input@, at as int).is_none(),
        },
{
    let end = spaces_end(input, at);
    if end > at {
        Some(end)
    } else {
        None
    }
}

/// A word of the grammar at a place in the text.
fn tag_at(input: &[u8], at: usize, tag: &str) -> (end: Option<usize>)
    requires
        at <= input@.len(),
    ensures
        match end {
            Some(next) => spec_tag(input@, at as int, tag@) == Some(next as int) && at <= next
                <= input@.len(),
            None => spec_tag(input@, at as int, tag@).is_none(),
        },
{
    let bytes = tag.as_bytes();
    if input.len() - at < bytes.len() {
        return None;
    }
    let mut matched: usize = 0;
    while matched < bytes.len()
        invariant
            matched <= bytes@.len(),
            at + bytes@.len() <= input@.len() <= usize::MAX,
            bytes@ == encode_utf8(tag@),
            forall|i: int| 0 <= i < matched ==> input@[at + i] == bytes@[i],
        decreases bytes@.len() - matched,
    {
        if input[at + matched] != bytes[matched] {
            proof {
                let part = input@.subrange(at as int, at + bytes@.len());
                assert(part[matched as int] != bytes@[matched as int]);
            }
            return None;
        }
        matched = matched + 1;
    }
    proof {
        assert(input@.subrange(at as int, at + bytes@.len()) =~= bytes@);
    }
    Some(at + bytes.len())
}

/// The rule `line-end` at a place in the text.
fn line_ending_at(input: &[u8], at: usize) -> (end: Option<usize>)
    requires
        at <= input@.len(),
    ensures
        match end {
            Some(next) => spec_line_ending(input@, at as int) == Some(next as int) && at < next
                <= input@.len(),
            None => spec_line_ending(input@, at as int).is_none(),
        },
{
    if at < input.len() && input[at] == 10 {
        Some(at + 1)
    } else if at < input.len() && input.len() - at > 1 && input[at] == 13 && input[at + 1] == 10 {
        Some(at + 2)
    } else {
        None
    }
}

/// The first of the given words with which the text goes on at a place.
fn first_tag_at(input: &[u8], at: usize, tags: &[&str]) -> (found: Option<(usize, usize)>)
    requires
        at <= input@.len(),
    ensures
        match found {
            Some((next, index)) => spec_first_tag(input@, at as int, spec_views(tags@), 0) == Some(
                (next as int, index as int),
            ) && at <= next <= input@.len() && index < tags@.len(),
            None => spec_first_tag(input@, at as int, spec_views(tags@), 0).is_none(),
        },
{
    let mut index: usize = 0;
    while index < tags.len()
        invariant
            index <= tags@.len(),
            at <= input@.len(),
            spec_first_tag(input@, at as int, spec_views(tags@), 0) == spec_first_tag(
                input@,
                at as int,
                spec_views(tags@),
                index as int,
            ),
        decreases tags@.len() - index,
    {
        assert(spec_views(tags@)[index as int] == tags@[index as int]@);
        match tag_at(input, at, tags[index]) {
            Some(next) => {
                return Some((next, index));
            },
            None => {},
        }
        index = index + 1;
    }
    None
}

/// The name of a colour at a place in the text.
fn color_select_at(input: &[u8], at: usize) -> (read: Option<(usize, Coloring)>)
    requires
        at <= input@.len(),
    ensures
        match read {
            Some((next, color)) => spec_color_select(input@, at as int) == Some(
                (next as int, color),
            ) && at <= next <= input@.len(),
            None => spec_color_select(input@, at as int).is_none(),
        },
{
    let names = [
        "red",
        "cyan",
        "blue",
        "black",
        "green",
        "white",
        "yellow",
        "magenta",
        "default",
    ];
    let colors = [
        Coloring::Red,
        Coloring::Cyan,
        Coloring::Blue,
        Coloring::Black,
        Coloring::Green,
        Coloring::White,
        Coloring::Yellow,
        Coloring::Magenta,
        Coloring::Default,
    ];
    proof {
        assert(spec_views(names@) =~= spec_color_names());
        assert(colors@ =~= spec_colors());
    }
    match first_tag_at(input, at, names.as_slice()) {
        Some((next, index)) => Some((next, colors[index])),
        None => None,
    }
}

/// The rule `color` at a place in the text.
fn coloring_spec_at(input: &[u8], at: usize) -> (read: Option<(usize, Coloring)>)
    requires
        at <= input@.len(),
    ensures
        match read {
            Some((next, color)) => spec_coloring_spec(input@, at as int) == Some(
                (next as int, color),
            ) && at <= next <= input@.len(),
            None => spec_coloring_spec(input@, at as int).is_none(),
        },
{
    let word_end = match tag_at(input, at, "color") {
        Some(end) => end,
        None => {
            return None;
        },
    };
    let space_end = match space_at(input, word_end) {
        Some(end) => end,
        None => {
            return None;
        },
    };
    color_select_at(input, space_end)
}

/// A colour after space at a place in the text, or the default colour.
fn defaulted_color_at(input: &[u8], at: usize) -> (read: (usize, Coloring))
    requires
        at <= input@.len(),
    ensures
        spec_defaulted_color(input@, at as int) == (read.0 as int, read.1),
        at <= read.0 <= input@.len(),
{
    match space_at(input, at) {
        Some(space_end) => match coloring_spec_at(input, space_end) {
            Some(read) => read,
            None => (at, Coloring::Default),
        },
        None => (at, Coloring::Default),
    }
}

/// The rule `kind` at a place in the text.
fn conn_type_spec_at(input: &[u8], at: usize) -> (read: Option<(usize, ConnectionType)>)
    requires
        at <= input@.len(),
    ensures
        match read {
            Some((next, kind)) => spec_conn_type_spec(input@, at as int) == Some(
                (next as int, kind),
            ) && at <= next <= input@.len(),
            None => spec_conn_type_spec(input@, at as int).is_none(),
        },
{
    let names = ["generic", "singular", "dual"];
    let kinds = [ConnectionType::Generic, ConnectionType::Singular, ConnectionType::Dual];
    proof {
        assert(spec_views(names@) =~= spec_kind_names());
        assert(kinds@ =~= spec_kinds());
    }
    match first_tag_at(input, at, names.as_slice()) {
        Some((next, index)) => Some((next, kinds[index])),
        None => None,
    }
}

/// A kind followed by space at a place in the text, or the generic kind.
fn defaulted_kind_at(input: &[u8], at: usize) -> (read: (usize, ConnectionType))
    requires
        at <= input@.len(),
    ensures
        spec_defaulted_kind(input@, at as int) == (read.0 as int, read.1),
        at <= read.0 <= input@.len(),
{
    match conn_type_spec_at(input, at) {
        Some((kind_end, kind)) => match space_at(input, kind_end) {
            Some(space_end) => (space_end, kind),
            None => (at, ConnectionType::Generic),
        },
        None => (at, ConnectionType::Generic),
    }
}

/// The rule `name` at a place in the text.
fn ident_str_at(input: &[u8], at: usize) -> (read: Option<(usize, String)>)
    requires
        at <= input@.len(),
    ensures
        match read {
            Some((next, name)) => spec_ident_str(input@, at as int) == Some((next as int, name@))
                && at < next <= input@.len(),
            None => spec_ident_str(input@, at as int).is_none(),
        },
{
    let end = name_end(input, at);
    if end == at {
        return None;
    }
    match utf8_text(slice_subrange(input, at, end)) {
        Some(text) => Some((end, String::from_str(text))),
        None => None,
    }
}

/// Space, then a name, at a place in the text.
fn spaced_name_at(input: &[u8], at: usize) -> (read: Option<(usize, String)>)
    requires
        at <= input@.len(),
    ensures
        match read {
            Some((next, name)) => spec_spaced_name(input@, at as int) == Some(
                (next as int, name@),
            ) && at < next <= input@.len(),
            None => spec_spaced_name(input@, at as int).is_none(),
        },
{
    match space_at(input, at) {
        Some(space_end) => ident_str_at(input, space_end),
        None => None,
    }
}

/// The rule `connection` at a place in the text.
fn connection_spec_at(input: &[u8], at: usize) -> (read: Option<(usize, ConnectionSpec)>)
    requires
        at <= input@.len(),
    ensures
        match read {
            Some((next, conn)) => spec_connection_spec(input@, at as int).is_some()
                && spec_connection_spec(input@, at as int).unwrap().0 == next && connection_is(
                conn,
                spec_connection_spec(input@, at as int).unwrap().1,
            ) && at < next <= input@.len(),
            None => spec_connection_spec(input@, at as int).is_none(),
        },
{
    let (kind_end, kind) = defaulted_kind_at(input, spaces_end(input, at));
    let word_end = match tag_at(input, kind_end, "connection") {
        Some(end) => end,
        None => {
            return None;
        },
    };
    let (first_end, first) = match spaced_name_at(input, word_end) {
        Some(read) => read,
        None => {
            return None;
        },
    };
    let (second_end, second) = match spaced_name_at(input, first_end) {
        Some(read) => read,
        None => {
            return None;
        },
    };
    let (color_end, color) = defaulted_color_at(input, second_end);
    Some((color_end, ConnectionSpec { ty: kind, start: first, end: second, color: color }))
}

/// Whether a character counts as white space.
pub fn is_whitespace(c: char) -> (hit: bool)
    ensures
        hit == spec_is_whitespace(c),
{
    ('\u{9}' <= c && c <= '\u{d}') || c == ' ' || c == '\u{85}' || c == '\u{a0}' || c
        == '\u{1680}' || ('\u{2000}' <= c && c <= '\u{200a}') || c == '\u{2028}' || c
        == '\u{2029}' || c == '\u{202f}' || c == '\u{205f}' || c == '\u{3000}'
}

/// A text without the white space at its two ends.
pub fn trim_text(text: &str) -> (trimmed: String)
    ensures
        trimmed@ == spec_trim(text@),
{
    let length: usize = text.unicode_len();
    let mut from: usize = 0;
    while from < length && is_whitespace(text.get_char(from))
        invariant
            from <= length,
            length == text@.len(),
            spec_blank_end(text@, 0) == spec_blank_end(text@, from as int),
        decreases length - from,
    {
        from = from + 1;
    }
    let mut upto: usize = length;
    while from < upto && is_whitespace(text.get_char(upto - 1))
        invariant
            from <= upto <= length,
            length == text@.len(),
            spec_blank_start(text@, from as int, length as int) == spec_blank_start(
                text@,
                from as int,
                upto as int,
            ),
        decreases upto,
    {
        upto = upto - 1;
    }
    String::from_str(text.substring_char(from, upto))
}

/// The rule `box` at a place in the text.
fn box_spec_at(input: &[u8], at: usize) -> (read: Option<(usize, BlockSpec)>)
    requires
        at <= input@.len(),
    ensures
        match read {
            Some((next, block)) => spec_box_spec(input@, at as int).is_some() && spec_box_spec(
                input@,
                at as int,
            ).unwrap().0 == next && block_is(block, spec_box_spec(input@, at as int).unwrap().1)
                && at < next <= input@.len(),
            None => spec_box_spec(input@, at as int).is_none(),
        },
{
    let box_end = match tag_at(input, spaces_end(input, at), "box") {
        Some(end) => end,
        None => {
            return None;
        },
    };
    let space_end = match space_at(input, box_end) {
        Some(end) => end,
        None => {
            return None;
        },
    };
    let text_end = match tag_at(input, space_end, "text") {
        Some(end) => end,
        None => {
            return None;
        },
    };
    let (name_end, name) = match spaced_name_at(input, text_end) {
        Some(read) => read,
        None => {
            return None;
        },
    };
    let (color_end, color) = defaulted_color_at(input, name_end);
    let line_start = match line_ending_at(input, spaces_end(input, color_end)) {
        Some(start) => start,
        None => {
            return None;
        },
    };
    let end = line_end(input, line_start);
    match utf8_text(slice_subrange(input, line_start, end)) {
        Some(line) => Some((end, BlockSpec::Boxed(name, color, trim_text(line)))),
        None => None,
    }
}

/// The rule `record` at a place in the text.
fn data_spec_at(input: &[u8], at: usize) -> (read: Option<(usize, DataSpec)>)
    requires
        at <= input@.len(),
    ensures
        match read {
            Some((next, record)) => spec_data_spec(input@, at as int).is_some() && spec_data_spec(
                input@,
                at as int,
            ).unwrap().0 == next && record_is(record, spec_data_spec(input@, at as int).unwrap().1)
                && at < next <= input@.len(),
            None => spec_data_spec(input@, at as int).is_none(),
        },
{
    match connection_spec_at(input, at) {
        Some((next, conn)) => Some((next, DataSpec::ConnectionDataSpec(conn))),
        None => match box_spec_at(input, at) {
            Some((next, block)) => Some((next, DataSpec::BlockDataSpec(block))),
            None => None,
        },
    }
}

/// The rule `separator` at a place in the text.
fn eol_space_spec_at(input: &[u8], at: usize) -> (end: Option<usize>)
    requires
        at <= input@.len(),
    ensures
        match end {
            Some(next) => spec_eol_space_spec(input@, at as int) == Some(next as int) && at < next
                <= input@.len(),
            None => spec_eol_space_spec(input@, at as int).is_none(),
        },
{
    let mut end: usize = at;
    loop
        invariant
            at <= end <= input@.len(),
            spec_eols_end(input@, at as int) == spec_eols_end(input@, end as int),
        ensures
            at <= end <= input@.len(),
            spec_eols_end(input@, at as int) == end,
        decreases input@.len() - end,
    {
        match line_ending_at(input, spaces_end(input, end)) {
            Some(next) => {
                end = next;
            },
            None => {
                break ;
            },
        }
    }
    if end > at {
        Some(end)
    } else {
        None
    }
}

/// What is left of a text from a place on.
fn rest_from<'a>(input: &'a [u8], at: usize) -> (rest: &'a [u8])
    requires
        at <= input@.len(),
    ensures
        rest@ == input@.subrange(at as int, input@.len() as int),
{
    slice_subrange(input, at, input.len())
}

/// Reads a box: `box text`, its name, its colour if one is given, and on
/// the next line its text, which loses the white space at its two ends.
pub fn box_spec<'a>(input: &'a [u8]) -> (parsed: Parsed<'a, BlockSpec>)
    ensures
        spec_done(
            parsed,
            input@,
            spec_box_spec(input@, 0),
            |block: BlockSpec, model: BlockModel| block_is(block, model),
        ),
{
    match box_spec_at(input, 0) {
        Some((next, block)) => Parsed::Done(rest_from(input, next), block),
        None => Parsed::Error,
    }
}

/// Reads the name of a colour.
pub fn color_select<'a>(input: &'a [u8]) -> (parsed: Parsed<'a, Coloring>)
    ensures
        spec_done(
            parsed,
            input@,
            spec_color_select(input@, 0),
            |color: Coloring, model: Coloring| color == model,
        ),
{
    match color_select_at(input, 0) {
        Some((next, color)) => Parsed::Done(rest_from(input, next), color),
        None => Parsed::Error,
    }
}

/// Reads `color` and the name of a colour.
pub fn coloring_spec<'a>(input: &'a [u8]) -> (parsed: Parsed<'a, Coloring>)
    ensures
        spec_done(
            parsed,
            input@,
            spec_coloring_spec(input@, 0),
            |color: Coloring, model: Coloring| color == model,
        ),
{
    match coloring_spec_at(input, 0) {
        Some((next, color)) => Parsed::Done(rest_from(input, next), color),
        None => Parsed::Error,
    }
}

/// Reads a colour after space. Where none is given, the colour is the
/// default and nothing is read.
pub fn defaulted_color<'a>(input: &'a [u8]) -> (parsed: Parsed<'a, Coloring>)
    ensures
        spec_done(
            parsed,
            input@,
            Some(spec_defaulted_color(input@, 0)),
            |color: Coloring, model: Coloring| color == model,
        ),
{
    let (next, color) = defaulted_color_at(input, 0);
    Parsed::Done(rest_from(input, next), color)
}

/// Reads the kind of a connection.
pub fn conn_type_spec<'a>(input: &'a [u8]) -> (parsed: Parsed<'a, ConnectionType>)
    ensures
        spec_done(
            parsed,
            input@,
            spec_conn_type_spec(input@, 0),
            |kind: ConnectionType, model: ConnectionType| kind == model,
        ),
{
    match conn_type_spec_at(input, 0) {
        Some((next, kind)) => Parsed::Done(rest_from(input, next), kind),
        None => Parsed::Error,
    }
}

/// Reads a connection: its kind if one is given, `connection`, the names
/// of its two blocks, and its colour if one is given.
pub fn connection_spec<'a>(input: &'a [u8]) -> (parsed: Parsed<'a, ConnectionSpec>)
    ensures
        spec_done(
            parsed,
            input@,
            spec_connection_spec(input@, 0),
            |conn: ConnectionSpec, model: ConnectionModel| connection_is(conn, model),
        ),
{
    match connection_spec_at(input, 0) {
        Some((next, conn)) => Parsed::Done(rest_from(input, next), conn),
        None => Parsed::Error,
    }
}

/// Reads a name: letters and digits.
pub fn ident_str<'a>(input: &'a [u8]) -> (parsed: Parsed<'a, String>)
    ensures
        spec_done(
            parsed,
            input@,
            spec_ident_str(input@, 0),
            |name: String, model: Seq<char>| name@ == model,
        ),
{
    match ident_str_at(input, 0) {
        Some((next, name)) => Parsed::Done(rest_from(input, next), name),
        None => Parsed::Error,
    }
}

/// Reads a record: a connection, or else a box.
pub fn data_spec<'a>(input: &'a [u8]) -> (parsed: Parsed<'a, DataSpec>)
    ensures
        spec_done(
            parsed,
            input@,
            spec_data_spec(input@, 0),
            |record: DataSpec, model: RecordModel| record_is(record, model),
        ),
{
    match data_spec_at(input, 0) {
        Some((next, record)) => Parsed::Done(rest_from(input, next), record),
        None => Parsed::Error,
    }
}

/// Reads what stands between two records: line ends, each after space or
/// none, at least one. What is read is the number of line ends.
pub fn eol_space_spec<'a>(input: &'a [u8]) -> (parsed: Parsed<'a, ()>)
    ensures
        match parsed {
            Parsed::Done(rest, _) => spec_eol_space_spec(input@, 0).is_some() && rest@
                == input@.subrange(spec_eol_space_spec(input@, 0).unwrap(), input@.len() as int),
            Parsed::Error => spec_eol_space_spec(input@, 0).is_none(),
        },
{
    match eol_space_spec_at(input, 0) {
        Some(next) => Parsed::Done(rest_from(input, next), ()),
        None => Parsed::Error,
    }
}

/// Reads a description: as many records as the text begins with, each but
/// the first after a separator. What follows the last record is left over,
/// and comes back with the records; a text that begins with no record is
/// left over whole.
pub fn full_graph_spec<'a>(input: &'a [u8]) -> (parsed: (&'a [u8], Vec<DataSpec>))
    ensures
        0 <= spec_full_graph_spec(input@).0 <= input@.len(),
        parsed.0@ == input@.subrange(spec_full_graph_spec(input@).0, input@.len() as int),
        records_are(parsed.1@, spec_full_graph_spec(input@).1),
{
    let mut records: Vec<DataSpec> = Vec::new();
    let mut end: usize = 0;
    match data_spec_at(input, 0) {
        Some((next, record)) => {
            records.push(record);
            end = next;
            let ghost mut models: Seq<RecordModel> = seq![spec_data_spec(input@, 0).unwrap().1];
            loop
                invariant
                    end <= input@.len(),
                    records_are(records@, models),
                    spec_full_graph_spec(input@) == spec_more_records(input@, end as int, models),
                ensures
                    end <= input@.len(),
                    records_are(records@, spec_full_graph_spec(input@).1),
                    spec_full_graph_spec(input@).0 == end,
                decreases input@.len() - end,
            {
                let after = match eol_space_spec_at(input, end) {
                    Some(next) => next,
                    None => {
                        break ;
                    },
                };
                match data_spec_at(input, after) {
                    Some((next, record)) => {
                        proof {
                            models = models.push(spec_data_spec(input@, after as int).unwrap().1);
                        }
                        records.push(record);
                        end = next;
                    },
                    None => {
                        break ;
                    },
                }
            }
        },
        None => {},
    }
    (rest_from(input, end), records)
}

} // verus!
