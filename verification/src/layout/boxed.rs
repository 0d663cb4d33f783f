//! Sizing of a text box under a width limit.
//!
//! Text that fits the limit stays on one line. Longer text is wrapped
//! greedily at spaces and the box grows downwards only.

use vstd::prelude::*;
use vstd::utf8::encode_utf8;
use crate::data::{spec_texts, spec_views, Coloring};
use crate::layout::constraint::BlockConstraint;
use crate::layout::display::{BlockDisplay, Position, Size};

verus! {

/// The length of a text in bytes of its UTF-8 encoding.
pub open spec fn spec_text_len(text: Seq<char>) -> nat {
    encode_utf8(text).len()
}

/// The pieces of a text between its spaces. A text without spaces is one
/// piece; two spaces in a row enclose an empty piece.
pub open spec fn spec_split_words(text: Seq<char>) -> Seq<Seq<char>>
    decreases text.len(),
{
    if text.len() == 0 {
        seq![Seq::<char>::empty()]
    } else {
        let before = spec_split_words(text.drop_last());
        if text.last() == ' ' {
            before.push(Seq::<char>::empty())
        } else {
            before.update(before.len() - 1, before.last().push(text.last()))
        }
    }
}

/// Wrapping in progress: the lines closed so far, the line being filled and
/// the length of the longest closed line.
pub struct Wrapped {
    pub lines: Seq<Seq<char>>,
    pub current: Seq<char>,
    pub widest: nat,
}

/// Closes the line being filled.
pub open spec fn spec_close_line(state: Wrapped) -> Wrapped {
    Wrapped {
        lines: state.lines.push(state.current),
        current: Seq::<char>::empty(),
        widest: if spec_text_len(state.current) > state.widest {
            spec_text_len(state.current)
        } else {
            state.widest
        },
    }
}

/// Adds one word: the line being filled is closed first if the word, a
/// space before it and the border would not fit the limit with it.
pub open spec fn spec_wrap_word(state: Wrapped, word: Seq<char>, limit: u32) -> Wrapped {
    let opened = if spec_text_len(state.current) + spec_text_len(word) + 5 > limit {
        spec_close_line(state)
    } else {
        state
    };
    Wrapped {
        lines: opened.lines,
        current: if opened.current.len() > 0 {
            opened.current.push(' ') + word
        } else {
            word
        },
        widest: opened.widest,
    }
}

/// Adds the words one after the other, starting from nothing.
pub open spec fn spec_wrap_words(words: Seq<Seq<char>>, limit: u32) -> Wrapped
    decreases words.len(),
{
    if words.len() == 0 {
        Wrapped { lines: Seq::empty(), current: Seq::<char>::empty(), widest: 0 }
    } else {
        spec_wrap_word(spec_wrap_words(words.drop_last(), limit), words.last(), limit)
    }
}

/// The wrapped text: every word added, and a last line closed if it holds anything.
pub open spec fn spec_wrap_text(text: Seq<char>, limit: u32) -> Wrapped {
    let filled = spec_wrap_words(spec_split_words(text), limit);
    if filled.current.len() > 0 {
        spec_close_line(filled)
    } else {
        filled
    }
}

/// Whether the text with its border and padding stays within the limit.
pub open spec fn spec_fits_one_line(text: Seq<char>, limit: u32) -> bool {
    spec_text_len(text) + 4 <= limit
}

/// The text lines of the box for `text` under the width limit.
pub open spec fn spec_box_lines(text: Seq<char>, limit: u32) -> Seq<Seq<char>> {
    if spec_fits_one_line(text, limit) {
        seq![text]
    } else {
        spec_wrap_text(text, limit).lines
    }
}

/// The width of the box for `text` under the width limit: the longest line
/// plus border and padding.
pub open spec fn spec_box_width(text: Seq<char>, limit: u32) -> nat {
    if spec_fits_one_line(text, limit) {
        spec_text_len(text) + 4
    } else {
        spec_wrap_text(text, limit).widest + 4
    }
}

/// The height of the box for `text` under the width limit: the number of
/// lines plus the two border rows.
pub open spec fn spec_box_height(text: Seq<char>, limit: u32) -> nat {
    if spec_fits_one_line(text, limit) {
        3
    } else {
        spec_wrap_text(text, limit).lines.len() + 2
    }
}

/// The length of two texts in a row is the sum of their lengths.
pub proof fn lemma_text_len_adds(first: Seq<char>, second: Seq<char>)
    ensures
        spec_text_len(first + second) == spec_text_len(first) + spec_text_len(second),
    decreases first.len(),
{
    if first.len() == 0 {
        assert(first + second =~= second);
    } else {
        lemma_text_len_adds(first.drop_first(), second);
        assert((first + second).drop_first() =~= first.drop_first() + second);
    }
}

/// A character adds at least one to the length of a text, and a space
/// exactly one.
pub proof fn lemma_text_len_grows(text: Seq<char>, c: char)
    ensures
        spec_text_len(text.push(c)) >= spec_text_len(text) + 1,
        c == ' ' ==> spec_text_len(text.push(c)) == spec_text_len(text) + 1,
{
    lemma_text_len_adds(text, seq![c]);
    assert(text.push(c) =~= text + seq![c]);
    assert(seq![c].drop_first() =~= Seq::<char>::empty());
    reveal_with_fuel(encode_utf8, 2);
}

/// The lengths of words taken together, with one more for each word.
pub open spec fn spec_words_len(words: Seq<Seq<char>>) -> nat
    decreases words.len(),
{
    if words.len() == 0 {
        0
    } else {
        spec_words_len(words.drop_last()) + spec_text_len(words.last()) + 1
    }
}

/// The words of a text and the spaces between them make up its length.
pub proof fn lemma_split_keeps_length(text: Seq<char>)
    ensures
        spec_split_words(text).len() >= 1,
        spec_words_len(spec_split_words(text)) == spec_text_len(text) + 1,
    decreases text.len(),
{
    if text.len() == 0 {
        reveal_with_fuel(spec_words_len, 2);
        assert(seq![Seq::<char>::empty()].drop_last() =~= Seq::<Seq<char>>::empty());
    } else {
        let shorter = text.drop_last();
        let before = spec_split_words(shorter);
        lemma_split_keeps_length(shorter);
        lemma_text_len_grows(shorter, text.last());
        assert(shorter.push(text.last()) =~= text);
        if text.last() == ' ' {
            assert(before.push(Seq::<char>::empty()).drop_last() =~= before);
        } else {
            let grown = before.update(before.len() - 1, before.last().push(text.last()));
            lemma_text_len_adds(before.last(), seq![text.last()]);
            lemma_text_len_adds(shorter, seq![text.last()]);
            assert(before.last().push(text.last()) =~= before.last() + seq![text.last()]);
            assert(shorter.push(text.last()) =~= shorter + seq![text.last()]);
            assert(grown.drop_last() =~= before.drop_last());
        }
    }
}

/// There are no more words than their lengths, with one more for each, add up to.
pub proof fn lemma_words_len_counts(words: Seq<Seq<char>>)
    ensures
        spec_words_len(words) >= words.len(),
    decreases words.len(),
{
    if words.len() > 0 {
        lemma_words_len_counts(words.drop_last());
    }
}

/// While words are added, no line grows longer than the words and the
/// spaces between them, and no more lines are closed than words were added.
pub proof fn lemma_wrap_stays_within(words: Seq<Seq<char>>, limit: u32)
    ensures
        spec_text_len(spec_wrap_words(words, limit).current) + 1 <= spec_words_len(words) || (
        spec_words_len(words) == 0 && spec_wrap_words(words, limit).current.len() == 0),
        spec_wrap_words(words, limit).widest + 1 <= spec_words_len(words) || spec_wrap_words(
            words,
            limit,
        ).widest == 0,
        spec_wrap_words(words, limit).lines.len() <= words.len(),
    decreases words.len(),
{
    if words.len() > 0 {
        let before = spec_wrap_words(words.drop_last(), limit);
        let word = words.last();
        lemma_wrap_stays_within(words.drop_last(), limit);
        lemma_text_len_adds(before.current.push(' '), word);
        lemma_text_len_grows(before.current, ' ');
        assert(spec_text_len(Seq::<char>::empty()) == 0);
    } else {
        assert(spec_text_len(Seq::<char>::empty()) == 0);
    }
}

/// The box of a text is at most four cells wider and four cells higher
/// than the text is long.
pub proof fn lemma_box_is_bounded(text: Seq<char>, limit: u32)
    ensures
        spec_box_width(text, limit) <= spec_text_len(text) + 4,
        spec_box_height(text, limit) <= spec_text_len(text) + 4,
{
    let words = spec_split_words(text);
    lemma_split_keeps_length(text);
    lemma_wrap_stays_within(words, limit);
    lemma_words_len_counts(words);
}

/// Splits a text at its spaces.
pub fn split_words<'a>(text: &'a str) -> (words: Vec<&'a str>)
    ensures
        spec_views(words@) == spec_split_words(text@),
{
    let total: usize = text.unicode_len();
    let mut words: Vec<&'a str> = Vec::new();
    let mut word_start: usize = 0;
    let mut at: usize = 0;
    proof {
        assert(text@.take(0) =~= Seq::<char>::empty());
        assert(text@.subrange(0, 0) =~= Seq::<char>::empty());
        assert(spec_views(words@).push(text@.subrange(0, 0)) =~= seq![Seq::<char>::empty()]);
    }
    while at < total
        invariant
            total == text@.len(),
            word_start <= at <= total,
            spec_split_words(text@.take(at as int)) == spec_views(words@).push(
                text@.subrange(word_start as int, at as int),
            ),
        decreases total - at,
    {
        let c = text.get_char(at);
        let ghost before = words@;
        proof {
            let upto = text@.take(at as int + 1);
            assert(upto.drop_last() =~= text@.take(at as int));
            assert(upto.last() == c);
        }
        if c == ' ' {
            let ghost old_start = word_start;
            words.push(text.substring_char(word_start, at));
            word_start = at + 1;
            proof {
                assert(text@.subrange(word_start as int, at as int + 1) =~= Seq::<char>::empty());
                assert(spec_views(words@) =~= spec_views(before).push(
                    text@.subrange(old_start as int, at as int),
                ));
            }
        } else {
            proof {
                assert(text@.subrange(word_start as int, at as int + 1) =~= text@.subrange(
                    word_start as int,
                    at as int,
                ).push(c));
            }
        }
        at = at + 1;
    }
    let ghost before = words@;
    words.push(text.substring_char(word_start, at));
    proof {
        assert(text@.take(at as int) =~= text@);
        assert(spec_views(words@) =~= spec_views(before).push(
            text@.subrange(word_start as int, at as int),
        ));
    }
    words
}

/// The length of a text in bytes.
pub fn text_len(text: &str) -> (length: usize)
    ensures
        length == spec_text_len(text@),
{
    text.as_bytes().len()
}

/// The box for a text that fits the limit on one line, if it does.
pub fn naive_single_line_display(color: Coloring, text: &str, constraint: &BlockConstraint) -> (display:
    Option<BlockDisplay>)
    ensures
        display.is_some() == spec_fits_one_line(text@, constraint.min_limited_width),
        display.is_some() ==> {
            let d = display.unwrap();
            &&& d.color == color
            &&& d.pos == (Position { x: 0, y: 0 })
            &&& d.lines() == seq![text@]
            &&& d.size.width == spec_text_len(text@) + 4
            &&& d.size.height == 3
        },
{
    let length: usize = text_len(text);
    if length as u128 + 4 <= constraint.min_limited_width as u128 {
        let mut lines: Vec<String> = Vec::new();
        lines.push(text.to_owned());
        let display = BlockDisplay {
            color: color,
            content_lines: lines,
            pos: Position { x: 0, y: 0 },
            size: Size { width: length as u32 + 4, height: 3 },
        };
        assert(display.lines() =~= seq![text@]);
        Some(display)
    } else {
        None
    }
}

/// Sizes the box for `text` and leaves it at the origin.
///
/// Text that fits `min_limited_width` with its border and padding makes a
/// box of one line. Other text is wrapped at its spaces: a word that would
/// push the current line over the limit starts a new line.
pub fn create_unpositioned_from_box_spec(color: Coloring, text: &str, constraint: &BlockConstraint) -> (display:
    BlockDisplay)
    requires
        spec_text_len(text@) + 4 <= u32::MAX,
    ensures
        display.color == color,
        display.pos == (Position { x: 0, y: 0 }),
        display.lines() == spec_box_lines(text@, constraint.min_limited_width),
        display.size.width == spec_box_width(text@, constraint.min_limited_width),
        display.size.height == spec_box_height(text@, constraint.min_limited_width),
{
    let limit: u32 = constraint.min_limited_width;
    proof {
        lemma_box_is_bounded(text@, limit);
    }
    if let Some(display) = naive_single_line_display(color, text, constraint) {
        return display;
    }
    let words = split_words(text);
    let mut lines: Vec<String> = Vec::new();
    let mut current_line = String::new();
    let mut widest_line: usize = 0;
    let mut at: usize = 0;
    let ghost all = spec_split_words(text@);
    proof {
        assert(all.take(0) =~= Seq::<Seq<char>>::empty());
        assert(spec_texts(lines@) =~= Seq::<Seq<char>>::empty());
    }
    while at < words.len()
        invariant
            at <= words.len(),
            spec_views(words@) == all,
            ({
                let state = spec_wrap_words(all.take(at as int), limit);
                &&& spec_texts(lines@) == state.lines
                &&& current_line@ == state.current
                &&& widest_line == state.widest
            }),
        decreases words.len() - at,
    {
        let word: &str = words[at];
        proof {
            assert(all.take(at as int + 1).drop_last() =~= all.take(at as int));
            assert(all.take(at as int + 1).last() == word@);
            reveal_strlit(" ");
            assert(" "@ =~= seq![' ']);
        }
        if text_len(current_line.as_str()) as u128 + text_len(word) as u128 + 5 > limit as u128 {
            let length: usize = text_len(current_line.as_str());
            if length > widest_line {
                widest_line = length;
            }
            let ghost before = lines@;
            lines.push(current_line);
            current_line = String::new();
            proof {
                assert(spec_texts(lines@) =~= spec_texts(before).push(
                    spec_wrap_words(all.take(at as int), limit).current,
                ));
            }
        }
        if !current_line.as_str().is_empty() {
            current_line.append(" ");
        }
        let ghost joined = current_line@;
        current_line.append(word);
        proof {
            assert(joined.len() == 0 ==> joined + word@ =~= word@);
        }
        at = at + 1;
    }
    proof {
        assert(all.take(at as int) =~= all);
    }
    if !current_line.as_str().is_empty() {
        let length: usize = text_len(current_line.as_str());
        if length > widest_line {
            widest_line = length;
        }
        let ghost before = lines@;
        let ghost last = current_line@;
        lines.push(current_line);
        proof {
            assert(spec_texts(lines@) =~= spec_texts(before).push(last));
        }
    }
    let height: usize = lines.len();
    let display = BlockDisplay {
        color: color,
        content_lines: lines,
        pos: Position { x: 0, y: 0 },
        size: Size { width: widest_line as u32 + 4, height: height as u32 + 2 },
    };
    display
}

} // verus!
