//! The rope that stores a buffer's text: what is taken as given of the `ropey` crate.

use crate::lines::{joined, line_chars, line_count, line_of, line_start, spliced, without};
use ropey::Rope;
use vstd::prelude::*;

verus! {

/// The rope of the `ropey` crate that holds a text.
#[verifier::external_type_specification]
#[verifier::external_body]
pub struct ExRope(ropey::Rope);

/// The characters that a rope holds, first to last.
pub uninterp spec fn rope_chars(rope: ropey::Rope) -> Seq<char>;

/// The pieces in which a rope stores its characters, first to last.
pub uninterp spec fn rope_chunks(rope: ropey::Rope) -> Seq<Seq<char>>;

/// `ropey::Rope::default`: a rope that holds no characters.
#[verifier::external_body]
pub(crate) fn empty_rope() -> (rope: Rope)
    ensures
        rope_chars(rope) == Seq::<char>::empty(),
{
    Rope::default()
}

/// `ropey::Rope::clone`: a rope that shares the stored text of the first, so it holds the same
/// characters in the same pieces.
pub assume_specification[ <ropey::Rope as Clone>::clone ](rope: &Rope) -> (copy: Rope)
    ensures
        rope_chars(copy) == rope_chars(*rope),
        rope_chunks(copy) == rope_chunks(*rope),
;

/// `ropey::Rope::len_chars`: the number of characters in the rope.
pub assume_specification[ ropey::Rope::len_chars ](rope: &Rope) -> (n: usize)
    ensures
        n == rope_chars(*rope).len(),
;

/// `ropey::Rope::len_lines`: the number of lines of the rope's text.
pub assume_specification[ ropey::Rope::len_lines ](rope: &Rope) -> (n: usize)
    ensures
        n == line_count(rope_chars(*rope)),
;

/// `ropey::Rope::char_to_line`: the line that the character at an index lies on, the last line
/// for the index behind the last character. An index past that would panic.
pub assume_specification[ ropey::Rope::char_to_line ](rope: &Rope, char_idx: usize) -> (line: usize)
    requires
        char_idx <= rope_chars(*rope).len(),
    ensures
        line == line_of(rope_chars(*rope), char_idx as int),
;

/// `ropey::Rope::line_to_char`: the index of the first character of a line, the end of the text
/// for the line behind the last one. A line past that would panic.
pub assume_specification[ ropey::Rope::line_to_char ](rope: &Rope, line_idx: usize) -> (idx: usize)
    requires
        line_idx <= line_count(rope_chars(*rope)),
    ensures
        idx == line_start(rope_chars(*rope), line_idx as int),
;

/// `ropey::Rope::char`: the character at an index. An index at or past the end would panic.
pub assume_specification[ ropey::Rope::char ](rope: &Rope, char_idx: usize) -> (ch: char)
    requires
        char_idx < rope_chars(*rope).len(),
    ensures
        ch == rope_chars(*rope)[char_idx as int],
;

/// `ropey::Rope::insert_char`: puts one character before the character at an index. An index
/// past the end would panic.
pub assume_specification[ ropey::Rope::insert_char ](rope: &mut Rope, char_idx: usize, ch: char)
    requires
        char_idx <= rope_chars(*old(rope)).len(),
    ensures
        rope_chars(*final(rope)) == spliced(rope_chars(*old(rope)), char_idx as int, seq![ch]),
;

/// `ropey::Rope::insert`: puts a string before the character at an index. An index past the end
/// would panic.
pub assume_specification[ ropey::Rope::insert ](rope: &mut Rope, char_idx: usize, text: &str)
    requires
        char_idx <= rope_chars(*old(rope)).len(),
    ensures
        rope_chars(*final(rope)) == spliced(rope_chars(*old(rope)), char_idx as int, text@),
;

/// `ropey::Rope::remove`: takes out the characters of a range. A range that runs backwards or
/// past the end would panic.
#[verifier::external_body]
pub(crate) fn remove(rope: &mut Rope, start: usize, end: usize)
    requires
        start <= end <= rope_chars(*old(rope)).len(),
    ensures
        rope_chars(*final(rope)) == without(rope_chars(*old(rope)), start as int, end as int),
{
    rope.remove(start..end)
}

/// `ropey::Rope::slice`, made a rope of its own: the characters of a range. A range that runs
/// backwards or past the end would panic.
#[verifier::external_body]
pub(crate) fn slice(rope: &Rope, start: usize, end: usize) -> (part: Rope)
    requires
        start <= end <= rope_chars(*rope).len(),
    ensures
        rope_chars(part) == rope_chars(*rope).subrange(start as int, end as int),
{
    rope.slice(start..end).into()
}

/// `ropey::Rope::line`: the characters of a line, with the line break that ends it. A line past
/// the last one would panic.
#[verifier::external_body]
pub(crate) fn line_text(rope: &Rope, line_idx: usize) -> (chars: Vec<char>)
    requires
        line_idx < line_count(rope_chars(*rope)),
    ensures
        chars@ == line_chars(rope_chars(*rope), line_idx as int),
{
    rope.line(line_idx).chars().collect()
}

/// `ropey::Rope::chunks`: the pieces in which the rope stores its text. In order they make up
/// the whole text; nothing is promised of where one piece ends and the next begins.
#[verifier::external_body]
pub(crate) fn chunks(rope: &Rope) -> (pieces: Vec<String>)
    ensures
        pieces@.map_values(|piece: String| piece@) == rope_chunks(*rope),
        joined(pieces@.map_values(|piece: String| piece@)) == rope_chars(*rope),
{
    rope.chunks().map(String::from).collect()
}

} // verus!
