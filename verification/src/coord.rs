//! Positions in a text, as a line and a column, and the ways to move from one to another.

use crate::idx::Idx;
use crate::lines::{
    is_line_break, lemma_line_holds, lemma_line_of_bound, lemma_line_of_within, lemma_line_start,
    lemma_line_starts_ordered, line_count, line_of, line_start,
};
use crate::rope::rope_chars;
use ropey::Rope;
use vstd::prelude::*;

verus! {

/// A position in a text: a line, and a column on it, both counted from zero.
///
/// The column may lie past the end of its line. The position then stands for the end of the line,
/// and a move to a longer line finds the column again.
#[derive(Clone, Copy, PartialEq, Eq, Structural, Debug, Default, PartialOrd, Ord)]
pub struct Coord {
    pub line: usize,
    pub column: usize,
}

/// The last column on the line `line`: the one of the character that ends the line, or, on the
/// last line, the one behind its last character.
pub open spec fn last_column(t: Seq<char>, line: int) -> int {
    if line + 1 < line_count(t) {
        line_start(t, line + 1) - line_start(t, line) - 1
    } else {
        t.len() - line_start(t, line)
    }
}

/// The line and column of the index `i`. An index past the end counts as the end.
pub open spec fn coord_of(t: Seq<char>, i: int) -> Coord {
    let j = if i > t.len() {
        t.len() as int
    } else {
        i
    };
    let line = line_of(t, j) as int;
    Coord { line: line as usize, column: (j - line_start(t, line)) as usize }
}

/// A coordinate with its column brought back to the last one on its line. A line past the last
/// one counts as the end of the text.
pub open spec fn trimmed(t: Seq<char>, c: Coord) -> Coord {
    if c.line >= line_count(t) {
        coord_of(t, t.len() as int)
    } else if c.column > last_column(t, c.line as int) {
        Coord { line: c.line, column: last_column(t, c.line as int) as usize }
    } else {
        c
    }
}

/// The index that a coordinate stands for.
pub open spec fn index_of(t: Seq<char>, c: Coord) -> int {
    let d = trimmed(t, c);
    line_start(t, d.line as int) + d.column
}

/// The coordinate `n` characters further on, at most the end of the text.
pub open spec fn forward(t: Seq<char>, c: Coord, n: int) -> Coord {
    coord_of(t, index_of(t, c) + n)
}

/// The coordinate `n` characters further back, at least the start of the text.
pub open spec fn backward(t: Seq<char>, c: Coord, n: int) -> Coord {
    coord_of(
        t,
        if index_of(t, c) < n {
            0
        } else {
            index_of(t, c) - n
        },
    )
}

/// The same column `n` lines further down, at most on the last line.
pub open spec fn down(t: Seq<char>, c: Coord, n: int) -> Coord {
    Coord {
        line: if c.line + n < line_count(t) {
            (c.line + n) as usize
        } else {
            (line_count(t) - 1) as usize
        },
        column: c.column,
    }
}

/// The same column `n` lines further up, at least on the first line.
pub open spec fn up(c: Coord, n: int) -> Coord {
    Coord {
        line: if c.line < n {
            0
        } else {
            (c.line - n) as usize
        },
        column: c.column,
    }
}

/// Where the line of a coordinate is over: the start of the next line, or the end of the text.
pub open spec fn past_line_end(t: Seq<char>, c: Coord) -> Coord {
    coord_of(t, line_start(t, c.line + 1))
}

/// The first column of a coordinate's line.
pub open spec fn line_begin(c: Coord) -> Coord {
    Coord { line: c.line, column: 0 }
}

/// A character that separates words: a space, a tab or a line break.
pub open spec fn is_blank(c: char) -> bool {
    c == ' ' || c == '\t' || is_line_break(c)
}

/// The first index from `i` on at which no blank stands.
pub open spec fn blanks_end(t: Seq<char>, i: int) -> int
    decreases t.len() - i,
{
    if 0 <= i < t.len() && is_blank(t[i]) {
        blanks_end(t, i + 1)
    } else {
        i
    }
}

/// The first index from `i` on at which no word goes on.
pub open spec fn word_end(t: Seq<char>, i: int) -> int
    decreases t.len() - i,
{
    if 0 <= i < t.len() && !is_blank(t[i]) {
        word_end(t, i + 1)
    } else {
        i
    }
}

/// The last index up to `i` before which no blank stands.
pub open spec fn blanks_begin(t: Seq<char>, i: int) -> int
    decreases i,
{
    if 0 < i <= t.len() && is_blank(t[i - 1]) {
        blanks_begin(t, i - 1)
    } else {
        i
    }
}

/// The last index up to `i` before which no word goes on.
pub open spec fn word_begin(t: Seq<char>, i: int) -> int
    decreases i,
{
    if 0 < i <= t.len() && !is_blank(t[i - 1]) {
        word_begin(t, i - 1)
    } else {
        i
    }
}

/// The next word from a coordinate on: its start, then its end.
pub open spec fn next_word(t: Seq<char>, c: Coord) -> (Coord, Coord) {
    let start = blanks_end(t, index_of(t, c));
    (coord_of(t, start), coord_of(t, word_end(t, start)))
}

/// The word before a coordinate: its end, then its start.
pub open spec fn previous_word(t: Seq<char>, c: Coord) -> (Coord, Coord) {
    let end = blanks_begin(t, index_of(t, c));
    (coord_of(t, end), coord_of(t, word_begin(t, end)))
}

/// A line has a last column, and it lies inside the text.
pub proof fn lemma_last_column(t: Seq<char>, line: int)
    requires
        0 <= line < line_count(t),
    ensures
        0 <= last_column(t, line),
        0 <= line_start(t, line),
        line_start(t, line) + last_column(t, line) <= t.len(),
{
    lemma_line_start(t, line);
    lemma_line_start(t, line + 1);
    if line + 1 < line_count(t) {
        lemma_line_starts_ordered(t, line);
    }
}

/// An index becomes a coordinate on its line, within the columns of that line.
pub proof fn lemma_coord_of(t: Seq<char>, i: int)
    requires
        0 <= i <= t.len() <= usize::MAX,
    ensures
        coord_of(t, i).line == line_of(t, i),
        coord_of(t, i).line < line_count(t),
        line_start(t, coord_of(t, i).line as int) + coord_of(t, i).column == i,
        coord_of(t, i).column <= last_column(t, coord_of(t, i).line as int),
        trimmed(t, coord_of(t, i)) == coord_of(t, i),
{
    lemma_line_of_bound(t, i);
    lemma_line_holds(t, i);
    lemma_line_start(t, line_of(t, i) as int);
}

/// Going from an index to its coordinate and back changes nothing.
pub proof fn law_index_round_trip(t: Seq<char>, i: int)
    requires
        0 <= i <= t.len() <= usize::MAX,
    ensures
        index_of(t, coord_of(t, i)) == i,
{
    lemma_coord_of(t, i);
}

/// Going from a coordinate to its index and back trims the column and changes nothing else.
pub proof fn law_coord_round_trip(t: Seq<char>, c: Coord)
    requires
        t.len() <= usize::MAX,
    ensures
        coord_of(t, index_of(t, c)) == trimmed(t, c),
        0 <= index_of(t, c) <= t.len(),
{
    if c.line >= line_count(t) {
        law_index_round_trip(t, t.len() as int);
    } else {
        lemma_last_column(t, c.line as int);
        lemma_line_of_within(t, c.line as int, index_of(t, c));
    }
}

impl Coord {
    /// The coordinate with its column brought back to the last one on its line.
    pub fn trim_column_to_buf(self, text: &Rope) -> (coord: Coord)
        ensures
            coord == trimmed(rope_chars(*text), self),
    {
        let lines = text.len_lines();
        let len = text.len_chars();
        if self.line >= lines {
            return Idx(len).to_coord(text);
        }
        proof {
            lemma_last_column(rope_chars(*text), self.line as int);
        }
        let start = text.line_to_char(self.line);
        let last: usize = if self.line + 1 < lines {
            text.line_to_char(self.line + 1) - start - 1
        } else {
            len - start
        };
        if self.column > last {
            Coord { line: self.line, column: last }
        } else {
            self
        }
    }

    /// The index that the coordinate stands for.
    pub fn to_idx(self, text: &Rope) -> (idx: Idx)
        ensures
            idx.0 == index_of(rope_chars(*text), self),
            idx.0 <= rope_chars(*text).len(),
    {
        let _len = text.len_chars();
        let _lines = text.len_lines();
        let coord = self.trim_column_to_buf(text);
        proof {
            let t = rope_chars(*text);
            law_coord_round_trip(t, self);
            lemma_coord_of(t, t.len() as int);
            lemma_line_start(t, coord.line as int);
        }
        Idx(text.line_to_char(coord.line) + coord.column)
    }

    /// The coordinate `n` characters further on, at most the end of the text.
    pub fn forward(self, n: usize, text: &Rope) -> (coord: Coord)
        ensures
            coord == forward(rope_chars(*text), self, n as int),
    {
        let _len = text.len_chars();
        Idx(self.to_idx(text).0.saturating_add(n)).to_coord(text)
    }

    /// The coordinate `n` characters further back, at least the start of the text.
    pub fn backward(self, n: usize, text: &Rope) -> (coord: Coord)
        ensures
            coord == backward(rope_chars(*text), self, n as int),
    {
        Idx(self.to_idx(text).0.saturating_sub(n)).to_coord(text)
    }

    /// The same column `n` lines further down, at most on the last line.
    pub fn down_unaligned(self, n: usize, text: &Rope) -> (coord: Coord)
        ensures
            coord == down(rope_chars(*text), self, n as int),
    {
        let lines = text.len_lines();
        let line = self.line.saturating_add(n);
        Coord {
            line: if line < lines {
                line
            } else {
                lines - 1
            },
            column: self.column,
        }
    }

    /// The same column `n` lines further up, at least on the first line.
    pub fn up_unaligned(self, n: usize, _text: &Rope) -> (coord: Coord)
        ensures
            coord == up(self, n as int),
    {
        Coord { line: self.line.saturating_sub(n), column: self.column }
    }

    /// Where the coordinate's line is over: the start of the next line, or the end of the text.
    pub fn forward_past_line_end(self, text: &Rope) -> (coord: Coord)
        ensures
            coord == past_line_end(rope_chars(*text), self),
    {
        let lines = text.len_lines();
        let end: usize = if self.line < lines {
            text.line_to_char(self.line + 1)
        } else {
            text.len_chars()
        };
        Idx(end).to_coord(text)
    }

    /// The first column of the coordinate's line.
    pub fn backward_to_line_start(self, _text: &Rope) -> (coord: Coord)
        ensures
            coord == line_begin(self),
    {
        Coord { line: self.line, column: 0 }
    }

    /// The start and the end of the next word.
    pub fn forward_word(self, text: &Rope) -> (word: (Coord, Coord))
        ensures
            word == next_word(rope_chars(*text), self),
    {
        let ghost t = rope_chars(*text);
        let len = text.len_chars();
        let from = self.to_idx(text).0;
        let mut start: usize = from;
        while start < len && blank(text.char(start))
            invariant
                len == t.len(),
                t == rope_chars(*text),
                start <= len,
                blanks_end(t, start as int) == blanks_end(t, from as int),
            decreases len - start,
        {
            start = start + 1;
        }
        let mut end: usize = start;
        while end < len && !blank(text.char(end))
            invariant
                len == t.len(),
                t == rope_chars(*text),
                end <= len,
                word_end(t, end as int) == word_end(t, start as int),
            decreases len - end,
        {
            end = end + 1;
        }
        (Idx(start).to_coord(text), Idx(end).to_coord(text))
    }

    /// The end and the start of the previous word.
    pub fn backward_word(self, text: &Rope) -> (word: (Coord, Coord))
        ensures
            word == previous_word(rope_chars(*text), self),
    {
        let ghost t = rope_chars(*text);
        let from = self.to_idx(text).0;
        let mut end: usize = from;
        while end > 0 && blank(text.char(end - 1))
            invariant
                t == rope_chars(*text),
                end <= t.len(),
                blanks_begin(t, end as int) == blanks_begin(t, from as int),
            decreases end,
        {
            end = end - 1;
        }
        let mut start: usize = end;
        while start > 0 && !blank(text.char(start - 1))
            invariant
                t == rope_chars(*text),
                start <= t.len(),
                word_begin(t, start as int) == word_begin(t, end as int),
            decreases start,
        {
            start = start - 1;
        }
        (Idx(end).to_coord(text), Idx(start).to_coord(text))
    }
}

/// Whether a character separates words.
fn blank(c: char) -> (r: bool)
    ensures
        r == is_blank(c),
{
    matches!(
        c,
        ' ' | '\t' | '\u{a}' | '\u{b}' | '\u{c}' | '\u{d}' | '\u{85}' | '\u{2028}' | '\u{2029}'
    )
}

} // verus!
