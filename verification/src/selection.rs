//! Selections: a cursor, and the anchor that the selected text reaches to.

use crate::coord::{coord_of, index_of, Coord};
use crate::idx::Idx;
use crate::rope::rope_chars;
use ropey::Rope;
use std::ops::Range;
use vstd::prelude::*;

verus! {

/// A selection between two indices of a text.
#[derive(Clone, Copy, PartialEq, Eq, Structural, Debug, Default)]
pub struct Selection {
    pub anchor: Idx,
    pub cursor: Idx,
}

/// A selection between two coordinates, whose columns may lie past the ends of their lines.
#[derive(Clone, Copy, PartialEq, Eq, Structural, Debug)]
pub struct SelectionUnaligned {
    pub anchor: Coord,
    pub cursor: Coord,
}

/// The indices that a selection's coordinates stand for.
pub open spec fn aligned(t: Seq<char>, s: SelectionUnaligned) -> Selection {
    Selection {
        anchor: Idx(index_of(t, s.anchor) as usize),
        cursor: Idx(index_of(t, s.cursor) as usize),
    }
}

/// Whether the cursor stands behind the anchor; nothing where they stand in one place.
pub open spec fn direction(s: Selection) -> Option<bool> {
    if s.anchor.0 == s.cursor.0 {
        None
    } else {
        Some(s.anchor.0 < s.cursor.0)
    }
}

/// Whether a selection is to be taken as one that runs forward. One without a direction is.
pub open spec fn runs_forward(s: Selection) -> bool {
    s.anchor.0 <= s.cursor.0
}

/// The first index that a selection covers.
pub open spec fn range_start(s: Selection) -> int {
    if s.anchor.0 <= s.cursor.0 {
        s.anchor.0 as int
    } else {
        s.cursor.0 as int
    }
}

/// The index behind the last one that a selection covers.
pub open spec fn range_end(s: Selection) -> int {
    if s.anchor.0 <= s.cursor.0 {
        s.cursor.0 as int
    } else {
        s.anchor.0 as int
    }
}

/// Whether a selection covers the character at `i`.
pub open spec fn covers(s: Selection, i: int) -> bool {
    range_start(s) <= i < range_end(s)
}

/// A selection with cursor and anchor in each other's place.
pub open spec fn reversed(s: SelectionUnaligned) -> SelectionUnaligned {
    SelectionUnaligned { anchor: s.cursor, cursor: s.anchor }
}

/// A selection of nothing, at the cursor.
pub open spec fn collapsed(s: SelectionUnaligned) -> SelectionUnaligned {
    SelectionUnaligned { anchor: s.cursor, cursor: s.cursor }
}

/// Reversing a selection twice changes nothing.
pub proof fn law_reversed_twice(s: SelectionUnaligned)
    ensures
        reversed(reversed(s)) == s,
{
}

/// A reversed selection covers the same characters.
pub proof fn law_reversed_covers_the_same(t: Seq<char>, s: SelectionUnaligned, i: int)
    ensures
        covers(aligned(t, reversed(s)), i) == covers(aligned(t, s), i),
{
}

impl Selection {
    /// Whether the cursor stands behind the anchor; `None` where they stand in one place.
    pub fn is_forward(self) -> (r: Option<bool>)
        ensures
            r == direction(self),
    {
        if self.anchor.0 == self.cursor.0 {
            None
        } else {
            Some(self.anchor.0 < self.cursor.0)
        }
    }

    /// The indices that the selection covers.
    pub fn sorted_range_usize(self) -> (r: Range<usize>)
        ensures
            r.start == range_start(self),
            r.end == range_end(self),
    {
        if self.anchor.0 <= self.cursor.0 {
            Range { start: self.anchor.0, end: self.cursor.0 }
        } else {
            Range { start: self.cursor.0, end: self.anchor.0 }
        }
    }

    /// Whether the selection covers the character at `idx`.
    pub fn is_idx_inside(self, idx: Idx) -> (r: bool)
        ensures
            r == covers(self, idx.0 as int),
    {
        let range = self.sorted_range_usize();
        range.start <= idx.0 && idx.0 < range.end
    }
}

impl Default for SelectionUnaligned {
    /// A selection of nothing, at the start of the text.
    fn default() -> (s: SelectionUnaligned)
        ensures
            s.anchor == (Coord { line: 0, column: 0 }),
            s.cursor == (Coord { line: 0, column: 0 }),
    {
        let start = Coord { line: 0, column: 0 };
        SelectionUnaligned { anchor: start, cursor: start }
    }
}

impl SelectionUnaligned {
    /// The coordinates of a selection between indices.
    pub fn from_selection(selection: Selection, text: &Rope) -> (s: SelectionUnaligned)
        ensures
            s.anchor == coord_of(rope_chars(*text), selection.anchor.0 as int),
            s.cursor == coord_of(rope_chars(*text), selection.cursor.0 as int),
    {
        SelectionUnaligned {
            anchor: selection.anchor.to_coord(text),
            cursor: selection.cursor.to_coord(text),
        }
    }

    /// The indices that the coordinates stand for.
    pub fn align(self, text: &Rope) -> (s: Selection)
        ensures
            s == aligned(rope_chars(*text), self),
            s.anchor.0 == index_of(rope_chars(*text), self.anchor) <= rope_chars(*text).len(),
            s.cursor.0 == index_of(rope_chars(*text), self.cursor) <= rope_chars(*text).len(),
    {
        Selection { anchor: self.anchor.to_idx(text), cursor: self.cursor.to_idx(text) }
    }

    /// The selection with cursor and anchor in each other's place.
    pub fn reversed(self) -> (s: SelectionUnaligned)
        ensures
            s == reversed(self),
    {
        SelectionUnaligned { anchor: self.cursor, cursor: self.anchor }
    }

    /// A selection of nothing, at the cursor.
    pub fn collapsed(self) -> (s: SelectionUnaligned)
        ensures
            s == collapsed(self),
    {
        SelectionUnaligned { anchor: self.cursor, cursor: self.cursor }
    }
}

} // verus!
