//! Positions in a text, counted in characters.

use crate::coord::{coord_of, Coord};
use crate::lines::{lemma_line_holds, lemma_line_start};
use crate::rope::rope_chars;
use ropey::Rope;
use vstd::prelude::*;

verus! {

/// A position in a text: how many characters stand before it.
#[derive(Clone, Copy, PartialEq, Eq, Structural, Debug, Default, PartialOrd, Ord)]
pub struct Idx(pub usize);

impl Idx {
    /// The line and column of the position. A position past the end counts as the end.
    pub fn to_coord(self, text: &Rope) -> (coord: Coord)
        ensures
            coord == coord_of(rope_chars(*text), self.0 as int),
    {
        let len = text.len_chars();
        let idx: usize = if self.0 > len {
            len
        } else {
            self.0
        };
        let line = text.char_to_line(idx);
        proof {
            let t = rope_chars(*text);
            lemma_line_holds(t, idx as int);
            lemma_line_start(t, line as int);
        }
        let start = text.line_to_char(line);
        Coord { line, column: idx - start }
    }
}

} // verus!
