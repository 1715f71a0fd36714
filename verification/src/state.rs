//! The state of the editor.

use crate::buffer::{fresh, texts_of, Buffer};
use crate::edit::pasted_texts;
use crate::mode::Mode;
use ropey::Rope;
use vstd::prelude::*;

verus! {

/// The editor state.
pub struct State {
    pub quit: bool,
    pub mode: Mode,
    pub buffer: Buffer,
    pub yanked: Vec<Rope>,
}

impl State {
    /// Whether the buffer has a selection, and its first one is the primary.
    pub open spec fn wf(&self) -> bool {
        &&& self.buffer@.selections.len() > 0
        &&& self.buffer@.primary_sel_i == 0
    }
}

impl Clone for State {
    fn clone(&self) -> (s: State)
        ensures
            s.quit == self.quit,
            s.mode == self.mode,
            s.buffer@ == self.buffer@,
            texts_of(s.yanked@) == texts_of(self.yanked@),
            pasted_texts(s.yanked@) == pasted_texts(self.yanked@),
    {
        let yanked = self.yanked.clone();
        assert(texts_of(yanked@) =~= texts_of(self.yanked@));
        assert(pasted_texts(yanked@) =~= pasted_texts(self.yanked@));
        State { quit: self.quit, mode: self.mode, buffer: self.buffer.clone(), yanked }
    }
}

impl Default for State {
    fn default() -> (s: State)
        ensures
            !s.quit,
            s.mode == (Mode::Normal { num_prefix: None }),
            s.buffer@ == fresh(Seq::empty()),
            s.yanked@ == Seq::<Rope>::empty(),
            s.wf(),
    {
        State {
            quit: false,
            mode: Mode::default(),
            buffer: Buffer::default(),
            yanked: Vec::new(),
        }
    }
}

} // verus!
