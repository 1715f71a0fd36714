//! The modes of the editor, and what the keys do in them.

use crate::buffer::{
    all_selected, extended, lines_extended, lines_selected, moved, selected_texts, texts_of,
    with_each, Buffer, BufferView,
};
use crate::coord::{backward, down, forward, index_of, next_word, previous_word, up, Coord};
use crate::edit::{
    backspaced, can_cut, deleted, inserted, past_start, pasted, pasted_texts, ranges_before_cursors,
    selected_ranges,
};
use crate::laws::{law_backspace_one, law_one_selection_can_be_deleted};
use crate::many::law_edits_keep_selections;
use crate::selection::{reversed, SelectionUnaligned};
use crate::state::State;
use crate::terminal::{decimal, number_text};
use vstd::prelude::*;

verus! {

/// What keys mean: commands, or text to type.
#[derive(Clone, Copy, PartialEq, Eq, Structural, Debug)]
pub enum Mode {
    /// Keys are commands. `num_prefix` says how often the next command is to be done.
    Normal { num_prefix: Option<usize> },
    /// Keys are typed into the text.
    Insert,
}

impl Default for Mode {
    fn default() -> (mode: Mode)
        ensures
            mode == (Mode::Normal { num_prefix: None }),
    {
        Mode::Normal { num_prefix: None }
    }
}

/// The name of a mode.
pub open spec fn mode_name(mode: Mode) -> Seq<char> {
    match mode {
        Mode::Normal { .. } => "normal"@,
        Mode::Insert => "insert"@,
    }
}

/// The number typed before a command, as text. It is empty where none was typed.
pub open spec fn prefix_text(mode: Mode) -> Seq<char> {
    match mode {
        Mode::Normal { num_prefix: Some(n) } => decimal(n as nat),
        _ => Seq::empty(),
    }
}

/// A key that was pressed.
#[derive(Clone, Copy, PartialEq, Eq, Structural, Debug)]
pub enum Key {
    Char(char),
    Backspace,
    Esc,
    /// A key that does nothing.
    Other,
}

/// How often a command is to be done: as often as the number before it says, else once.
pub open spec fn times(num_prefix: Option<usize>) -> int {
    match num_prefix {
        Some(n) => n as int,
        None => 1,
    }
}

/// The number that a digit stands for.
pub open spec fn digit_value(c: char) -> Option<int> {
    if '0' <= c && c <= '9' {
        Some(c as int - '0' as int)
    } else {
        None
    }
}

/// A number with a digit put behind it, or the largest one where that is too large.
pub open spec fn with_digit(num_prefix: Option<usize>, d: int) -> usize {
    let before = match num_prefix {
        Some(n) => n as int,
        None => 0,
    };
    if before * 10 + d > usize::MAX {
        usize::MAX
    } else {
        (before * 10 + d) as usize
    }
}

/// The mode after a key was pressed. Digits make up a number; any other key uses it up.
pub open spec fn next_mode(mode: Mode, key: Key) -> Mode {
    match (mode, key) {
        (Mode::Insert, Key::Esc) => Mode::Normal { num_prefix: None },
        (Mode::Insert, _) => Mode::Insert,
        (Mode::Normal { num_prefix }, Key::Char(c)) => match digit_value(c) {
            Some(d) => Mode::Normal { num_prefix: Some(with_digit(num_prefix, d)) },
            None => if c == 'i' {
                Mode::Insert
            } else {
                Mode::Normal { num_prefix: None }
            },
        },
        (Mode::Normal { .. }, _) => Mode::Normal { num_prefix: None },
    }
}

/// A buffer after a command was done `n` times, with `pieces` for it to paste.
pub open spec fn commanded(b: BufferView, pieces: Seq<Seq<char>>, c: char, n: int) -> BufferView {
    if c == 'h' {
        moved(b, |k: Coord| backward(b.text, k, n))
    } else if c == 'l' {
        moved(b, |k: Coord| forward(b.text, k, n))
    } else if c == 'j' {
        moved(b, |k: Coord| down(b.text, k, n))
    } else if c == 'k' {
        moved(b, |k: Coord| up(k, n))
    } else if c == 'H' {
        extended(b, |k: Coord| backward(b.text, k, n))
    } else if c == 'L' {
        extended(b, |k: Coord| forward(b.text, k, n))
    } else if c == 'J' {
        extended(b, |k: Coord| down(b.text, k, n))
    } else if c == 'K' {
        extended(b, |k: Coord| up(k, n))
    } else if c == 'w' {
        with_each(
            b,
            |s: SelectionUnaligned|
                SelectionUnaligned {
                    anchor: next_word(b.text, s.cursor).0,
                    cursor: next_word(b.text, s.cursor).1,
                },
        )
    } else if c == 'b' {
        with_each(
            b,
            |s: SelectionUnaligned|
                SelectionUnaligned {
                    anchor: previous_word(b.text, s.cursor).0,
                    cursor: previous_word(b.text, s.cursor).1,
                },
        )
    } else if c == 'x' {
        lines_selected(b)
    } else if c == 'X' {
        lines_extended(b)
    } else if c == '%' {
        all_selected(b)
    } else if c == '\'' {
        with_each(b, |s: SelectionUnaligned| reversed(s))
    } else if c == 'd' {
        deleted(b)
    } else if c == 'p' {
        pasted(b, pieces, false)
    } else if c == 'P' {
        pasted(b, pieces, true)
    } else {
        b
    }
}

/// A buffer after a key was pressed in a mode. There is nothing to take back where a cursor stands
/// at the start of the text.
pub open spec fn next_buffer(
    mode: Mode,
    b: BufferView,
    pieces: Seq<Seq<char>>,
    key: Key,
) -> BufferView {
    match (mode, key) {
        (Mode::Normal { num_prefix }, Key::Char(c)) => commanded(b, pieces, c, times(num_prefix)),
        (Mode::Insert, Key::Char(c)) => inserted(b, c),
        (Mode::Insert, Key::Backspace) => if past_start(b) {
            backspaced(b)
        } else {
            b
        },
        _ => b,
    }
}

/// Whether a key in a mode yanks what is selected.
pub open spec fn yanks(mode: Mode, key: Key) -> bool {
    mode is Normal && (key == Key::Char('d') || key == Key::Char('y'))
}

/// Whether what a key in a mode removes can be removed.
pub open spec fn allowed(mode: Mode, b: BufferView, key: Key) -> bool {
    &&& mode is Normal && key == Key::Char('d') ==> can_cut(
        b.text.len() as int,
        selected_ranges(b),
    )
    &&& mode is Insert && key is Backspace && past_start(b) ==> can_cut(
        b.text.len() as int,
        ranges_before_cursors(b),
    )
}

/// With one selection every key is allowed.
pub proof fn law_one_selection_allowed(mode: Mode, b: BufferView, key: Key)
    requires
        b.text.len() <= usize::MAX,
        b.selections.len() == 1,
    ensures
        allowed(mode, b, key),
{
    law_one_selection_can_be_deleted(b);
    if past_start(b) {
        assert(index_of(b.text, b.selections[0].cursor) > 0);
        law_backspace_one(b);
    }
}

/// No key adds a selection, and none but the one that selects all takes one away. The primary
/// selection stays the primary.
pub proof fn law_keys_keep_selections(
    mode: Mode,
    b: BufferView,
    pieces: Seq<Seq<char>>,
    key: Key,
)
    ensures
        ({
            let after = next_buffer(mode, b, pieces, key);
            &&& after.selections.len() == if mode is Normal && key == Key::Char('%') {
                1
            } else {
                b.selections.len()
            }
            &&& after.primary_sel_i == b.primary_sel_i
        }),
{
    if let Key::Char(c) = key {
        law_edits_keep_selections(b, c, pieces, c == 'P');
    } else {
        law_edits_keep_selections(b, ' ', pieces, false);
    }
}

impl Mode {
    /// The state after a key was pressed in this mode.
    pub fn handle(&self, state: State, key: Key) -> (after: State)
        requires
            state.wf(),
            allowed(*self, state.buffer@, key),
        ensures
            after.wf(),
            after.quit == (state.quit || (*self is Normal && key == Key::Char('q'))),
            after.mode == next_mode(*self, key),
            after.buffer@ == next_buffer(
                *self,
                state.buffer@,
                pasted_texts(state.yanked@),
                key,
            ),
            if yanks(*self, key) {
                texts_of(after.yanked@) == selected_texts(state.buffer@)
            } else {
                after.yanked@ == state.yanked@
            },
    {
        let mut state = state;
        proof {
            law_keys_keep_selections(*self, state.buffer@, pasted_texts(state.yanked@), key);
        }
        match self {
            Mode::Insert => match key {
                Key::Esc => {
                    state.mode = Mode::Normal { num_prefix: None };
                },
                Key::Char(c) => {
                    state.mode = Mode::Insert;
                    state.buffer.insert(c);
                },
                Key::Backspace => {
                    state.mode = Mode::Insert;
                    if is_past_start(&state.buffer) {
                        state.buffer.backspace();
                    }
                },
                Key::Other => {
                    state.mode = Mode::Insert;
                },
            },
            Mode::Normal { num_prefix } => {
                state.mode = Mode::Normal { num_prefix: None };
                if let Key::Char(c) = key {
                    if '0' <= c && c <= '9' {
                        state.mode = Mode::Normal {
                            num_prefix: Some(append_digit(*num_prefix, c as usize - '0' as usize)),
                        };
                    } else {
                        Self::command(&mut state, c, num_prefix.unwrap_or(1));
                    }
                }
            },
        }
        state
    }

    /// Does a command of the normal mode `n` times.
    fn command(state: &mut State, c: char, n: usize)
        requires
            c == 'd' ==> can_cut(
                old(state).buffer@.text.len() as int,
                selected_ranges(old(state).buffer@),
            ),
            c == '%' ==> old(state).wf(),
        ensures
            final(state).quit == (old(state).quit || c == 'q'),
            final(state).mode == if c == 'i' {
                Mode::Insert
            } else {
                old(state).mode
            },
            final(state).buffer@ == commanded(
                old(state).buffer@,
                pasted_texts(old(state).yanked@),
                c,
                n as int,
            ),
            if c == 'd' || c == 'y' {
                texts_of(final(state).yanked@) == selected_texts(old(state).buffer@)
            } else {
                final(state).yanked@ == old(state).yanked@
            },
    {
        match c {
            'h' => state.buffer.move_cursor_backward(n),
            'l' => state.buffer.move_cursor_forward(n),
            'j' => state.buffer.move_cursor_down(n),
            'k' => state.buffer.move_cursor_up(n),
            'H' => state.buffer.extend_cursor_backward(n),
            'L' => state.buffer.extend_cursor_forward(n),
            'J' => state.buffer.extend_cursor_down(n),
            'K' => state.buffer.extend_cursor_up(n),
            'w' => state.buffer.move_cursor_forward_word(),
            'b' => state.buffer.move_cursor_backward_word(),
            'x' => state.buffer.move_line(),
            'X' => state.buffer.extend_line(),
            '%' => state.buffer.select_all(),
            '\'' => state.buffer.reverse_selections(),
            'd' => {
                let yanked = state.buffer.delete();
                state.yanked = yanked;
            },
            'y' => {
                let yanked = state.buffer.yank();
                state.yanked = yanked;
            },
            'p' => state.buffer.paste(&state.yanked),
            'P' => state.buffer.paste_extend(&state.yanked),
            'i' => {
                state.mode = Mode::Insert;
            },
            'q' => {
                state.quit = true;
            },
            _ => {},
        }
    }

    /// The name of the mode.
    pub fn name(&self) -> (name: &'static str)
        ensures
            name@ == mode_name(*self),
    {
        match self {
            Mode::Normal { .. } => "normal",
            Mode::Insert => "insert",
        }
    }

    /// The number typed before a command, as text.
    pub fn num_prefix_str(&self) -> (text: String)
        ensures
            text@ == prefix_text(*self),
    {
        match self {
            Mode::Normal { num_prefix: Some(n) } => number_text(*n),
            _ => String::new(),
        }
    }
}

/// A number with a digit put behind it, or the largest one where that is too large.
fn append_digit(num_prefix: Option<usize>, d: usize) -> (n: usize)
    requires
        d < 10,
    ensures
        n == with_digit(num_prefix, d as int),
{
    match num_prefix.unwrap_or(0).checked_mul(10) {
        Some(tens) => tens.saturating_add(d),
        None => usize::MAX,
    }
}

/// Whether there is a character before each cursor.
fn is_past_start(buffer: &Buffer) -> (r: bool)
    ensures
        r == past_start(buffer@),
{
    let mut i: usize = 0;
    while i < buffer.selections.len()
        invariant
            i <= buffer.selections.len(),
            forall|j: int|
                0 <= j < i ==> index_of(
                    buffer@.text,
                    (#[trigger] buffer@.selections[j]).cursor,
                ) > 0,
        decreases buffer.selections.len() - i,
    {
        if buffer.selections[i].cursor.to_idx(&buffer.text).0 == 0 {
            assert(index_of(buffer@.text, buffer@.selections[i as int].cursor) == 0);
            return false;
        }
        i = i + 1;
    }
    true
}

} // verus!
