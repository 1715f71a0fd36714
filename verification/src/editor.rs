//! The editor: its state and what it draws of it on the screen.

use crate::buffer::{fresh, selected, selected_texts, texts_of, Buffer, BufferView};
use crate::coord::{
    index_of, law_coord_round_trip, lemma_coord_of, lemma_last_column, trimmed, Coord,
};
use crate::edit::pasted_texts;
use crate::idx::Idx;
use crate::lines::{lemma_line_start, lemma_line_starts_ordered, line_chars, line_count, line_start};
use crate::mode::{allowed, mode_name, next_buffer, next_mode, prefix_text, yanks, Key, Mode};
use crate::rope::{line_text, rope_chars};
use crate::state::State;
use crate::terminal::{char_text, clear_all, goto, goto_code, show_cursor};
use crate::writer::{blank_writer, colored, uncolored, wrote, CachingAnsciWriter, WriterView};
use ropey::Rope;
use vstd::prelude::*;

verus! {

/// The editor instance: its state, and the part of the screen it has.
pub struct Breeze {
    pub state: State,
    pub display_cols: usize,
    pub display_rows: usize,
    pub prev_start_line: usize,
    pub window_margin: usize,
}

/// The smaller of two numbers.
pub open spec fn smaller(a: int, b: int) -> int {
    if a < b {
        a
    } else {
        b
    }
}

/// The last line that may be drawn first, for `margin` lines to stand above the cursor's.
pub open spec fn max_start(cursor_line: int, margin: int) -> int {
    if cursor_line < margin {
        0
    } else {
        cursor_line - margin
    }
}

/// The first line that may be drawn first, for `margin` lines to stand below the cursor's.
pub open spec fn min_start(cursor_line: int, margin: int, height: int) -> int {
    let wanted = smaller(cursor_line + margin, usize::MAX as int);
    if wanted < height {
        0
    } else {
        wanted - height
    }
}

/// The line that is wanted first: the previous one, moved as little as the cursor asks for.
pub open spec fn wanted_start(prev: int, cursor_line: int, margin: int, height: int) -> int {
    let first = min_start(cursor_line, margin, height);
    let kept = smaller(prev, max_start(cursor_line, margin));
    if kept < first {
        first
    } else {
        kept
    }
}

/// The line that is drawn first. Where the text fills the window no room is left behind its end.
pub open spec fn drawn_start(wanted: int, lines: int, height: int) -> int {
    if lines < height {
        wanted
    } else {
        smaller(wanted, lines - height)
    }
}

/// What is drawn for a character: a line feed is seen only where it is selected.
pub open spec fn drawn_char(ch: char, in_selection: bool) -> Option<char> {
    if ch != '\n' {
        Some(ch)
    } else if in_selection {
        Some('\u{b7}')
    } else {
        None
    }
}

/// A writer after a character was drawn, in the colours of a selection where it is selected.
pub open spec fn char_drawn(w: WriterView, ch: char, in_selection: bool) -> WriterView {
    match drawn_char(ch, in_selection) {
        Some(seen) => wrote(
            if in_selection {
                colored(w, 16, 4)
            } else {
                uncolored(w)
            },
            seq![seen],
        ),
        None => w,
    }
}

/// A writer after the first `n` characters from the index `from` on were drawn.
pub open spec fn chars_drawn(w: WriterView, b: BufferView, from: int, n: int) -> WriterView
    decreases n,
{
    if n <= 0 {
        w
    } else {
        char_drawn(
            chars_drawn(w, b, from, n - 1),
            b.text[from + n - 1],
            selected(b, from + n - 1),
        )
    }
}

/// A writer after a line was drawn on a row, as far as it fits in `cols` columns.
pub open spec fn line_drawn(
    w: WriterView,
    b: BufferView,
    line: int,
    row: int,
    cols: int,
) -> WriterView {
    chars_drawn(
        wrote(w, goto_code(1, row as u16)),
        b,
        line_start(b.text, line),
        smaller(line_chars(b.text, line).len() as int, cols),
    )
}

/// A writer after `n` lines were drawn from the line `start` on, one to a row.
pub open spec fn lines_drawn(
    w: WriterView,
    b: BufferView,
    start: int,
    n: int,
    cols: int,
) -> WriterView
    decreases n,
{
    if n <= 0 {
        w
    } else {
        line_drawn(lines_drawn(w, b, start, n - 1, cols), b, start + n - 1, n, cols)
    }
}

/// A writer after the status was drawn on a row.
pub open spec fn status_drawn(w: WriterView, mode: Mode, row: int) -> WriterView {
    let name = wrote(wrote(uncolored(w), goto_code(1, row as u16)), mode_name(mode));
    wrote(wrote(name, " "@), prefix_text(mode))
}

/// A writer after the cursor, with the shape of a bar, was put at a column and a row and shown.
pub open spec fn cursor_drawn(w: WriterView, column: int, row: int) -> WriterView {
    wrote(
        wrote(wrote(w, "\x1b[6 q"@), goto_code((column % 0x1_0000) as u16, row as u16)),
        "\x1b[?25h"@,
    )
}

/// What is drawn of a buffer and a mode on a screen, with the line `start` drawn first.
pub open spec fn frame(b: BufferView, mode: Mode, cols: int, rows: int, start: int) -> Seq<u8> {
    let cleared = wrote(blank_writer(), "\x1b[2J"@);
    let cursor = trimmed(b.text, b.selections[0].cursor);
    let shown = smaller(rows - 1, line_count(b.text) - start);
    let text = lines_drawn(cleared, b, start, shown, cols);
    cursor_drawn(
        status_drawn(text, mode, rows),
        cursor.column + 1,
        cursor.line - start + 1,
    ).bytes
}

/// The cursor's line is on the screen: it is among the lines drawn, unless the screen is too low
/// for a margin; then it may be the one behind them. On every screen of five rows or more a margin
/// of a fifth of the rows is kept above it, down to the start of the text, and below it, unless
/// the window ends where the text does.
pub proof fn law_cursor_in_window(prev: int, cursor_line: int, lines: int, rows: int)
    requires
        0 <= prev,
        0 <= cursor_line < lines <= usize::MAX,
        1 <= rows <= u16::MAX,
    ensures
        ({
            let margin = rows / 5;
            let height = rows - 1;
            let start = drawn_start(wanted_start(prev, cursor_line, margin, height), lines, height);
            &&& 0 <= start <= cursor_line <= start + height
            &&& rows >= 5 ==> cursor_line < start + height
            &&& start == 0 || start + margin <= cursor_line
            &&& cursor_line + margin <= start + height || lines <= start + height
        }),
{
}

/// The window is moved as little as the margins ask for: no other first line that keeps them is
/// nearer to the previous one.
pub proof fn law_scrolled_least(prev: int, cursor_line: int, rows: int, other: int)
    requires
        0 <= prev,
        0 <= cursor_line,
        1 <= rows <= u16::MAX,
        cursor_line + rows / 5 <= usize::MAX,
        0 <= other,
        other == 0 || other + rows / 5 <= cursor_line,
        cursor_line + rows / 5 <= other + (rows - 1),
    ensures
        ({
            let wanted = wanted_start(prev, cursor_line, rows / 5, rows - 1);
            &&& wanted == 0 || wanted + rows / 5 <= cursor_line
            &&& cursor_line + rows / 5 <= wanted + (rows - 1)
            &&& prev <= other ==> prev <= wanted <= other
            &&& other <= prev ==> other <= wanted <= prev
        }),
{
}

/// Where the text has enough lines to fill the window it does; the first line is then the wanted
/// one, or the last that leaves no room behind the text. Where it has not, the wanted line comes
/// first.
pub proof fn law_window_filled(wanted: int, lines: int, height: int)
    requires
        0 <= wanted,
        0 <= lines,
        0 <= height,
    ensures
        ({
            let start = drawn_start(wanted, lines, height);
            &&& 0 <= start <= wanted
            &&& lines < height ==> start == wanted
            &&& lines >= height ==> start + height <= lines
            &&& lines >= height && start < wanted ==> start + height == lines
        }),
{
}

/// Drawing again from where the window was left moves it no further.
pub proof fn law_scrolled_once(prev: int, cursor_line: int, rows: int)
    requires
        0 <= prev,
        0 <= cursor_line <= usize::MAX,
        1 <= rows <= u16::MAX,
    ensures
        ({
            let margin = rows / 5;
            let wanted = wanted_start(prev, cursor_line, margin, rows - 1);
            wanted_start(wanted, cursor_line, margin, rows - 1) == wanted
        }),
{
}

/// What happened at the terminal.
#[derive(Clone, Copy, PartialEq, Eq, Structural, Debug)]
pub enum Event {
    /// A key was pressed.
    Key(Key),
    /// Something not known of, such as a change of the terminal's size: here is its size now.
    Unsupported { cols: u16, rows: u16 },
    /// The mouse was used.
    Mouse,
}

/// What is to be done after an event.
#[derive(Clone, Copy, PartialEq, Eq, Structural, Debug)]
pub enum Action {
    /// Draw what the screen shows.
    Draw,
    /// Leave the editor.
    Quit,
}

impl Breeze {
    /// Whether there is a cursor to draw, the screen has a row for the status and is no larger than
    /// a terminal can be, and the margin is the one for the screen.
    pub open spec fn wf(&self) -> bool {
        &&& self.state.buffer@.selections.len() > 0
        &&& 1 <= self.display_rows <= u16::MAX
        &&& self.window_margin == self.display_rows / 5
    }

    /// The line that is wanted first on the screen.
    pub open spec fn wanted(&self) -> int {
        wanted_start(
            self.prev_start_line as int,
            trimmed(self.state.buffer@.text, self.state.buffer@.selections[0].cursor).line as int,
            self.window_margin as int,
            self.display_rows - 1,
        )
    }

    /// The line that is drawn first on the screen.
    pub open spec fn start(&self) -> int {
        drawn_start(
            self.wanted(),
            line_count(self.state.buffer@.text) as int,
            self.display_rows - 1,
        )
    }

    /// A new editor on a screen of the given size.
    pub fn init(cols: u16, rows: u16) -> (breeze: Breeze)
        ensures
            !breeze.state.quit,
            breeze.state.mode == (Mode::Normal { num_prefix: None }),
            breeze.state.buffer@ == fresh(Seq::empty()),
            breeze.state.yanked@ == Seq::<Rope>::empty(),
            breeze.display_cols == cols,
            breeze.display_rows == rows,
            breeze.prev_start_line == 0,
            breeze.window_margin == rows / 5,
            breeze.state.wf(),
            rows >= 1 ==> breeze.wf(),
    {
        let mut breeze = Breeze {
            state: State::default(),
            display_cols: 0,
            display_rows: 0,
            prev_start_line: 0,
            window_margin: 0,
        };
        breeze.fix_size(cols, rows);
        breeze
    }

    /// Takes over the size of the terminal.
    pub fn fix_size(&mut self, cols: u16, rows: u16)
        ensures
            *final(self) == (Breeze {
                display_cols: cols as usize,
                display_rows: rows as usize,
                window_margin: (rows / 5) as usize,
                ..*old(self)
            }),
            old(self).state.buffer@.selections.len() > 0 && rows >= 1 ==> final(self).wf(),
    {
        self.display_cols = cols as usize;
        self.display_rows = rows as usize;
        self.window_margin = self.display_rows / 5;
    }

    /// Opens a text in place of the one being edited.
    pub fn open(&mut self, text: Rope)
        ensures
            final(self).state.buffer.text == text,
            final(self).state.buffer@ == fresh(rope_chars(text)),
            *final(self) == (Breeze {
                state: (State { buffer: final(self).state.buffer, ..old(self).state }),
                ..*old(self)
            }),
            final(self).state.wf(),
            old(self).wf() ==> final(self).wf(),
    {
        self.state.buffer = Buffer::from_text(text);
    }

    /// Takes in an event, and says what is to be done after it.
    pub fn handle_event(&mut self, event: Event) -> (action: Action)
        requires
            old(self).state.wf(),
            event is Key ==> allowed(
                old(self).state.mode,
                old(self).state.buffer@,
                event->Key_0,
            ),
        ensures
            final(self).state.wf(),
            final(self).prev_start_line == old(self).prev_start_line,
            action == if final(self).state.quit {
                Action::Quit
            } else {
                Action::Draw
            },
            match event {
                Event::Key(key) => {
                    let before = old(self).state;
                    let after = final(self).state;
                    &&& after.quit == (before.quit || (before.mode is Normal && key == Key::Char(
                        'q',
                    )))
                    &&& after.mode == next_mode(before.mode, key)
                    &&& after.buffer@ == next_buffer(
                        before.mode,
                        before.buffer@,
                        pasted_texts(before.yanked@),
                        key,
                    )
                    &&& texts_of(after.yanked@) == if yanks(before.mode, key) {
                        selected_texts(before.buffer@)
                    } else {
                        texts_of(before.yanked@)
                    }
                    &&& !yanks(before.mode, key) ==> pasted_texts(after.yanked@) == pasted_texts(
                        before.yanked@,
                    )
                    &&& *final(self) == (Breeze { state: after, ..*old(self) })
                },
                Event::Unsupported { cols, rows } => *final(self) == (Breeze {
                    display_cols: cols as usize,
                    display_rows: rows as usize,
                    window_margin: (rows / 5) as usize,
                    ..*old(self)
                }),
                Event::Mouse => *final(self) == *old(self),
            },
    {
        match event {
            Event::Key(key) => {
                let mode = self.state.mode;
                self.state = mode.handle(self.state.clone(), key);
            },
            Event::Unsupported { cols, rows } => {
                self.fix_size(cols, rows);
            },
            Event::Mouse => {},
        }
        if self.state.quit {
            Action::Quit
        } else {
            Action::Draw
        }
    }

    /// Draws a character, in the colours of a selection where it is selected.
    fn draw_char(buf: &mut CachingAnsciWriter, ch: char, in_selection: bool)
        ensures
            final(buf)@ == char_drawn(old(buf)@, ch, in_selection),
    {
        let seen: Option<char> = if ch == '\n' {
            if in_selection {
                Some('\u{b7}')
            } else {
                None
            }
        } else {
            Some(ch)
        };
        if let Some(seen) = seen {
            if in_selection {
                buf.change_color(16, 4);
            } else {
                buf.reset_color();
            }
            buf.write_str(char_text(seen).as_str());
        }
    }

    /// Draws a line of the text on a row, as far as it fits in the columns of the screen, and
    /// returns how many characters the line has.
    fn draw_line(
        &self,
        buf: &mut CachingAnsciWriter,
        line_i: usize,
        ch_idx: usize,
        row: u16,
    ) -> (len: usize)
        requires
            line_i < line_count(self.state.buffer@.text),
            ch_idx == line_start(self.state.buffer@.text, line_i as int),
            0 < row,
        ensures
            len == line_chars(self.state.buffer@.text, line_i as int).len(),
            final(buf)@ == line_drawn(
                old(buf)@,
                self.state.buffer@,
                line_i as int,
                row as int,
                self.display_cols as int,
            ),
    {
        let ghost b = self.state.buffer@;
        let ghost before = wrote(buf@, goto_code(1, row));
        let _text_len = self.state.buffer.text.len_chars();
        let line = line_text(&self.state.buffer.text, line_i);
        proof {
            lemma_line_start(b.text, line_i as int);
            lemma_line_start(b.text, line_i + 1);
            if line_i + 1 < line_count(b.text) {
                lemma_line_starts_ordered(b.text, line_i as int);
            }
        }
        buf.write_str(goto(1, row).as_str());
        let mut char_i: usize = 0;
        while char_i < line.len() && char_i < self.display_cols
            invariant
                b == self.state.buffer@,
                line@ == line_chars(b.text, line_i as int),
                ch_idx == line_start(b.text, line_i as int),
                ch_idx + line.len() <= b.text.len() <= usize::MAX,
                0 <= ch_idx <= line_start(b.text, line_i + 1) <= b.text.len(),
                char_i <= line.len(),
                char_i <= self.display_cols,
                buf@ == chars_drawn(before, b, ch_idx as int, char_i as int),
            decreases line.len() - char_i,
        {
            let in_selection = self.state.buffer.is_idx_selected(Idx(ch_idx + char_i));
            assert(line[char_i as int] == b.text[ch_idx + char_i]);
            Self::draw_char(buf, line[char_i], in_selection);
            char_i = char_i + 1;
            assert(ch_idx + char_i - 1 == ch_idx + (char_i - 1));
        }
        line.len()
    }

    /// Draws lines of the text from the line `start_line` on, one to a row.
    fn draw_lines(&self, buf: &mut CachingAnsciWriter, start_line: usize, shown: usize)
        requires
            start_line + shown <= line_count(self.state.buffer@.text),
            start_line < line_count(self.state.buffer@.text),
            shown < u16::MAX,
        ensures
            final(buf)@ == lines_drawn(
                old(buf)@,
                self.state.buffer@,
                start_line as int,
                shown as int,
                self.display_cols as int,
            ),
    {
        let ghost b = self.state.buffer@;
        let ghost t = b.text;
        let ghost before = buf@;
        let len = self.state.buffer.text.len_chars();
        let lines = self.state.buffer.text.len_lines();
        let mut ch_idx: usize = (Coord { line: start_line, column: 0 }).to_idx(
            &self.state.buffer.text,
        ).0;
        proof {
            lemma_last_column(t, start_line as int);
        }
        let mut visual_line_i: usize = 0;
        while visual_line_i < shown
            invariant
                b == self.state.buffer@,
                t == b.text,
                len == t.len(),
                lines == line_count(t),
                start_line + shown <= lines,
                shown < u16::MAX,
                visual_line_i <= shown,
                ch_idx == line_start(t, start_line + visual_line_i),
                buf@ == lines_drawn(
                    before,
                    b,
                    start_line as int,
                    visual_line_i as int,
                    self.display_cols as int,
                ),
            decreases shown - visual_line_i,
        {
            let line_i = start_line + visual_line_i;
            proof {
                lemma_line_start(t, line_i as int);
                lemma_line_start(t, line_i + 1);
                if line_i + 1 < lines {
                    lemma_line_starts_ordered(t, line_i as int);
                }
            }
            let line_len = self.draw_line(buf, line_i, ch_idx, visual_line_i as u16 + 1);
            ch_idx = ch_idx + line_len;
            visual_line_i = visual_line_i + 1;
        }
    }

    /// Finds the line to draw first, and keeps in mind which one was wanted.
    fn scroll(&mut self, cursor_line: usize) -> (start_line: usize)
        requires
            old(self).wf(),
            cursor_line == trimmed(
                old(self).state.buffer@.text,
                old(self).state.buffer@.selections[0].cursor,
            ).line,
        ensures
            *final(self) == (Breeze { prev_start_line: old(self).wanted() as usize, ..*old(self) }),
            start_line == old(self).start(),
            start_line <= cursor_line < line_count(old(self).state.buffer@.text),
            cursor_line - start_line < old(self).display_rows,
    {
        let lines = self.state.buffer.text.len_lines();
        let _len = self.state.buffer.text.len_chars();
        proof {
            let b = self.state.buffer@;
            law_coord_round_trip(b.text, b.selections[0].cursor);
            lemma_coord_of(b.text, index_of(b.text, b.selections[0].cursor));
            law_cursor_in_window(
                self.prev_start_line as int,
                cursor_line as int,
                lines as int,
                self.display_rows as int,
            );
        }
        let window_height = self.display_rows - 1;
        let max_start_line = cursor_line.saturating_sub(self.window_margin);
        let min_start_line = cursor_line.saturating_add(self.window_margin).saturating_sub(
            window_height,
        );
        if max_start_line < self.prev_start_line {
            self.prev_start_line = max_start_line;
        }
        if self.prev_start_line < min_start_line {
            self.prev_start_line = min_start_line;
        }
        if lines < window_height || self.prev_start_line < lines - window_height {
            self.prev_start_line
        } else {
            lines - window_height
        }
    }

    /// Draws the status on the last row.
    fn draw_status(&self, buf: &mut CachingAnsciWriter)
        requires
            1 <= self.display_rows <= u16::MAX,
        ensures
            final(buf)@ == status_drawn(old(buf)@, self.state.mode, self.display_rows as int),
    {
        buf.reset_color();
        buf.write_str(goto(1, self.display_rows as u16).as_str());
        buf.write_str(self.state.mode.name());
        buf.write_str(" ");
        buf.write_str(self.state.mode.num_prefix_str().as_str());
    }

    /// Draws the cursor at a column, counted from zero, and a row, counted from one.
    fn draw_cursor(buf: &mut CachingAnsciWriter, column: usize, row: u16)
        requires
            0 < row,
        ensures
            final(buf)@ == cursor_drawn(old(buf)@, column + 1, row as int),
    {
        buf.write_str("\x1b[6 q");
        buf.write_str(goto(low_bits(column).wrapping_add(1), row).as_str());
        buf.write_str(show_cursor().as_str());
    }

    /// Draws what the screen shows of the state, as bytes to be sent to the terminal.
    pub fn draw_to_buf(&mut self) -> (out: Vec<u8>)
        requires
            old(self).wf(),
        ensures
            out@ == frame(
                old(self).state.buffer@,
                old(self).state.mode,
                old(self).display_cols as int,
                old(self).display_rows as int,
                old(self).start(),
            ),
            *final(self) == (Breeze { prev_start_line: old(self).wanted() as usize, ..*old(self) }),
            final(self).wf(),
    {
        let mut buf = CachingAnsciWriter::default();
        buf.reset_color();
        assert(buf@ =~= blank_writer());
        buf.write_str(clear_all().as_str());
        let window_height = self.display_rows - 1;
        let cursor_pos = self.state.buffer.cursor_pos();
        let start_line = self.scroll(cursor_pos.line);
        let lines = self.state.buffer.text.len_lines();
        let shown: usize = if window_height < lines - start_line {
            window_height
        } else {
            lines - start_line
        };
        self.draw_lines(&mut buf, start_line, shown);
        self.draw_status(&mut buf);
        Self::draw_cursor(&mut buf, cursor_pos.column, (cursor_pos.line - start_line) as u16 + 1);
        buf.into_vec()
    }
}

/// The low sixteen bits of a number.
fn low_bits(n: usize) -> (r: u16)
    ensures
        r == n % 0x1_0000,
{
    assert(#[verifier::truncate] (n as u16) == n % 0x1_0000) by (bit_vector);
    #[verifier::truncate]
    (n as u16)
}

} // verus!
