//! What the screen shows once a frame was sent to it.
//!
//! A frame is bytes. They are read here as the codes that a terminal understands, and the picture
//! is what a terminal makes of the codes: which characters stand where and in which colours, and
//! where the cursor is.

use crate::buffer::{selected, BufferView};
use crate::coord::{index_of, law_coord_round_trip, lemma_coord_of, trimmed};
use crate::editor::{
    char_drawn, chars_drawn, frame, law_cursor_in_window, lines_drawn, smaller, status_drawn,
    Breeze,
};
use crate::frames::lemma_encoded_apart;
use crate::lines::{
    ends_line, lemma_line_of_within, lemma_line_start, lemma_line_starts_ordered, line_chars,
    line_count, line_start,
};
use crate::mode::{mode_name, prefix_text, Mode};
use crate::terminal::{bg_code, fg_code, goto_code};
use crate::writer::{blank_writer, colored, uncolored, wrote, WriterView};
use vstd::prelude::*;
use vstd::utf8::encode_utf8;

verus! {

/// A code that a terminal understands, or a character that it shows.
pub enum Code {
    Clear,
    Goto { column: u16, row: u16 },
    Fg(u8),
    Bg(u8),
    PlainFg,
    PlainBg,
    Bar,
    Show,
    Put(char),
}

/// How a code is written.
pub open spec fn written(code: Code) -> Seq<char> {
    match code {
        Code::Clear => "\x1b[2J"@,
        Code::Goto { column, row } => goto_code(column, row),
        Code::Fg(color) => fg_code(color),
        Code::Bg(color) => bg_code(color),
        Code::PlainFg => "\x1b[39m"@,
        Code::PlainBg => "\x1b[49m"@,
        Code::Bar => "\x1b[6 q"@,
        Code::Show => "\x1b[?25h"@,
        Code::Put(ch) => seq![ch],
    }
}

/// How codes are sent, one behind the other.
pub open spec fn sent(codes: Seq<Code>) -> Seq<u8>
    decreases codes.len(),
{
    if codes.len() == 0 {
        Seq::empty()
    } else {
        sent(codes.drop_last()) + encode_utf8(written(codes.last()))
    }
}

/// A character on the screen, and its colours where it has some.
pub struct Cell {
    pub ch: char,
    pub fg: Option<u8>,
    pub bg: Option<u8>,
}

/// What a terminal shows, and the state it is in. Rows and columns count from one.
#[verifier::ext_equal]
pub struct Screen {
    pub cells: Map<(int, int), Cell>,
    pub row: int,
    pub column: int,
    pub fg: Option<u8>,
    pub bg: Option<u8>,
    pub bar: bool,
    pub shown: bool,
}

/// What a terminal makes of a code. A character is shown where the cursor is, in the colours in
/// effect, and the cursor goes one column on.
pub open spec fn obeyed(s: Screen, code: Code) -> Screen {
    match code {
        Code::Clear => Screen { cells: Map::empty(), ..s },
        Code::Goto { column, row } => Screen { column: column as int, row: row as int, ..s },
        Code::Fg(color) => Screen { fg: Some(color), ..s },
        Code::Bg(color) => Screen { bg: Some(color), ..s },
        Code::PlainFg => Screen { fg: None, ..s },
        Code::PlainBg => Screen { bg: None, ..s },
        Code::Bar => Screen { bar: true, ..s },
        Code::Show => Screen { shown: true, ..s },
        Code::Put(ch) => Screen {
            cells: s.cells.insert((s.row, s.column), Cell { ch, fg: s.fg, bg: s.bg }),
            column: s.column + 1,
            ..s
        },
    }
}

/// What a terminal makes of codes, in order.
pub open spec fn played(s: Screen, codes: Seq<Code>) -> Screen
    decreases codes.len(),
{
    if codes.len() == 0 {
        s
    } else {
        obeyed(played(s, codes.drop_last()), codes.last())
    }
}

/// What stands on a screen at a row and a column.
pub open spec fn at(s: Screen, row: int, column: int) -> Option<Cell> {
    if s.cells.dom().contains((row, column)) {
        Some(s.cells[(row, column)])
    } else {
        None
    }
}

/// How the character at the index `i` of the text is to be seen: in black on blue where it is
/// selected, and without colours where it is not. A line feed is seen only where it is selected, as
/// a middle dot.
pub open spec fn cell_of(b: BufferView, i: int) -> Option<Cell> {
    if selected(b, i) {
        Some(
            Cell {
                ch: if b.text[i] == '\n' {
                    '\u{b7}'
                } else {
                    b.text[i]
                },
                fg: Some(16),
                bg: Some(4),
            },
        )
    } else if b.text[i] == '\n' {
        None
    } else {
        Some(Cell { ch: b.text[i], fg: None, bg: None })
    }
}

/// Whether codes are what a writer has written, and leave a screen with the colours that it keeps
/// in mind.
pub open spec fn plays(s: Screen, codes: Seq<Code>, w: WriterView) -> bool {
    &&& sent(codes) == w.bytes
    &&& played(s, codes).fg == w.fg
    &&& played(s, codes).bg == w.bg
}

proof fn lemma_one_more(s: Screen, codes: Seq<Code>, code: Code)
    ensures
        sent(codes.push(code)) == sent(codes) + encode_utf8(written(code)),
        played(s, codes.push(code)) == obeyed(played(s, codes), code),
{
    assert(codes.push(code).drop_last() =~= codes);
}

/// Writing a code, and what a screen makes of it.
proof fn lemma_code_played(
    s: Screen,
    codes: Seq<Code>,
    w: WriterView,
    code: Code,
) -> (more: Seq<Code>)
    requires
        plays(s, codes, w),
        !(code is Fg || code is Bg || code is PlainFg || code is PlainBg),
    ensures
        plays(s, more, wrote(w, written(code))),
        played(s, more) == obeyed(played(s, codes), code),
{
    lemma_one_more(s, codes, code);
    codes.push(code)
}

/// Taking the colours back leaves a screen with none in effect, and changes nothing else of it.
pub proof fn law_uncolored_played(s: Screen, codes: Seq<Code>, w: WriterView) -> (more: Seq<Code>)
    requires
        plays(s, codes, w),
    ensures
        plays(s, more, uncolored(w)),
        played(s, more) == (Screen { fg: None, bg: None, ..played(s, codes) }),
{
    let first = if w.fg is Some {
        codes.push(Code::PlainFg)
    } else {
        codes
    };
    let second = if w.bg is Some {
        first.push(Code::PlainBg)
    } else {
        first
    };
    lemma_one_more(s, codes, Code::PlainFg);
    lemma_one_more(s, first, Code::PlainBg);
    assert(sent(second) =~= uncolored(w).bytes);
    second
}

/// Choosing colours leaves a screen with them in effect, and changes nothing else of it.
pub proof fn law_colored_played(
    s: Screen,
    codes: Seq<Code>,
    w: WriterView,
    fg: u8,
    bg: u8,
) -> (more: Seq<Code>)
    requires
        plays(s, codes, w),
    ensures
        plays(s, more, colored(w, fg, bg)),
        played(s, more) == (Screen { fg: Some(fg), bg: Some(bg), ..played(s, codes) }),
{
    let first = if w.fg != Some(fg) {
        codes.push(Code::Fg(fg))
    } else {
        codes
    };
    let second = if w.bg != Some(bg) {
        first.push(Code::Bg(bg))
    } else {
        first
    };
    lemma_one_more(s, codes, Code::Fg(fg));
    lemma_one_more(s, first, Code::Bg(bg));
    assert(sent(second) =~= colored(w, fg, bg).bytes);
    second
}

/// Drawing a character shows it as it is to be seen, or changes nothing.
proof fn lemma_char_played(
    s: Screen,
    codes: Seq<Code>,
    w: WriterView,
    b: BufferView,
    i: int,
) -> (more: Seq<Code>)
    requires
        plays(s, codes, w),
    ensures
        plays(s, more, char_drawn(w, b.text[i], selected(b, i))),
        ({
            let before = played(s, codes);
            let after = played(s, more);
            &&& after.row == before.row && after.bar == before.bar && after.shown == before.shown
            &&& cell_of(b, i) is None ==> after.cells == before.cells && after.column
                == before.column
            &&& cell_of(b, i) is Some ==> {
                &&& after.cells == before.cells.insert(
                    (before.row, before.column),
                    cell_of(b, i)->0,
                )
                &&& after.column == before.column + 1
            }
        }),
{
    let ch = b.text[i];
    let drawn = char_drawn(w, ch, selected(b, i));
    if selected(b, i) {
        let seen = if ch == '\n' {
            '\u{b7}'
        } else {
            ch
        };
        let first = law_colored_played(s, codes, w, 16, 4);
        assert(drawn == wrote(colored(w, 16, 4), written(Code::Put(seen))));
        lemma_code_played(s, first, colored(w, 16, 4), Code::Put(seen))
    } else if ch == '\n' {
        assert(drawn == w);
        codes
    } else {
        let first = law_uncolored_played(s, codes, w);
        assert(drawn == wrote(uncolored(w), written(Code::Put(ch))));
        lemma_code_played(s, first, uncolored(w), Code::Put(ch))
    }
}

/// Drawing characters of a line shows each in its column, as it is to be seen.
proof fn lemma_chars_played(
    s: Screen,
    codes: Seq<Code>,
    w: WriterView,
    b: BufferView,
    from: int,
    n: int,
) -> (more: Seq<Code>)
    requires
        plays(s, codes, w),
        played(s, codes).column == 1,
        0 <= n,
        forall|i: int| from <= i < from + n - 1 ==> #[trigger] b.text[i] != '\n',
    ensures
        plays(s, more, chars_drawn(w, b, from, n)),
        ({
            let before = played(s, codes);
            let after = played(s, more);
            &&& after.row == before.row && after.bar == before.bar && after.shown == before.shown
            &&& n > 0 && b.text[from + n - 1] == '\n' || after.column == n + 1
            &&& forall|row: int, column: int|
                #[trigger] at(after, row, column) == if row == before.row && 1 <= column <= n
                    && cell_of(b, from + column - 1) is Some {
                    cell_of(b, from + column - 1)
                } else {
                    at(before, row, column)
                }
        }),
    decreases n,
{
    if n == 0 {
        codes
    } else {
        let first = lemma_chars_played(s, codes, w, b, from, n - 1);
        if n > 1 {
            assert(b.text[from + n - 2] != '\n');
        }
        let all = lemma_char_played(s, first, chars_drawn(w, b, from, n - 1), b, from + n - 1);
        let before = played(s, codes);
        let mid = played(s, first);
        let after = played(s, all);
        assert(mid.column == n);
        assert forall|row: int, column: int|
            #[trigger] at(after, row, column) == if row == before.row && 1 <= column <= n
                && cell_of(b, from + column - 1) is Some {
                cell_of(b, from + column - 1)
            } else {
                at(before, row, column)
            } by {
            let earlier = at(mid, row, column);
            if row == before.row && column == n {
                assert(from + column - 1 == from + n - 1);
            }
        }
        all
    }
}

/// A line feed is nowhere but at the end of its line.
proof fn lemma_line_feed_last(t: Seq<char>, line: int, i: int)
    requires
        0 <= line < line_count(t),
        line_start(t, line) <= i < line_start(t, line + 1) - 1,
    ensures
        t[i] != '\n',
{
    lemma_line_start(t, line);
    lemma_line_start(t, line + 1);
    if t[i] == '\n' {
        assert(ends_line(t, i));
        lemma_line_of_within(t, line, i);
        lemma_line_of_within(t, line, i + 1);
    }
}

/// Drawing lines shows each on its row, as far as it fits, and nothing else.
proof fn lemma_lines_played(
    s: Screen,
    codes: Seq<Code>,
    w: WriterView,
    b: BufferView,
    start: int,
    n: int,
    cols: int,
) -> (more: Seq<Code>)
    requires
        plays(s, codes, w),
        0 <= start,
        0 <= n <= u16::MAX,
        start + n <= line_count(b.text),
        0 <= cols,
    ensures
        plays(s, more, lines_drawn(w, b, start, n, cols)),
        ({
            let before = played(s, codes);
            let after = played(s, more);
            &&& after.bar == before.bar && after.shown == before.shown
            &&& forall|row: int, column: int|
                #[trigger] at(after, row, column) == if 1 <= row <= n && on_line(
                    b,
                    start + row - 1,
                    column,
                    cols,
                ) && cell_of(b, line_start(b.text, start + row - 1) + column - 1) is Some {
                    cell_of(b, line_start(b.text, start + row - 1) + column - 1)
                } else {
                    at(before, row, column)
                }
        }),
    decreases n,
{
    if n == 0 {
        codes
    } else {
        let first = lemma_lines_played(s, codes, w, b, start, n - 1, cols);
        let t = b.text;
        let line = start + n - 1;
        let from = line_start(t, line);
        let len = line_chars(t, line).len() as int;
        let count = smaller(len, cols);
        let before = lines_drawn(w, b, start, n - 1, cols);
        lemma_line_start(t, line);
        lemma_line_start(t, line + 1);
        if line + 1 < line_count(t) {
            lemma_line_starts_ordered(t, line);
        }
        assert(len == line_start(t, line + 1) - from);
        assert forall|i: int| from <= i < from + count - 1 implies #[trigger] t[i] != '\n' by {
            lemma_line_feed_last(t, line, i);
        }
        let goto = Code::Goto { column: 1, row: n as u16 };
        let placed = lemma_code_played(s, first, before, goto);
        let all = lemma_chars_played(
            s,
            placed,
            wrote(before, goto_code(1, n as u16)),
            b,
            from,
            count,
        );
        let after = played(s, all);
        assert forall|row: int, column: int|
            #[trigger] at(after, row, column) == if 1 <= row <= n && on_line(
                b,
                start + row - 1,
                column,
                cols,
            ) && cell_of(b, line_start(t, start + row - 1) + column - 1) is Some {
                cell_of(b, line_start(t, start + row - 1) + column - 1)
            } else {
                at(played(s, codes), row, column)
            } by {
            let moved = at(played(s, placed), row, column);
            let earlier = at(played(s, first), row, column);
            assert(moved == earlier);
            if row == n {
                assert(start + row - 1 == line);
            }
        }
        all
    }
}

/// Whether a line has a character for a column of a screen with `cols` columns.
pub open spec fn on_line(b: BufferView, line: int, column: int, cols: int) -> bool {
    &&& 1 <= column <= cols
    &&& line_start(b.text, line) + column - 1 < line_start(b.text, line + 1)
}

/// Writing a text shows its characters in order from the cursor on.
proof fn lemma_text_played(
    s: Screen,
    codes: Seq<Code>,
    w: WriterView,
    text: Seq<char>,
) -> (more: Seq<Code>)
    requires
        plays(s, codes, w),
    ensures
        plays(s, more, wrote(w, text)),
        ({
            let before = played(s, codes);
            let after = played(s, more);
            &&& after.row == before.row && after.bar == before.bar && after.shown == before.shown
            &&& after.column == before.column + text.len()
            &&& forall|row: int, column: int|
                #[trigger] at(after, row, column) == if row == before.row && before.column <= column
                    < before.column + text.len() {
                    Some(Cell { ch: text[column - before.column], fg: w.fg, bg: w.bg })
                } else {
                    at(before, row, column)
                }
        }),
    decreases text.len(),
{
    if text.len() == 0 {
        assert(w.bytes + encode_utf8(text) =~= w.bytes);
        codes
    } else {
        let last = text[text.len() - 1];
        let put = Code::Put(last);
        let first = lemma_text_played(s, codes, w, text.drop_last());
        lemma_encoded_apart(text.drop_last(), seq![last]);
        assert(text =~= text.drop_last() + seq![last]);
        let short = wrote(w, text.drop_last());
        assert(wrote(short, written(put)) =~= wrote(w, text));
        let all = lemma_code_played(s, first, short, put);
        assert(played(s, first).fg == w.fg && played(s, first).bg == w.bg);
        lemma_text_shown(played(s, codes), played(s, first), text, last, w.fg, w.bg);
        all
    }
}

/// Whether a screen shows a text in some colours from the cursor of the screen `before` on.
spec fn text_shown(
    before: Screen,
    after: Screen,
    text: Seq<char>,
    fg: Option<u8>,
    bg: Option<u8>,
) -> bool {
    &&& after.row == before.row
    &&& after.column == before.column + text.len()
    &&& forall|row: int, column: int|
        #[trigger] at(after, row, column) == if row == before.row && before.column <= column
            < before.column + text.len() {
            Some(Cell { ch: text[column - before.column], fg, bg })
        } else {
            at(before, row, column)
        }
}

proof fn lemma_text_shown(
    before: Screen,
    mid: Screen,
    text: Seq<char>,
    last: char,
    fg: Option<u8>,
    bg: Option<u8>,
)
    requires
        text.len() > 0,
        text[text.len() - 1] == last,
        text_shown(before, mid, text.drop_last(), fg, bg),
        mid.fg == fg,
        mid.bg == bg,
    ensures
        text_shown(before, obeyed(mid, Code::Put(last)), text, fg, bg),
{
    let after = obeyed(mid, Code::Put(last));
    assert forall|row: int, column: int|
        #[trigger] at(after, row, column) == if row == before.row && before.column <= column
            < before.column + text.len() {
            Some(Cell { ch: text[column - before.column], fg, bg })
        } else {
            at(before, row, column)
        } by {
        assert(at(mid, row, column) == if row == before.row && before.column <= column
            < before.column + text.len() - 1 {
            Some(Cell { ch: text.drop_last()[column - before.column], fg, bg })
        } else {
            at(before, row, column)
        });
        if row == before.row && before.column <= column < before.column + text.len() - 1 {
            assert(text.drop_last()[column - before.column] == text[column - before.column]);
        }
        if (row, column) == (mid.row, mid.column) {
            assert(after.cells[(row, column)].ch == text[column - before.column]);
        } else {
            assert(at(after, row, column) == at(mid, row, column));
        }
    }
}

/// The text of the status: the name of the mode, a space, and the number typed before a command.
pub open spec fn status_text(mode: Mode) -> Seq<char> {
    mode_name(mode) + " "@ + prefix_text(mode)
}

/// Whether a screen shows a buffer and a mode as it should, with the line `start` on its first row:
/// each character of the lines that fit in its row and column, in the colours of a selection where
/// it is selected and in none where it is not; the status on the last row; nothing anywhere else;
/// and the cursor, in the shape of a bar, where the first selection's cursor is.
pub open spec fn shows(
    s: Screen,
    b: BufferView,
    mode: Mode,
    cols: int,
    rows: int,
    start: int,
) -> bool {
    let cursor = trimmed(b.text, b.selections[0].cursor);
    &&& forall|row: int, column: int|
        #[trigger] at(s, row, column) == if 1 <= row < rows && start + row - 1 < line_count(b.text)
            && on_line(b, start + row - 1, column, cols) {
            cell_of(b, line_start(b.text, start + row - 1) + column - 1)
        } else if row == rows && 1 <= column <= status_text(mode).len() {
            Some(Cell { ch: status_text(mode)[column - 1], fg: None, bg: None })
        } else {
            None
        }
    &&& s.row == cursor.line - start + 1
    &&& s.column == (cursor.column + 1) % 0x1_0000
    &&& s.bar
    &&& s.shown
    &&& s.fg is None
    &&& s.bg is None
}

/// Every frame shows what it should on any screen that has no colours in effect, whatever stood on
/// it, and leaves none in effect.
pub proof fn law_frame_picture(
    b: BufferView,
    mode: Mode,
    cols: int,
    rows: int,
    start: int,
    screen: Screen,
) -> (codes: Seq<Code>)
    requires
        b.text.len() <= usize::MAX,
        b.selections.len() > 0,
        0 <= cols,
        1 <= rows <= u16::MAX,
        ({
            let line = trimmed(b.text, b.selections[0].cursor).line;
            0 <= start <= line < start + rows
        }),
        screen.fg is None,
        screen.bg is None,
    ensures
        sent(codes) == frame(b, mode, cols, rows, start),
        shows(played(screen, codes), b, mode, cols, rows, start),
{
    let t = b.text;
    let cursor = trimmed(t, b.selections[0].cursor);
    law_coord_round_trip(t, b.selections[0].cursor);
    lemma_coord_of(t, index_of(t, b.selections[0].cursor));
    let shown = smaller(rows - 1, line_count(t) - start);
    let none = Seq::<Code>::empty();
    let w1 = wrote(blank_writer(), "\x1b[2J"@);
    let c1 = lemma_code_played(screen, none, blank_writer(), Code::Clear);
    let w2 = lines_drawn(w1, b, start, shown, cols);
    let c2 = lemma_lines_played(screen, c1, w1, b, start, shown, cols);
    let c3 = law_uncolored_played(screen, c2, w2);
    let goto = Code::Goto { column: 1, row: rows as u16 };
    let c4 = lemma_code_played(screen, c3, uncolored(w2), goto);
    let w4 = wrote(uncolored(w2), goto_code(1, rows as u16));
    let c5 = lemma_text_played(screen, c4, w4, mode_name(mode));
    let w5 = wrote(w4, mode_name(mode));
    let c6 = lemma_text_played(screen, c5, w5, " "@);
    let w6 = wrote(w5, " "@);
    let c7 = lemma_text_played(screen, c6, w6, prefix_text(mode));
    let w7 = wrote(w6, prefix_text(mode));
    assert(w7 == status_drawn(w2, mode, rows));
    let c8 = lemma_code_played(screen, c7, w7, Code::Bar);
    let w8 = wrote(w7, "\x1b[6 q"@);
    let place = Code::Goto {
        column: ((cursor.column + 1) % 0x1_0000) as u16,
        row: (cursor.line - start + 1) as u16,
    };
    let c9 = lemma_code_played(screen, c8, w8, place);
    let w9 = wrote(w8, written(place));
    let codes = lemma_code_played(screen, c9, w9, Code::Show);
    assert(sent(codes) =~= frame(b, mode, cols, rows, start));
    reveal_strlit(" ");
    let last = played(screen, codes);
    assert forall|row: int, column: int|
        #[trigger] at(last, row, column) == if 1 <= row < rows && start + row - 1 < line_count(t)
            && on_line(b, start + row - 1, column, cols) {
            cell_of(b, line_start(t, start + row - 1) + column - 1)
        } else if row == rows && 1 <= column <= status_text(mode).len() {
            Some(Cell { ch: status_text(mode)[column - 1], fg: None, bg: None })
        } else {
            None
        } by {
        assert(at(last, row, column) == at(played(screen, c7), row, column));
        let a7 = at(played(screen, c7), row, column);
        let a6 = at(played(screen, c6), row, column);
        let a5 = at(played(screen, c5), row, column);
        assert(at(played(screen, c4), row, column) == at(played(screen, c2), row, column));
        assert(at(played(screen, c1), row, column) is None);
    }
    codes
}

/// What the editor draws shows its text, its mode and its cursor as it should, from the line that
/// it draws first on.
pub proof fn law_drawn_picture(editor: Breeze, screen: Screen) -> (codes: Seq<Code>)
    requires
        editor.wf(),
        editor.state.buffer@.text.len() <= usize::MAX,
        line_count(editor.state.buffer@.text) <= usize::MAX,
        screen.fg is None,
        screen.bg is None,
    ensures
        sent(codes) == frame(
            editor.state.buffer@,
            editor.state.mode,
            editor.display_cols as int,
            editor.display_rows as int,
            editor.start(),
        ),
        shows(
            played(screen, codes),
            editor.state.buffer@,
            editor.state.mode,
            editor.display_cols as int,
            editor.display_rows as int,
            editor.start(),
        ),
{
    let b = editor.state.buffer@;
    let cursor = trimmed(b.text, b.selections[0].cursor);
    law_coord_round_trip(b.text, b.selections[0].cursor);
    lemma_coord_of(b.text, index_of(b.text, b.selections[0].cursor));
    law_cursor_in_window(
        editor.prev_start_line as int,
        cursor.line as int,
        line_count(b.text) as int,
        editor.display_rows as int,
    );
    law_frame_picture(
        b,
        editor.state.mode,
        editor.display_cols as int,
        editor.display_rows as int,
        editor.start(),
        screen,
    )
}

} // verus!
