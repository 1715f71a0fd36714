//! What holds of the frames that the editor draws.

use crate::buffer::{selected, BufferView};
use crate::coord::trimmed;
use crate::editor::{
    chars_drawn, frame, law_scrolled_once, lines_drawn, smaller, status_drawn, Breeze,
};
use crate::lines::{line_chars, line_count, line_start};
use crate::mode::Mode;
use crate::terminal::goto_code;
use crate::writer::{blank_writer, colored, uncolored, wrote, WriterView};
use vstd::prelude::*;
use vstd::utf8::encode_utf8;

verus! {

/// Texts are encoded one behind the other.
pub proof fn lemma_encoded_apart(a: Seq<char>, b: Seq<char>)
    ensures
        encode_utf8(a + b) == encode_utf8(a) + encode_utf8(b),
    decreases a.len(),
{
    if a.len() == 0 {
        assert(a + b =~= b);
    } else {
        lemma_encoded_apart(a.drop_first(), b);
        assert((a + b).drop_first() =~= a.drop_first() + b);
        assert((a + b)[0] == a[0]);
    }
    assert(encode_utf8(a + b) =~= encode_utf8(a) + encode_utf8(b));
}

proof fn lemma_wrote_apart(w: WriterView, a: Seq<char>, b: Seq<char>)
    ensures
        wrote(wrote(w, a), b) == wrote(w, a + b),
{
    lemma_encoded_apart(a, b);
    assert(wrote(wrote(w, a), b) =~= wrote(w, a + b));
}

/// Text that is not selected is drawn as it is, without its line feeds and without colours.
pub proof fn law_plain_text_drawn(w: WriterView, b: BufferView, from: int, n: int)
    requires
        w.fg is None,
        w.bg is None,
        0 <= from,
        0 <= n,
        from + n <= b.text.len(),
        forall|i: int| from <= i < from + n ==> !#[trigger] selected(b, i),
    ensures
        chars_drawn(w, b, from, n) == wrote(
            w,
            b.text.subrange(from, from + n).filter(|c: char| c != '\n'),
        ),
    decreases n,
{
    let seen = |c: char| c != '\n';
    let text = b.text.subrange(from, from + n);
    reveal(Seq::filter);
    if n == 0 {
        assert(text.filter(seen) =~= Seq::empty());
        assert(w.bytes + encode_utf8(Seq::empty()) =~= w.bytes);
    } else {
        law_plain_text_drawn(w, b, from, n - 1);
        let before = b.text.subrange(from, from + n - 1);
        let last = b.text[from + n - 1];
        assert(text.drop_last() =~= before);
        assert(text.last() == last);
        assert(!selected(b, from + n - 1));
        let drawn = chars_drawn(w, b, from, n - 1);
        assert(uncolored(drawn) =~= drawn);
        if last != '\n' {
            lemma_wrote_apart(w, before.filter(seen), seq![last]);
            assert(text.filter(seen) =~= before.filter(seen) + seq![last]);
        }
    }
}

/// Text that is not selected is drawn without colours whatever colours are in effect before it:
/// they are taken back before its first character, and it is then drawn as it is, without its line
/// feeds.
pub proof fn law_plain_text_drawn_after(w: WriterView, b: BufferView, from: int, n: int)
    requires
        0 <= from,
        0 < n,
        from + n <= b.text.len(),
        forall|i: int| from <= i < from + n ==> !#[trigger] selected(b, i),
        b.text[from] != '\n',
    ensures
        chars_drawn(w, b, from, n) == wrote(
            uncolored(w),
            b.text.subrange(from, from + n).filter(|c: char| c != '\n'),
        ),
    decreases n,
{
    let seen = |c: char| c != '\n';
    let text = b.text.subrange(from, from + n);
    let last = b.text[from + n - 1];
    reveal(Seq::filter);
    assert(text.last() == last);
    assert(!selected(b, from + n - 1));
    if n == 1 {
        assert(chars_drawn(w, b, from, 0) == w);
        assert(text.drop_last() =~= Seq::empty());
        assert(text.drop_last().filter(seen) =~= Seq::empty());
        assert(text.filter(seen) =~= seq![last]);
    } else {
        law_plain_text_drawn_after(w, b, from, n - 1);
        let before = b.text.subrange(from, from + n - 1);
        assert(text.drop_last() =~= before);
        let drawn = chars_drawn(w, b, from, n - 1);
        assert(uncolored(drawn) =~= drawn);
        if last != '\n' {
            lemma_wrote_apart(uncolored(w), before.filter(seen), seq![last]);
            assert(text.filter(seen) =~= before.filter(seen) + seq![last]);
        }
    }
}

/// At each character that is drawn the colours in effect are those of a selection where it is
/// selected, and none where it is not, whatever was drawn before it.
pub proof fn law_colors_in_effect(w: WriterView, b: BufferView, from: int, n: int)
    requires
        0 <= from,
        0 < n,
        from + n <= b.text.len(),
    ensures
        ({
            let i = from + n - 1;
            let before = chars_drawn(w, b, from, n - 1);
            let after = chars_drawn(w, b, from, n);
            &&& selected(b, i) ==> after.fg == Some(16u8) && after.bg == Some(4u8)
            &&& !selected(b, i) && b.text[i] != '\n' ==> after.fg is None && after.bg is None
            &&& !selected(b, i) && b.text[i] == '\n' ==> after == before
        }),
{
}

/// Text that is selected is drawn in the colours of a selection, which are chosen once, with a
/// middle dot for each line feed.
pub proof fn law_selected_text_drawn(w: WriterView, b: BufferView, from: int, n: int)
    requires
        0 <= from,
        0 < n,
        from + n <= b.text.len(),
        forall|i: int| from <= i < from + n ==> #[trigger] selected(b, i),
    ensures
        chars_drawn(w, b, from, n) == wrote(
            colored(w, 16, 4),
            b.text.subrange(from, from + n).map_values(
                |c: char|
                    if c == '\n' {
                        '\u{b7}'
                    } else {
                        c
                    },
            ),
        ),
    decreases n,
{
    let seen = |c: char|
        if c == '\n' {
            '\u{b7}'
        } else {
            c
        };
    let text = b.text.subrange(from, from + n);
    let last = b.text[from + n - 1];
    assert(selected(b, from + n - 1));
    if n == 1 {
        assert(chars_drawn(w, b, from, 0) == w);
        assert(text.map_values(seen) =~= seq![seen(last)]);
    } else {
        law_selected_text_drawn(w, b, from, n - 1);
        let before = b.text.subrange(from, from + n - 1);
        let drawn = chars_drawn(w, b, from, n - 1);
        assert(colored(drawn, 16, 4) =~= drawn);
        lemma_wrote_apart(colored(w, 16, 4), before.map_values(seen), seq![seen(last)]);
        assert(text.map_values(seen) =~= before.map_values(seen) + seq![seen(last)]);
    }
}

proof fn lemma_chars_appended(w: WriterView, b: BufferView, from: int, n: int)
    ensures
        w.bytes.is_prefix_of(chars_drawn(w, b, from, n).bytes),
    decreases n,
{
    if n > 0 {
        lemma_chars_appended(w, b, from, n - 1);
    }
}

proof fn lemma_lines_appended(w: WriterView, b: BufferView, start: int, n: int, cols: int)
    ensures
        w.bytes.is_prefix_of(lines_drawn(w, b, start, n, cols).bytes),
    decreases n,
{
    if n > 0 {
        lemma_lines_appended(w, b, start, n - 1, cols);
        let before = lines_drawn(w, b, start, n - 1, cols);
        let line = start + n - 1;
        lemma_chars_appended(
            wrote(before, goto_code(1, n as u16)),
            b,
            line_start(b.text, line),
            smaller(line_chars(b.text, line).len() as int, cols),
        );
    }
}

/// Every frame clears the screen first.
pub proof fn law_frame_clears_first(b: BufferView, mode: Mode, cols: int, rows: int, start: int)
    ensures
        encode_utf8("\x1b[2J"@).is_prefix_of(frame(b, mode, cols, rows, start)),
{
    let cleared = wrote(blank_writer(), "\x1b[2J"@);
    let shown = smaller(rows - 1, line_count(b.text) - start);
    assert(cleared.bytes =~= encode_utf8("\x1b[2J"@));
    lemma_lines_appended(cleared, b, start, shown, cols);
}

/// Every frame ends with the cursor, in the shape of a bar, at the column and row of the first
/// selection's cursor.
pub proof fn law_frame_ends_with_cursor(
    b: BufferView,
    mode: Mode,
    cols: int,
    rows: int,
    start: int,
)
    ensures
        ({
            let cursor = trimmed(b.text, b.selections[0].cursor);
            let place = goto_code(
                ((cursor.column + 1) % 0x1_0000) as u16,
                (cursor.line - start + 1) as u16,
            );
            encode_utf8("\x1b[6 q"@ + place + "\x1b[?25h"@).is_suffix_of(
                frame(b, mode, cols, rows, start),
            )
        }),
{
    let cursor = trimmed(b.text, b.selections[0].cursor);
    let place = goto_code(
        ((cursor.column + 1) % 0x1_0000) as u16,
        (cursor.line - start + 1) as u16,
    );
    let bar = "\x1b[6 q"@;
    let show = "\x1b[?25h"@;
    let cleared = wrote(blank_writer(), "\x1b[2J"@);
    let shown = smaller(rows - 1, line_count(b.text) - start);
    let w = status_drawn(lines_drawn(cleared, b, start, shown, cols), mode, rows);
    lemma_wrote_apart(w, bar, place);
    lemma_wrote_apart(w, bar + place, show);
    assert(frame(b, mode, cols, rows, start) == w.bytes + encode_utf8(bar + place + show));
}

/// Drawing again, with nothing changed, draws the same.
pub proof fn law_redrawn_same(editor: Breeze)
    requires
        editor.wf(),
        editor.state.buffer@.text.len() <= usize::MAX,
    ensures
        ({
            let after = Breeze { prev_start_line: editor.wanted() as usize, ..editor };
            &&& after.wanted() == editor.wanted()
            &&& after.start() == editor.start()
        }),
{
    let b = editor.state.buffer@;
    let cursor = trimmed(b.text, b.selections[0].cursor);
    law_scrolled_once(
        editor.prev_start_line as int,
        cursor.line as int,
        editor.display_rows as int,
    );
}

} // verus!
