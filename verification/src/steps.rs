//! What one step of an edit or a move does to one selection, whatever its coordinates are.

use crate::buffer::{
    all_selected, earlier, fresh, lines_extended, lines_selected, selected, selected_texts,
    shifted_back, shifted_on, BufferView,
};
use crate::coord::{
    backward, coord_of, down, forward, index_of, law_coord_round_trip, law_index_round_trip,
    lemma_coord_of, lemma_last_column, past_line_end, trimmed, up, Coord,
};
use crate::edit::{
    among_first, cut, pasted_at, pasted_selection, pushed_on, ranges_before_cursors,
    selected_ranges, typed, typed_at,
};
use crate::laws::{law_backward_index, law_forward_index};
use crate::lines::{
    ends_line, lemma_line_of_within, lemma_line_start, line_count, line_of, line_start,
};
use crate::selection::{
    aligned, collapsed, covers, direction, range_end, range_start, reversed, runs_forward,
    Selection, SelectionUnaligned,
};
use vstd::prelude::*;

verus! {

/// A selection covers the characters between its ends, whichever comes first, and a text between
/// them is as long as they lie apart.
pub proof fn law_selection_range(t: Seq<char>, s: SelectionUnaligned, i: int)
    requires
        t.len() <= usize::MAX,
    ensures
        ({
            let a = index_of(t, s.anchor);
            let c = index_of(t, s.cursor);
            let r = aligned(t, s);
            &&& r.anchor.0 == a && r.cursor.0 == c
            &&& covers(r, i) <==> (a <= i < c || c <= i < a)
            &&& a <= c ==> range_start(r) == a && range_end(r) == c
            &&& c <= a ==> range_start(r) == c && range_end(r) == a
        }),
{
    law_coord_round_trip(t, s.anchor);
    law_coord_round_trip(t, s.cursor);
}

/// A selection has no direction where its ends are in one place, and else runs forward where its
/// anchor comes first. One without a direction counts as one that runs forward.
pub proof fn law_direction(s: Selection)
    ensures
        direction(s) is None <==> s.anchor.0 == s.cursor.0,
        direction(s) == Some(true) <==> s.anchor.0 < s.cursor.0,
        direction(s) == Some(false) <==> s.anchor.0 > s.cursor.0,
        runs_forward(s) <==> direction(s) != Some(false),
{
}

/// A reversed selection has its ends in each other's place, and a collapsed one has both where the
/// cursor was. The earlier of two coordinates is on the earlier line, or, on one line, in the
/// earlier column.
pub proof fn law_ends(s: SelectionUnaligned)
    ensures
        reversed(s).anchor == s.cursor && reversed(s).cursor == s.anchor,
        collapsed(s).anchor == s.cursor && collapsed(s).cursor == s.cursor,
        earlier(s.cursor, s.anchor) == s.cursor || earlier(s.cursor, s.anchor) == s.anchor,
        ({
            let e = earlier(s.cursor, s.anchor);
            &&& e.line < s.cursor.line || (e.line == s.cursor.line && e.column <= s.cursor.column)
            &&& e.line < s.anchor.line || (e.line == s.anchor.line && e.column <= s.anchor.column)
        }),
{
}

/// A text just opened has one cursor, before its first character, and nothing of it is selected.
pub proof fn law_fresh(text: Seq<char>, i: int)
    requires
        text.len() <= usize::MAX,
    ensures
        fresh(text).text == text,
        fresh(text).selections.len() == 1,
        fresh(text).primary_sel_i == 0,
        index_of(text, fresh(text).selections[0].cursor) == 0,
        !selected(fresh(text), i),
{
    let c = fresh(text).selections[0].cursor;
    law_index_on_line(text, c);
    lemma_line_start(text, 0);
    law_selected(fresh(text), i);
}

/// A character is selected where it lies between the ends of some selection.
pub proof fn law_selected(b: BufferView, i: int)
    requires
        b.text.len() <= usize::MAX,
    ensures
        selected(b, i) <==> exists|k: int|
            #![trigger b.selections[k]]
            0 <= k < b.selections.len() && {
                let a = index_of(b.text, b.selections[k].anchor);
                let c = index_of(b.text, b.selections[k].cursor);
                a <= i < c || c <= i < a
            },
{
    assert forall|k: int| #![trigger b.selections[k]] 0 <= k < b.selections.len() implies covers(
        aligned(b.text, b.selections[k]),
        i,
    ) == ({
        let a = index_of(b.text, b.selections[k].anchor);
        let c = index_of(b.text, b.selections[k].cursor);
        a <= i < c || c <= i < a
    }) by {
        law_selection_range(b.text, b.selections[k], i);
    }
}

/// What a yank takes of a selection: as many characters as its ends lie apart, the ones between
/// them, in order. Deleting takes them out from there.
pub proof fn law_selected_text(b: BufferView, k: int)
    requires
        b.text.len() <= usize::MAX,
        0 <= k < b.selections.len(),
    ensures
        ({
            let a = index_of(b.text, b.selections[k].anchor);
            let c = index_of(b.text, b.selections[k].cursor);
            let first = if a <= c {
                a
            } else {
                c
            };
            let n = if a <= c {
                c - a
            } else {
                a - c
            };
            &&& selected_texts(b).len() == b.selections.len()
            &&& selected_texts(b)[k].len() == n
            &&& forall|i: int|
                0 <= i < n ==> #[trigger] selected_texts(b)[k][i] == b.text[first + i]
            &&& selected_ranges(b).len() == b.selections.len()
            &&& selected_ranges(b)[k].start == first
            &&& selected_ranges(b)[k].end == first + n
        }),
{
    law_selection_range(b.text, b.selections[k], 0);
    law_coord_round_trip(b.text, b.selections[k].anchor);
    law_coord_round_trip(b.text, b.selections[k].cursor);
}

/// A backspace takes the one character before each cursor.
pub proof fn law_backspaced_range(b: BufferView, k: int)
    requires
        b.text.len() <= usize::MAX,
        0 <= k < b.selections.len(),
        index_of(b.text, b.selections[k].cursor) > 0,
    ensures
        ranges_before_cursors(b).len() == b.selections.len(),
        ranges_before_cursors(b)[k].end == index_of(b.text, b.selections[k].cursor),
        ranges_before_cursors(b)[k].end == ranges_before_cursors(b)[k].start + 1,
{
    law_coord_round_trip(b.text, b.selections[k].cursor);
}

/// Whether `i` is `n` characters behind `from`, or the end of a text that has no more.
pub open spec fn moved_on(len: int, from: int, n: int, i: int) -> bool {
    i == from + n && i <= len || i == len && from + n > len
}

/// A cursor that had its turn goes one character on from its line and column, with nothing
/// selected.
pub proof fn law_typed(t: Seq<char>, s: SelectionUnaligned)
    requires
        t.len() <= usize::MAX,
    ensures
        moved_on(
            t.len() as int,
            index_of(t, s.cursor),
            1,
            index_of(t, typed(t, s).cursor),
        ),
        trimmed(t, typed(t, s).cursor) == typed(t, s).cursor,
        typed(t, s).anchor == typed(t, s).cursor,
{
    law_forward_index(t, s.cursor, 1);
    lemma_forward_trimmed(t, s.cursor, 1);
}

/// Moves by characters end within the columns of a line.
pub proof fn lemma_forward_trimmed(t: Seq<char>, c: Coord, n: int)
    requires
        t.len() <= usize::MAX,
        0 <= n,
    ensures
        trimmed(t, forward(t, c, n)) == forward(t, c, n),
        trimmed(t, backward(t, c, n)) == backward(t, c, n),
{
    law_coord_round_trip(t, c);
    let i = index_of(t, c);
    lemma_coord_of(t, t.len() as int);
    if i + n <= t.len() {
        lemma_coord_of(t, i + n);
    }
    lemma_coord_of(
        t,
        if i < n {
            0
        } else {
            i - n
        },
    );
}

/// In one step of typing the character goes in at the place whose turn it is. The selections that
/// had their turn, this one among them, each go one character on, and no other changes.
pub proof fn law_typed_step(
    b: BufferView,
    points: Seq<int>,
    order: Seq<int>,
    k: int,
    ch: char,
    j: int,
)
    requires
        b.text.len() < usize::MAX,
        0 <= k < order.len(),
        0 <= points[order[k]] <= b.text.len(),
        0 <= j < b.selections.len(),
    ensures
        ({
            let after = typed_at(b, points, order, k, ch);
            let p = points[order[k]];
            &&& after.text.len() == b.text.len() + 1
            &&& after.text[p] == ch
            &&& forall|i: int| 0 <= i < p ==> #[trigger] after.text[i] == b.text[i]
            &&& forall|i: int| p <= i < b.text.len() ==> #[trigger] b.text[i] == after.text[i + 1]
            &&& after.selections.len() == b.selections.len()
            &&& after.primary_sel_i == b.primary_sel_i
            &&& order.take(k + 1).contains(j) ==> {
                let s = after.selections[j];
                &&& s.anchor == s.cursor
                &&& moved_on(
                    after.text.len() as int,
                    index_of(after.text, b.selections[j].cursor),
                    1,
                    index_of(after.text, s.cursor),
                )
            }
            &&& !order.take(k + 1).contains(j) ==> after.selections[j] == b.selections[j]
        }),
{
    let after = typed_at(b, points, order, k, ch);
    lemma_among_taken(order, k + 1, j);
    law_typed(after.text, b.selections[j]);
}

/// What is among the first of an order is what taking them contains.
pub proof fn lemma_among_taken(order: Seq<int>, n: int, j: int)
    requires
        0 <= n <= order.len(),
    ensures
        among_first(order, n, j) == order.take(n).contains(j),
{
    if among_first(order, n, j) {
        let i = choose|i: int| 0 <= i < n && #[trigger] order[i] == j;
        assert(order.take(n)[i] == j);
    }
    if order.take(n).contains(j) {
        let i = choose|i: int| 0 <= i < n && order.take(n)[i] == j;
        assert(order[i] == j);
    }
}

/// What pasting `n` characters does to the selection whose turn it is, going by what its
/// coordinates stand for in the text `t` that it finds: where the anchor is not behind the cursor,
/// the cursor goes `n` characters on, and the anchor to where the cursor was, or stays to extend;
/// else the cursor stays, and the anchor goes `n` characters on from the cursor, or from where it
/// is to extend.
pub proof fn law_pasted_selection(t: Seq<char>, s: SelectionUnaligned, n: int, extend: bool)
    requires
        t.len() <= usize::MAX,
        0 <= n,
    ensures
        ({
            let a = index_of(t, s.anchor);
            let c = index_of(t, s.cursor);
            let r = pasted_selection(t, s, n, extend);
            &&& a <= c ==> {
                &&& moved_on(t.len() as int, c, n, index_of(t, r.cursor))
                &&& extend ==> r.anchor == s.anchor
                &&& !extend ==> r.anchor == s.cursor
            }
            &&& a > c ==> {
                &&& r.cursor == s.cursor
                &&& extend ==> moved_on(t.len() as int, a, n, index_of(t, r.anchor))
                &&& !extend ==> moved_on(t.len() as int, c, n, index_of(t, r.anchor))
            }
        }),
{
    law_selection_range(t, s, 0);
    law_forward_index(t, s.cursor, n);
    law_forward_index(t, s.anchor, n);
}

/// What pasting `n` characters at `at` does to a selection that had its turn: each of its ends
/// that stands at `at` or behind it goes `n` characters on, and the other stays.
pub proof fn law_pushed_on(t: Seq<char>, s: SelectionUnaligned, at: int, n: int)
    requires
        t.len() <= usize::MAX,
        0 <= n,
    ensures
        ({
            let a = index_of(t, s.anchor);
            let c = index_of(t, s.cursor);
            let r = pushed_on(t, s, at, n);
            &&& at <= a ==> moved_on(t.len() as int, a, n, index_of(t, r.anchor))
            &&& at > a ==> r.anchor == s.anchor
            &&& at <= c ==> moved_on(t.len() as int, c, n, index_of(t, r.cursor))
            &&& at > c ==> r.cursor == s.cursor
        }),
{
    law_forward_index(t, s.cursor, n);
    law_forward_index(t, s.anchor, n);
}

/// In one step of pasting the piece goes in at the place whose turn it is. The selection there is
/// put at it; those that had their turn are put right by the place and the length of the piece, and
/// no other changes.
pub proof fn law_pasted_step(
    b: BufferView,
    points: Seq<int>,
    order: Seq<int>,
    k: int,
    piece: Seq<char>,
    extend: bool,
    j: int,
)
    requires
        0 <= k < order.len(),
        0 <= points[order[k]] <= b.text.len(),
        0 <= j < b.selections.len(),
    ensures
        ({
            let after = pasted_at(b, points, order, k, piece, extend);
            let p = points[order[k]];
            let n = piece.len() as int;
            &&& after.text == b.text.take(p) + piece + b.text.skip(p)
            &&& after.selections.len() == b.selections.len()
            &&& after.primary_sel_i == b.primary_sel_i
            &&& j == order[k] ==> after.selections[j] == pasted_selection(
                after.text,
                b.selections[j],
                n,
                extend,
            )
            &&& j != order[k] && order.take(k).contains(j) ==> after.selections[j] == pushed_on(
                after.text,
                b.selections[j],
                p,
                n,
            )
            &&& j != order[k] && !order.take(k).contains(j) ==> after.selections[j]
                == b.selections[j]
        }),
{
    lemma_among_taken(order, k, j);
}

/// Putting selections back: an end that stands behind `idx` goes `offset` characters back, at most
/// to the start of the text, and an end at `idx` or before it stays.
pub proof fn law_shifted_back(t: Seq<char>, s: SelectionUnaligned, idx: int, offset: int)
    requires
        t.len() <= usize::MAX,
        0 <= offset,
    ensures
        ({
            let a = index_of(t, s.anchor);
            let c = index_of(t, s.cursor);
            let r = shifted_back(t, s, idx, offset);
            &&& idx < a && offset <= a ==> index_of(t, r.anchor) == a - offset
            &&& idx < a && offset > a ==> index_of(t, r.anchor) == 0
            &&& idx >= a ==> r.anchor == s.anchor
            &&& idx < c && offset <= c ==> index_of(t, r.cursor) == c - offset
            &&& idx < c && offset > c ==> index_of(t, r.cursor) == 0
            &&& idx >= c ==> r.cursor == s.cursor
        }),
{
    law_backward_index(t, s.anchor, offset);
    law_backward_index(t, s.cursor, offset);
}

/// Putting selections on: one whose cursor stands at `idx` or behind it has both ends `offset`
/// characters behind where the cursor stood, and any other stays.
pub proof fn law_shifted_on(t: Seq<char>, s: SelectionUnaligned, idx: int, offset: int)
    requires
        t.len() <= usize::MAX,
        0 <= offset,
    ensures
        ({
            let c = index_of(t, s.cursor);
            let r = shifted_on(t, s, idx, offset);
            &&& idx <= c ==> {
                &&& moved_on(t.len() as int, c, offset, index_of(t, r.cursor))
                &&& r.anchor == r.cursor
            }
            &&& idx > c ==> r == s
        }),
{
    law_forward_index(t, s.cursor, offset);
}

/// Removing a range takes its characters out of the text, and puts back by their number what stood
/// of the selections behind its start.
pub proof fn law_cut_step(b: BufferView, start: int, end: int, j: int)
    requires
        b.text.len() <= usize::MAX,
        0 <= start <= end <= b.text.len(),
        0 <= j < b.selections.len(),
    ensures
        ({
            let after = cut(b, start, end);
            &&& after.text == b.text.take(start) + b.text.skip(end)
            &&& after.selections.len() == b.selections.len()
            &&& after.primary_sel_i == b.primary_sel_i
            &&& after.selections[j] == shifted_back(b.text, b.selections[j], start, end - start)
        }),
{
}

/// What a coordinate stands for: on a line of the text, the index as many characters behind the
/// line's start as the column says, or the last one on the line; behind the last line, the end.
pub proof fn law_index_on_line(t: Seq<char>, c: Coord)
    requires
        t.len() <= usize::MAX,
    ensures
        ({
            let i = index_of(t, c);
            &&& 0 <= i <= t.len()
            &&& c.line >= line_count(t) ==> i == t.len()
            &&& c.line < line_count(t) ==> {
                let start = line_start(t, c.line as int);
                &&& line_of(t, i) == c.line
                &&& start <= i <= start + c.column
                &&& i < start + c.column ==> i == t.len() || ends_line(t, i)
            }
        }),
{
    law_coord_round_trip(t, c);
    if c.line >= line_count(t) {
        law_index_round_trip(t, t.len() as int);
    } else {
        let line = c.line as int;
        lemma_last_column(t, line);
        lemma_coord_of(t, index_of(t, c));
        lemma_line_of_within(t, line, index_of(t, c));
        lemma_line_start(t, line + 1);
    }
}

/// An index becomes the coordinate of its line, with as many columns as stand before it there; one
/// past the end becomes that of the end.
pub proof fn law_coord_on_line(t: Seq<char>, i: int)
    requires
        t.len() <= usize::MAX,
        0 <= i,
    ensures
        i > t.len() ==> coord_of(t, i) == coord_of(t, t.len() as int),
        i <= t.len() ==> {
            &&& coord_of(t, i).line == line_of(t, i)
            &&& coord_of(t, i).column == i - line_start(t, line_of(t, i) as int)
        },
{
    if i <= t.len() {
        lemma_coord_of(t, i);
    }
}

/// Down goes as many lines as asked for, or to the last line, and up as many, or to the first. The
/// column stays as it was.
pub proof fn law_lines_moved(t: Seq<char>, c: Coord, n: int)
    requires
        0 <= n,
        line_count(t) <= usize::MAX,
    ensures
        down(t, c, n).column == c.column,
        c.line + n < line_count(t) ==> down(t, c, n).line == c.line + n,
        c.line + n >= line_count(t) ==> down(t, c, n).line == line_count(t) - 1,
        up(c, n).column == c.column,
        n <= c.line ==> up(c, n).line == c.line - n,
        n > c.line ==> up(c, n).line == 0,
{
}

/// Going by `m` and then by `n` is going by both together.
pub proof fn law_moves_add_up(t: Seq<char>, c: Coord, m: int, n: int)
    requires
        0 <= m,
        0 <= n,
        t.len() <= usize::MAX,
        line_count(t) <= usize::MAX,
    ensures
        forward(t, forward(t, c, m), n) == forward(t, c, m + n),
        backward(t, backward(t, c, m), n) == backward(t, c, m + n),
        down(t, down(t, c, m), n) == down(t, c, m + n),
        up(up(c, m), n) == up(c, m + n),
{
    law_forward_index(t, c, m);
    law_backward_index(t, c, m);
    law_coord_round_trip(t, c);
}

/// Past the end of a line is the start of the next one: no character of it stands before, and all
/// of it are behind the line. Past the last line is the end of the text.
pub proof fn law_past_line_end(t: Seq<char>, c: Coord)
    requires
        t.len() <= usize::MAX,
    ensures
        ({
            let i = index_of(t, past_line_end(t, c));
            &&& c.line + 1 < line_count(t) ==> line_of(t, i) == c.line + 1 && ends_line(t, i - 1)
            &&& c.line + 1 >= line_count(t) ==> i == t.len()
        }),
{
    let line = c.line as int;
    lemma_line_start(t, line + 1);
    law_index_round_trip(t, line_start(t, line + 1));
}

/// The selection of a line runs forward from the first character of the cursor's line to past its
/// end. An extended one runs from the first character of the line on which its earlier end is.
pub proof fn law_line_ends(b: BufferView, k: int)
    requires
        b.text.len() <= usize::MAX,
        0 <= k < b.selections.len(),
    ensures
        ({
            let s = b.selections[k];
            let one = lines_selected(b).selections[k];
            let more = lines_extended(b).selections[k];
            &&& one.anchor.line == s.cursor.line && one.anchor.column == 0
            &&& one.cursor == past_line_end(b.text, s.cursor)
            &&& more.anchor.column == 0
            &&& more.anchor.line <= s.cursor.line && more.anchor.line <= s.anchor.line
            &&& more.anchor.line == s.cursor.line || more.anchor.line == s.anchor.line
            &&& more.cursor == past_line_end(b.text, s.cursor)
        }),
{
}

/// Selecting all leaves one selection. It runs from the first character to the last, unless the
/// primary selection ran backward; then it runs from the last to the first.
pub proof fn law_all_selected_ends(b: BufferView)
    requires
        b.text.len() <= usize::MAX,
        0 <= b.primary_sel_i < b.selections.len(),
    ensures
        ({
            let s = b.selections[b.primary_sel_i];
            let a = all_selected(b);
            let anchor = index_of(b.text, a.selections[0].anchor);
            let cursor = index_of(b.text, a.selections[0].cursor);
            &&& a.text == b.text
            &&& a.selections.len() == 1
            &&& a.primary_sel_i == b.primary_sel_i
            &&& index_of(b.text, s.anchor) <= index_of(b.text, s.cursor) ==> anchor == 0 && cursor
                == b.text.len()
            &&& index_of(b.text, s.anchor) > index_of(b.text, s.cursor) ==> cursor == 0 && anchor
                == b.text.len()
        }),
{
    law_selection_range(b.text, b.selections[b.primary_sel_i], 0);
    law_index_round_trip(b.text, 0);
    law_index_round_trip(b.text, b.text.len() as int);
}

} // verus!
