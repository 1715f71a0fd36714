//! What holds of moves and edits as a whole.

use crate::buffer::{
    all_selected, earlier, lines_extended, lines_selected, selected, selected_texts, texts_of,
    with_each, BufferView,
};
use crate::coord::{
    backward, blanks_begin, blanks_end, coord_of, down, forward, index_of, is_blank,
    law_coord_round_trip, law_index_round_trip, lemma_last_column, next_word, previous_word,
    trimmed, up, word_begin, word_end, Coord,
};
use crate::edit::{
    all_collapsed, all_cut, among_first, backspaced, can_cut, cursor_indices, cut, cut_up_to,
    deleted, inserted, past_start, pasted, pasted_at, pasted_selection, pasted_text, pasted_texts,
    pasted_up_to, range_from_back, ranges_before_cursors, selected_ranges, starts, typed_at,
    typed_up_to,
};
use crate::lines::{
    ends_line, joined, joined_backwards, lemma_line_holds, lemma_line_of_monotone,
    lemma_line_of_prefix, lemma_line_of_within, lemma_line_start, lemma_line_start_is, line_count,
    line_of, line_start, spliced, starts_line, without,
};
use crate::order::{from_back, law_from_back};
use crate::rope::{rope_chars, rope_chunks};
use crate::selection::{aligned, collapsed, covers, range_end, range_start, SelectionUnaligned};
use ropey::Rope;
use std::ops::Range;
use vstd::prelude::*;

verus! {

/// Moving on by `n` characters lands `n` characters further on, or at the end of the text.
pub proof fn law_forward_index(t: Seq<char>, c: Coord, n: int)
    requires
        t.len() <= usize::MAX,
        0 <= n,
    ensures
        index_of(t, forward(t, c, n)) == if index_of(t, c) + n > t.len() {
            t.len() as int
        } else {
            index_of(t, c) + n
        },
{
    law_coord_round_trip(t, c);
    let i = index_of(t, c) + n;
    law_index_round_trip(
        t,
        if i > t.len() {
            t.len() as int
        } else {
            i
        },
    );
}

/// Moving back by `n` characters lands `n` characters before, or at the start of the text.
pub proof fn law_backward_index(t: Seq<char>, c: Coord, n: int)
    requires
        t.len() <= usize::MAX,
        0 <= n,
    ensures
        index_of(t, backward(t, c, n)) == if index_of(t, c) < n {
            0
        } else {
            index_of(t, c) - n
        },
{
    law_coord_round_trip(t, c);
    let i = index_of(t, c) - n;
    law_index_round_trip(
        t,
        if i < 0 {
            0
        } else {
            i
        },
    );
}

/// Moving on and back by as many characters comes back to the same place, unless the end of the
/// text was in the way.
pub proof fn law_forward_backward(t: Seq<char>, c: Coord, n: int)
    requires
        t.len() <= usize::MAX,
        0 <= n,
        index_of(t, c) + n <= t.len(),
    ensures
        backward(t, forward(t, c, n), n) == trimmed(t, c),
{
    law_forward_index(t, c, n);
    law_coord_round_trip(t, c);
}

/// Moving down and up by as many lines comes back to the same line and column, unless the end of
/// the text was in the way. Shorter lines on the way do not matter.
pub proof fn law_down_up(t: Seq<char>, c: Coord, n: int)
    requires
        0 <= n,
        c.line + n < line_count(t),
        c.line + n <= usize::MAX,
    ensures
        up(down(t, c, n), n) == c,
{
}

/// Changing the selections leaves the text, the number of selections and the primary one alone.
pub proof fn law_moves_keep_text(
    b: BufferView,
    change: spec_fn(SelectionUnaligned) -> SelectionUnaligned,
)
    ensures
        with_each(b, change).text == b.text,
        with_each(b, change).selections.len() == b.selections.len(),
        with_each(b, change).primary_sel_i == b.primary_sel_i,
{
}

/// When all is selected, every character of the text is, and nothing else.
pub proof fn law_all_selected(b: BufferView, i: int)
    requires
        b.text.len() <= usize::MAX,
    ensures
        selected(all_selected(b), i) <==> 0 <= i < b.text.len(),
{
    let a = all_selected(b);
    law_index_round_trip(b.text, 0);
    law_index_round_trip(b.text, b.text.len() as int);
    if 0 <= i < b.text.len() {
        assert(covers(aligned(a.text, a.selections[0]), i));
    }
}

/// A selected line is all the characters of the line, with its line break, and nothing else.
pub proof fn law_line_selected(b: BufferView, k: int, i: int)
    requires
        b.text.len() <= usize::MAX,
        0 <= k < b.selections.len(),
        b.selections[k].cursor.line < line_count(b.text),
    ensures
        covers(aligned(b.text, lines_selected(b).selections[k]), i) <==> {
            &&& 0 <= i < b.text.len()
            &&& line_of(b.text, i) == b.selections[k].cursor.line
        },
{
    let t = b.text;
    let c = b.selections[k].cursor;
    let line = c.line as int;
    lemma_line_start(t, line);
    lemma_line_start(t, line + 1);
    lemma_last_column(t, line);
    law_index_round_trip(t, line_start(t, line + 1));
    if 0 <= i < t.len() {
        lemma_line_holds(t, i);
        if covers(aligned(t, lines_selected(b).selections[k]), i) {
            lemma_line_of_within(t, line, i);
        }
    }
}

/// An extended selection of lines is all the characters of the lines from its first one to its
/// cursor's, with their line breaks, and nothing else.
pub proof fn law_lines_extended(b: BufferView, k: int, i: int)
    requires
        b.text.len() <= usize::MAX,
        0 <= k < b.selections.len(),
        b.selections[k].cursor.line < line_count(b.text),
    ensures
        ({
            let s = b.selections[k];
            covers(aligned(b.text, lines_extended(b).selections[k]), i) <==> {
                &&& 0 <= i < b.text.len()
                &&& earlier(s.cursor, s.anchor).line <= line_of(b.text, i) <= s.cursor.line
            }
        }),
{
    let t = b.text;
    let s = b.selections[k];
    let first = earlier(s.cursor, s.anchor).line as int;
    let last = s.cursor.line as int;
    lemma_line_start(t, first);
    lemma_line_start(t, last);
    lemma_line_start(t, last + 1);
    lemma_last_column(t, first);
    law_index_round_trip(t, line_start(t, last + 1));
    if 0 <= i <= t.len() {
        lemma_line_holds(t, i);
        if i < line_start(t, first) {
            lemma_line_of_monotone(t, i, line_start(t, first));
        } else {
            lemma_line_of_monotone(t, line_start(t, first), i);
        }
        if last + 1 < line_count(t) {
            if i < line_start(t, last + 1) {
                lemma_line_of_monotone(t, i, line_start(t, last + 1));
            } else {
                lemma_line_of_monotone(t, line_start(t, last + 1), i);
            }
        } else {
            lemma_line_of_monotone(t, i, t.len() as int);
        }
    }
    if line_start(t, last + 1) < line_start(t, first) {
        lemma_line_of_monotone(t, line_start(t, last + 1), line_start(t, first));
    }
}

proof fn lemma_blanks_end(t: Seq<char>, i: int)
    requires
        0 <= i <= t.len(),
    ensures
        i <= blanks_end(t, i) <= t.len(),
        forall|j: int| i <= j < blanks_end(t, i) ==> is_blank(#[trigger] t[j]),
        blanks_end(t, i) < t.len() ==> !is_blank(t[blanks_end(t, i)]),
    decreases t.len() - i,
{
    if i < t.len() && is_blank(t[i]) {
        lemma_blanks_end(t, i + 1);
    }
}

proof fn lemma_word_end(t: Seq<char>, i: int)
    requires
        0 <= i <= t.len(),
    ensures
        i <= word_end(t, i) <= t.len(),
        forall|j: int| i <= j < word_end(t, i) ==> !is_blank(#[trigger] t[j]),
        word_end(t, i) < t.len() ==> is_blank(t[word_end(t, i)]),
    decreases t.len() - i,
{
    if i < t.len() && !is_blank(t[i]) {
        lemma_word_end(t, i + 1);
    }
}

proof fn lemma_blanks_begin(t: Seq<char>, i: int)
    requires
        0 <= i <= t.len(),
    ensures
        0 <= blanks_begin(t, i) <= i,
        forall|j: int| blanks_begin(t, i) <= j < i ==> is_blank(#[trigger] t[j]),
        blanks_begin(t, i) > 0 ==> !is_blank(t[blanks_begin(t, i) - 1]),
    decreases i,
{
    if i > 0 && is_blank(t[i - 1]) {
        lemma_blanks_begin(t, i - 1);
    }
}

proof fn lemma_word_begin(t: Seq<char>, i: int)
    requires
        0 <= i <= t.len(),
    ensures
        0 <= word_begin(t, i) <= i,
        forall|j: int| word_begin(t, i) <= j < i ==> !is_blank(#[trigger] t[j]),
        word_begin(t, i) > 0 ==> is_blank(t[word_begin(t, i) - 1]),
    decreases i,
{
    if i > 0 && !is_blank(t[i - 1]) {
        lemma_word_begin(t, i - 1);
    }
}

/// The next word is a run of characters without a blank, with nothing but blanks before it from
/// the place on, and a blank or the end of the text behind it.
pub proof fn law_next_word(t: Seq<char>, c: Coord)
    requires
        t.len() <= usize::MAX,
    ensures
        ({
            let start = index_of(t, next_word(t, c).0);
            let end = index_of(t, next_word(t, c).1);
            &&& index_of(t, c) <= start <= end <= t.len()
            &&& forall|j: int| index_of(t, c) <= j < start ==> is_blank(#[trigger] t[j])
            &&& forall|j: int| start <= j < end ==> !is_blank(#[trigger] t[j])
            &&& end < t.len() ==> is_blank(t[end])
            &&& start < t.len() ==> start < end
        }),
{
    let i = index_of(t, c);
    law_coord_round_trip(t, c);
    lemma_blanks_end(t, i);
    let start = blanks_end(t, i);
    lemma_word_end(t, start);
    law_index_round_trip(t, start);
    law_index_round_trip(t, word_end(t, start));
}

/// The previous word is a run of characters without a blank, with nothing but blanks behind it up
/// to the place, and a blank or the start of the text before it.
pub proof fn law_previous_word(t: Seq<char>, c: Coord)
    requires
        t.len() <= usize::MAX,
    ensures
        ({
            let end = index_of(t, previous_word(t, c).0);
            let start = index_of(t, previous_word(t, c).1);
            &&& 0 <= start <= end <= index_of(t, c)
            &&& forall|j: int| end <= j < index_of(t, c) ==> is_blank(#[trigger] t[j])
            &&& forall|j: int| start <= j < end ==> !is_blank(#[trigger] t[j])
            &&& start > 0 ==> is_blank(t[start - 1])
            &&& end > 0 ==> start < end
        }),
{
    let i = index_of(t, c);
    law_coord_round_trip(t, c);
    lemma_blanks_begin(t, i);
    let end = blanks_begin(t, i);
    lemma_word_begin(t, end);
    law_index_round_trip(t, end);
    law_index_round_trip(t, word_begin(t, end));
}

/// Two texts that agree up to `n`, and on whether a line ends there, agree on the coordinate of
/// `n`.
pub proof fn lemma_coord_prefix(t: Seq<char>, u: Seq<char>, n: int)
    requires
        0 <= n <= t.len() <= usize::MAX,
        n <= u.len() <= usize::MAX,
        t.take(n) == u.take(n),
        ends_line(t, n - 1) == ends_line(u, n - 1),
    ensures
        coord_of(t, n) == coord_of(u, n),
{
    lemma_line_of_prefix(t, u, n, n);
    lemma_line_holds(t, n);
    let line = line_of(t, n) as int;
    lemma_line_start(t, line);
    let s = line_start(t, line);
    lemma_line_of_prefix(t, u, n, s);
    if 0 < s {
        assert(t[s - 1] == t.take(n)[s - 1]);
        assert(u[s - 1] == u.take(n)[s - 1]);
        if s < n {
            assert(t[s] == t.take(n)[s]);
            assert(u[s] == u.take(n)[s]);
        }
    }
    assert(starts_line(u, line, s));
    lemma_line_start_is(u, line, s);
}

/// A coordinate whose column does not lie past the end of its line stands for the same index after
/// a piece was put in there, unless that splits or makes a pair of carriage return and line feed.
pub proof fn law_place_kept_by_splice(t: Seq<char>, c: Coord, piece: Seq<char>)
    requires
        t.len() + piece.len() <= usize::MAX,
        trimmed(t, c) == c,
        ends_line(t, index_of(t, c) - 1) == ends_line(
            spliced(t, index_of(t, c), piece),
            index_of(t, c) - 1,
        ),
    ensures
        index_of(spliced(t, index_of(t, c), piece), c) == index_of(t, c),
{
    let p = index_of(t, c);
    let u = spliced(t, p, piece);
    law_coord_round_trip(t, c);
    assert(t.take(p) == u.take(p));
    lemma_coord_prefix(t, u, p);
    law_index_round_trip(u, p);
}

/// A buffer with one selection has one place in the order from the back.
proof fn lemma_one_place(points: Seq<int>)
    requires
        points.len() == 1,
    ensures
        from_back(points) == seq![0int],
{
    law_from_back(points);
    assert(from_back(points)[0] == 0);
}

/// What typing does with one selection: the character goes in at the cursor, and the cursor ends
/// up behind it, with nothing selected. The cursor's coordinate must still stand for the place of
/// the edit once the character is in; at the end of the text that does not matter.
pub proof fn law_insert_one(b: BufferView, ch: char)
    requires
        b.text.len() < usize::MAX,
        b.selections.len() == 1,
        ({
            let p = index_of(b.text, b.selections[0].cursor);
            ||| index_of(spliced(b.text, p, seq![ch]), b.selections[0].cursor) == p
            ||| p == b.text.len() <= index_of(spliced(b.text, p, seq![ch]), b.selections[0].cursor)
        }),
    ensures
        ({
            let p = index_of(b.text, b.selections[0].cursor);
            let after = inserted(b, ch);
            &&& after.text == spliced(b.text, p, seq![ch])
            &&& after.selections.len() == 1
            &&& after.selections[0].cursor == coord_of(after.text, p + 1)
            &&& after.selections[0].anchor == after.selections[0].cursor
            &&& index_of(after.text, after.selections[0].cursor) == p + 1
            &&& after.primary_sel_i == b.primary_sel_i
        }),
{
    let points = cursor_indices(b);
    let c = b.selections[0].cursor;
    let p = index_of(b.text, c);
    law_coord_round_trip(b.text, c);
    lemma_one_place(points);
    reveal_with_fuel(typed_up_to, 2);
    let order = from_back(points);
    assert(order[0] == 0);
    assert(among_first(order, 1, 0));
    let after = inserted(b, ch);
    assert(after == typed_at(b, points, order, 0, ch));
    law_coord_round_trip(after.text, c);
    law_index_round_trip(after.text, p + 1);
}

/// One range can be removed wherever it lies in the text.
pub proof fn law_one_range_can_be_cut(len: int, ranges: Seq<Range<usize>>)
    requires
        ranges.len() == 1,
        ranges[0].start <= ranges[0].end <= len,
    ensures
        can_cut(len, ranges),
        range_from_back(ranges, 0) == ranges[0],
{
    lemma_one_place(starts(ranges));
}

/// What removing one range does.
proof fn lemma_cut_one(b: BufferView, ranges: Seq<Range<usize>>)
    requires
        ranges.len() == 1,
    ensures
        all_cut(b, ranges) == cut(b, ranges[0].start as int, ranges[0].end as int),
{
    lemma_one_place(starts(ranges));
    reveal_with_fuel(cut_up_to, 2);
}

/// The text of one selection can always be deleted.
pub proof fn law_one_selection_can_be_deleted(b: BufferView)
    requires
        b.text.len() <= usize::MAX,
        b.selections.len() == 1,
    ensures
        can_cut(b.text.len() as int, selected_ranges(b)),
{
    law_coord_round_trip(b.text, b.selections[0].cursor);
    law_coord_round_trip(b.text, b.selections[0].anchor);
    law_one_range_can_be_cut(b.text.len() as int, selected_ranges(b));
}

/// What a backspace does with one selection: the character before the cursor goes, and the cursor
/// goes to where it stood.
pub proof fn law_backspace_one(b: BufferView)
    requires
        b.text.len() <= usize::MAX,
        b.selections.len() == 1,
        index_of(b.text, b.selections[0].cursor) > 0,
    ensures
        ({
            let p = index_of(b.text, b.selections[0].cursor);
            let after = backspaced(b);
            &&& past_start(b)
            &&& can_cut(b.text.len() as int, ranges_before_cursors(b))
            &&& after.text == without(b.text, p - 1, p)
            &&& after.selections.len() == 1
            &&& after.selections[0].cursor == coord_of(b.text, p - 1)
            &&& after.selections[0].anchor == after.selections[0].cursor
        }),
{
    law_coord_round_trip(b.text, b.selections[0].cursor);
    law_one_range_can_be_cut(b.text.len() as int, ranges_before_cursors(b));
    lemma_cut_one(all_collapsed(b), ranges_before_cursors(b));
}

/// With one selection, a backspace takes back what was typed, and the cursor stands where it stood
/// before, unless typing split or made a pair of carriage return and line feed.
pub proof fn law_backspace_undoes_insert(b: BufferView, ch: char)
    requires
        b.text.len() < usize::MAX,
        b.selections.len() == 1,
        ({
            let p = index_of(b.text, b.selections[0].cursor);
            ||| index_of(spliced(b.text, p, seq![ch]), b.selections[0].cursor) == p
            ||| p == b.text.len() <= index_of(spliced(b.text, p, seq![ch]), b.selections[0].cursor)
        }),
    ensures
        past_start(inserted(b, ch)),
        can_cut(inserted(b, ch).text.len() as int, ranges_before_cursors(inserted(b, ch))),
        backspaced(inserted(b, ch)).text == b.text,
        ({
            let p = index_of(b.text, b.selections[0].cursor);
            ends_line(b.text, p - 1) == ends_line(spliced(b.text, p, seq![ch]), p - 1) ==> index_of(
                b.text,
                backspaced(inserted(b, ch)).selections[0].cursor,
            ) == p
        }),
{
    let p = index_of(b.text, b.selections[0].cursor);
    let u = spliced(b.text, p, seq![ch]);
    law_coord_round_trip(b.text, b.selections[0].cursor);
    law_insert_one(b, ch);
    law_backspace_one(inserted(b, ch));
    assert(without(u, p, p + 1) == b.text);
    if ends_line(b.text, p - 1) == ends_line(u, p - 1) {
        assert(b.text.take(p) == u.take(p));
        lemma_coord_prefix(b.text, u, p);
        law_index_round_trip(b.text, p);
    }
}

/// What deleting does with one selection: its text goes, and the cursor's coordinate becomes that
/// of the start of the text that went, unless the cursor stood there already.
pub proof fn law_delete_one(b: BufferView)
    requires
        b.text.len() <= usize::MAX,
        b.selections.len() == 1,
    ensures
        ({
            let s = aligned(b.text, b.selections[0]);
            let after = deleted(b);
            &&& after.text == without(b.text, range_start(s), range_end(s))
            &&& after.selections.len() == 1
            &&& after.selections[0].cursor == if s.cursor.0 == range_start(s) {
                b.selections[0].cursor
            } else {
                coord_of(b.text, range_start(s))
            }
            &&& after.selections[0].anchor == after.selections[0].cursor
        }),
{
    law_coord_round_trip(b.text, b.selections[0].cursor);
    law_coord_round_trip(b.text, b.selections[0].anchor);
    lemma_cut_one(all_collapsed(b), selected_ranges(b));
}

/// With one selection whose cursor's column does not lie past the end of its line, the cursor
/// stands after deleting where the deleted text stood, unless that splits or makes a pair of
/// carriage return and line feed.
pub proof fn law_delete_leaves_cursor(b: BufferView)
    requires
        b.text.len() <= usize::MAX,
        b.selections.len() == 1,
        trimmed(b.text, b.selections[0].cursor) == b.selections[0].cursor,
        ({
            let s = aligned(b.text, b.selections[0]);
            ends_line(b.text, range_start(s) - 1) == ends_line(
                without(b.text, range_start(s), range_end(s)),
                range_start(s) - 1,
            )
        }),
    ensures
        index_of(deleted(b).text, deleted(b).selections[0].cursor) == range_start(
            aligned(b.text, b.selections[0]),
        ),
{
    let s = aligned(b.text, b.selections[0]);
    let t = b.text;
    let u = without(t, range_start(s), range_end(s));
    law_coord_round_trip(t, b.selections[0].cursor);
    law_coord_round_trip(t, b.selections[0].anchor);
    law_delete_one(b);
    assert(t.take(range_start(s)) == u.take(range_start(s)));
    lemma_coord_prefix(t, u, range_start(s));
    law_index_round_trip(u, range_start(s));
}

/// What pasting does with one selection: the text goes in at the cursor.
pub proof fn law_paste_one(b: BufferView, piece: Seq<char>, extend: bool)
    requires
        b.selections.len() == 1,
    ensures
        ({
            let p = index_of(b.text, b.selections[0].cursor);
            let after = pasted(b, seq![piece], extend);
            &&& after.text == spliced(b.text, p, piece)
            &&& after.selections == seq![
                pasted_selection(after.text, b.selections[0], piece.len() as int, extend),
            ]
        }),
{
    let points = cursor_indices(b);
    lemma_one_place(points);
    reveal_with_fuel(pasted_up_to, 2);
    let order = from_back(points);
    assert(order[0] == 0);
    let after = pasted(b, seq![piece], extend);
    assert(after == pasted_at(b, points, order, 0, piece, extend));
    assert(after.selections =~= seq![
        pasted_selection(after.text, b.selections[0], piece.len() as int, extend),
    ]);
}

/// With one selection, pasting selects exactly what was pasted. The cursor's coordinate must still
/// stand for the place of the edit once the text is in.
pub proof fn law_paste_selects_piece(b: BufferView, piece: Seq<char>)
    requires
        b.text.len() + piece.len() <= usize::MAX,
        b.selections.len() == 1,
        ({
            let p = index_of(b.text, b.selections[0].cursor);
            index_of(spliced(b.text, p, piece), b.selections[0].cursor) == p
        }),
    ensures
        ({
            let after = pasted(b, seq![piece], false);
            let s = aligned(after.text, after.selections[0]);
            &&& range_start(s) == index_of(b.text, b.selections[0].cursor)
            &&& range_end(s) == range_start(s) + piece.len()
            &&& after.text.subrange(range_start(s), range_end(s)) == piece
        }),
{
    let p = index_of(b.text, b.selections[0].cursor);
    let u = spliced(b.text, p, piece);
    law_coord_round_trip(b.text, b.selections[0].cursor);
    law_paste_one(b, piece, false);
    law_index_round_trip(u, p + piece.len());
    assert(u.subrange(p, p + piece.len()) =~= piece);
}

/// What is pasted of ropes, and what they hold, goes rope by rope. The stored pieces of one are
/// pasted one before the other: the text is as long as it was, and is that of the pieces in
/// reverse.
pub proof fn law_pasted_pieces(yanked: Seq<Rope>, i: int)
    requires
        0 <= i < yanked.len(),
        joined(rope_chunks(yanked[i])) == rope_chars(yanked[i]),
    ensures
        texts_of(yanked).len() == yanked.len(),
        texts_of(yanked)[i] == rope_chars(yanked[i]),
        pasted_texts(yanked).len() == yanked.len(),
        pasted_texts(yanked)[i] == joined(rope_chunks(yanked[i]).reverse()),
        pasted_texts(yanked)[i].len() == rope_chars(yanked[i]).len(),
{
    lemma_joined_reverse(rope_chunks(yanked[i]));
}

proof fn lemma_joined_reverse(pieces: Seq<Seq<char>>)
    ensures
        joined_backwards(pieces) == joined(pieces.reverse()),
        joined_backwards(pieces).len() == joined(pieces).len(),
    decreases pieces.len(),
{
    if pieces.len() > 0 {
        lemma_joined_reverse(pieces.drop_last());
        lemma_joined_front(pieces.last(), pieces.drop_last().reverse());
        assert(pieces.reverse() =~= seq![pieces.last()] + pieces.drop_last().reverse());
    } else {
        assert(pieces.reverse() =~= pieces);
    }
}

proof fn lemma_joined_front(first: Seq<char>, rest: Seq<Seq<char>>)
    ensures
        joined(seq![first] + rest) == first + joined(rest),
    decreases rest.len(),
{
    let all = seq![first] + rest;
    if rest.len() > 0 {
        lemma_joined_front(first, rest.drop_last());
        assert(all.drop_last() =~= seq![first] + rest.drop_last());
        assert(first + (joined(rest.drop_last()) + rest.last()) =~= (first + joined(
            rest.drop_last(),
        )) + rest.last());
    } else {
        assert(all.drop_last() =~= Seq::<Seq<char>>::empty());
        assert(joined(all.drop_last()) =~= Seq::<char>::empty());
        assert(joined(rest) =~= Seq::<char>::empty());
        assert(Seq::<char>::empty() + first =~= first + Seq::<char>::empty());
    }
}

/// A rope that stores its text in one piece, or has none, is pasted as it is.
pub proof fn law_one_piece_pasted_whole(rope: Rope)
    requires
        joined(rope_chunks(rope)) == rope_chars(rope),
        rope_chunks(rope).len() <= 1,
    ensures
        pasted_text(rope) == rope_chars(rope),
{
    reveal_with_fuel(joined, 2);
    reveal_with_fuel(joined_backwards, 2);
    let pieces = rope_chunks(rope);
    if pieces.len() == 1 {
        assert(joined(pieces) == pieces[0]);
        assert(joined_backwards(pieces) == pieces[0]);
    }
}

/// With one selection, pasting what was deleted brings the text back. The cursor must stand where
/// the deleted text stood, and the deleted text must not change by being pasted piece by piece.
pub proof fn law_paste_undoes_delete(b: BufferView, yanked: Seq<Rope>, extend: bool)
    requires
        b.text.len() <= usize::MAX,
        b.selections.len() == 1,
        texts_of(yanked) == selected_texts(b),
        pasted_text(yanked[0]) == rope_chars(yanked[0]),
        index_of(deleted(b).text, deleted(b).selections[0].cursor) == range_start(
            aligned(b.text, b.selections[0]),
        ),
    ensures
        pasted(deleted(b), pasted_texts(yanked), extend).text == b.text,
{
    let s = aligned(b.text, b.selections[0]);
    let start = range_start(s);
    let end = range_end(s);
    law_coord_round_trip(b.text, b.selections[0].cursor);
    law_coord_round_trip(b.text, b.selections[0].anchor);
    law_delete_one(b);
    let piece = b.text.subrange(start, end);
    assert(texts_of(yanked).len() == yanked.len());
    assert(texts_of(yanked)[0] == rope_chars(yanked[0]));
    assert(selected_texts(b)[0] == piece);
    assert(pasted_texts(yanked) =~= seq![piece]);
    law_paste_one(deleted(b), piece, extend);
    assert(spliced(without(b.text, start, end), start, piece) =~= b.text);
}

/// Collapsed selections select nothing.
pub proof fn law_collapsed_selects_nothing(b: BufferView, i: int)
    ensures
        !selected(all_collapsed(b), i),
{
    let c = all_collapsed(b);
    assert forall|k: int| 0 <= k < c.selections.len() implies !covers(
        #[trigger] aligned(c.text, c.selections[k]),
        i,
    ) by {
        assert(c.selections[k] == collapsed(b.selections[k]));
    }
}

} // verus!
