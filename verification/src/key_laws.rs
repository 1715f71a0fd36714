//! What the keys do, in terms of the text and of where the selections stand in it.

use crate::buffer::{lines_extended, lines_selected, selected, BufferView};
use crate::coord::{coord_of, index_of, is_blank, law_coord_round_trip};
use crate::edit::{backspaced, cursor_indices, deleted, inserted, past_start, pasted, typed_up_to};
use crate::laws::{
    law_backspace_one, law_backward_index, law_delete_leaves_cursor, law_delete_one,
    law_forward_index, law_insert_one, law_line_selected, law_lines_extended, law_next_word,
    law_place_kept_by_splice, law_previous_word,
};
use crate::lines::{ends_line, lemma_line_of_monotone, line_count, line_of, spliced, without};
use crate::many::{
    kept, law_deleted_text, law_pasted_text, law_typed_text, places_from_back, selections_apart,
    stacked, woven,
};
use crate::mode::{allowed, mode_name, next_buffer, next_mode, prefix_text, yanks, Key, Mode};
use crate::order::{from_back, law_from_back};
use crate::paste_one::{break_kept, law_pasted_into_grows, law_pasted_places, within_lines};
use crate::selection::{aligned, range_end, range_start};
use crate::steps::{
    law_all_selected_ends, law_index_on_line, law_line_ends, law_lines_moved, law_moves_add_up,
    law_past_line_end, law_selection_range, law_typed_step, moved_on,
};
use crate::terminal::{decimal, digit};
use vstd::prelude::*;

verus! {

/// A buffer after the key of a character was pressed in the normal mode, behind a number.
pub open spec fn pressed(
    b: BufferView,
    pieces: Seq<Seq<char>>,
    number: Option<usize>,
    c: char,
) -> BufferView {
    next_buffer(Mode::Normal { num_prefix: number }, b, pieces, Key::Char(c))
}

/// Whether two buffers hold the same text, and as many selections with the same primary one.
pub open spec fn same_text(a: BufferView, b: BufferView) -> bool {
    &&& a.text == b.text
    &&& a.selections.len() == b.selections.len()
    &&& a.primary_sel_i == b.primary_sel_i
}

/// `l` goes as many characters on as the number says, one without a number, at most to the end of
/// the text, and `h` as many back, at most to the start. The anchor is left where the cursor was.
/// With shift the cursor goes the same way, and the anchor stays.
pub proof fn law_keys_by_characters(
    b: BufferView,
    pieces: Seq<Seq<char>>,
    number: Option<usize>,
    k: int,
)
    requires
        b.text.len() <= usize::MAX,
        0 <= k < b.selections.len(),
    ensures
        ({
            let n = if number is Some {
                number->0 as int
            } else {
                1
            };
            let s = b.selections[k];
            let i = index_of(b.text, s.cursor);
            let l = pressed(b, pieces, number, 'l');
            let h = pressed(b, pieces, number, 'h');
            let big_l = pressed(b, pieces, number, 'L');
            let big_h = pressed(b, pieces, number, 'H');
            &&& same_text(l, b) && same_text(h, b) && same_text(big_l, b) && same_text(big_h, b)
            &&& moved_on(b.text.len() as int, i, n, index_of(b.text, l.selections[k].cursor))
            &&& n <= i ==> index_of(b.text, h.selections[k].cursor) == i - n
            &&& n > i ==> index_of(b.text, h.selections[k].cursor) == 0
            &&& l.selections[k].anchor == s.cursor
            &&& h.selections[k].anchor == s.cursor
            &&& big_l.selections[k].cursor == l.selections[k].cursor
            &&& big_h.selections[k].cursor == h.selections[k].cursor
            &&& big_l.selections[k].anchor == s.anchor
            &&& big_h.selections[k].anchor == s.anchor
        }),
{
    let n = if number is Some {
        number->0 as int
    } else {
        1
    };
    law_forward_index(b.text, b.selections[k].cursor, n);
    law_backward_index(b.text, b.selections[k].cursor, n);
}

/// `j` goes as many lines down as the number says, one without a number, at most to the last line,
/// and `k` as many up, at most to the first. The column stays, and the anchor is left where the
/// cursor was. With shift the cursor goes the same way, and the anchor stays.
pub proof fn law_keys_by_lines(
    b: BufferView,
    pieces: Seq<Seq<char>>,
    number: Option<usize>,
    i: int,
)
    requires
        line_count(b.text) <= usize::MAX,
        0 <= i < b.selections.len(),
    ensures
        ({
            let n = if number is Some {
                number->0 as int
            } else {
                1
            };
            let s = b.selections[i];
            let j = pressed(b, pieces, number, 'j');
            let k = pressed(b, pieces, number, 'k');
            let big_j = pressed(b, pieces, number, 'J');
            let big_k = pressed(b, pieces, number, 'K');
            &&& same_text(j, b) && same_text(k, b) && same_text(big_j, b) && same_text(big_k, b)
            &&& j.selections[i].cursor.column == s.cursor.column
            &&& s.cursor.line + n < line_count(b.text) ==> j.selections[i].cursor.line
                == s.cursor.line + n
            &&& s.cursor.line + n >= line_count(b.text) ==> j.selections[i].cursor.line
                == line_count(b.text) - 1
            &&& k.selections[i].cursor.column == s.cursor.column
            &&& n <= s.cursor.line ==> k.selections[i].cursor.line == s.cursor.line - n
            &&& n > s.cursor.line ==> k.selections[i].cursor.line == 0
            &&& j.selections[i].anchor == s.cursor
            &&& k.selections[i].anchor == s.cursor
            &&& big_j.selections[i].cursor == j.selections[i].cursor
            &&& big_k.selections[i].cursor == k.selections[i].cursor
            &&& big_j.selections[i].anchor == s.anchor
            &&& big_k.selections[i].anchor == s.anchor
        }),
{
    let n = if number is Some {
        number->0 as int
    } else {
        1
    };
    law_lines_moved(b.text, b.selections[i].cursor, n);
}

/// Moving keys count: pressing one behind a number puts the cursors where pressing it behind the
/// number before, and then once more without a number, does.
pub proof fn law_numbers_count(b: BufferView, pieces: Seq<Seq<char>>, n: usize, c: char, i: int)
    requires
        b.text.len() <= usize::MAX,
        line_count(b.text) <= usize::MAX,
        n < usize::MAX,
        0 <= i < b.selections.len(),
        c == 'h' || c == 'j' || c == 'k' || c == 'l' || c == 'H' || c == 'J' || c == 'K' || c
            == 'L',
    ensures
        ({
            let at_once = pressed(b, pieces, Some((n + 1) as usize), c);
            let in_turn = pressed(pressed(b, pieces, Some(n), c), pieces, None, c);
            at_once.selections[i].cursor == in_turn.selections[i].cursor
        }),
{
    law_moves_add_up(b.text, b.selections[i].cursor, n as int, 1);
}

/// Pressing a moving key behind the number one is pressing it without a number.
pub proof fn law_number_one(b: BufferView, pieces: Seq<Seq<char>>, c: char)
    ensures
        pressed(b, pieces, Some(1), c) == pressed(b, pieces, None, c),
{
}

/// `w` selects a word forward: from each cursor on nothing but blanks come before it, no blank is
/// in it, and a blank or the end of the text comes behind it. `b` selects the word before it in the
/// same way, backward.
pub proof fn law_word_keys(
    b: BufferView,
    pieces: Seq<Seq<char>>,
    number: Option<usize>,
    k: int,
)
    requires
        b.text.len() <= usize::MAX,
        0 <= k < b.selections.len(),
    ensures
        ({
            let t = b.text;
            let i = index_of(t, b.selections[k].cursor);
            let w = pressed(b, pieces, number, 'w');
            let start = index_of(t, w.selections[k].anchor);
            let end = index_of(t, w.selections[k].cursor);
            &&& same_text(w, b)
            &&& i <= start <= end <= t.len()
            &&& forall|x: int| i <= x < start ==> is_blank(#[trigger] t[x])
            &&& forall|x: int| start <= x < end ==> !is_blank(#[trigger] t[x])
            &&& end < t.len() ==> is_blank(t[end])
            &&& start < t.len() ==> start < end
        }),
        ({
            let t = b.text;
            let i = index_of(t, b.selections[k].cursor);
            let back = pressed(b, pieces, number, 'b');
            let end = index_of(t, back.selections[k].anchor);
            let start = index_of(t, back.selections[k].cursor);
            &&& same_text(back, b)
            &&& 0 <= start <= end <= i
            &&& forall|x: int| end <= x < i ==> is_blank(#[trigger] t[x])
            &&& forall|x: int| start <= x < end ==> !is_blank(#[trigger] t[x])
            &&& start > 0 ==> is_blank(t[start - 1])
            &&& end > 0 ==> start < end
        }),
{
    law_next_word(b.text, b.selections[k].cursor);
    law_previous_word(b.text, b.selections[k].cursor);
}

/// `x` selects the characters of the cursor's line, and no others, forward. `X` selects those of
/// all lines from that of the selection's earlier end to the cursor's.
pub proof fn law_line_keys(
    b: BufferView,
    pieces: Seq<Seq<char>>,
    number: Option<usize>,
    k: int,
    i: int,
)
    requires
        b.text.len() <= usize::MAX,
        0 <= k < b.selections.len(),
        b.selections[k].cursor.line < line_count(b.text),
    ensures
        ({
            let t = b.text;
            let s = b.selections[k];
            let x = pressed(b, pieces, number, 'x');
            let from = index_of(t, x.selections[k].anchor);
            let to = index_of(t, x.selections[k].cursor);
            &&& same_text(x, b)
            &&& from <= to
            &&& from <= i < to <==> 0 <= i < t.len() && line_of(t, i) == s.cursor.line
        }),
        ({
            let t = b.text;
            let s = b.selections[k];
            let first = if s.anchor.line < s.cursor.line {
                s.anchor.line
            } else {
                s.cursor.line
            };
            let x = pressed(b, pieces, number, 'X');
            let from = index_of(t, x.selections[k].anchor);
            let to = index_of(t, x.selections[k].cursor);
            &&& same_text(x, b)
            &&& from <= to
            &&& from <= i < to <==> 0 <= i < t.len() && first <= line_of(t, i) <= s.cursor.line
        }),
{
    let t = b.text;
    let x = pressed(b, pieces, number, 'x');
    let big_x = pressed(b, pieces, number, 'X');
    law_line_selected(b, k, i);
    law_lines_extended(b, k, i);
    law_line_ends(b, k);
    law_selection_range(t, x.selections[k], i);
    law_selection_range(t, big_x.selections[k], i);
    lemma_line_runs_forward(t, b, k);
}

proof fn lemma_line_runs_forward(t: Seq<char>, b: BufferView, k: int)
    requires
        t == b.text,
        b.text.len() <= usize::MAX,
        0 <= k < b.selections.len(),
        b.selections[k].cursor.line < line_count(b.text),
    ensures
        ({
            let one = lines_selected(b).selections[k];
            let more = lines_extended(b).selections[k];
            &&& index_of(t, one.anchor) <= index_of(t, one.cursor)
            &&& index_of(t, more.anchor) <= index_of(t, more.cursor)
        }),
{
    let s = b.selections[k];
    let one = lines_selected(b).selections[k];
    let more = lines_extended(b).selections[k];
    law_line_ends(b, k);
    law_past_line_end(t, s.cursor);
    law_index_on_line(t, one.anchor);
    law_index_on_line(t, more.anchor);
    let end = index_of(t, one.cursor);
    law_coord_round_trip(t, one.cursor);
    if end < index_of(t, one.anchor) {
        lemma_line_of_monotone(t, end, index_of(t, one.anchor));
    }
    if end < index_of(t, more.anchor) {
        lemma_line_of_monotone(t, end, index_of(t, more.anchor));
    }
}

/// `%` selects every character with one selection, in the direction of the primary one, and `'`
/// puts the ends of each selection in each other's place.
pub proof fn law_selecting_keys(
    b: BufferView,
    pieces: Seq<Seq<char>>,
    number: Option<usize>,
    k: int,
)
    requires
        b.text.len() <= usize::MAX,
        0 <= b.primary_sel_i < b.selections.len(),
        0 <= k < b.selections.len(),
    ensures
        ({
            let s = b.selections[b.primary_sel_i];
            let all = pressed(b, pieces, number, '%');
            let anchor = index_of(b.text, all.selections[0].anchor);
            let cursor = index_of(b.text, all.selections[0].cursor);
            &&& all.text == b.text
            &&& all.selections.len() == 1
            &&& all.primary_sel_i == b.primary_sel_i
            &&& index_of(b.text, s.anchor) <= index_of(b.text, s.cursor) ==> anchor == 0 && cursor
                == b.text.len()
            &&& index_of(b.text, s.anchor) > index_of(b.text, s.cursor) ==> cursor == 0 && anchor
                == b.text.len()
        }),
        ({
            let swapped = pressed(b, pieces, number, '\'');
            &&& same_text(swapped, b)
            &&& swapped.selections[k].anchor == b.selections[k].cursor
            &&& swapped.selections[k].cursor == b.selections[k].anchor
        }),
{
    law_all_selected_ends(b);
}

/// `d` leaves the characters that are not selected, where no two selections share one, and with one
/// selection the cursor stands where the first of them stood.
pub proof fn law_delete_key(b: BufferView, pieces: Seq<Seq<char>>, number: Option<usize>)
    requires
        b.text.len() <= usize::MAX,
        selections_apart(b),
    ensures
        ({
            let after = pressed(b, pieces, number, 'd');
            after.text == kept(b.text, |i: int| selected(b, i), 0)
        }),
        b.selections.len() == 1 ==> {
            let a = index_of(b.text, b.selections[0].anchor);
            let c = index_of(b.text, b.selections[0].cursor);
            let from = if a <= c {
                a
            } else {
                c
            };
            let to = if a <= c {
                c
            } else {
                a
            };
            let after = pressed(b, pieces, number, 'd');
            let s = after.selections[0];
            &&& after.text == b.text.take(from) + b.text.skip(to)
            &&& after.selections.len() == 1
            &&& s.anchor == s.cursor
            &&& within_lines(b.text, b.selections[0]) && ends_line(b.text, from - 1) == ends_line(
                after.text,
                from - 1,
            ) ==> index_of(after.text, s.cursor) == from
        },
{
    law_deleted_text(b);
    if b.selections.len() == 1 {
        law_selection_range(b.text, b.selections[0], 0);
        law_delete_one(b);
        let s = aligned(b.text, b.selections[0]);
        if within_lines(b.text, b.selections[0]) && ends_line(b.text, range_start(s) - 1)
            == ends_line(
            without(b.text, range_start(s), range_end(s)),
            range_start(s) - 1,
        ) {
            law_delete_leaves_cursor(b);
        }
    }
}

/// `y` changes nothing of the buffer. `p` puts the pieces in before the cursors, the first at the
/// last one, and `P` puts the same text in.
pub proof fn law_paste_keys(b: BufferView, pieces: Seq<Seq<char>>, number: Option<usize>)
    requires
        b.text.len() <= usize::MAX,
    ensures
        pressed(b, pieces, number, 'y') == b,
        ({
            let places = places_from_back(cursor_indices(b));
            let after = pressed(b, pieces, number, 'p');
            &&& after.text == woven(
                b.text,
                |i: int| stacked(places, pieces, places.len() as int, i),
                0,
            )
            &&& pressed(b, pieces, number, 'P').text == after.text
        }),
{
    law_pasted_text(b, pieces, false);
    law_pasted_text(b, pieces, true);
}

/// The keys that edit make the edits at every selection.
pub proof fn law_editing_keys(b: BufferView, pieces: Seq<Seq<char>>, number: Option<usize>, c: char)
    ensures
        pressed(b, pieces, number, 'd') == deleted(b),
        pressed(b, pieces, number, 'p') == pasted(b, pieces, false),
        pressed(b, pieces, number, 'P') == pasted(b, pieces, true),
        next_buffer(Mode::Insert, b, pieces, Key::Char(c)) == inserted(b, c),
        past_start(b) ==> next_buffer(Mode::Insert, b, pieces, Key::Backspace) == backspaced(b),
        !past_start(b) ==> next_buffer(Mode::Insert, b, pieces, Key::Backspace) == b,
{
}

/// With one selection and one piece, `p` selects the piece, in the direction of the selection, and
/// `P` makes a selection that runs forward longer by it.
pub proof fn law_paste_keys_one(b: BufferView, piece: Seq<char>, number: Option<usize>)
    requires
        b.text.len() + piece.len() <= usize::MAX,
        b.selections.len() == 1,
        within_lines(b.text, b.selections[0]),
        ({
            let s = b.selections[0];
            let p = index_of(b.text, s.cursor);
            &&& break_kept(b.text, p, piece)
            &&& index_of(b.text, s.anchor) > p && s.anchor.line == s.cursor.line ==> !ends_line(
                spliced(b.text, p, piece),
                p,
            )
        }),
    ensures
        ({
            let p = index_of(b.text, b.selections[0].cursor);
            let a = index_of(b.text, b.selections[0].anchor);
            let after = pressed(b, seq![piece], number, 'p');
            let anchor = index_of(after.text, after.selections[0].anchor);
            let cursor = index_of(after.text, after.selections[0].cursor);
            &&& after.text == b.text.take(p) + piece + b.text.skip(p)
            &&& a > p ==> cursor == p && anchor == p + piece.len()
            &&& a <= p ==> anchor == p && cursor == p + piece.len()
        }),
        ({
            let p = index_of(b.text, b.selections[0].cursor);
            let a = index_of(b.text, b.selections[0].anchor);
            let after = pressed(b, seq![piece], number, 'P');
            let anchor = index_of(after.text, after.selections[0].anchor);
            let cursor = index_of(after.text, after.selections[0].cursor);
            a <= p ==> anchor == a && cursor == p + piece.len()
        }),
{
    law_pasted_places(b, piece);
    if index_of(b.text, b.selections[0].anchor) <= index_of(b.text, b.selections[0].cursor) {
        law_pasted_into_grows(b, piece);
    }
}

/// A key that is no command leaves the buffer as it is.
pub proof fn law_other_keys(
    mode: Mode,
    b: BufferView,
    pieces: Seq<Seq<char>>,
    key: Key,
)
    requires
        key is Esc || key is Other || (mode is Normal && key is Backspace) || (mode is Normal
            && key is Char && !seq![
            'h', 'j', 'k', 'l', 'H', 'J', 'K', 'L', 'w', 'b', 'x', 'X', '%', '\'', 'd', 'p', 'P',
        ].contains(key->Char_0)),
    ensures
        next_buffer(mode, b, pieces, key) == b,
{
    let commands = seq![
        'h', 'j', 'k', 'l', 'H', 'J', 'K', 'L', 'w', 'b', 'x', 'X', '%', '\'', 'd', 'p', 'P',
    ];
    assert(commands[0] == 'h' && commands[1] == 'j' && commands[2] == 'k' && commands[3] == 'l');
    assert(commands[4] == 'H' && commands[5] == 'J' && commands[6] == 'K' && commands[7] == 'L');
    assert(commands[8] == 'w' && commands[9] == 'b' && commands[10] == 'x' && commands[11] == 'X');
    assert(commands[12] == '%' && commands[13] == '\'' && commands[14] == 'd');
    assert(commands[15] == 'p' && commands[16] == 'P');
}

/// In the insert mode every character, a line break too, is put in before every cursor, once for
/// each cursor that stands there, and nothing else of the text changes.
pub proof fn law_typing_key(b: BufferView, pieces: Seq<Seq<char>>, c: char)
    requires
        b.text.len() <= usize::MAX,
    ensures
        next_buffer(Mode::Insert, b, pieces, Key::Char(c)).text == woven(
            b.text,
            |i: int| Seq::new(cursor_indices(b).to_multiset().count(i), |j: int| c),
            0,
        ),
{
    law_typed_text(b, c);
}

/// In the insert mode with one selection every character, a line break too, goes in where the
/// cursor stands. What stood before it stays, what stood behind it is one further on, and nothing
/// is selected. The cursor stands behind the character, unless its column lay past the end of its
/// line or a pair of carriage return and line feed was made or split.
pub proof fn law_typing_key_one(b: BufferView, pieces: Seq<Seq<char>>, c: char)
    requires
        b.text.len() < usize::MAX,
        b.selections.len() == 1,
    ensures
        ({
            let p = index_of(b.text, b.selections[0].cursor);
            let after = next_buffer(Mode::Insert, b, pieces, Key::Char(c));
            let s = after.selections[0];
            &&& after.text.len() == b.text.len() + 1
            &&& after.text[p] == c
            &&& forall|i: int| 0 <= i < p ==> #[trigger] after.text[i] == b.text[i]
            &&& forall|i: int| p <= i < b.text.len() ==> #[trigger] b.text[i] == after.text[i + 1]
            &&& after.selections.len() == 1
            &&& s.anchor == s.cursor
            &&& within_lines(b.text, b.selections[0]) && break_kept(b.text, p, seq![c])
                ==> index_of(after.text, s.cursor) == p + 1
        }),
{
    let p = index_of(b.text, b.selections[0].cursor);
    law_coord_round_trip(b.text, b.selections[0].cursor);
    lemma_inserted_one(b, c);
    if within_lines(b.text, b.selections[0]) && break_kept(b.text, p, seq![c]) {
        law_place_kept_by_splice(b.text, b.selections[0].cursor, seq![c]);
        law_insert_one(b, c);
    }
}

proof fn lemma_inserted_one(b: BufferView, c: char)
    requires
        b.text.len() < usize::MAX,
        b.selections.len() == 1,
    ensures
        inserted(b, c).text == spliced(
            b.text,
            index_of(b.text, b.selections[0].cursor),
            seq![c],
        ),
        inserted(b, c).selections.len() == 1,
        inserted(b, c).selections[0].anchor == inserted(b, c).selections[0].cursor,
{
    let points = cursor_indices(b);
    let order = from_back(points);
    law_from_back(points);
    law_coord_round_trip(b.text, b.selections[0].cursor);
    assert(0 <= order[0] < 1);
    assert(points[order[0]] == index_of(b.text, b.selections[0].cursor));
    reveal_with_fuel(typed_up_to, 2);
    assert(order.take(1)[0] == 0);
    law_typed_step(b, points, order, 0, c, 0);
}

/// In the insert mode with one selection a backspace takes the character before the cursor out of
/// the text, and puts the cursor there; at the start of the text it does nothing.
pub proof fn law_backspace_key_one(b: BufferView, pieces: Seq<Seq<char>>)
    requires
        b.text.len() <= usize::MAX,
        b.selections.len() == 1,
    ensures
        ({
            let p = index_of(b.text, b.selections[0].cursor);
            let after = next_buffer(Mode::Insert, b, pieces, Key::Backspace);
            &&& p == 0 ==> after == b
            &&& p > 0 ==> {
                &&& after.text == b.text.take(p - 1) + b.text.skip(p)
                &&& after.selections.len() == 1
                &&& after.selections[0].anchor == after.selections[0].cursor
                &&& after.selections[0].cursor == coord_of(b.text, p - 1)
            }
        }),
{
    law_coord_round_trip(b.text, b.selections[0].cursor);
    if index_of(b.text, b.selections[0].cursor) > 0 {
        law_backspace_one(b);
    } else {
        assert(!past_start(b)) by {
            assert(index_of(b.text, b.selections[0].cursor) == 0);
        }
    }
}

/// Typing a digit in the normal mode puts it behind the number before a command, as it is shown,
/// unless the number is none or zero, which it replaces. A number too large becomes the largest.
pub proof fn law_digit_keys(number: Option<usize>, c: char)
    requires
        '0' <= c && c <= '9',
    ensures
        ({
            let d = c as int - '0' as int;
            let n = if number is Some {
                number->0 as int
            } else {
                0
            };
            let after = next_mode(Mode::Normal { num_prefix: number }, Key::Char(c));
            &&& after is Normal
            &&& after->num_prefix is Some
            &&& 10 * n + d <= usize::MAX ==> after->num_prefix->0 == 10 * n + d
            &&& 10 * n + d > usize::MAX ==> after->num_prefix->0 == usize::MAX
            &&& 0 < n && 10 * n + d <= usize::MAX ==> prefix_text(after) == prefix_text(
                Mode::Normal { num_prefix: number },
            ).push(c)
            &&& n == 0 ==> prefix_text(after) == seq![c]
        }),
{
    let d = c as int - '0' as int;
    assert(digit(d as nat) == c);
    if number is Some {
        let n = number->0 as nat;
        if 0 < n && 10 * n + d <= usize::MAX {
            let v = (10 * n + d) as nat;
            assert(v / 10 == n && v % 10 == d);
            assert(decimal(v) == decimal(n).push(c));
        }
    }
}

/// No number is shown before one was typed, nor in the insert mode, and the modes are told apart by
/// their names.
pub proof fn law_modes_shown()
    ensures
        prefix_text(Mode::Insert).len() == 0,
        prefix_text(Mode::Normal { num_prefix: None }).len() == 0,
        forall|n: Option<usize>|
            #[trigger] mode_name(Mode::Normal { num_prefix: n }) == "normal"@,
        mode_name(Mode::Insert) == "insert"@,
{
}

/// `i` goes from the normal to the insert mode and `Esc` back. Any other key but a digit keeps the
/// mode, and the normal mode then has no number.
pub proof fn law_mode_keys(mode: Mode, key: Key)
    ensures
        mode is Insert ==> (next_mode(mode, key) is Insert <==> !(key is Esc)),
        mode is Normal ==> (next_mode(mode, key) is Insert <==> key == Key::Char('i')),
        next_mode(mode, key) is Normal && (next_mode(mode, key)->num_prefix) is Some
            ==> mode is Normal && key is Char && '0' <= key->Char_0 && key->Char_0 <= '9',
{
}

/// `d` and `y` in the normal mode, and nothing else, yank. Nothing but `d` and a backspace ever
/// needs leave, and selections that share no character can always be deleted.
pub proof fn law_yanking_keys(mode: Mode, b: BufferView, key: Key)
    requires
        b.text.len() <= usize::MAX,
    ensures
        yanks(mode, key) <==> mode is Normal && (key == Key::Char('d') || key == Key::Char('y')),
        key != Key::Char('d') && !(key is Backspace) ==> allowed(mode, b, key),
        key == Key::Char('d') && selections_apart(b) ==> allowed(mode, b, key),
{
    if selections_apart(b) {
        law_deleted_text(b);
    }
}

} // verus!
