//! What becomes of several selections on one line when the text is edited at all of them.

use crate::buffer::{selected_texts, shifted_coord_back, BufferView};
use crate::coord::{
    coord_of, index_of, law_coord_round_trip, law_index_round_trip, lemma_coord_of, trimmed, Coord,
};
use crate::edit::{
    all_collapsed, all_cut, among_first, backspaced, can_cut, cursor_indices, cut_up_to, deleted,
    inserted, left_after, lemma_among_first_grows, past_start, pasted, pasted_selection,
    pasted_up_to, pushed_on, range_from_back, ranges_before_cursors, selected_ranges, starts,
    typed_up_to,
};
use crate::lines::{
    ends_line, is_line_break, lemma_line_holds, lemma_line_of_monotone, lemma_line_of_prefix,
    lemma_line_start, lemma_line_start_is, line_of, line_start, spliced, starts_line, without,
};
use crate::many::{
    apart, in_range, kept, law_apart_can_be_cut, law_cut_text, lemma_apart_from_back,
    lemma_kept_same, lemma_kept_untouched, lemma_left_after, lemma_selected_ranges_apart,
    selections_apart,
};
use crate::order::{from_back, law_from_back, law_from_back_unique, law_place_is_rank, rank, sooner};
use crate::selection::{aligned, range_end, range_start, runs_forward};
use std::ops::Range;
use vstd::prelude::*;

verus! {

/// Whether `p` lies between a carriage return and its line feed.
pub open spec fn splits_pair(t: Seq<char>, p: int) -> bool {
    0 < p < t.len() && t[p - 1] == '\u{d}' && t[p] == '\u{a}'
}

/// Whether a piece of text breaks no line.
pub open spec fn breaks_no_line(piece: Seq<char>) -> bool {
    forall|x: int| 0 <= x < piece.len() ==> !is_line_break(#[trigger] piece[x])
}

/// Putting in a piece that breaks no line, and splits no line break, leaves the lines before it as
/// they were, and moves those behind it by as many indices.
pub proof fn lemma_lines_after_splice(t: Seq<char>, p: int, piece: Seq<char>, i: int)
    requires
        0 <= p <= t.len(),
        0 <= i <= t.len() + piece.len(),
        breaks_no_line(piece),
        !splits_pair(t, p),
    ensures
        ({
            let u = spliced(t, p, piece);
            &&& i <= p ==> line_of(u, i) == line_of(t, i)
            &&& p <= i <= p + piece.len() ==> line_of(u, i) == line_of(t, p)
            &&& i >= p + piece.len() ==> line_of(u, i) == line_of(t, i - piece.len())
        }),
    decreases i,
{
    let u = spliced(t, p, piece);
    let n = piece.len() as int;
    if i <= p {
        assert(t.take(p) =~= u.take(p));
        if i == p && 0 < p {
            assert(u[p - 1] == t[p - 1]);
            if 0 < n {
                assert(u[p] == piece[0]);
            } else {
                assert(u =~= t);
            }
        }
        lemma_line_of_prefix(t, u, p, i);
    } else {
        lemma_lines_after_splice(t, p, piece, i - 1);
        if i <= p + n {
            assert(u[i - 1] == piece[i - 1 - p]);
        } else {
            assert(u[i - 1] == t[i - 1 - n]);
            if i < u.len() {
                assert(u[i] == t[i - n]);
            }
            assert(ends_line(u, i - 1) == ends_line(t, i - 1 - n));
        }
    }
}

/// The line and column of a place on the line of a piece that was put in are what they were.
proof fn lemma_places_after_splice(t: Seq<char>, p: int, piece: Seq<char>, q: int)
    requires
        0 <= p <= t.len(),
        t.len() + piece.len() <= usize::MAX,
        0 <= q <= t.len(),
        line_of(t, q) == line_of(t, p),
        breaks_no_line(piece),
        !splits_pair(t, p),
    ensures
        ({
            let u = spliced(t, p, piece);
            &&& line_of(u, q) == line_of(t, p)
            &&& coord_of(u, q) == coord_of(t, q)
            &&& index_of(u, coord_of(t, q)) == q
            &&& q >= p ==> line_of(u, q + piece.len()) == line_of(t, p)
            &&& line_start(u, line_of(t, p) as int) == line_start(t, line_of(t, p) as int)
        }),
{
    let u = spliced(t, p, piece);
    let n = piece.len() as int;
    let line = line_of(t, p) as int;
    lemma_lines_after_splice(t, p, piece, q);
    lemma_lines_after_splice(t, p, piece, q + n);
    if q > p + n {
        lemma_line_of_monotone(t, p, q - n);
        lemma_line_of_monotone(t, q - n, q);
    }
    assert(line_of(u, q) == line);
    // The line starts where it did.
    lemma_line_holds(t, p);
    lemma_line_start(t, line);
    let s = line_start(t, line);
    lemma_lines_after_splice(t, p, piece, s);
    if 0 < s {
        assert(u[s - 1] == t[s - 1]);
        if s < p {
            assert(u[s] == t[s]);
        } else if 0 < n {
            assert(u[s] == piece[0]);
        } else {
            assert(u =~= t);
        }
    }
    assert(starts_line(u, line, s));
    lemma_line_start_is(u, line, s);
    assert(coord_of(u, q) == coord_of(t, q));
    law_index_round_trip(u, q);
}

/// Whether the cursors of a buffer all stand on one line, each within its columns and none inside
/// a line break.
pub open spec fn cursors_on_line(b: BufferView, line: int) -> bool {
    forall|j: int|
        #![trigger b.selections[j]]
        0 <= j < b.selections.len() ==> {
            let c = b.selections[j].cursor;
            &&& c.line == line
            &&& trimmed(b.text, c) == c
            &&& !splits_pair(b.text, index_of(b.text, c))
        }
}

/// What holds of the selection that comes at `i` from the back once the last `k` were typed at.
spec fn typed_right(b: BufferView, line: int, ch: char, k: int, i: int) -> bool {
    let points = cursor_indices(b);
    let after = typed_up_to(b, points, ch, k);
    let j = from_back(points)[i];
    let s = after.selections[j];
    let at = if i < k {
        points[j] + (k - i)
    } else {
        points[j]
    };
    &&& s.cursor == coord_of(after.text, at)
    &&& line_of(after.text, at) == line
    &&& 0 <= at <= after.text.len()
    &&& i < k ==> s.anchor == s.cursor && after.text[at - 1] == ch
}

proof fn lemma_typed_on_one_line(b: BufferView, line: int, ch: char, k: int)
    requires
        b.text.len() + b.selections.len() <= usize::MAX,
        cursors_on_line(b, line),
        !is_line_break(ch),
        0 <= k <= b.selections.len(),
    ensures
        ({
            let points = cursor_indices(b);
            let after = typed_up_to(b, points, ch, k);
            &&& after.text.len() == b.text.len() + k
            &&& after.selections.len() == b.selections.len()
            &&& forall|i: int|
                0 <= i < b.selections.len() ==> #[trigger] typed_right(b, line, ch, k, i)
            &&& forall|p: int|
                0 <= p <= b.text.len() && (k > 0 ==> p <= points[from_back(points)[k - 1]])
                    ==> after.text.take(p) == #[trigger] b.text.take(p)
            &&& k < b.selections.len() ==> !splits_pair(after.text, points[from_back(points)[k]])
            &&& b.selections.len() > 0 ==> line_start(after.text, line) == line_start(b.text, line)
        }),
    decreases k,
{
    let points = cursor_indices(b);
    let order = from_back(points);
    let n = b.selections.len() as int;
    law_from_back(points);
    assert forall|i: int| 0 <= i < n implies 0 <= #[trigger] points[order[i]] <= b.text.len()
        && b.selections[order[i]].cursor == coord_of(b.text, points[order[i]]) && line_of(
        b.text,
        points[order[i]],
    ) == line && !splits_pair(b.text, points[order[i]]) by {
        let c = b.selections[order[i]].cursor;
        law_coord_round_trip(b.text, c);
        lemma_coord_of(b.text, index_of(b.text, c));
    }
    if k <= 0 {
        assert forall|i: int| 0 <= i < n implies #[trigger] typed_right(b, line, ch, k, i) by {
            assert(0 <= points[order[i]] <= b.text.len());
        }
        if n > 0 {
            assert(0 <= points[order[0]] <= b.text.len());
        }
    } else {
        lemma_typed_on_one_line(b, line, ch, k - 1);
        let before = typed_up_to(b, points, ch, k - 1);
        let after = typed_up_to(b, points, ch, k);
        let t = before.text;
        let p = points[order[k - 1]];
        assert(0 <= p <= b.text.len());
        assert(typed_right(b, line, ch, k - 1, k - 1));
        assert(after.text == spliced(t, p, seq![ch]));
        lemma_places_after_splice(t, p, seq![ch], p);
        assert forall|i: int| 0 <= i < n implies #[trigger] typed_right(b, line, ch, k, i) by {
            assert(typed_right(b, line, ch, k - 1, i));
            let j = order[i];
            let at = if i < k - 1 {
                points[j] + (k - 1 - i)
            } else {
                points[j]
            };
            lemma_places_after_splice(t, p, seq![ch], at);
            if i < k {
                if i < k - 1 {
                    assert(sooner(points, order[i], order[k - 1]));
                }
                assert(among_first(order, k, j));
                assert(after.text[at] == ch) by {
                    if at > p {
                        assert(after.text[at] == t[at - 1]);
                    }
                }
            } else {
                assert(!among_first(order, k, j)) by {
                    if among_first(order, k, j) {
                        let x = choose|x: int| 0 <= x < k && #[trigger] order[x] == j;
                        assert(sooner(points, order[x], order[i]));
                    }
                }
            }
        }
        assert forall|q: int| 0 <= q <= b.text.len() && q <= p implies after.text.take(q)
            == #[trigger] b.text.take(q) by {
            if k > 1 {
                assert(sooner(points, order[k - 2], order[k - 1]));
            }
            assert(t.take(q) == b.text.take(q));
            assert(after.text.take(q) =~= t.take(q));
        }
        if k < n {
            let q = points[order[k]];
            assert(sooner(points, order[k - 1], order[k]));
            assert(0 <= q <= b.text.len());
            assert(after.text.take(q) == b.text.take(q));
            if 0 < q {
                assert(after.text[q - 1] == after.text.take(q)[q - 1]);
                assert(b.text[q - 1] == b.text.take(q)[q - 1]);
            }
            if q == p {
                assert(after.text[q] == ch);
            } else {
                assert(after.text.take(q + 1) == b.text.take(q + 1));
                assert(after.text[q] == after.text.take(q + 1)[q]);
                assert(b.text[q] == b.text.take(q + 1)[q]);
            }
        }
    }
}

/// Typing with several cursors on one line leaves each directly behind a typed character, moved on
/// by one for itself and one for each that comes after it in the order from the back, with nothing
/// selected.
///
/// The character may not break the line. A cursor past the end of its line, inside a line break,
/// or on a later line than another need not end up behind its character.
pub proof fn law_typed_on_one_line(b: BufferView, line: int, ch: char, i: int)
    requires
        b.text.len() + b.selections.len() <= usize::MAX,
        cursors_on_line(b, line),
        !is_line_break(ch),
        0 <= i < b.selections.len(),
    ensures
        ({
            let j = from_back(cursor_indices(b))[i];
            let after = inserted(b, ch);
            let at = cursor_indices(b)[j] + (b.selections.len() - i);
            &&& index_of(after.text, after.selections[j].cursor) == at
            &&& after.selections[j].anchor == after.selections[j].cursor
            &&& after.text[at - 1] == ch
        }),
{
    let n = b.selections.len() as int;
    lemma_typed_on_one_line(b, line, ch, n);
    assert(typed_right(b, line, ch, n, i));
    let j = from_back(cursor_indices(b))[i];
    law_index_round_trip(inserted(b, ch).text, cursor_indices(b)[j] + (n - i));
}

/// How many characters the first `k` pieces have.
pub open spec fn grown(pieces: Seq<Seq<char>>, k: int) -> int
    decreases k,
{
    if k <= 0 {
        0
    } else {
        grown(pieces, k - 1) + pieces[k - 1].len()
    }
}

proof fn lemma_grown(pieces: Seq<Seq<char>>, i: int, k: int)
    requires
        0 <= i <= k,
    ensures
        0 <= grown(pieces, i) <= grown(pieces, k),
    decreases k,
{
    if i < k {
        lemma_grown(pieces, i, k - 1);
    } else if 0 < k {
        lemma_grown(pieces, i - 1, k - 1);
    }
}

/// Whether the anchor of the selection at `j` stands on a line, within its columns.
pub open spec fn anchor_on_line(b: BufferView, line: int, j: int) -> bool {
    let c = b.selections[j].anchor;
    &&& c.line == line
    &&& trimmed(b.text, c) == c
}

/// What holds of the selection that comes at `i` from the back once the first `k` pieces were
/// pasted.
spec fn pasted_right(b: BufferView, line: int, pieces: Seq<Seq<char>>, k: int, i: int) -> bool {
    let points = cursor_indices(b);
    let after = pasted_up_to(b, points, pieces, false, k);
    let j = from_back(points)[i];
    let s = after.selections[j];
    if i < k {
        let start = points[j] + grown(pieces, k) - grown(pieces, i + 1);
        let end = start + pieces[i].len();
        &&& 0 <= start <= end <= after.text.len()
        &&& line_of(after.text, start) == line
        &&& line_of(after.text, end) == line
        &&& after.text.subrange(start, end) == pieces[i]
        &&& {
            ||| s.anchor == coord_of(after.text, start) && s.cursor == coord_of(after.text, end)
            ||| s.anchor == coord_of(after.text, end) && s.cursor == coord_of(after.text, start)
        }
        &&& anchor_on_line(b, line, j) ==> s.cursor == coord_of(
            after.text,
            if runs_forward(aligned(b.text, b.selections[j])) {
                end
            } else {
                start
            },
        )
        &&& anchor_on_line(b, line, j) ==> s.anchor == coord_of(
            after.text,
            if runs_forward(aligned(b.text, b.selections[j])) {
                start
            } else {
                end
            },
        )
    } else {
        let a = index_of(b.text, b.selections[j].anchor);
        &&& s == b.selections[j]
        &&& s.cursor == coord_of(after.text, points[j])
        &&& line_of(after.text, points[j]) == line
        &&& 0 <= points[j] <= after.text.len()
        &&& anchor_on_line(b, line, j) ==> {
            &&& s.anchor == coord_of(after.text, a)
            &&& line_of(after.text, a) == line
            &&& 0 <= a <= after.text.len()
        }
    }
}

proof fn lemma_pasted_on_one_line(b: BufferView, line: int, pieces: Seq<Seq<char>>, k: int)
    requires
        0 <= k <= b.selections.len(),
        k <= pieces.len(),
        b.text.len() + grown(pieces, k) <= usize::MAX,
        cursors_on_line(b, line),
        forall|x: int| 0 <= x < pieces.len() ==> breaks_no_line(#[trigger] pieces[x]),
    ensures
        ({
            let points = cursor_indices(b);
            let after = pasted_up_to(b, points, pieces, false, k);
            &&& after.text.len() == b.text.len() + grown(pieces, k)
            &&& after.selections.len() == b.selections.len()
            &&& forall|i: int|
                0 <= i < b.selections.len() ==> #[trigger] pasted_right(b, line, pieces, k, i)
            &&& forall|p: int|
                0 <= p <= b.text.len() && (k > 0 ==> p <= points[from_back(points)[k - 1]])
                    ==> after.text.take(p) == #[trigger] b.text.take(p)
            &&& k < b.selections.len() ==> !splits_pair(after.text, points[from_back(points)[k]])
        }),
    decreases k,
{
    let points = cursor_indices(b);
    let order = from_back(points);
    let n = b.selections.len() as int;
    law_from_back(points);
    lemma_grown(pieces, 0, k);
    assert forall|i: int| 0 <= i < n implies 0 <= #[trigger] points[order[i]] <= b.text.len()
        && b.selections[order[i]].cursor == coord_of(b.text, points[order[i]]) && line_of(
        b.text,
        points[order[i]],
    ) == line && !splits_pair(b.text, points[order[i]]) by {
        let c = b.selections[order[i]].cursor;
        law_coord_round_trip(b.text, c);
        lemma_coord_of(b.text, index_of(b.text, c));
    }
    if k <= 0 {
        assert forall|i: int| 0 <= i < n implies #[trigger] pasted_right(b, line, pieces, k, i) by {
            assert(0 <= points[order[i]] <= b.text.len());
            let c = b.selections[order[i]].anchor;
            law_coord_round_trip(b.text, c);
            lemma_coord_of(b.text, index_of(b.text, c));
        }
        if n > 0 {
            assert(0 <= points[order[0]] <= b.text.len());
        }
    } else {
        lemma_pasted_on_one_line(b, line, pieces, k - 1);
        let before = pasted_up_to(b, points, pieces, false, k - 1);
        let after = pasted_up_to(b, points, pieces, false, k);
        let t = before.text;
        let p = points[order[k - 1]];
        let piece = pieces[k - 1];
        assert(0 <= p <= b.text.len());
        assert(pasted_right(b, line, pieces, k - 1, k - 1));
        assert(after.text == spliced(t, p, piece));
        assert forall|i: int| 0 <= i < n implies #[trigger] pasted_right(b, line, pieces, k, i) by {
            assert(pasted_right(b, line, pieces, k - 1, i));
            lemma_pasted_step(b, line, pieces, k, i);
        }
        assert forall|q: int| 0 <= q <= b.text.len() && q <= p implies after.text.take(q)
            == #[trigger] b.text.take(q) by {
            if k > 1 {
                assert(sooner(points, order[k - 2], order[k - 1]));
            }
            assert(t.take(q) == b.text.take(q));
            assert(after.text.take(q) =~= t.take(q));
        }
        if k < n {
            let q = points[order[k]];
            assert(sooner(points, order[k - 1], order[k]));
            assert(0 <= q <= b.text.len());
            assert(after.text.take(q) == b.text.take(q));
            if 0 < q {
                assert(after.text[q - 1] == after.text.take(q)[q - 1]);
                assert(b.text[q - 1] == b.text.take(q)[q - 1]);
            }
            if q == p {
                if 0 < piece.len() {
                    assert(after.text[q] == piece[0]);
                } else {
                    assert(after.text =~= t);
                }
            } else {
                assert(after.text.take(q + 1) == b.text.take(q + 1));
                assert(after.text[q] == after.text.take(q + 1)[q]);
                assert(b.text[q] == b.text.take(q + 1)[q]);
            }
        }
    }
}

proof fn lemma_pasted_step(b: BufferView, line: int, pieces: Seq<Seq<char>>, k: int, i: int)
    requires
        0 < k <= b.selections.len(),
        k <= pieces.len(),
        0 <= i < b.selections.len(),
        b.text.len() + grown(pieces, k) <= usize::MAX,
        breaks_no_line(pieces[k - 1]),
        ({
            let points = cursor_indices(b);
            let p = points[from_back(points)[k - 1]];
            let before = pasted_up_to(b, points, pieces, false, k - 1);
            &&& before.text.len() == b.text.len() + grown(pieces, k - 1)
            &&& before.selections.len() == b.selections.len()
            &&& 0 <= p <= before.text.len()
            &&& line_of(before.text, p) == line
            &&& !splits_pair(before.text, p)
        }),
        pasted_right(b, line, pieces, k - 1, i),
    ensures
        pasted_right(b, line, pieces, k, i),
{
    let points = cursor_indices(b);
    let order = from_back(points);
    law_from_back(points);
    let before = pasted_up_to(b, points, pieces, false, k - 1);
    let after = pasted_up_to(b, points, pieces, false, k);
    let t = before.text;
    let u = after.text;
    let p = points[order[k - 1]];
    let piece = pieces[k - 1];
    let m = piece.len() as int;
    let j = order[i];
    let a = index_of(b.text, b.selections[j].anchor);
    assert(u == spliced(t, p, piece));
    lemma_grown(pieces, 0, k);
    law_coord_round_trip(b.text, b.selections[j].anchor);
    law_coord_round_trip(b.text, b.selections[j].cursor);
    if i >= k - 1 && anchor_on_line(b, line, j) {
        lemma_places_after_splice(t, p, piece, a);
    }
    if i < k - 1 {
        lemma_grown(pieces, i + 1, k - 1);
        let start = points[j] + grown(pieces, k - 1) - grown(pieces, i + 1);
        let end = start + pieces[i].len();
        assert(sooner(points, order[i], order[k - 1]));
        assert(among_first(order, k - 1, j));
        lemma_places_after_splice(t, p, piece, start);
        lemma_places_after_splice(t, p, piece, end);
        assert(u.subrange(start + m, end + m) =~= t.subrange(start, end));
    } else if i == k - 1 {
        lemma_places_after_splice(t, p, piece, p);
        assert(u.subrange(p, p + m) =~= piece);
    } else {
        assert(sooner(points, order[k - 1], order[i]));
        assert(!among_first(order, k - 1, j)) by {
            if among_first(order, k - 1, j) {
                let x = choose|x: int| 0 <= x < k - 1 && #[trigger] order[x] == j;
                assert(sooner(points, order[x], order[i]));
            }
        }
        lemma_places_after_splice(t, p, piece, points[j]);
    }
}

proof fn lemma_nothing_pasted(b: BufferView, pieces: Seq<Seq<char>>, extend: bool, k: int)
    requires
        pieces.len() <= k,
    ensures
        pasted_up_to(b, cursor_indices(b), pieces, extend, k) == pasted_up_to(
            b,
            cursor_indices(b),
            pieces,
            extend,
            pieces.len() as int,
        ),
    decreases k,
{
    if pieces.len() < k {
        lemma_nothing_pasted(b, pieces, extend, k - 1);
    }
}

/// Pasting with several cursors on one line leaves each selection on exactly the piece that was
/// pasted at its cursor: a yank that follows returns it. A selection whose anchor stands on the
/// line too keeps its direction: one that ran forward, or selected nothing, has its cursor behind
/// the piece, and one that ran backward before it.
///
/// The pieces may not break the line. A cursor past the end of its line, inside a line break, or on
/// a later line than another need not end up by its piece.
pub proof fn law_pasted_on_one_line(b: BufferView, line: int, pieces: Seq<Seq<char>>, i: int)
    requires
        b.text.len() + grown(pieces, pieces.len() as int) <= usize::MAX,
        cursors_on_line(b, line),
        forall|x: int| 0 <= x < pieces.len() ==> breaks_no_line(#[trigger] pieces[x]),
        0 <= i < b.selections.len(),
        i < pieces.len(),
    ensures
        ({
            let j = from_back(cursor_indices(b))[i];
            let after = pasted(b, pieces, false);
            let s = aligned(after.text, after.selections[j]);
            &&& after.text.subrange(range_start(s), range_end(s)) == pieces[i]
            &&& range_end(s) - range_start(s) == pieces[i].len()
            &&& selected_texts(after)[j] == pieces[i]
            &&& anchor_on_line(b, line, j) ==> if runs_forward(aligned(b.text, b.selections[j])) {
                s.anchor.0 <= s.cursor.0
            } else {
                s.cursor.0 <= s.anchor.0
            }
        }),
{
    let n = b.selections.len() as int;
    let k = if n < pieces.len() {
        n
    } else {
        pieces.len() as int
    };
    let points = cursor_indices(b);
    lemma_grown(pieces, k, pieces.len() as int);
    lemma_pasted_on_one_line(b, line, pieces, k);
    if pieces.len() < n {
        lemma_nothing_pasted(b, pieces, false, n);
    }
    assert(pasted_right(b, line, pieces, k, i));
    let after = pasted(b, pieces, false);
    let start = points[from_back(points)[i]] + grown(pieces, k) - grown(pieces, i + 1);
    law_from_back(points);
    law_index_round_trip(after.text, start);
    law_index_round_trip(after.text, start + pieces[i].len());
}

/// Pasting as many pieces as there are cursors, all on one line and no two in one place: each
/// selection is left on the piece whose place in the list is the number of cursors that were past
/// its own.
pub proof fn law_pasted_by_rank(b: BufferView, line: int, pieces: Seq<Seq<char>>, j: int)
    requires
        b.text.len() + grown(pieces, pieces.len() as int) <= usize::MAX,
        cursors_on_line(b, line),
        cursor_indices(b).no_duplicates(),
        forall|x: int| 0 <= x < pieces.len() ==> breaks_no_line(#[trigger] pieces[x]),
        pieces.len() == b.selections.len(),
        0 <= j < b.selections.len(),
    ensures
        rank(cursor_indices(b), j) < pieces.len(),
        selected_texts(pasted(b, pieces, false))[j] == pieces[rank(cursor_indices(b), j) as int],
{
    let points = cursor_indices(b);
    law_from_back(points);
    assert(from_back(points).contains(j));
    let i = choose|i: int| 0 <= i < from_back(points).len() && from_back(points)[i] == j;
    law_place_is_rank(points, i);
    law_pasted_on_one_line(b, line, pieces, i);
}

/// Whether the selections of a buffer lie on one line, each within its columns, no cursor inside a
/// line break, no two cursors in one place and none inside another selection.
pub open spec fn selections_clear(b: BufferView, line: int) -> bool {
    &&& cursors_on_line(b, line)
    &&& forall|j: int| 0 <= j < b.selections.len() ==> #[trigger] anchor_on_line(b, line, j)
    &&& cursor_indices(b).no_duplicates()
    &&& forall|j: int, x: int|
        0 <= j < b.selections.len() && 0 <= x < b.selections.len() && j != x ==> {
            let s = #[trigger] aligned(b.text, b.selections[j]);
            let p = index_of(b.text, (#[trigger] b.selections[x]).cursor);
            p <= range_start(s) || range_end(s) <= p
        }
}

/// What a selection covers once a piece was pasted into it at its cursor.
pub open spec fn extended_by(b: BufferView, j: int, piece: Seq<char>) -> Seq<char> {
    let s = aligned(b.text, b.selections[j]);
    let selected = b.text.subrange(range_start(s), range_end(s));
    if runs_forward(s) {
        selected + piece
    } else {
        piece + selected
    }
}

/// What holds of the selection that comes at `i` from the back once the first `k` pieces were
/// pasted into the selections.
spec fn extended_right(b: BufferView, line: int, pieces: Seq<Seq<char>>, k: int, i: int) -> bool {
    let points = cursor_indices(b);
    let after = pasted_up_to(b, points, pieces, true, k);
    let j = from_back(points)[i];
    let s = after.selections[j];
    let before = aligned(b.text, b.selections[j]);
    let from = range_start(before);
    let to = range_end(before);
    if i < k {
        let start = from + grown(pieces, k) - grown(pieces, i + 1);
        let end = to + pieces[i].len() + grown(pieces, k) - grown(pieces, i + 1);
        &&& 0 <= start <= end <= after.text.len()
        &&& line_of(after.text, start) == line
        &&& line_of(after.text, end) == line
        &&& after.text.subrange(start, end) == extended_by(b, j, pieces[i])
        &&& s.anchor == coord_of(
            after.text,
            if runs_forward(before) {
                start
            } else {
                end
            },
        )
        &&& s.cursor == coord_of(
            after.text,
            if runs_forward(before) {
                end
            } else {
                start
            },
        )
    } else {
        &&& s == b.selections[j]
        &&& 0 <= from <= to <= after.text.len()
        &&& line_of(after.text, from) == line
        &&& line_of(after.text, to) == line
        &&& after.text.subrange(from, to) == b.text.subrange(from, to)
        &&& s.anchor == coord_of(after.text, before.anchor.0 as int)
        &&& s.cursor == coord_of(after.text, before.cursor.0 as int)
    }
}

/// Whether the piece that comes at `k` can be pasted at its cursor on the line.
spec fn ready_to_extend(b: BufferView, line: int, pieces: Seq<Seq<char>>, k: int) -> bool {
    let points = cursor_indices(b);
    let p = points[from_back(points)[k]];
    let before = pasted_up_to(b, points, pieces, true, k);
    &&& before.text.len() == b.text.len() + grown(pieces, k)
    &&& before.selections.len() == b.selections.len()
    &&& 0 <= p <= before.text.len()
    &&& line_of(before.text, p) == line
    &&& !splits_pair(before.text, p)
}

/// A selection that has its piece is moved on as a whole.
proof fn lemma_extended_before(b: BufferView, line: int, pieces: Seq<Seq<char>>, k: int, i: int)
    requires
        0 < k <= b.selections.len(),
        k <= pieces.len(),
        0 <= i < k - 1,
        b.text.len() + grown(pieces, k) <= usize::MAX,
        selections_clear(b, line),
        breaks_no_line(pieces[k - 1]),
        ready_to_extend(b, line, pieces, k - 1),
        extended_right(b, line, pieces, k - 1, i),
    ensures
        extended_right(b, line, pieces, k, i),
{
    let points = cursor_indices(b);
    let order = from_back(points);
    law_from_back(points);
    lemma_grown(pieces, 0, k);
    let t = pasted_up_to(b, points, pieces, true, k - 1).text;
    let u = pasted_up_to(b, points, pieces, true, k).text;
    let p = points[order[k - 1]];
    let piece = pieces[k - 1];
    let m = piece.len() as int;
    let j = order[i];
    let before = aligned(b.text, b.selections[j]);
    let from = range_start(before);
    let to = range_end(before);
    assert(u == spliced(t, p, piece));
    law_coord_round_trip(b.text, b.selections[j].anchor);
    law_coord_round_trip(b.text, b.selections[j].cursor);
    assert(points[j] == before.cursor.0);
    assert(sooner(points, order[i], order[k - 1]));
    assert(order[i] != order[k - 1]);
    assert(points[j] != p);
    assert(index_of(b.text, b.selections[order[k - 1]].cursor) == p);
    assert(p <= from || to <= p);
    lemma_grown(pieces, i + 1, k - 1);
    let start = from + grown(pieces, k - 1) - grown(pieces, i + 1);
    let end = to + pieces[i].len() + grown(pieces, k - 1) - grown(pieces, i + 1);
    assert(among_first(order, k - 1, j));
    lemma_places_after_splice(t, p, piece, start);
    lemma_places_after_splice(t, p, piece, end);
    assert(u.subrange(start + m, end + m) =~= t.subrange(start, end));
    let s = pasted_up_to(b, points, pieces, true, k - 1).selections[j];
    let after = pasted_up_to(b, points, pieces, true, k).selections[j];
    assert(after == pushed_on(u, s, p, m));
    assert(index_of(u, s.anchor) >= p && index_of(u, s.cursor) >= p);
}

/// A piece put in at either end of a stretch of text makes the stretch longer by it.
proof fn lemma_spliced_in(t: Seq<char>, from: int, to: int, piece: Seq<char>)
    requires
        0 <= from <= to <= t.len(),
    ensures
        spliced(t, to, piece).subrange(from, to + piece.len()) == t.subrange(from, to) + piece,
        spliced(t, from, piece).subrange(from, to + piece.len()) == piece + t.subrange(from, to),
{
    assert(spliced(t, to, piece).subrange(from, to + piece.len()) =~= t.subrange(from, to) + piece);
    assert(spliced(t, from, piece).subrange(from, to + piece.len()) =~= piece + t.subrange(
        from,
        to,
    ));
}

/// A selection whose turn has come takes in its piece.
proof fn lemma_extended_now(b: BufferView, line: int, pieces: Seq<Seq<char>>, k: int, i: int)
    requires
        0 < k <= b.selections.len(),
        k <= pieces.len(),
        i == k - 1,
        b.text.len() + grown(pieces, k) <= usize::MAX,
        selections_clear(b, line),
        breaks_no_line(pieces[k - 1]),
        ready_to_extend(b, line, pieces, k - 1),
        extended_right(b, line, pieces, k - 1, i),
    ensures
        extended_right(b, line, pieces, k, i),
{
    let points = cursor_indices(b);
    let order = from_back(points);
    law_from_back(points);
    lemma_grown(pieces, 0, k);
    let t = pasted_up_to(b, points, pieces, true, k - 1).text;
    let u = pasted_up_to(b, points, pieces, true, k).text;
    let p = points[order[k - 1]];
    let piece = pieces[k - 1];
    let m = piece.len() as int;
    let j = order[i];
    let before = aligned(b.text, b.selections[j]);
    let from = range_start(before);
    let to = range_end(before);
    assert(u == spliced(t, p, piece));
    law_coord_round_trip(b.text, b.selections[j].anchor);
    law_coord_round_trip(b.text, b.selections[j].cursor);
    assert(points[j] == before.cursor.0);
    lemma_places_after_splice(t, p, piece, from);
    lemma_places_after_splice(t, p, piece, to);
    let s = b.selections[j];
    let after = pasted_up_to(b, points, pieces, true, k).selections[j];
    assert(after == pasted_selection(u, s, m, true));
    assert(index_of(u, s.anchor) == before.anchor.0);
    assert(index_of(u, s.cursor) == before.cursor.0);
    assert(runs_forward(aligned(u, s)) == runs_forward(before));
    assert(t.subrange(from, to) == b.text.subrange(from, to));
    lemma_spliced_in(t, from, to, piece);
    assert(u.subrange(from, to + m) == extended_by(b, j, piece));
    assert(grown(pieces, k) - grown(pieces, i + 1) == 0);
}

/// A selection whose turn is still to come stays as it was.
proof fn lemma_extended_after(b: BufferView, line: int, pieces: Seq<Seq<char>>, k: int, i: int)
    requires
        0 < k <= b.selections.len(),
        k <= pieces.len(),
        k - 1 < i < b.selections.len(),
        b.text.len() + grown(pieces, k) <= usize::MAX,
        selections_clear(b, line),
        breaks_no_line(pieces[k - 1]),
        ready_to_extend(b, line, pieces, k - 1),
        extended_right(b, line, pieces, k - 1, i),
    ensures
        extended_right(b, line, pieces, k, i),
{
    let points = cursor_indices(b);
    let order = from_back(points);
    law_from_back(points);
    lemma_grown(pieces, 0, k);
    let t = pasted_up_to(b, points, pieces, true, k - 1).text;
    let u = pasted_up_to(b, points, pieces, true, k).text;
    let p = points[order[k - 1]];
    let piece = pieces[k - 1];
    let m = piece.len() as int;
    let j = order[i];
    let before = aligned(b.text, b.selections[j]);
    let from = range_start(before);
    let to = range_end(before);
    assert(u == spliced(t, p, piece));
    law_coord_round_trip(b.text, b.selections[j].anchor);
    law_coord_round_trip(b.text, b.selections[j].cursor);
    assert(points[j] == before.cursor.0);
    assert(sooner(points, order[k - 1], order[i]));
    assert(order[i] != order[k - 1]);
    assert(points[j] != p);
    assert(index_of(b.text, b.selections[order[k - 1]].cursor) == p);
    assert(p <= from || to <= p);
    lemma_places_after_splice(t, p, piece, from);
    lemma_places_after_splice(t, p, piece, to);
    assert(!among_first(order, k - 1, j)) by {
        if among_first(order, k - 1, j) {
            let x = choose|x: int| 0 <= x < k - 1 && #[trigger] order[x] == j;
            assert(sooner(points, order[x], order[i]));
        }
    }
    assert(to <= p);
    assert(u.subrange(from, to) =~= t.subrange(from, to));
}

proof fn lemma_extended_on_one_line(b: BufferView, line: int, pieces: Seq<Seq<char>>, k: int)
    requires
        0 <= k <= b.selections.len(),
        k <= pieces.len(),
        b.text.len() + grown(pieces, k) <= usize::MAX,
        selections_clear(b, line),
        forall|x: int| 0 <= x < pieces.len() ==> breaks_no_line(#[trigger] pieces[x]),
    ensures
        ({
            let points = cursor_indices(b);
            let after = pasted_up_to(b, points, pieces, true, k);
            &&& after.text.len() == b.text.len() + grown(pieces, k)
            &&& after.selections.len() == b.selections.len()
            &&& forall|i: int|
                0 <= i < b.selections.len() ==> #[trigger] extended_right(b, line, pieces, k, i)
            &&& forall|p: int|
                0 <= p <= b.text.len() && (k > 0 ==> p <= points[from_back(points)[k - 1]])
                    ==> after.text.take(p) == #[trigger] b.text.take(p)
            &&& k < b.selections.len() ==> !splits_pair(after.text, points[from_back(points)[k]])
        }),
    decreases k,
{
    let points = cursor_indices(b);
    let order = from_back(points);
    let n = b.selections.len() as int;
    law_from_back(points);
    lemma_grown(pieces, 0, k);
    assert forall|i: int| 0 <= i < n implies 0 <= #[trigger] points[order[i]] <= b.text.len()
        && !splits_pair(b.text, points[order[i]]) by {
        law_coord_round_trip(b.text, b.selections[order[i]].cursor);
    }
    if k <= 0 {
        assert forall|i: int| 0 <= i < n implies #[trigger] extended_right(
            b,
            line,
            pieces,
            k,
            i,
        ) by {
            let s = b.selections[order[i]];
            assert(anchor_on_line(b, line, order[i]));
            law_coord_round_trip(b.text, s.anchor);
            law_coord_round_trip(b.text, s.cursor);
            lemma_coord_of(b.text, index_of(b.text, s.anchor));
            lemma_coord_of(b.text, index_of(b.text, s.cursor));
        }
        if n > 0 {
            assert(0 <= points[order[0]] <= b.text.len());
        }
    } else {
        lemma_extended_on_one_line(b, line, pieces, k - 1);
        let t = pasted_up_to(b, points, pieces, true, k - 1).text;
        let u = pasted_up_to(b, points, pieces, true, k).text;
        let p = points[order[k - 1]];
        let piece = pieces[k - 1];
        assert(0 <= p <= b.text.len());
        assert(extended_right(b, line, pieces, k - 1, k - 1));
        assert(u == spliced(t, p, piece));
        assert forall|i: int| 0 <= i < n implies #[trigger] extended_right(
            b,
            line,
            pieces,
            k,
            i,
        ) by {
            assert(extended_right(b, line, pieces, k - 1, i));
            if i < k - 1 {
                lemma_extended_before(b, line, pieces, k, i);
            } else if i == k - 1 {
                lemma_extended_now(b, line, pieces, k, i);
            } else {
                lemma_extended_after(b, line, pieces, k, i);
            }
        }
        assert forall|q: int| 0 <= q <= b.text.len() && q <= p implies u.take(q)
            == #[trigger] b.text.take(q) by {
            if k > 1 {
                assert(sooner(points, order[k - 2], order[k - 1]));
            }
            assert(t.take(q) == b.text.take(q));
            assert(u.take(q) =~= t.take(q));
        }
        if k < n {
            let q = points[order[k]];
            assert(sooner(points, order[k - 1], order[k]));
            assert(order[k - 1] != order[k]);
            assert(q < p);
            assert(0 <= q <= b.text.len());
            assert(u.take(q + 1) == b.text.take(q + 1));
            assert(u[q] == u.take(q + 1)[q]);
            assert(b.text[q] == b.text.take(q + 1)[q]);
            if 0 < q {
                assert(u[q - 1] == u.take(q + 1)[q - 1]);
                assert(b.text[q - 1] == b.text.take(q + 1)[q - 1]);
            }
        }
    }
}

/// Pasting into several selections of one line leaves each on what it selected and the piece that
/// was pasted at its cursor: behind the rest where it ran forward or selected nothing, before it
/// where it ran backward. Each keeps its direction.
///
/// The pieces may not break the line. A selection with another's cursor in it, or at its own,
/// need not end up by its piece.
pub proof fn law_extended_on_one_line(b: BufferView, line: int, pieces: Seq<Seq<char>>, i: int)
    requires
        b.text.len() + grown(pieces, pieces.len() as int) <= usize::MAX,
        selections_clear(b, line),
        forall|x: int| 0 <= x < pieces.len() ==> breaks_no_line(#[trigger] pieces[x]),
        0 <= i < b.selections.len(),
        i < pieces.len(),
    ensures
        ({
            let j = from_back(cursor_indices(b))[i];
            let after = pasted(b, pieces, true);
            let s = aligned(after.text, after.selections[j]);
            &&& selected_texts(after)[j] == extended_by(b, j, pieces[i])
            &&& if runs_forward(aligned(b.text, b.selections[j])) {
                s.anchor.0 <= s.cursor.0
            } else {
                s.cursor.0 <= s.anchor.0
            }
        }),
{
    let n = b.selections.len() as int;
    let k = if n < pieces.len() {
        n
    } else {
        pieces.len() as int
    };
    let points = cursor_indices(b);
    law_from_back(points);
    lemma_grown(pieces, k, pieces.len() as int);
    lemma_extended_on_one_line(b, line, pieces, k);
    if pieces.len() < n {
        lemma_nothing_pasted(b, pieces, true, n);
    }
    assert(extended_right(b, line, pieces, k, i));
    let after = pasted(b, pieces, true);
    let before = aligned(b.text, b.selections[from_back(points)[i]]);
    let moved = grown(pieces, k) - grown(pieces, i + 1);
    law_index_round_trip(after.text, range_start(before) + moved);
    law_index_round_trip(after.text, range_end(before) + pieces[i].len() + moved);
}

/// Whether the line `line` starts in `u` where it starts in `t`.
pub open spec fn line_start_kept(t: Seq<char>, u: Seq<char>, line: int) -> bool {
    line_start(t, line) == 0 || ends_line(u, line_start(t, line) - 1)
}

/// Removing characters of one line leaves the lines before them as they were, and moves those
/// behind them by as many indices.
proof fn lemma_lines_after_cut(t: Seq<char>, s: int, e: int, i: int)
    requires
        0 <= s <= e <= t.len(),
        line_of(t, s) == line_of(t, e),
        ends_line(without(t, s, e), s - 1) == ends_line(t, s - 1),
        0 <= i <= t.len(),
    ensures
        ({
            let u = without(t, s, e);
            &&& i <= s ==> line_of(u, i) == line_of(t, i)
            &&& i >= e ==> line_of(u, i - (e - s)) == line_of(t, i)
        }),
    decreases i,
{
    let u = without(t, s, e);
    assert(t.take(s) =~= u.take(s));
    if i <= s {
        lemma_line_of_prefix(t, u, s, i);
    }
    if i == e {
        lemma_line_of_prefix(t, u, s, s);
    } else if i > e {
        lemma_lines_after_cut(t, s, e, i - 1);
        let d = e - s;
        assert(u[i - 1 - d] == t[i - 1]);
        if i < t.len() {
            assert(u[i - d] == t[i]);
        }
        assert(ends_line(u, i - 1 - d) == ends_line(t, i - 1));
    }
}

/// Where a line starts as it did, removing characters of it makes and splits no line break.
proof fn lemma_cut_keeps_break(t: Seq<char>, s: int, e: int, line: int)
    requires
        0 <= s <= e <= t.len(),
        line_of(t, s) == line,
        line_of(t, e) == line,
        line_start_kept(t, without(t, s, e), line),
    ensures
        ends_line(without(t, s, e), s - 1) == ends_line(t, s - 1),
{
    let u = without(t, s, e);
    if s == e {
        assert(u =~= t);
    } else if 0 < s {
        assert(u[s - 1] == t[s - 1]);
        if ends_line(t, s - 1) {
            assert(starts_line(t, line, s));
            lemma_line_start_is(t, line, s);
        } else if ends_line(u, s - 1) {
            assert(ends_line(t, s));
            lemma_line_of_monotone(t, s + 1, e);
        }
    }
}

/// The line and column of a place outside the removed characters of one line: before them they are
/// what they were; behind them they are those of the place that many characters before.
proof fn lemma_places_after_cut(t: Seq<char>, s: int, e: int, line: int, q: int)
    requires
        0 <= s <= e <= t.len() <= usize::MAX,
        line_of(t, s) == line,
        line_of(t, e) == line,
        line_start_kept(t, without(t, s, e), line),
        0 <= q <= s || e <= q <= t.len(),
        line_of(t, q) == line,
    ensures
        ({
            let u = without(t, s, e);
            let p = if q <= s {
                q
            } else {
                q - (e - s)
            };
            &&& line_of(u, p) == line
            &&& coord_of(u, p) == coord_of(t, p)
            &&& line_start(u, line) == line_start(t, line)
        }),
{
    let u = without(t, s, e);
    let p = if q <= s {
        q
    } else {
        q - (e - s)
    };
    lemma_cut_keeps_break(t, s, e, line);
    lemma_lines_after_cut(t, s, e, q);
    if q > s {
        lemma_line_of_monotone(t, s, p);
        lemma_line_of_monotone(t, p, q);
    }
    assert(line_of(t, p) == line);
    lemma_line_holds(t, s);
    lemma_line_start(t, line);
    let start = line_start(t, line);
    lemma_lines_after_cut(t, s, e, start);
    assert(starts_line(u, line, start));
    lemma_line_start_is(u, line, start);
}

/// How many characters the first `k` of `ranges`, from the back, take away before `q`.
pub open spec fn moved_back(ranges: Seq<Range<usize>>, k: int, q: int) -> int
    decreases k,
{
    if k <= 0 {
        0
    } else {
        let r = range_from_back(ranges, k - 1);
        moved_back(ranges, k - 1, q) + if r.start < q {
            r.end - r.start
        } else {
            0
        }
    }
}

/// Whether `q` lies inside none of `ranges`.
pub open spec fn clear_of(ranges: Seq<Range<usize>>, q: int) -> bool {
    forall|a: int|
        0 <= a < ranges.len() ==> q <= (#[trigger] ranges[a]).start || ranges[a].end <= q
}

proof fn lemma_moved_back(len: int, ranges: Seq<Range<usize>>, k: int, q: int, p: int)
    requires
        apart(len, ranges),
        clear_of(ranges, q),
        0 <= k <= ranges.len(),
        p <= q,
        forall|x: int|
            0 <= x < k ==> ({
                let r = #[trigger] range_from_back(ranges, x);
                r.start < r.end && r.start < q ==> p <= r.start
            }),
    ensures
        0 <= moved_back(ranges, k, q) <= q - p,
    decreases k,
{
    if k > 0 {
        law_from_back(starts(ranges));
        let a = from_back(starts(ranges))[k - 1];
        let r = range_from_back(ranges, k - 1);
        assert(r == ranges[a]);
        if r.start < r.end && r.start < q {
            assert forall|x: int| 0 <= x < k - 1 implies ({
                let y = #[trigger] range_from_back(ranges, x);
                y.start < y.end && y.start < q ==> r.end <= y.start
            }) by {
                lemma_apart_from_back(len, ranges, x, k - 1);
            }
            lemma_moved_back(len, ranges, k - 1, q, r.end as int);
        } else {
            lemma_moved_back(len, ranges, k - 1, q, p);
        }
    }
}

proof fn lemma_cut_length(b: BufferView, ranges: Seq<Range<usize>>, k: int)
    requires
        apart(b.text.len() as int, ranges),
        0 <= k <= ranges.len(),
    ensures
        cut_up_to(b, ranges, k).text.len() == left_after(b.text.len() as int, ranges, k),
    decreases k,
{
    if k > 0 {
        lemma_cut_length(b, ranges, k - 1);
        lemma_left_after(b.text.len() as int, ranges, k - 1, k - 1);
    }
}

/// Removing empty ranges changes no text.
proof fn lemma_cut_nothing(b: BufferView, ranges: Seq<Range<usize>>, k: int, n: int)
    requires
        apart(b.text.len() as int, ranges),
        0 <= k <= n <= ranges.len(),
        forall|x: int|
            k <= x < n ==> (#[trigger] range_from_back(ranges, x)).start == range_from_back(
                ranges,
                x,
            ).end,
    ensures
        cut_up_to(b, ranges, n).text == cut_up_to(b, ranges, k).text,
    decreases n,
{
    if k < n {
        lemma_cut_nothing(b, ranges, k, n - 1);
        lemma_cut_length(b, ranges, n - 1);
        lemma_left_after(b.text.len() as int, ranges, n - 1, n - 1);
        let r = range_from_back(ranges, n - 1);
        let before = cut_up_to(b, ranges, n - 1).text;
        assert(without(before, r.start as int, r.end as int) =~= before);
    }
}

/// A coordinate after the first `k` of `ranges`, from the back, were removed.
spec fn coord_after(b: BufferView, ranges: Seq<Range<usize>>, c: Coord, k: int) -> Coord
    decreases k,
{
    if k <= 0 {
        c
    } else {
        let r = range_from_back(ranges, k - 1);
        shifted_coord_back(
            cut_up_to(b, ranges, k - 1).text,
            coord_after(b, ranges, c, k - 1),
            r.start as int,
            r.end - r.start,
        )
    }
}

proof fn lemma_selection_after_cut(b: BufferView, ranges: Seq<Range<usize>>, k: int, j: int)
    requires
        0 <= j < b.selections.len(),
    ensures
        ({
            let after = cut_up_to(b, ranges, k);
            &&& after.selections.len() == b.selections.len()
            &&& after.selections[j].anchor == coord_after(b, ranges, b.selections[j].anchor, k)
            &&& after.selections[j].cursor == coord_after(b, ranges, b.selections[j].cursor, k)
        }),
    decreases k,
{
    if k > 0 {
        lemma_selection_after_cut(b, ranges, k - 1, j);
    }
}

/// Whether ranges start and end on one line, which starts where it did once they are removed.
pub open spec fn ranges_on_line(b: BufferView, ranges: Seq<Range<usize>>, line: int) -> bool {
    &&& forall|a: int|
        0 <= a < ranges.len() ==> line_of(b.text, (#[trigger] ranges[a]).start as int) == line
            && line_of(b.text, ranges[a].end as int) == line
    &&& line_start_kept(b.text, all_cut(b, ranges).text, line)
}

/// The ends of a range lie inside no other that is apart from it.
proof fn lemma_ends_clear(len: int, ranges: Seq<Range<usize>>, a: int)
    requires
        apart(len, ranges),
        0 <= a < ranges.len(),
        ranges[a].start < ranges[a].end,
    ensures
        clear_of(ranges, ranges[a].start as int),
        clear_of(ranges, ranges[a].end as int),
{
    let r = ranges[a];
    assert forall|x: int| 0 <= x < ranges.len() implies {
        &&& r.start <= (#[trigger] ranges[x]).start || ranges[x].end <= r.start
        &&& r.end <= ranges[x].start || ranges[x].end <= r.end
    } by {
        if x != a {
            assert(in_range(r, r.start as int));
            assert(in_range(r, r.end - 1));
            if in_range(ranges[x], r.start as int) || in_range(ranges[x], r.end - 1) {
                assert(false);
            }
        }
    }
}

proof fn lemma_cut_on_one_line(
    b: BufferView,
    ranges: Seq<Range<usize>>,
    line: int,
    q: int,
    k: int,
)
    requires
        b.text.len() <= usize::MAX,
        apart(b.text.len() as int, ranges),
        ranges_on_line(b, ranges, line),
        0 <= q <= b.text.len(),
        line_of(b.text, q) == line,
        clear_of(ranges, q),
        0 <= k <= ranges.len(),
    ensures
        ({
            let t = cut_up_to(b, ranges, k).text;
            let at = q - moved_back(ranges, k, q);
            &&& 0 <= at <= t.len() <= b.text.len()
            &&& line_of(t, at) == line
            &&& line_start(t, line) == line_start(b.text, line)
            &&& coord_after(b, ranges, coord_of(b.text, q), k) == coord_of(t, at)
        }),
    decreases k,
{
    let n = ranges.len() as int;
    let len = b.text.len() as int;
    if k > 0 {
        let t = cut_up_to(b, ranges, k - 1).text;
        let u = cut_up_to(b, ranges, k).text;
        let r = range_from_back(ranges, k - 1);
        let s = r.start as int;
        let e = r.end as int;
        let at = q - moved_back(ranges, k - 1, q);
        law_from_back(starts(ranges));
        let a = from_back(starts(ranges))[k - 1];
        assert(r == ranges[a]);
        lemma_cut_on_one_line(b, ranges, line, q, k - 1);
        law_index_round_trip(t, at);
        lemma_cut_length(b, ranges, k - 1);
        lemma_left_after(len, ranges, k - 1, k - 1);
        if s == e {
            assert(u =~= t);
        } else {
            assert forall|x: int| 0 <= x < k - 1 implies ({
                let y = #[trigger] range_from_back(ranges, x);
                &&& s <= y.start
                &&& y.start < y.end ==> e <= y.start
            }) by {
                lemma_apart_from_back(len, ranges, x, k - 1);
            }
            lemma_ends_clear(len, ranges, a);
            lemma_cut_on_one_line(b, ranges, line, s, k - 1);
            lemma_cut_on_one_line(b, ranges, line, e, k - 1);
            lemma_moved_back(len, ranges, k - 1, s, s);
            lemma_moved_back(len, ranges, k - 1, e, e);
            assert(q <= ranges[a].start || ranges[a].end <= q);
            if q <= s {
                lemma_moved_back(len, ranges, k - 1, q, q);
            } else {
                lemma_moved_back(len, ranges, k - 1, q, e);
            }
            lemma_line_holds(t, s);
            lemma_line_start(t, line);
            let start = line_start(t, line);
            if 0 < start {
                if start < s {
                    assert(u[start - 1] == t[start - 1]);
                    assert(u[start] == t[start]);
                    assert(ends_line(u, start - 1));
                } else {
                    assert forall|x: int| k <= x < n implies (#[trigger] range_from_back(
                        ranges,
                        x,
                    )).start == range_from_back(ranges, x).end by {
                        lemma_apart_from_back(len, ranges, k - 1, x);
                        let y = from_back(starts(ranges))[x];
                        assert(line_of(b.text, ranges[y].start as int) == line);
                        lemma_line_holds(b.text, ranges[y].start as int);
                    }
                    lemma_cut_nothing(b, ranges, k, n);
                }
            }
            assert(line_start_kept(t, u, line));
            lemma_places_after_cut(t, s, e, line, at);
        }
    }
}

/// Removing ranges of one line leaves a selection's end that lies inside none of them where it
/// was in the text: as many characters further on in it as are left of those before it.
///
/// The line must still start where it did: where what is left of it begins with a line feed,
/// directly behind a carriage return, the two join to one line break.
pub proof fn law_cut_on_one_line(b: BufferView, ranges: Seq<Range<usize>>, line: int, j: int)
    requires
        b.text.len() <= usize::MAX,
        apart(b.text.len() as int, ranges),
        ranges_on_line(b, ranges, line),
        0 <= j < b.selections.len(),
        b.selections[j].cursor.line == line,
        trimmed(b.text, b.selections[j].cursor) == b.selections[j].cursor,
        clear_of(ranges, index_of(b.text, b.selections[j].cursor)),
        b.selections[j].anchor == b.selections[j].cursor,
    ensures
        ({
            let q = index_of(b.text, b.selections[j].cursor);
            let after = all_cut(b, ranges);
            &&& index_of(after.text, after.selections[j].cursor) == q - moved_back(
                ranges,
                ranges.len() as int,
                q,
            )
            &&& after.selections[j].anchor == after.selections[j].cursor
        }),
{
    let n = ranges.len() as int;
    let c = b.selections[j].cursor;
    let q = index_of(b.text, c);
    law_coord_round_trip(b.text, c);
    lemma_coord_of(b.text, q);
    lemma_cut_on_one_line(b, ranges, line, q, n);
    lemma_selection_after_cut(b, ranges, n, j);
    law_index_round_trip(all_cut(b, ranges).text, q - moved_back(ranges, n, q));
}

/// What is removed before the end of a range is what is removed before its start, and the range
/// itself.
proof fn lemma_moved_back_over(len: int, ranges: Seq<Range<usize>>, a: int, k: int)
    requires
        apart(len, ranges),
        0 <= a < ranges.len(),
        0 <= k <= ranges.len(),
    ensures
        moved_back(ranges, k, ranges[a].end as int) == moved_back(
            ranges,
            k,
            ranges[a].start as int,
        ) + if among_first(from_back(starts(ranges)), k, a) {
            ranges[a].end - ranges[a].start
        } else {
            0
        },
    decreases k,
{
    let order = from_back(starts(ranges));
    law_from_back(starts(ranges));
    if k > 0 {
        lemma_moved_back_over(len, ranges, a, k - 1);
        let x = order[k - 1];
        let r = range_from_back(ranges, k - 1);
        assert(r == ranges[x]);
        if x == a {
            assert(order[k - 1] == a);
            assert(!among_first(order, k - 1, a)) by {
                if among_first(order, k - 1, a) {
                    let y = choose|y: int| 0 <= y < k - 1 && #[trigger] order[y] == a;
                    assert(sooner(starts(ranges), order[y], order[k - 1]));
                }
            }
        } else {
            lemma_among_first_grows(order, k - 1, a);
            if ranges[a].start <= r.start < ranges[a].end && r.start < r.end {
                assert(in_range(ranges[a], r.start as int));
                assert(in_range(ranges[x], r.start as int));
            }
        }
    }
}

/// Whether the selections of a buffer lie on one line, each within its columns.
pub open spec fn selections_on_line(b: BufferView, line: int) -> bool {
    forall|j: int|
        #![trigger b.selections[j]]
        0 <= j < b.selections.len() ==> {
            let s = b.selections[j];
            &&& s.anchor.line == line && trimmed(b.text, s.anchor) == s.anchor
            &&& s.cursor.line == line && trimmed(b.text, s.cursor) == s.cursor
        }
}

/// Deleting selections of one line that share no character, with no cursor inside another
/// selection, leaves each cursor where its selection began, less what was removed before that.
pub proof fn law_deleted_on_one_line(b: BufferView, line: int, j: int)
    requires
        b.text.len() <= usize::MAX,
        selections_apart(b),
        selections_on_line(b, line),
        line_start_kept(b.text, deleted(b).text, line),
        0 <= j < b.selections.len(),
        clear_of(selected_ranges(b), index_of(b.text, b.selections[j].cursor)),
    ensures
        ({
            let ranges = selected_ranges(b);
            let start = range_start(aligned(b.text, b.selections[j]));
            let after = deleted(b);
            &&& index_of(after.text, after.selections[j].cursor) == start - moved_back(
                ranges,
                ranges.len() as int,
                start,
            )
            &&& after.selections[j].anchor == after.selections[j].cursor
        }),
{
    let t = b.text;
    let ranges = selected_ranges(b);
    let n = ranges.len() as int;
    lemma_selected_ranges_apart(b);
    assert forall|a: int| 0 <= a < ranges.len() implies line_of(
        t,
        (#[trigger] ranges[a]).start as int,
    ) == line && line_of(t, ranges[a].end as int) == line by {
        let s = b.selections[a];
        law_coord_round_trip(t, s.anchor);
        law_coord_round_trip(t, s.cursor);
        lemma_coord_of(t, index_of(t, s.anchor));
        lemma_coord_of(t, index_of(t, s.cursor));
    }
    law_coord_round_trip(t, b.selections[j].anchor);
    law_coord_round_trip(t, b.selections[j].cursor);
    law_cut_on_one_line(all_collapsed(b), ranges, line, j);
    lemma_moved_back_over(t.len() as int, ranges, j, n);
    law_from_back(starts(ranges));
    assert(from_back(starts(ranges)).contains(j));
    assert(among_first(from_back(starts(ranges)), n, j));
}

/// Taking back a character at each of several cursors on one line leaves each cursor where its
/// character was, less what was removed before that.
pub proof fn law_backspaced_on_one_line(b: BufferView, line: int, j: int)
    requires
        b.text.len() <= usize::MAX,
        past_start(b),
        apart(b.text.len() as int, ranges_before_cursors(b)),
        ranges_on_line(all_collapsed(b), ranges_before_cursors(b), line),
        0 <= j < b.selections.len(),
        b.selections[j].cursor.line == line,
        trimmed(b.text, b.selections[j].cursor) == b.selections[j].cursor,
    ensures
        ({
            let ranges = ranges_before_cursors(b);
            let start = index_of(b.text, b.selections[j].cursor) - 1;
            let after = backspaced(b);
            &&& index_of(after.text, after.selections[j].cursor) == start - moved_back(
                ranges,
                ranges.len() as int,
                start,
            )
            &&& after.selections[j].anchor == after.selections[j].cursor
        }),
{
    let t = b.text;
    let ranges = ranges_before_cursors(b);
    let n = ranges.len() as int;
    law_coord_round_trip(t, b.selections[j].cursor);
    assert(index_of(t, b.selections[j].cursor) > 0);
    lemma_ends_clear(t.len() as int, ranges, j);
    law_cut_on_one_line(all_collapsed(b), ranges, line, j);
    lemma_moved_back_over(t.len() as int, ranges, j, n);
    law_from_back(starts(ranges));
    assert(from_back(starts(ranges)).contains(j));
    assert(among_first(from_back(starts(ranges)), n, j));
}

proof fn lemma_kept_behind(
    t: Seq<char>,
    u: Seq<char>,
    gone: spec_fn(int) -> bool,
    gone_too: spec_fn(int) -> bool,
    i: int,
)
    requires
        0 <= i,
        u.len() == t.len() + 1,
        forall|x: int| i <= x < t.len() ==> u[x + 1] == #[trigger] t[x],
        forall|x: int| i <= x ==> #[trigger] gone(x) == gone_too(x + 1),
    ensures
        kept(u, gone_too, i + 1) == kept(t, gone, i),
    decreases t.len() - i,
{
    if i < t.len() {
        assert(gone(i) == gone_too(i + 1));
        assert(u[i + 1] == t[i]);
        lemma_kept_behind(t, u, gone, gone_too, i + 1);
    }
}

/// Whether `x` is the index of a character that the first `k` steps of typing put in.
spec fn typed_there(points: Seq<int>, k: int, x: int) -> bool {
    exists|i: int|
        #![trigger from_back(points)[i]]
        0 <= i < k && x == points[from_back(points)[i]] + (k - i) - 1
}

/// What was typed at the cursors is all that the text has more.
proof fn lemma_typed_taken_out(b: BufferView, ch: char, k: int)
    requires
        b.text.len() <= usize::MAX,
        0 <= k <= b.selections.len(),
    ensures
        ({
            let points = cursor_indices(b);
            let after = typed_up_to(b, points, ch, k);
            &&& after.text.len() == b.text.len() + k
            &&& kept(after.text, |x: int| typed_there(points, k, x), 0) == b.text
        }),
    decreases k,
{
    let points = cursor_indices(b);
    let order = from_back(points);
    law_from_back(points);
    let u = typed_up_to(b, points, ch, k).text;
    let gone_too = |x: int| typed_there(points, k, x);
    if k <= 0 {
        lemma_kept_untouched(u, gone_too, 0, u.len() as int);
        assert(u.subrange(0, u.len() as int) + Seq::<char>::empty() =~= u);
    } else {
        lemma_typed_taken_out(b, ch, k - 1);
        let t = typed_up_to(b, points, ch, k - 1).text;
        let gone = |x: int| typed_there(points, k - 1, x);
        let p = points[order[k - 1]];
        law_coord_round_trip(b.text, b.selections[order[k - 1]].cursor);
        assert(u == spliced(t, p, seq![ch]));
        assert forall|i: int| 0 <= i < k - 1 implies p <= points[#[trigger] order[i]] by {
            assert(sooner(points, order[i], order[k - 1]));
        }
        assert forall|x: int| p <= x implies #[trigger] gone(x) == gone_too(x + 1) by {
            if gone(x) {
                let i = choose|i: int|
                    #![trigger order[i]]
                    0 <= i < k - 1 && x == points[order[i]] + (k - 1 - i) - 1;
                assert(0 <= i < k && x + 1 == points[order[i]] + (k - i) - 1);
            }
            if gone_too(x + 1) {
                let i = choose|i: int|
                    #![trigger order[i]]
                    0 <= i < k && x + 1 == points[order[i]] + (k - i) - 1;
                assert(0 <= i < k - 1 && x == points[order[i]] + (k - 1 - i) - 1);
            }
        }
        assert(gone_too(p)) by {
            assert(p == points[order[k - 1]] + (k - (k - 1)) - 1);
        }
        lemma_kept_untouched(t, gone, 0, p);
        lemma_kept_untouched(u, gone_too, 0, p);
        assert(t.subrange(0, p) =~= u.subrange(0, p));
        assert forall|x: int| p <= x < t.len() implies u[x + 1] == #[trigger] t[x] by {
        }
        lemma_kept_behind(t, u, gone, gone_too, p);
    }
}

/// Where the cursor that comes at `i` from the back stands once all were typed at.
spec fn typed_to(b: BufferView, i: int) -> int {
    cursor_indices(b)[from_back(cursor_indices(b))[i]] + (b.selections.len() - i)
}

/// Each cursor stands behind a character of its own, on the line.
proof fn lemma_typed_ranges(b: BufferView, line: int, ch: char, i: int)
    requires
        b.text.len() + b.selections.len() <= usize::MAX,
        cursors_on_line(b, line),
        !is_line_break(ch),
        0 <= i < b.selections.len(),
    ensures
        ({
            let u = inserted(b, ch);
            let a = from_back(cursor_indices(b))[i];
            let r = ranges_before_cursors(u)[a];
            let c = u.selections[a].cursor;
            let at = typed_to(b, i);
            &&& 0 <= a < b.selections.len() == u.selections.len()
            &&& u.text.len() <= usize::MAX
            &&& index_of(u.text, c) == at
            &&& r.start == at - 1 && r.end == at
            &&& 0 < at <= u.text.len()
            &&& line_of(u.text, at) == line && line_of(u.text, at - 1) == line
            &&& c.line == line && trimmed(u.text, c) == c
            &&& line_start(u.text, line) == line_start(b.text, line)
        }),
{
    let n = b.selections.len() as int;
    let points = cursor_indices(b);
    let order = from_back(points);
    let u = inserted(b, ch);
    let at = typed_to(b, i);
    law_from_back(points);
    lemma_typed_on_one_line(b, line, ch, n);
    assert(typed_right(b, line, ch, n, i));
    law_coord_round_trip(b.text, b.selections[order[i]].cursor);
    law_index_round_trip(u.text, at);
    lemma_coord_of(u.text, at);
    assert(line_of(u.text, at) == line_of(u.text, at - 1));
}

proof fn lemma_typed_apart(b: BufferView, line: int, ch: char)
    requires
        b.text.len() + b.selections.len() <= usize::MAX,
        cursors_on_line(b, line),
        !is_line_break(ch),
    ensures
        ({
            let u = inserted(b, ch);
            let ranges = ranges_before_cursors(u);
            &&& ranges.len() == b.selections.len()
            &&& apart(u.text.len() as int, ranges)
            &&& from_back(starts(ranges)) == from_back(cursor_indices(b))
            &&& past_start(u)
        }),
        forall|x: int, y: int|
            0 <= x < y < b.selections.len() ==> #[trigger] typed_to(b, x) > #[trigger] typed_to(
                b,
                y,
            ),
{
    let n = b.selections.len() as int;
    let points = cursor_indices(b);
    let order = from_back(points);
    let u = inserted(b, ch);
    let ranges = ranges_before_cursors(u);
    let keys = starts(ranges);
    law_from_back(points);
    lemma_typed_on_one_line(b, line, ch, n);
    assert forall|x: int, y: int| 0 <= x < y < n implies #[trigger] typed_to(b, x)
        > #[trigger] typed_to(b, y) by {
        assert(sooner(points, order[x], order[y]));
    }
    assert forall|x: int, y: int| 0 <= x < y < n implies sooner(
        keys,
        #[trigger] order[x],
        #[trigger] order[y],
    ) by {
        lemma_typed_ranges(b, line, ch, x);
        lemma_typed_ranges(b, line, ch, y);
        assert(typed_to(b, x) > typed_to(b, y));
    }
    law_from_back_unique(keys, order);
    assert forall|a: int| 0 <= a < n implies {
        let r = #[trigger] ranges[a];
        &&& r.start < r.end <= u.text.len()
        &&& index_of(u.text, u.selections[a].cursor) > 0
    } by {
        assert(order.contains(a));
        lemma_typed_ranges(b, line, ch, choose|i: int| 0 <= i < order.len() && order[i] == a);
    }
    assert forall|a: int, c: int, x: int| 0 <= a < c < n implies !(#[trigger] in_range(
        ranges[a],
        x,
    ) && #[trigger] in_range(ranges[c], x)) by {
        assert(order.contains(a) && order.contains(c));
        let i = choose|i: int| 0 <= i < order.len() && order[i] == a;
        let k = choose|k: int| 0 <= k < order.len() && order[k] == c;
        lemma_typed_ranges(b, line, ch, i);
        lemma_typed_ranges(b, line, ch, k);
        if i < k {
            assert(typed_to(b, i) > typed_to(b, k));
        } else {
            assert(typed_to(b, k) > typed_to(b, i));
        }
    }
    assert forall|a: int| 0 <= a < n implies index_of(
        u.text,
        (#[trigger] u.selections[a]).cursor,
    ) > 0 by {
        assert(ranges[a].start < ranges[a].end);
    }
}

proof fn lemma_typed_text_back(b: BufferView, line: int, ch: char)
    requires
        b.text.len() + b.selections.len() <= usize::MAX,
        cursors_on_line(b, line),
        !is_line_break(ch),
    ensures
        backspaced(inserted(b, ch)).text == b.text,
{
    let n = b.selections.len() as int;
    let points = cursor_indices(b);
    let order = from_back(points);
    let u = inserted(b, ch);
    let ranges = ranges_before_cursors(u);
    law_from_back(points);
    lemma_typed_apart(b, line, ch);
    law_cut_text(all_collapsed(u), ranges);
    lemma_typed_taken_out(b, ch, n);
    let gone = |x: int| typed_there(points, n, x);
    let cut = |x: int| exists|a: int| 0 <= a < ranges.len() && in_range(#[trigger] ranges[a], x);
    assert forall|x: int| 0 <= x < u.text.len() implies #[trigger] gone(x) == cut(x) by {
        if gone(x) {
            let i = choose|i: int|
                #![trigger order[i]]
                0 <= i < n && x == points[order[i]] + (n - i) - 1;
            lemma_typed_ranges(b, line, ch, i);
            assert(in_range(ranges[order[i]], x));
        }
        if cut(x) {
            let a = choose|a: int| 0 <= a < ranges.len() && in_range(#[trigger] ranges[a], x);
            assert(order.contains(a));
            let i = choose|i: int| 0 <= i < order.len() && order[i] == a;
            lemma_typed_ranges(b, line, ch, i);
            assert(x == points[order[i]] + (n - i) - 1);
        }
    }
    lemma_kept_same(u.text, gone, cut, 0);
}

/// The cursors before the one at `i` move it back by one each when all take back a character.
proof fn lemma_typed_moved_back(b: BufferView, line: int, ch: char, k: int, i: int)
    requires
        b.text.len() + b.selections.len() <= usize::MAX,
        cursors_on_line(b, line),
        !is_line_break(ch),
        0 <= k <= b.selections.len(),
        0 <= i < b.selections.len(),
    ensures
        moved_back(ranges_before_cursors(inserted(b, ch)), k, typed_to(b, i) - 1) == if k <= i + 1 {
            0
        } else {
            k - 1 - i
        },
    decreases k,
{
    if k > 0 {
        lemma_typed_moved_back(b, line, ch, k - 1, i);
        lemma_typed_apart(b, line, ch);
        lemma_typed_ranges(b, line, ch, k - 1);
        if k - 1 < i {
            assert(typed_to(b, k - 1) > typed_to(b, i));
        } else if k - 1 > i {
            assert(typed_to(b, i) > typed_to(b, k - 1));
        }
    }
}

/// With any number of cursors on one line, a backspace takes back what was typed: the text is what
/// it was, and each cursor stands where it stood, with nothing selected.
///
/// The character may not break the line. The cursors stand within the columns of the line, and
/// none inside a line break.
pub proof fn law_backspace_undoes_insert_on_one_line(
    b: BufferView,
    line: int,
    ch: char,
    j: int,
)
    requires
        b.text.len() + b.selections.len() <= usize::MAX,
        cursors_on_line(b, line),
        !is_line_break(ch),
        0 <= j < b.selections.len(),
    ensures
        ({
            let typed = inserted(b, ch);
            let after = backspaced(typed);
            &&& past_start(typed)
            &&& can_cut(typed.text.len() as int, ranges_before_cursors(typed))
            &&& after.text == b.text
            &&& index_of(after.text, after.selections[j].cursor) == index_of(
                b.text,
                b.selections[j].cursor,
            )
            &&& after.selections[j].anchor == after.selections[j].cursor
        }),
{
    let n = b.selections.len() as int;
    let points = cursor_indices(b);
    let order = from_back(points);
    let u = inserted(b, ch);
    let ranges = ranges_before_cursors(u);
    law_from_back(points);
    assert(order.contains(j));
    let i = choose|i: int| 0 <= i < order.len() && order[i] == j;
    lemma_typed_apart(b, line, ch);
    lemma_typed_ranges(b, line, ch, i);
    law_apart_can_be_cut(u.text.len() as int, ranges);
    lemma_typed_text_back(b, line, ch);
    assert forall|a: int| 0 <= a < ranges.len() implies line_of(
        u.text,
        (#[trigger] ranges[a]).start as int,
    ) == line && line_of(u.text, ranges[a].end as int) == line by {
        assert(order.contains(a));
        lemma_typed_ranges(b, line, ch, choose|k: int| 0 <= k < order.len() && order[k] == a);
    }
    law_coord_round_trip(b.text, b.selections[j].cursor);
    lemma_coord_of(b.text, points[j]);
    lemma_line_start(b.text, line);
    law_backspaced_on_one_line(u, line, j);
    lemma_typed_moved_back(b, line, ch, n, i);
}

} // verus!
