//! Where one selection stands once text was pasted at it, on whichever lines its ends are.

use crate::buffer::BufferView;
use crate::coord::{
    coord_of, index_of, last_column, law_coord_round_trip, law_index_round_trip, lemma_coord_of,
    lemma_last_column, trimmed, Coord,
};
use crate::edit::pasted;
use crate::laws::{law_paste_one, lemma_coord_prefix};
use crate::lines::{
    ends_line, lemma_line_of_monotone, lemma_line_start, lemma_line_start_is, line_count, line_of,
    line_start, spliced, starts_line,
};
use crate::one_line::{breaks_no_line, lemma_lines_after_splice, splits_pair};
use crate::selection::SelectionUnaligned;
use vstd::prelude::*;

verus! {

/// Whether the coordinates of a selection lie within the columns of their lines.
pub open spec fn within_lines(t: Seq<char>, s: SelectionUnaligned) -> bool {
    &&& trimmed(t, s.anchor) == s.anchor
    &&& trimmed(t, s.cursor) == s.cursor
}

/// Whether a piece put in at `p` makes and splits no pair of carriage return and line feed before
/// it.
pub open spec fn break_kept(t: Seq<char>, p: int, piece: Seq<char>) -> bool {
    ends_line(t, p - 1) == ends_line(spliced(t, p, piece), p - 1)
}

/// A coordinate that stood behind `p` still does once a piece was put in there, unless it stood on
/// the line of `p` and the piece ends that line right away.
proof fn lemma_still_behind(t: Seq<char>, p: int, piece: Seq<char>, c: Coord)
    requires
        t.len() + piece.len() <= usize::MAX,
        0 <= p < index_of(t, c),
        trimmed(t, c) == c,
        break_kept(t, p, piece),
        line_of(t, p) == c.line ==> !ends_line(spliced(t, p, piece), p),
    ensures
        index_of(spliced(t, p, piece), c) > p,
{
    let u = spliced(t, p, piece);
    let a = index_of(t, c);
    law_coord_round_trip(t, c);
    lemma_coord_of(t, a);
    lemma_coord_of(t, p);
    lemma_line_of_monotone(t, p, a);
    assert(t.take(p) == u.take(p));
    lemma_coord_prefix(t, u, p);
    lemma_coord_of(u, p);
    let line = c.line as int;
    if line >= line_count(u) {
        law_index_round_trip(u, u.len() as int);
    } else {
        lemma_last_column(u, line);
        lemma_line_start(u, line);
        if line > line_of(t, p) {
            if line_start(u, line) <= p {
                lemma_line_of_monotone(u, line_start(u, line), p);
            }
        } else if last_column(u, line) == p - line_start(u, line) {
            lemma_line_start(u, line + 1);
        }
    }
}

/// Where the ends of a selection stand in the text once a piece was put in at its cursor.
proof fn lemma_ends_after_splice(t: Seq<char>, s: SelectionUnaligned, piece: Seq<char>)
    requires
        t.len() + piece.len() <= usize::MAX,
        within_lines(t, s),
        break_kept(t, index_of(t, s.cursor), piece),
    ensures
        ({
            let p = index_of(t, s.cursor);
            let a = index_of(t, s.anchor);
            let u = spliced(t, p, piece);
            &&& 0 <= p <= t.len() && 0 <= a <= t.len()
            &&& index_of(u, s.cursor) == p
            &&& a <= p ==> index_of(u, s.anchor) == a
            &&& a > p && !(s.anchor.line == s.cursor.line && ends_line(u, p)) ==> index_of(
                u,
                s.anchor,
            ) > p
            &&& 0 <= index_of(u, s.anchor) <= u.len()
        }),
{
    let p = index_of(t, s.cursor);
    let a = index_of(t, s.anchor);
    let u = spliced(t, p, piece);
    law_coord_round_trip(t, s.cursor);
    law_coord_round_trip(t, s.anchor);
    law_coord_round_trip(u, s.anchor);
    lemma_coord_of(t, p);
    assert(t.take(p) == u.take(p));
    lemma_coord_prefix(t, u, p);
    law_index_round_trip(u, p);
    if a <= p {
        assert(t.take(a) =~= u.take(a));
        if 0 < a < p {
            assert(t[a - 1] == u[a - 1]);
            assert(t[a] == u[a]);
        }
        lemma_coord_prefix(t, u, a);
        law_index_round_trip(u, a);
    } else if !(s.anchor.line == s.cursor.line && ends_line(u, p)) {
        lemma_still_behind(t, p, piece, s.anchor);
    }
}

/// Pasting at one selection, on whichever lines its ends are: where the anchor stood before the
/// cursor or at it, the selection runs from the place of the cursor to behind the pasted text;
/// where the anchor stood behind the cursor, it runs from behind the pasted text back to that
/// place.
///
/// A selection that runs backward on one line is left out where the pasted text ends that line
/// right away: its anchor is then no longer behind its cursor.
pub proof fn law_pasted_places(b: BufferView, piece: Seq<char>)
    requires
        b.text.len() + piece.len() <= usize::MAX,
        b.selections.len() == 1,
        within_lines(b.text, b.selections[0]),
        ({
            let s = b.selections[0];
            let p = index_of(b.text, s.cursor);
            &&& break_kept(b.text, p, piece)
            &&& index_of(b.text, s.anchor) > p && s.anchor.line == s.cursor.line ==> !ends_line(
                spliced(b.text, p, piece),
                p,
            )
        }),
    ensures
        ({
            let p = index_of(b.text, b.selections[0].cursor);
            let a = index_of(b.text, b.selections[0].anchor);
            let after = pasted(b, seq![piece], false);
            let anchor = index_of(after.text, after.selections[0].anchor);
            let cursor = index_of(after.text, after.selections[0].cursor);
            &&& after.text == b.text.take(p) + piece + b.text.skip(p)
            &&& after.selections.len() == 1
            &&& a > p ==> cursor == p && anchor == p + piece.len()
            &&& a <= p ==> anchor == p && cursor == p + piece.len()
        }),
{
    let s = b.selections[0];
    let p = index_of(b.text, s.cursor);
    let u = spliced(b.text, p, piece);
    law_paste_one(b, piece, false);
    lemma_ends_after_splice(b.text, s, piece);
    law_index_round_trip(u, p + piece.len());
}

/// Pasting into one selection, on whichever lines its ends are: where the anchor stood before the
/// cursor or at it, it stays, and the cursor goes behind the pasted text; where the anchor stood
/// behind the cursor, the cursor stays, and the anchor goes as many characters on as were pasted
/// from what its line and column stand for by then.
pub proof fn law_pasted_into_places(b: BufferView, piece: Seq<char>)
    requires
        b.text.len() + piece.len() <= usize::MAX,
        b.selections.len() == 1,
        within_lines(b.text, b.selections[0]),
        ({
            let s = b.selections[0];
            let p = index_of(b.text, s.cursor);
            &&& break_kept(b.text, p, piece)
            &&& index_of(b.text, s.anchor) > p && s.anchor.line == s.cursor.line ==> !ends_line(
                spliced(b.text, p, piece),
                p,
            )
        }),
    ensures
        ({
            let p = index_of(b.text, b.selections[0].cursor);
            let a = index_of(b.text, b.selections[0].anchor);
            let after = pasted(b, seq![piece], true);
            let anchor = index_of(after.text, after.selections[0].anchor);
            let cursor = index_of(after.text, after.selections[0].cursor);
            let stale = index_of(after.text, b.selections[0].anchor);
            &&& after.text == b.text.take(p) + piece + b.text.skip(p)
            &&& after.selections.len() == 1
            &&& a <= p ==> anchor == a && cursor == p + piece.len()
            &&& a > p ==> cursor == p && anchor > p
            &&& a > p && stale + piece.len() <= after.text.len() ==> anchor == stale + piece.len()
            &&& a > p && stale + piece.len() > after.text.len() ==> anchor == after.text.len()
        }),
{
    let s = b.selections[0];
    let p = index_of(b.text, s.cursor);
    let u = spliced(b.text, p, piece);
    let stale = index_of(u, s.anchor);
    law_paste_one(b, piece, true);
    lemma_ends_after_splice(b.text, s, piece);
    law_index_round_trip(u, p + piece.len());
    law_index_round_trip(
        u,
        if stale + piece.len() > u.len() {
            u.len() as int
        } else {
            stale + piece.len()
        },
    );
}

/// Pasting into one selection that runs forward or selects nothing makes it longer by the pasted
/// text: it covers what it covered, then the piece. One that runs backward covers the piece, then
/// what it covered, where the line and column of its anchor still stand for the place they stood
/// for. Each keeps its direction.
pub proof fn law_pasted_into_grows(b: BufferView, piece: Seq<char>)
    requires
        b.text.len() + piece.len() <= usize::MAX,
        b.selections.len() == 1,
        within_lines(b.text, b.selections[0]),
        ({
            let s = b.selections[0];
            let p = index_of(b.text, s.cursor);
            let a = index_of(b.text, s.anchor);
            &&& break_kept(b.text, p, piece)
            &&& a > p ==> index_of(spliced(b.text, p, piece), s.anchor) == a
        }),
    ensures
        ({
            let p = index_of(b.text, b.selections[0].cursor);
            let a = index_of(b.text, b.selections[0].anchor);
            let m = piece.len();
            let after = pasted(b, seq![piece], true);
            let anchor = index_of(after.text, after.selections[0].anchor);
            let cursor = index_of(after.text, after.selections[0].cursor);
            &&& a <= p ==> {
                &&& anchor == a && cursor == p + m
                &&& after.text.subrange(anchor, cursor) == b.text.subrange(a, p) + piece
            }
            &&& a > p ==> {
                &&& cursor == p && anchor == a + m
                &&& after.text.subrange(cursor, anchor) == piece + b.text.subrange(p, a)
            }
        }),
{
    let s = b.selections[0];
    let p = index_of(b.text, s.cursor);
    let a = index_of(b.text, s.anchor);
    let m = piece.len() as int;
    let u = spliced(b.text, p, piece);
    law_paste_one(b, piece, true);
    lemma_ends_after_splice(b.text, s, piece);
    law_index_round_trip(u, p + m);
    law_index_round_trip(u, a + m);
    if a <= p {
        assert(u.subrange(a, p + m) =~= b.text.subrange(a, p) + piece);
    } else {
        assert(u.subrange(p, a + m) =~= piece + b.text.subrange(p, a));
    }
}

/// Pasting text without line breaks into one selection that runs backward over several lines: the
/// anchor, whose line was moved on by the pasted text already, is moved on by it once more.
pub proof fn law_pasted_into_backward_lines(b: BufferView, piece: Seq<char>)
    requires
        b.text.len() + piece.len() <= usize::MAX,
        b.selections.len() == 1,
        within_lines(b.text, b.selections[0]),
        b.selections[0].anchor.line > b.selections[0].cursor.line,
        breaks_no_line(piece),
        !splits_pair(b.text, index_of(b.text, b.selections[0].cursor)),
    ensures
        ({
            let p = index_of(b.text, b.selections[0].cursor);
            let a = index_of(b.text, b.selections[0].anchor);
            let m = piece.len();
            let after = pasted(b, seq![piece], true);
            &&& p < a
            &&& index_of(after.text, after.selections[0].cursor) == p
            &&& a + m <= b.text.len() ==> index_of(after.text, after.selections[0].anchor) == a + 2
                * m
            &&& a + m > b.text.len() ==> index_of(after.text, after.selections[0].anchor)
                == after.text.len()
        }),
{
    let t = b.text;
    let s = b.selections[0];
    let p = index_of(t, s.cursor);
    let a = index_of(t, s.anchor);
    let m = piece.len() as int;
    let u = spliced(t, p, piece);
    let line = s.anchor.line as int;
    law_coord_round_trip(t, s.cursor);
    law_coord_round_trip(t, s.anchor);
    lemma_coord_of(t, p);
    lemma_coord_of(t, a);
    if a <= p {
        lemma_line_of_monotone(t, a, p);
    }
    // The anchor's line is moved on by the piece.
    lemma_line_start(t, line);
    let start = line_start(t, line);
    if start <= p {
        lemma_line_of_monotone(t, start, p);
    }
    lemma_lines_after_splice(t, p, piece, start + m);
    lemma_lines_after_splice(t, p, piece, a + m);
    assert(u[start + m - 1] == t[start - 1]);
    if start < t.len() {
        assert(u[start + m] == t[start]);
    }
    assert(starts_line(u, line, start + m));
    lemma_line_start_is(u, line, start + m);
    assert(coord_of(u, a + m) == s.anchor);
    law_index_round_trip(u, a + m);
    // The cursor's line is not.
    if 0 < p {
        assert(u[p - 1] == t[p - 1]);
        if 0 < m {
            assert(u[p] == piece[0]);
        } else {
            assert(u =~= t);
        }
    }
    assert(break_kept(t, p, piece));
    law_pasted_into_places(b, piece);
}

} // verus!
