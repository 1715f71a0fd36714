//! Edits at many selections, on whichever lines, as what they are: step after step from the back of
//! the text.

use crate::buffer::BufferView;
use crate::coord::{index_of, law_coord_round_trip, trimmed, Coord};
use crate::edit::{
    all_collapsed, all_cut, backspaced, can_cut, cursor_indices, cut_up_to, deleted, inserted,
    left_after, pasted, pasted_up_to, range_from_back, ranges_before_cursors, selected_ranges,
    starts, typed_up_to,
};
use crate::order::{from_back, law_from_back};
use crate::selection::SelectionUnaligned;
use crate::steps::{
    law_cut_step, law_pasted_selection, law_pasted_step, law_pushed_on, law_shifted_back, law_typed,
    law_typed_step, lemma_among_taken, lemma_forward_trimmed, moved_on,
};
use std::ops::Range;
use vstd::prelude::*;

verus! {

/// Whether one buffer comes out of another by typing a character at `p`: it goes in there, each
/// selection that had its turn has its cursor one character on from its line and column and selects
/// nothing, and no other changes.
pub open spec fn types_at(
    before: BufferView,
    after: BufferView,
    p: int,
    ch: char,
    had_turn: Seq<int>,
) -> bool {
    &&& 0 <= p <= before.text.len()
    &&& after.text == before.text.take(p) + seq![ch] + before.text.skip(p)
    &&& after.selections.len() == before.selections.len()
    &&& after.primary_sel_i == before.primary_sel_i
    &&& forall|j: int|
        #![trigger after.selections[j]]
        0 <= j < before.selections.len() ==> if had_turn.contains(j) {
            let s = after.selections[j];
            &&& s.anchor == s.cursor
            &&& trimmed(after.text, s.cursor) == s.cursor
            &&& moved_on(
                after.text.len() as int,
                index_of(after.text, before.selections[j].cursor),
                1,
                index_of(after.text, s.cursor),
            )
        } else {
            after.selections[j] == before.selections[j]
        }
}

proof fn lemma_typed_chain(b: BufferView, ch: char, k: int) -> (states: Seq<BufferView>)
    requires
        b.text.len() + b.selections.len() <= usize::MAX,
        0 <= k <= b.selections.len(),
    ensures
        ({
            let points = cursor_indices(b);
            let order = from_back(points);
            &&& states.len() == k + 1
            &&& states[0] == b
            &&& states[k] == typed_up_to(b, points, ch, k)
            &&& states[k].text.len() == b.text.len() + k
            &&& states[k].selections.len() == b.selections.len()
            &&& forall|i: int|
                #![trigger states[i]]
                0 <= i < k ==> types_at(
                    states[i],
                    states[i + 1],
                    points[order[i]],
                    ch,
                    order.take(i + 1),
                )
        }),
    decreases k,
{
    if k <= 0 {
        seq![b]
    } else {
        let points = cursor_indices(b);
        let order = from_back(points);
        let states = lemma_typed_chain(b, ch, k - 1);
        let before = states[k - 1];
        let after = typed_up_to(b, points, ch, k);
        law_from_back(points);
        law_coord_round_trip(b.text, b.selections[order[k - 1]].cursor);
        let p = points[order[k - 1]];
        assert forall|j: int|
            #![trigger after.selections[j]]
            0 <= j < before.selections.len() implies if order.take(k).contains(j) {
            let s = after.selections[j];
            &&& s.anchor == s.cursor
            &&& trimmed(after.text, s.cursor) == s.cursor
            &&& moved_on(
                after.text.len() as int,
                index_of(after.text, before.selections[j].cursor),
                1,
                index_of(after.text, s.cursor),
            )
        } else {
            after.selections[j] == before.selections[j]
        } by {
            law_typed_step(before, points, order, k - 1, ch, j);
            law_typed(after.text, before.selections[j]);
            lemma_among_taken(order, k, j);
        }
        assert(types_at(before, after, p, ch, order.take(k)));
        let all = states.push(after);
        assert forall|i: int| #![trigger all[i]] 0 <= i < k implies types_at(
            all[i],
            all[i + 1],
            points[order[i]],
            ch,
            order.take(i + 1),
        ) by {
            if i < k - 1 {
                assert(all[i] == states[i] && all[i + 1] == states[i + 1]);
            }
        }
        all
    }
}

/// Typing goes from the last cursor to the first, and of those in one place from the last in the
/// list to the first. In each step the character goes in where the cursor stood before any was
/// typed.
pub proof fn law_typed_in_steps(b: BufferView, ch: char) -> (states: Seq<BufferView>)
    requires
        b.text.len() + b.selections.len() <= usize::MAX,
    ensures
        ({
            let n = b.selections.len() as int;
            let points = b.selections.map_values(
                |s: SelectionUnaligned| index_of(b.text, s.cursor),
            );
            let order = from_back(points);
            &&& states.len() == n + 1
            &&& states[0] == b
            &&& states[n] == inserted(b, ch)
            &&& forall|i: int|
                #![trigger states[i]]
                0 <= i < n ==> types_at(
                    states[i],
                    states[i + 1],
                    points[order[i]],
                    ch,
                    order.take(i + 1),
                )
        }),
{
    assert(b.selections.map_values(|s: SelectionUnaligned| index_of(b.text, s.cursor))
        =~= cursor_indices(b));
    lemma_typed_chain(b, ch, b.selections.len() as int)
}

/// Whether a selection comes out of another in the text `t` by pasting `n` characters at its
/// cursor: where the anchor is not behind the cursor, the cursor goes `n` characters on, and the
/// anchor to where the cursor was, or stays to extend; else the cursor stays, and the anchor goes
/// `n` characters on from it, or from where it is to extend.
pub open spec fn takes_piece(
    t: Seq<char>,
    before: SelectionUnaligned,
    after: SelectionUnaligned,
    n: int,
    extend: bool,
) -> bool {
    let a = index_of(t, before.anchor);
    let c = index_of(t, before.cursor);
    &&& a <= c ==> {
        &&& moved_on(t.len() as int, c, n, index_of(t, after.cursor))
        &&& after.anchor == if extend {
            before.anchor
        } else {
            before.cursor
        }
    }
    &&& a > c ==> {
        &&& after.cursor == before.cursor
        &&& moved_on(
            t.len() as int,
            if extend {
                a
            } else {
                c
            },
            n,
            index_of(t, after.anchor),
        )
    }
}

/// Whether an end of a selection comes out of another in the text `t` by pasting `n` characters at
/// `at`, at another selection: it goes `n` characters on where it stands there or behind it.
pub open spec fn makes_room(t: Seq<char>, before: Coord, after: Coord, at: int, n: int) -> bool {
    if at <= index_of(t, before) {
        moved_on(t.len() as int, index_of(t, before), n, index_of(t, after))
    } else {
        after == before
    }
}

/// Whether one buffer comes out of another by pasting a piece at `p`, at the selection at `turn`.
pub open spec fn pastes_at(
    before: BufferView,
    after: BufferView,
    p: int,
    piece: Seq<char>,
    extend: bool,
    turn: int,
    had_turn: Seq<int>,
) -> bool {
    let n = piece.len() as int;
    &&& 0 <= p <= before.text.len()
    &&& after.text == before.text.take(p) + piece + before.text.skip(p)
    &&& after.selections.len() == before.selections.len()
    &&& after.primary_sel_i == before.primary_sel_i
    &&& forall|j: int|
        #![trigger after.selections[j]]
        0 <= j < before.selections.len() ==> {
            let s = before.selections[j];
            let r = after.selections[j];
            if j == turn {
                takes_piece(after.text, s, r, n, extend)
            } else if had_turn.contains(j) {
                &&& makes_room(after.text, s.anchor, r.anchor, p, n)
                &&& makes_room(after.text, s.cursor, r.cursor, p, n)
            } else {
                r == s
            }
        }
}

/// How many characters the first `k` of `pieces` have, as far as there are so many.
pub open spec fn total(pieces: Seq<Seq<char>>, k: int) -> int
    decreases k,
{
    if k <= 0 {
        0
    } else {
        total(pieces, k - 1) + if k <= pieces.len() {
            pieces[k - 1].len() as int
        } else {
            0
        }
    }
}

proof fn lemma_pasted_chain(
    b: BufferView,
    pieces: Seq<Seq<char>>,
    extend: bool,
    k: int,
) -> (states: Seq<BufferView>)
    requires
        0 <= k <= b.selections.len(),
        b.text.len() + total(pieces, k) <= usize::MAX,
        b.text.len() <= usize::MAX,
    ensures
        ({
            let points = cursor_indices(b);
            let order = from_back(points);
            &&& states.len() == k + 1
            &&& states[0] == b
            &&& states[k] == pasted_up_to(b, points, pieces, extend, k)
            &&& states[k].text.len() == b.text.len() + total(pieces, k)
            &&& 0 <= total(pieces, k)
            &&& states[k].selections.len() == b.selections.len()
            &&& forall|i: int|
                #![trigger states[i]]
                0 <= i < k ==> if i < pieces.len() {
                    pastes_at(
                        states[i],
                        states[i + 1],
                        points[order[i]],
                        pieces[i],
                        extend,
                        order[i],
                        order.take(i),
                    )
                } else {
                    states[i + 1] == states[i]
                }
        }),
    decreases k,
{
    if k <= 0 {
        seq![b]
    } else {
        let points = cursor_indices(b);
        let order = from_back(points);
        let states = lemma_pasted_chain(b, pieces, extend, k - 1);
        let before = states[k - 1];
        let after = pasted_up_to(b, points, pieces, extend, k);
        law_from_back(points);
        law_coord_round_trip(b.text, b.selections[order[k - 1]].cursor);
        let p = points[order[k - 1]];
        if k - 1 < pieces.len() {
            let piece = pieces[k - 1];
            let n = piece.len() as int;
            law_pasted_step(before, points, order, k - 1, piece, extend, 0);
            assert forall|j: int|
                #![trigger after.selections[j]]
                0 <= j < before.selections.len() implies {
                let s = before.selections[j];
                let r = after.selections[j];
                if j == order[k - 1] {
                    takes_piece(after.text, s, r, n, extend)
                } else if order.take(k - 1).contains(j) {
                    &&& makes_room(after.text, s.anchor, r.anchor, p, n)
                    &&& makes_room(after.text, s.cursor, r.cursor, p, n)
                } else {
                    r == s
                }
            } by {
                law_pasted_step(before, points, order, k - 1, piece, extend, j);
                law_pasted_selection(after.text, before.selections[j], n, extend);
                law_pushed_on(after.text, before.selections[j], p, n);
            }
            assert(pastes_at(before, after, p, piece, extend, order[k - 1], order.take(k - 1)));
        }
        let all = states.push(after);
        assert forall|i: int| #![trigger all[i]] 0 <= i < k implies if i < pieces.len() {
            pastes_at(
                all[i],
                all[i + 1],
                points[order[i]],
                pieces[i],
                extend,
                order[i],
                order.take(i),
            )
        } else {
            all[i + 1] == all[i]
        } by {
            if i < k - 1 {
                assert(all[i] == states[i] && all[i + 1] == states[i + 1]);
            }
        }
        all
    }
}

/// Pasting goes from the last cursor to the first, and of those in one place from the last in the
/// list to the first. In each step the next piece, while there are any, goes in where the cursor
/// stood before any was pasted.
pub proof fn law_pasted_in_steps(
    b: BufferView,
    pieces: Seq<Seq<char>>,
    extend: bool,
) -> (states: Seq<BufferView>)
    requires
        b.text.len() + total(pieces, b.selections.len() as int) <= usize::MAX,
        b.text.len() <= usize::MAX,
    ensures
        ({
            let n = b.selections.len() as int;
            let points = b.selections.map_values(
                |s: SelectionUnaligned| index_of(b.text, s.cursor),
            );
            let order = from_back(points);
            &&& states.len() == n + 1
            &&& states[0] == b
            &&& states[n] == pasted(b, pieces, extend)
            &&& forall|i: int|
                #![trigger states[i]]
                0 <= i < n ==> if i < pieces.len() {
                    pastes_at(
                        states[i],
                        states[i + 1],
                        points[order[i]],
                        pieces[i],
                        extend,
                        order[i],
                        order.take(i),
                    )
                } else {
                    states[i + 1] == states[i]
                }
        }),
{
    assert(b.selections.map_values(|s: SelectionUnaligned| index_of(b.text, s.cursor))
        =~= cursor_indices(b));
    lemma_pasted_chain(b, pieces, extend, b.selections.len() as int)
}

/// Whether an end of a selection comes out of another in the text `t` by putting it `n` characters
/// back where it stands behind `start`.
pub open spec fn falls_back(t: Seq<char>, before: Coord, after: Coord, start: int, n: int) -> bool {
    let i = index_of(t, before);
    if start >= i {
        after == before
    } else if n <= i {
        index_of(t, after) == i - n && trimmed(t, after) == after
    } else {
        index_of(t, after) == 0 && trimmed(t, after) == after
    }
}

/// Whether one buffer comes out of another by removing the characters from `start` up to `end`. The
/// selections are put back in the text as it was before.
pub open spec fn cuts_at(before: BufferView, after: BufferView, start: int, end: int) -> bool {
    &&& 0 <= start <= end <= before.text.len()
    &&& after.text == before.text.take(start) + before.text.skip(end)
    &&& after.selections.len() == before.selections.len()
    &&& after.primary_sel_i == before.primary_sel_i
    &&& forall|j: int|
        #![trigger after.selections[j]]
        0 <= j < before.selections.len() ==> {
            let s = before.selections[j];
            let r = after.selections[j];
            &&& falls_back(before.text, s.anchor, r.anchor, start, end - start)
            &&& falls_back(before.text, s.cursor, r.cursor, start, end - start)
        }
}

proof fn lemma_cut_chain(
    b: BufferView,
    ranges: Seq<Range<usize>>,
    k: int,
) -> (states: Seq<BufferView>)
    requires
        b.text.len() <= usize::MAX,
        can_cut(b.text.len() as int, ranges),
        0 <= k <= ranges.len(),
    ensures
        ({
            let order = from_back(starts(ranges));
            &&& states.len() == k + 1
            &&& states[0] == b
            &&& states[k] == cut_up_to(b, ranges, k)
            &&& states[k].text.len() == left_after(b.text.len() as int, ranges, k) <= b.text.len()
            &&& states[k].selections.len() == b.selections.len()
            &&& forall|i: int|
                #![trigger states[i]]
                0 <= i < k ==> cuts_at(
                    states[i],
                    states[i + 1],
                    ranges[order[i]].start as int,
                    ranges[order[i]].end as int,
                )
        }),
    decreases k,
{
    if k <= 0 {
        seq![b]
    } else {
        let order = from_back(starts(ranges));
        let states = lemma_cut_chain(b, ranges, k - 1);
        let before = states[k - 1];
        let after = cut_up_to(b, ranges, k);
        let r = range_from_back(ranges, k - 1);
        let n = r.end - r.start;
        assert(r.start <= r.end <= left_after(b.text.len() as int, ranges, k - 1));
        assert forall|j: int|
            #![trigger after.selections[j]]
            0 <= j < before.selections.len() implies {
            let s = before.selections[j];
            let t = after.selections[j];
            &&& falls_back(before.text, s.anchor, t.anchor, r.start as int, n)
            &&& falls_back(before.text, s.cursor, t.cursor, r.start as int, n)
        } by {
            law_cut_step(before, r.start as int, r.end as int, j);
            law_shifted_back(before.text, before.selections[j], r.start as int, n);
            lemma_forward_trimmed(before.text, before.selections[j].anchor, n);
            lemma_forward_trimmed(before.text, before.selections[j].cursor, n);
        }
        assert(cuts_at(before, after, r.start as int, r.end as int));
        let all = states.push(after);
        assert forall|i: int| #![trigger all[i]] 0 <= i < k implies cuts_at(
            all[i],
            all[i + 1],
            ranges[order[i]].start as int,
            ranges[order[i]].end as int,
        ) by {
            if i < k - 1 {
                assert(all[i] == states[i] && all[i + 1] == states[i + 1]);
            }
        }
        all
    }
}

/// Removing ranges goes from the one that starts last to the one that starts first.
pub proof fn law_cut_in_steps(b: BufferView, ranges: Seq<Range<usize>>) -> (states: Seq<
    BufferView,
>)
    requires
        b.text.len() <= usize::MAX,
        can_cut(b.text.len() as int, ranges),
    ensures
        ({
            let n = ranges.len() as int;
            let order = from_back(ranges.map_values(|r: Range<usize>| r.start as int));
            &&& states.len() == n + 1
            &&& states[0] == b
            &&& states[n] == all_cut(b, ranges)
            &&& forall|i: int|
                #![trigger states[i]]
                0 <= i < n ==> cuts_at(
                    states[i],
                    states[i + 1],
                    ranges[order[i]].start as int,
                    ranges[order[i]].end as int,
                )
        }),
{
    assert(ranges.map_values(|r: Range<usize>| r.start as int) =~= starts(ranges));
    lemma_cut_chain(b, ranges, ranges.len() as int)
}

/// Deleting and taking back remove ranges from the buffer with each selection collapsed to its
/// cursor: those that the selections cover, and those of one character before the cursors.
pub proof fn law_removals(b: BufferView, j: int)
    requires
        b.text.len() <= usize::MAX,
        0 <= j < b.selections.len(),
    ensures
        ({
            let from = all_collapsed(b);
            &&& deleted(b) == all_cut(from, selected_ranges(b))
            &&& backspaced(b) == all_cut(from, ranges_before_cursors(b))
            &&& from.text == b.text
            &&& from.selections.len() == b.selections.len()
            &&& from.primary_sel_i == b.primary_sel_i
            &&& from.selections[j].cursor == b.selections[j].cursor
            &&& from.selections[j].anchor == b.selections[j].cursor
        }),
{
}

} // verus!
