//! Edits of a buffer's text at all its selections at once.
//!
//! Each edit goes from the back of the text to its front. The selections at or behind the place of
//! an edit are put right directly after it.

use crate::buffer::{
    may_find, selected_texts, shifted_back, texts_of, with_each, Buffer, BufferView,
};
use crate::coord::{forward, index_of, Coord};
use crate::idx::Idx;
use crate::lines::{joined, joined_backwards, spliced, without};
use crate::order::{as_ints, back_to_front, from_back, is_order_from_back, law_from_back, sooner};
use crate::rope::{chunks, remove, rope_chars, rope_chunks};
use crate::selection::{
    aligned, collapsed, range_end, range_start, runs_forward, SelectionUnaligned,
};
use ropey::Rope;
use std::ops::Range;
use vstd::prelude::*;

verus! {

/// The indices of the cursors, selection by selection.
pub open spec fn cursor_indices(b: BufferView) -> Seq<int> {
    b.selections.map_values(|s: SelectionUnaligned| index_of(b.text, s.cursor))
}

/// Whether `j` is among the first `n` of `order`.
pub open spec fn among_first(order: Seq<int>, n: int, j: int) -> bool {
    exists|i: int| 0 <= i < n && #[trigger] order[i] == j
}

/// The positions in a list of positions and places.
pub open spec fn positions(points: Seq<(usize, Idx)>) -> Seq<int> {
    points.map_values(|p: (usize, Idx)| p.0 as int)
}

/// A selection after a character was typed before it: its cursor one character on, nothing
/// selected.
pub open spec fn typed(t: Seq<char>, s: SelectionUnaligned) -> SelectionUnaligned {
    collapsed(SelectionUnaligned { anchor: s.anchor, cursor: forward(t, s.cursor, 1) })
}

/// A buffer after `ch` was typed at the place `points[order[k]]`, and the selections that come up
/// to `k` in `order` were put right.
pub open spec fn typed_at(
    b: BufferView,
    points: Seq<int>,
    order: Seq<int>,
    k: int,
    ch: char,
) -> BufferView {
    let text = spliced(b.text, points[order[k]], seq![ch]);
    BufferView {
        text,
        selections: Seq::new(
            b.selections.len(),
            |j: int|
                if among_first(order, k + 1, j) {
                    typed(text, b.selections[j])
                } else {
                    b.selections[j]
                },
        ),
        ..b
    }
}

/// A buffer after `ch` was typed at the last `k` of the places `points`, from the back.
pub open spec fn typed_up_to(b: BufferView, points: Seq<int>, ch: char, k: int) -> BufferView
    decreases k,
{
    if k <= 0 {
        b
    } else {
        typed_at(typed_up_to(b, points, ch, k - 1), points, from_back(points), k - 1, ch)
    }
}

/// A buffer after `ch` was typed at every cursor.
pub open spec fn inserted(b: BufferView, ch: char) -> BufferView {
    typed_up_to(b, cursor_indices(b), ch, b.selections.len() as int)
}

/// A coordinate at `at` or behind it, `n` characters further on.
pub open spec fn pushed_coord_on(t: Seq<char>, c: Coord, at: int, n: int) -> Coord {
    if at <= index_of(t, c) {
        forward(t, c, n)
    } else {
        c
    }
}

/// A selection with what stands of it at `at` or behind it `n` characters further on.
pub open spec fn pushed_on(
    t: Seq<char>,
    s: SelectionUnaligned,
    at: int,
    n: int,
) -> SelectionUnaligned {
    SelectionUnaligned {
        anchor: pushed_coord_on(t, s.anchor, at, n),
        cursor: pushed_coord_on(t, s.cursor, at, n),
    }
}

/// A selection after `n` characters were pasted at its cursor: it selects what was pasted, or, to
/// extend it, what it selected before and what was pasted.
pub open spec fn pasted_selection(
    t: Seq<char>,
    s: SelectionUnaligned,
    n: int,
    extend: bool,
) -> SelectionUnaligned {
    if runs_forward(aligned(t, s)) {
        SelectionUnaligned {
            anchor: if extend {
                s.anchor
            } else {
                s.cursor
            },
            cursor: forward(t, s.cursor, n),
        }
    } else {
        SelectionUnaligned {
            anchor: forward(
                t,
                if extend {
                    s.anchor
                } else {
                    s.cursor
                },
                n,
            ),
            cursor: s.cursor,
        }
    }
}

/// A buffer after `piece` was pasted at the place `points[order[k]]`, and the selections that come
/// up to `k` in `order` were put right.
pub open spec fn pasted_at(
    b: BufferView,
    points: Seq<int>,
    order: Seq<int>,
    k: int,
    piece: Seq<char>,
    extend: bool,
) -> BufferView {
    let at = points[order[k]];
    let text = spliced(b.text, at, piece);
    let n = piece.len() as int;
    BufferView {
        text,
        selections: Seq::new(
            b.selections.len(),
            |j: int|
                if j == order[k] {
                    pasted_selection(text, b.selections[j], n, extend)
                } else if among_first(order, k, j) {
                    pushed_on(text, b.selections[j], at, n)
                } else {
                    b.selections[j]
                },
        ),
        ..b
    }
}

/// A buffer after the first `k` of `pieces` were pasted at the last `k` of the places `points`,
/// from the back. Where there is no piece left, nothing happens.
pub open spec fn pasted_up_to(
    b: BufferView,
    points: Seq<int>,
    pieces: Seq<Seq<char>>,
    extend: bool,
    k: int,
) -> BufferView
    decreases k,
{
    if k <= 0 {
        b
    } else {
        let before = pasted_up_to(b, points, pieces, extend, k - 1);
        if k - 1 < pieces.len() {
            pasted_at(before, points, from_back(points), k - 1, pieces[k - 1], extend)
        } else {
            before
        }
    }
}

/// A buffer after `pieces` were pasted at its cursors: the first piece at the last cursor.
pub open spec fn pasted(b: BufferView, pieces: Seq<Seq<char>>, extend: bool) -> BufferView {
    pasted_up_to(b, cursor_indices(b), pieces, extend, b.selections.len() as int)
}

/// What pasting a rope puts into a text. The stored pieces of the rope go in one by one, each
/// before the one that went in last.
pub open spec fn pasted_text(rope: Rope) -> Seq<char> {
    joined_backwards(rope_chunks(rope))
}

/// What pasting ropes puts into a text, rope by rope.
pub open spec fn pasted_texts(yanked: Seq<Rope>) -> Seq<Seq<char>> {
    yanked.map_values(|rope: Rope| pasted_text(rope))
}

/// The starts of ranges.
pub open spec fn starts(ranges: Seq<Range<usize>>) -> Seq<int> {
    ranges.map_values(|r: Range<usize>| r.start as int)
}

/// The range that comes at `k`, from the back.
pub open spec fn range_from_back(ranges: Seq<Range<usize>>, k: int) -> Range<usize> {
    ranges[from_back(starts(ranges))[k]]
}

/// A buffer after the text from `start` up to `end` was removed, with what stood of the selections
/// behind `start` put that many characters back.
pub open spec fn cut(b: BufferView, start: int, end: int) -> BufferView {
    BufferView {
        text: without(b.text, start, end),
        ..with_each(b, |s: SelectionUnaligned| shifted_back(b.text, s, start, end - start))
    }
}

/// A buffer after the last `k` of `ranges` were removed, from the back.
pub open spec fn cut_up_to(b: BufferView, ranges: Seq<Range<usize>>, k: int) -> BufferView
    decreases k,
{
    if k <= 0 {
        b
    } else {
        let r = range_from_back(ranges, k - 1);
        cut(cut_up_to(b, ranges, k - 1), r.start as int, r.end as int)
    }
}

/// A buffer after all of `ranges` were removed, from the back.
pub open spec fn all_cut(b: BufferView, ranges: Seq<Range<usize>>) -> BufferView {
    cut_up_to(b, ranges, ranges.len() as int)
}

/// How many of `len` characters are left after the last `k` of `ranges` were removed.
pub open spec fn left_after(len: int, ranges: Seq<Range<usize>>, k: int) -> int
    decreases k,
{
    if k <= 0 {
        len
    } else {
        let r = range_from_back(ranges, k - 1);
        left_after(len, ranges, k - 1) - (r.end - r.start)
    }
}

/// Whether each of `ranges` lies in what is left of `len` characters when its turn comes.
pub open spec fn can_cut(len: int, ranges: Seq<Range<usize>>) -> bool {
    forall|k: int|
        #![trigger range_from_back(ranges, k)]
        0 <= k < ranges.len() ==> range_from_back(ranges, k).start <= range_from_back(ranges, k).end
            <= left_after(len, ranges, k)
}

/// The ranges that the selections cover, in order.
pub open spec fn selected_ranges(b: BufferView) -> Seq<Range<usize>> {
    b.selections.map_values(
        |s: SelectionUnaligned|
            Range::<usize> {
                start: range_start(aligned(b.text, s)) as usize,
                end: range_end(aligned(b.text, s)) as usize,
            },
    )
}

/// The ranges of the characters before the cursors, in order.
pub open spec fn ranges_before_cursors(b: BufferView) -> Seq<Range<usize>> {
    b.selections.map_values(
        |s: SelectionUnaligned|
            Range::<usize> {
                start: (index_of(b.text, s.cursor) - 1) as usize,
                end: index_of(b.text, s.cursor) as usize,
            },
    )
}

/// A buffer with each selection collapsed to its cursor.
pub open spec fn all_collapsed(b: BufferView) -> BufferView {
    with_each(b, |s: SelectionUnaligned| collapsed(s))
}

/// A buffer after the text of its selections was removed.
pub open spec fn deleted(b: BufferView) -> BufferView {
    all_cut(all_collapsed(b), selected_ranges(b))
}

/// A buffer after the character before each cursor was removed.
pub open spec fn backspaced(b: BufferView) -> BufferView {
    all_cut(all_collapsed(b), ranges_before_cursors(b))
}

/// Whether there is a character before each cursor.
pub open spec fn past_start(b: BufferView) -> bool {
    forall|i: int|
        0 <= i < b.selections.len() ==> index_of(
            b.text,
            (#[trigger] b.selections[i]).cursor,
        ) > 0
}

/// Puts the stored pieces of a rope into a text one by one, all at the same place.
fn insert_chunks(text: &mut Rope, at: usize, to_yank: &Rope)
    requires
        at <= rope_chars(*old(text)).len(),
    ensures
        rope_chars(*final(text)) == spliced(
            rope_chars(*old(text)),
            at as int,
            pasted_text(*to_yank),
        ),
        pasted_text(*to_yank).len() == rope_chars(*to_yank).len(),
{
    let pieces = chunks(to_yank);
    let ghost stored = rope_chunks(*to_yank);
    let ghost t = rope_chars(*text);
    assert(spliced(t, at as int, joined_backwards(stored.take(0))) == t);
    let mut i: usize = 0;
    while i < pieces.len()
        invariant
            i <= pieces.len(),
            at <= t.len(),
            stored == pieces@.map_values(|piece: String| piece@),
            rope_chars(*text) == spliced(t, at as int, joined_backwards(stored.take(i as int))),
        decreases pieces.len() - i,
    {
        let ghost before = joined_backwards(stored.take(i as int));
        text.insert(at, pieces[i].as_str());
        assert(stored.take(i + 1).drop_last() == stored.take(i as int));
        assert(stored.take(i + 1).last() == pieces[i as int]@);
        assert(rope_chars(*text) =~= spliced(t, at as int, pieces[i as int]@ + before));
        i = i + 1;
    }
    assert(stored.take(pieces.len() as int) == stored);
    proof {
        lemma_joined_lengths(stored);
    }
}

proof fn lemma_joined_lengths(pieces: Seq<Seq<char>>)
    ensures
        joined(pieces).len() == joined_backwards(pieces).len(),
    decreases pieces.len(),
{
    if pieces.len() > 0 {
        lemma_joined_lengths(pieces.drop_last());
    }
}

impl Buffer {
    /// The selections with the indices of their cursors, from the back of the text to its front.
    fn insertion_points(&self) -> (points: Vec<(usize, Idx)>)
        ensures
            positions(points@) == from_back(cursor_indices(self@)),
            points.len() == self@.selections.len(),
            forall|k: int|
                #![trigger points[k]]
                0 <= k < points.len() ==> {
                    &&& points[k].0 < self@.selections.len()
                    &&& points[k].1.0 == cursor_indices(self@)[points[k].0 as int]
                    &&& points[k].1.0 <= self@.text.len()
                },
    {
        let place = |i: usize, sel: &SelectionUnaligned, text: &Rope| -> (r: (usize, Idx))
            ensures
                r.0 == i,
                r.1.0 == index_of(rope_chars(*text), sel.cursor),
                r.1.0 <= rope_chars(*text).len(),
            { (i, sel.cursor.to_idx(text)) };
        let places = self.for_each_enumerated_selection(place);
        let mut keys: Vec<usize> = Vec::new();
        let mut i: usize = 0;
        while i < places.len()
            invariant
                i <= places.len(),
                keys.len() == i,
                forall|j: int| 0 <= j < i ==> #[trigger] keys[j] == places[j].1.0,
            decreases places.len() - i,
        {
            keys.push(places[i].1.0);
            i = i + 1;
        }
        assert(as_ints(keys@) == cursor_indices(self@));
        let order = back_to_front(&keys);
        proof {
            law_from_back(cursor_indices(self@));
            assert forall|k: int| 0 <= k < order.len() implies {
                &&& (#[trigger] order[k]) as int == from_back(cursor_indices(self@))[k]
                &&& order[k] < places.len()
            } by {
                assert(as_ints(order@)[k] == order[k]);
            }
            assert(as_ints(order@).len() == order.len());
        }
        let mut points: Vec<(usize, Idx)> = Vec::new();
        let mut k: usize = 0;
        while k < order.len()
            invariant
                k <= order.len(),
                points.len() == k,
                forall|j: int| 0 <= j < order.len() ==> (#[trigger] order[j]) < places.len(),
                forall|j: int| 0 <= j < k ==> #[trigger] points[j] == places[order[j] as int],
            decreases order.len() - k,
        {
            points.push(places[order[k]]);
            k = k + 1;
        }
        assert(positions(points@) == from_back(cursor_indices(self@)));
        points
    }

    /// Makes of the selections of the first `n` points what `f` makes of them.
    fn fix_first<F>(&mut self, points: &Vec<(usize, Idx)>, n: usize, f: F) where
        F: Fn(SelectionUnaligned, &Rope) -> SelectionUnaligned,

        requires
            n <= points.len(),
            forall|k: int|
                0 <= k < points.len() ==> (#[trigger] points[k]).0 < old(self).selections.len(),
            forall|i: int, j: int| 0 <= i < j < points.len() ==> points[i].0 != points[j].0,
            forall|s: SelectionUnaligned| call_requires(f, (s, &old(self).text)),
        ensures
            final(self).text == old(self).text,
            final(self).primary_sel_i == old(self).primary_sel_i,
            final(self).selections.len() == old(self).selections.len(),
            forall|j: int|
                #![trigger final(self).selections[j]]
                0 <= j < old(self).selections.len() ==> if among_first(
                    positions(points@),
                    n as int,
                    j,
                ) {
                    call_ensures(
                        f,
                        (old(self).selections[j], &old(self).text),
                        final(self).selections[j],
                    )
                } else {
                    final(self).selections[j] == old(self).selections[j]
                },
    {
        let mut k: usize = 0;
        while k < n
            invariant
                k <= n <= points.len(),
                self.text == old(self).text,
                self.primary_sel_i == old(self).primary_sel_i,
                self.selections.len() == old(self).selections.len(),
                forall|k: int|
                    0 <= k < points.len() ==> (#[trigger] points[k]).0 < old(self).selections.len(),
                forall|i: int, j: int| 0 <= i < j < points.len() ==> points[i].0 != points[j].0,
                forall|s: SelectionUnaligned| call_requires(f, (s, &old(self).text)),
                forall|j: int|
                    #![trigger self.selections[j]]
                    0 <= j < old(self).selections.len() ==> if among_first(
                        positions(points@),
                        k as int,
                        j,
                    ) {
                        call_ensures(
                            f,
                            (old(self).selections[j], &old(self).text),
                            self.selections[j],
                        )
                    } else {
                        self.selections[j] == old(self).selections[j]
                    },
            decreases n - k,
        {
            let at = points[k].0;
            let sel = f(self.selections[at], &self.text);
            self.selections.set(at, sel);
            let ghost order = positions(points@);
            assert forall|j: int| #[trigger] among_first(order, k + 1, j) == (among_first(
                order,
                k as int,
                j,
            ) || j == at) by {
                lemma_among_first_grows(order, k as int, j);
            }
            assert(!among_first(order, k as int, at as int)) by {
                if among_first(order, k as int, at as int) {
                    let i = choose|i: int| 0 <= i < k && #[trigger] order[i] == at;
                    assert(points[i].0 == points[k as int].0);
                }
            }
            k = k + 1;
        }
    }

    /// Types `ch` before every cursor, from the back. Each time, the cursors that have had their
    /// turn are put one character further on from their line and column, with nothing selected.
    pub fn insert(&mut self, ch: char)
        ensures
            final(self)@ == inserted(old(self)@, ch),
    {
        let ghost places = cursor_indices(old(self)@);
        let ghost order = from_back(places);
        let points = self.insertion_points();
        proof {
            law_from_back(places);
        }
        let mut i: usize = 0;
        while i < points.len()
            invariant
                i <= points.len(),
                order == from_back(places),
                is_order_from_back(places, places.len() as int, order),
                positions(points@) == order,
                points.len() == places.len(),
                places.len() == old(self)@.selections.len(),
                self@.selections.len() == points.len(),
                self@.text.len() >= old(self)@.text.len(),
                forall|k: int|
                    #![trigger points[k]]
                    0 <= k < points.len() ==> {
                        &&& points[k].0 < points.len()
                        &&& points[k].1.0 == places[points[k].0 as int]
                        &&& points[k].1.0 <= old(self)@.text.len()
                    },
                self@ == typed_up_to(old(self)@, places, ch, i as int),
            decreases points.len() - i,
        {
            let ghost before = self@;
            self.text.insert_char(points[i].1.0, ch);
            let ghost text = self@.text;
            let fix = |sel: SelectionUnaligned, text: &Rope| -> (r: SelectionUnaligned)
                ensures
                    r == typed(rope_chars(*text), sel),
                {
                    let mut sel = sel;
                    sel.cursor = sel.cursor.forward(1, text);
                    sel.collapsed()
                };
            assert forall|a: int, b: int| 0 <= a < b < points.len() implies points[a].0
                != points[b].0 by {
                assert(sooner(places, positions(points@)[a], positions(points@)[b]));
            }
            self.fix_first(&points, i + 1, fix);
            assert(positions(points@)[i as int] == order[i as int]);
            assert(self@.selections =~= typed_at(before, places, order, i as int, ch).selections);
            i = i + 1;
        }
    }

    /// Pastes `yanked` at the cursors, from the back.
    fn paste_at_cursors(&mut self, yanked: &[Rope], extend: bool)
        ensures
            final(self)@ == pasted(old(self)@, pasted_texts(yanked@), extend),
    {
        let ghost places = cursor_indices(old(self)@);
        let ghost order = from_back(places);
        let ghost pieces = pasted_texts(yanked@);
        let points = self.insertion_points();
        proof {
            law_from_back(places);
        }
        let mut i: usize = 0;
        while i < points.len()
            invariant
                i <= points.len(),
                pieces == pasted_texts(yanked@),
                order == from_back(places),
                is_order_from_back(places, places.len() as int, order),
                positions(points@) == order,
                points.len() == places.len(),
                places.len() == old(self)@.selections.len(),
                self@.selections.len() == points.len(),
                self@.text.len() >= old(self)@.text.len(),
                forall|k: int|
                    #![trigger points[k]]
                    0 <= k < points.len() ==> {
                        &&& points[k].0 < points.len()
                        &&& points[k].1.0 == places[points[k].0 as int]
                        &&& points[k].1.0 <= old(self)@.text.len()
                    },
                self@ == pasted_up_to(old(self)@, places, pieces, extend, i as int),
            decreases points.len() - i,
        {
            if i < yanked.len() {
                let ghost before = self@;
                let to_yank = &yanked[i];
                let idx = points[i].1;
                insert_chunks(&mut self.text, idx.0, to_yank);
                let n = to_yank.len_chars();
                let ghost piece = pieces[i as int];
                let at = points[i].0;
                let mut sel = self.selections[at];
                let forward = match sel.align(&self.text).is_forward() {
                    Some(forward) => forward,
                    None => true,
                };
                if forward {
                    if !extend {
                        sel.anchor = sel.cursor;
                    }
                    sel.cursor = sel.cursor.forward(n, &self.text);
                } else if extend {
                    sel.anchor = sel.anchor.forward(n, &self.text);
                } else {
                    sel.anchor = sel.cursor.forward(n, &self.text);
                }
                self.selections.set(at, sel);
                let fix = |sel: SelectionUnaligned, text: &Rope| -> (r: SelectionUnaligned)
                    ensures
                        r == pushed_on(rope_chars(*text), sel, idx.0 as int, n as int),
                    {
                        let mut sel = sel;
                        if idx.0 <= sel.cursor.to_idx(text).0 {
                            sel.cursor = sel.cursor.forward(n, text);
                        }
                        if idx.0 <= sel.anchor.to_idx(text).0 {
                            sel.anchor = sel.anchor.forward(n, text);
                        }
                        sel
                    };
                assert forall|a: int, b: int| 0 <= a < b < points.len() implies points[a].0
                    != points[b].0 by {
                    assert(sooner(places, positions(points@)[a], positions(points@)[b]));
                }
                self.fix_first(&points, i, fix);
                assert(positions(points@)[i as int] == order[i as int]);
                assert(!among_first(order, i as int, at as int)) by {
                    if among_first(order, i as int, at as int) {
                        let k = choose|k: int| 0 <= k < i && #[trigger] order[k] == at;
                        assert(positions(points@)[k] == points[k].0);
                    }
                }
                assert(self@ =~= pasted_at(before, places, order, i as int, piece, extend));
            }
            i = i + 1;
        }
    }

    /// Pastes `yanked` at the cursors, and selects what was pasted.
    pub fn paste(&mut self, yanked: &[Rope])
        ensures
            final(self)@ == pasted(old(self)@, pasted_texts(yanked@), false),
    {
        self.paste_at_cursors(yanked, false);
    }

    /// Pastes `yanked` at the cursors, and extends the selections by what was pasted.
    pub fn paste_extend(&mut self, yanked: &[Rope])
        ensures
            final(self)@ == pasted(old(self)@, pasted_texts(yanked@), true),
    {
        self.paste_at_cursors(yanked, true);
    }

    /// Removes the text at given ranges.
    ///
    /// `removal_points` holds pairs of a selection's position and a range.
    pub fn remove_ranges(&mut self, removal_points: Vec<(usize, Range<usize>)>)
        requires
            can_cut(
                old(self)@.text.len() as int,
                removal_points@.map_values(|p: (usize, Range<usize>)| p.1),
            ),
        ensures
            final(self)@ == all_cut(
                old(self)@,
                removal_points@.map_values(|p: (usize, Range<usize>)| p.1),
            ),
    {
        let ghost ranges = removal_points@.map_values(|p: (usize, Range<usize>)| p.1);
        let mut keys: Vec<usize> = Vec::new();
        let mut i: usize = 0;
        while i < removal_points.len()
            invariant
                i <= removal_points.len(),
                keys.len() == i,
                forall|j: int| 0 <= j < i ==> #[trigger] keys[j] == removal_points[j].1.start,
            decreases removal_points.len() - i,
        {
            keys.push(removal_points[i].1.start);
            i = i + 1;
        }
        assert(as_ints(keys@) == starts(ranges));
        let order = back_to_front(&keys);
        proof {
            law_from_back(starts(ranges));
            assert(as_ints(order@).len() == order.len());
        }
        let mut k: usize = 0;
        while k < order.len()
            invariant
                k <= order.len(),
                order.len() == ranges.len(),
                ranges == removal_points@.map_values(|p: (usize, Range<usize>)| p.1),
                as_ints(order@) == from_back(starts(ranges)),
                is_order_from_back(starts(ranges), ranges.len() as int, from_back(starts(ranges))),
                can_cut(old(self)@.text.len() as int, ranges),
                self@ == cut_up_to(old(self)@, ranges, k as int),
                self@.text.len() == left_after(old(self)@.text.len() as int, ranges, k as int),
            decreases order.len() - k,
        {
            assert(as_ints(order@)[k as int] == order[k as int]);
            let ghost before = self@;
            let ghost r = range_from_back(ranges, k as int);
            assert(r == ranges[order[k as int] as int]);
            let start = removal_points[order[k]].1.start;
            let end = removal_points[order[k]].1.end;
            self.sub_to_every_selection_after(Idx(start), end - start);
            // The selections go first: their indices are those of the text as it still stands.
            remove(&mut self.text, start, end);
            assert(self@ =~= cut(before, start as int, end as int));
            k = k + 1;
        }
    }

    /// Removes the text of the selections, and returns it.
    pub fn delete(&mut self) -> (yanked: Vec<Rope>)
        requires
            can_cut(old(self)@.text.len() as int, selected_ranges(old(self)@)),
        ensures
            final(self)@ == deleted(old(self)@),
            texts_of(yanked@) == selected_texts(old(self)@),
    {
        let yanked = self.yank();
        let collapse = |i: usize, sel: &mut SelectionUnaligned, text: &mut Rope| -> (r: (
            usize,
            Range<usize>,
        ))
            ensures
                *final(sel) == collapsed(*old(sel)),
                *final(text) == *old(text),
                r.1.start == range_start(aligned(rope_chars(*old(text)), *old(sel))),
                r.1.end == range_end(aligned(rope_chars(*old(text)), *old(sel))),
            {
                let range = sel.align(text).sorted_range_usize();
                *sel = sel.collapsed();
                (i, range)
            };
        let ghost before = self.text;
        let ghost same = |i: int, t: Rope| t == before;
        assert(may_find(same, 0, self.text));
        let removal_points = self.for_each_enumerated_selection_mut(collapse);
        assert(self@ == all_collapsed(old(self)@));
        assert(removal_points@.map_values(|p: (usize, Range<usize>)| p.1) == selected_ranges(
            old(self)@,
        ));
        self.remove_ranges(removal_points);
        yanked
    }

    /// Removes the character before each cursor.
    pub fn backspace(&mut self)
        requires
            past_start(old(self)@),
            can_cut(old(self)@.text.len() as int, ranges_before_cursors(old(self)@)),
        ensures
            final(self)@ == backspaced(old(self)@),
    {
        let collapse = |i: usize, sel: &mut SelectionUnaligned, text: &mut Rope| -> (r: (
            usize,
            Range<usize>,
        ))
            requires
                index_of(rope_chars(*text), sel.cursor) > 0,
            ensures
                *final(sel) == collapsed(*old(sel)),
                *final(text) == *old(text),
                r.1.start == index_of(rope_chars(*old(text)), old(sel).cursor) - 1,
                r.1.end == index_of(rope_chars(*old(text)), old(sel).cursor),
            {
                let sel_aligned = sel.align(text);
                let range = Range { start: sel_aligned.cursor.0 - 1, end: sel_aligned.cursor.0 };
                *sel = sel.collapsed();
                (i, range)
            };
        let ghost before = self.text;
        let ghost same = |i: int, t: Rope| t == before;
        assert(may_find(same, 0, self.text));
        let removal_points = self.for_each_enumerated_selection_mut(collapse);
        assert(self@ == all_collapsed(old(self)@));
        assert(removal_points@.map_values(|p: (usize, Range<usize>)| p.1) == ranges_before_cursors(
            old(self)@,
        ));
        self.remove_ranges(removal_points);
    }
}

/// What is among one more is among those before, or is the one more.
pub proof fn lemma_among_first_grows(order: Seq<int>, n: int, j: int)
    requires
        0 <= n < order.len(),
    ensures
        among_first(order, n + 1, j) == (among_first(order, n, j) || j == order[n]),
{
    if among_first(order, n, j) {
        let i = choose|i: int| 0 <= i < n && #[trigger] order[i] == j;
        assert(0 <= i < n + 1 && order[i] == j);
    }
    if among_first(order, n + 1, j) {
        let i = choose|i: int| 0 <= i < n + 1 && #[trigger] order[i] == j;
        assert(i == n || (0 <= i < n && order[i] == j));
    }
}

} // verus!
