//! What holds of the text after an edit at many selections at once.

use crate::buffer::{selected, BufferView};
use crate::coord::law_coord_round_trip;
use crate::edit::{
    all_collapsed, all_cut, backspaced, can_cut, cursor_indices, cut_up_to, deleted, inserted,
    left_after, pasted, pasted_up_to, range_from_back, ranges_before_cursors, selected_ranges,
    starts, typed_up_to,
};
use crate::lines::{spliced, without};
use crate::order::{from_back, law_from_back, law_same_keys, sooner};
use crate::selection::{aligned, covers};
use std::ops::Range;
use vstd::prelude::*;

verus! {

/// The characters of a text from `i` on, with `added(j)` before the character at `j`, and
/// `added(t.len())` at the end.
pub open spec fn woven(t: Seq<char>, added: spec_fn(int) -> Seq<char>, i: int) -> Seq<char>
    decreases t.len() + 1 - i,
{
    if i > t.len() {
        Seq::empty()
    } else if i == t.len() {
        added(i)
    } else {
        added(i) + seq![t[i]] + woven(t, added, i + 1)
    }
}

proof fn lemma_woven_untouched(t: Seq<char>, added: spec_fn(int) -> Seq<char>, m: int, p: int)
    requires
        0 <= m <= p <= t.len(),
        forall|j: int| m <= j < p ==> #[trigger] added(j) == Seq::<char>::empty(),
    ensures
        woven(t, added, m) == t.subrange(m, p) + woven(t, added, p),
    decreases p - m,
{
    if m < p {
        lemma_woven_untouched(t, added, m + 1, p);
        assert(added(m) == Seq::<char>::empty());
        assert(woven(t, added, m) =~= seq![t[m]] + woven(t, added, m + 1));
        assert(t.subrange(m, p) =~= seq![t[m]] + t.subrange(m + 1, p));
    }
    assert(woven(t, added, m) =~= t.subrange(m, p) + woven(t, added, p));
}

proof fn lemma_woven_same(
    t: Seq<char>,
    a: spec_fn(int) -> Seq<char>,
    b: spec_fn(int) -> Seq<char>,
    i: int,
)
    requires
        0 <= i,
        forall|j: int| i <= j <= t.len() ==> #[trigger] a(j) == b(j),
    ensures
        woven(t, a, i) == woven(t, b, i),
    decreases t.len() + 1 - i,
{
    if i <= t.len() {
        assert(a(i) == b(i));
        lemma_woven_same(t, a, b, i + 1);
    }
}

/// Of the first `k` pieces, those that go in at `i`, one before the other.
pub open spec fn stacked(places: Seq<int>, pieces: Seq<Seq<char>>, k: int, i: int) -> Seq<char>
    decreases k,
{
    if k <= 0 {
        Seq::empty()
    } else if places[k - 1] == i && k - 1 < pieces.len() {
        pieces[k - 1] + stacked(places, pieces, k - 1, i)
    } else {
        stacked(places, pieces, k - 1, i)
    }
}

/// A text after the first `k` pieces were put in at their places, one after the other.
pub open spec fn spliced_up_to(
    t: Seq<char>,
    places: Seq<int>,
    pieces: Seq<Seq<char>>,
    k: int,
) -> Seq<char>
    decreases k,
{
    if k <= 0 {
        t
    } else {
        let before = spliced_up_to(t, places, pieces, k - 1);
        if k - 1 < pieces.len() {
            spliced(before, places[k - 1], pieces[k - 1])
        } else {
            before
        }
    }
}

proof fn lemma_stacked_behind(places: Seq<int>, pieces: Seq<Seq<char>>, k: int, i: int)
    requires
        forall|j: int| 0 <= j < k ==> i < #[trigger] places[j],
    ensures
        stacked(places, pieces, k, i) == Seq::<char>::empty(),
    decreases k,
{
    if k > 0 {
        lemma_stacked_behind(places, pieces, k - 1, i);
        assert(i < places[k - 1]);
    }
}

/// Putting pieces in from the back puts each before the character that stood at its place.
proof fn lemma_spliced_from_back(
    t: Seq<char>,
    places: Seq<int>,
    pieces: Seq<Seq<char>>,
    k: int,
    m: int,
)
    requires
        0 <= k <= places.len(),
        0 <= m <= t.len(),
        forall|j: int| 0 <= j < places.len() ==> 0 <= #[trigger] places[j] <= t.len(),
        forall|i: int, j: int| 0 <= i < j < places.len() ==> places[i] >= places[j],
        forall|j: int| 0 <= j < k ==> m <= #[trigger] places[j],
    ensures
        spliced_up_to(t, places, pieces, k) == t.take(m) + woven(
            t,
            |i: int| stacked(places, pieces, k, i),
            m,
        ),
    decreases k,
{
    let added = |i: int| stacked(places, pieces, k, i);
    if k <= 0 {
        lemma_woven_untouched(t, added, m, t.len() as int);
        assert(t.take(m) + (t.subrange(m, t.len() as int) + added(t.len() as int)) =~= t);
    } else {
        let p = places[k - 1];
        let earlier = |i: int| stacked(places, pieces, k - 1, i);
        lemma_spliced_from_back(t, places, pieces, k - 1, p);
        assert forall|j: int| m <= j < p implies #[trigger] added(j) == Seq::<char>::empty() by {
            lemma_stacked_behind(places, pieces, k, j);
        }
        lemma_woven_untouched(t, added, m, p);
        lemma_woven_same(t, earlier, added, p + 1);
        let before = spliced_up_to(t, places, pieces, k - 1);
        assert(before == t.take(p) + woven(t, earlier, p));
        if k - 1 < pieces.len() {
            let piece = pieces[k - 1];
            assert(added(p) == piece + earlier(p));
            assert(woven(t, added, p) =~= piece + woven(t, earlier, p));
            assert(before.take(p) =~= t.take(p));
            assert(before.skip(p) =~= woven(t, earlier, p));
        } else {
            assert(added(p) == earlier(p));
            assert(woven(t, added, p) =~= woven(t, earlier, p));
        }
        assert(t.take(p) =~= t.take(m) + t.subrange(m, p));
        assert(spliced_up_to(t, places, pieces, k) =~= t.take(m) + woven(t, added, m));
    }
}

/// The places of edits, in the order from the back.
pub open spec fn places_from_back(points: Seq<int>) -> Seq<int> {
    Seq::new(points.len(), |k: int| points[from_back(points)[k]])
}

proof fn lemma_places_from_back(b: BufferView)
    requires
        b.text.len() <= usize::MAX,
    ensures
        ({
            let places = places_from_back(cursor_indices(b));
            &&& places.len() == b.selections.len()
            &&& forall|j: int| 0 <= j < places.len() ==> 0 <= #[trigger] places[j] <= b.text.len()
            &&& forall|i: int, j: int| 0 <= i < j < places.len() ==> places[i] >= places[j]
        }),
{
    let points = cursor_indices(b);
    law_from_back(points);
    let order = from_back(points);
    let places = places_from_back(points);
    assert forall|j: int| 0 <= j < places.len() implies 0 <= #[trigger] places[j]
        <= b.text.len() by {
        law_coord_round_trip(b.text, b.selections[order[j]].cursor);
    }
    assert forall|i: int, j: int| 0 <= i < j < places.len() implies places[i] >= places[j] by {
        assert(sooner(points, order[i], order[j]));
    }
}

proof fn lemma_pasted_text(b: BufferView, pieces: Seq<Seq<char>>, extend: bool, k: int)
    requires
        0 <= k <= b.selections.len(),
    ensures
        ({
            let points = cursor_indices(b);
            pasted_up_to(b, points, pieces, extend, k).text == spliced_up_to(
                b.text,
                places_from_back(points),
                pieces,
                k,
            )
        }),
    decreases k,
{
    if k > 0 {
        lemma_pasted_text(b, pieces, extend, k - 1);
    }
}

/// Pasting puts the first piece before the last cursor, the second before the last but one, and so
/// on, and changes nothing else of the text. Of two pieces for one place the later stands first.
pub proof fn law_pasted_text(b: BufferView, pieces: Seq<Seq<char>>, extend: bool)
    requires
        b.text.len() <= usize::MAX,
    ensures
        ({
            let places = places_from_back(cursor_indices(b));
            pasted(b, pieces, extend).text == woven(
                b.text,
                |i: int| stacked(places, pieces, places.len() as int, i),
                0,
            )
        }),
{
    let n = b.selections.len() as int;
    let places = places_from_back(cursor_indices(b));
    lemma_places_from_back(b);
    lemma_pasted_text(b, pieces, extend, n);
    lemma_spliced_from_back(b.text, places, pieces, n, 0);
    let added = |i: int| stacked(places, pieces, n, i);
    assert(b.text.take(0) + woven(b.text, added, 0) =~= woven(b.text, added, 0));
}

proof fn lemma_typed_text(b: BufferView, ch: char, k: int)
    requires
        0 <= k <= b.selections.len(),
    ensures
        ({
            let points = cursor_indices(b);
            typed_up_to(b, points, ch, k).text == spliced_up_to(
                b.text,
                places_from_back(points),
                Seq::new(b.selections.len(), |j: int| seq![ch]),
                k,
            )
        }),
    decreases k,
{
    if k > 0 {
        lemma_typed_text(b, ch, k - 1);
    }
}

proof fn lemma_stacked_same(places: Seq<int>, ch: char, n: nat, k: int, i: int)
    requires
        0 <= k <= places.len(),
        k <= n,
    ensures
        stacked(places, Seq::new(n, |j: int| seq![ch]), k, i) == Seq::new(
            places.take(k).to_multiset().count(i),
            |j: int| ch,
        ),
    decreases k,
{
    broadcast use vstd::seq_lib::group_to_multiset_ensures;

    let pieces = Seq::new(n, |j: int| seq![ch]);
    if k > 0 {
        lemma_stacked_same(places, ch, n, k - 1, i);
        assert(places.take(k) =~= places.take(k - 1).push(places[k - 1]));
    }
    assert(stacked(places, pieces, k, i) =~= Seq::new(
        places.take(k).to_multiset().count(i),
        |j: int| ch,
    ));
}

/// Typing puts the character before every cursor, once for each cursor that stands there, and
/// changes nothing else of the text.
pub proof fn law_typed_text(b: BufferView, ch: char)
    requires
        b.text.len() <= usize::MAX,
    ensures
        inserted(b, ch).text == woven(
            b.text,
            |i: int| Seq::new(cursor_indices(b).to_multiset().count(i), |j: int| ch),
            0,
        ),
{
    let n = b.selections.len() as int;
    let points = cursor_indices(b);
    let places = places_from_back(points);
    let pieces = Seq::new(b.selections.len(), |j: int| seq![ch]);
    lemma_places_from_back(b);
    lemma_typed_text(b, ch, n);
    lemma_spliced_from_back(b.text, places, pieces, n, 0);
    let added = |i: int| stacked(places, pieces, n, i);
    let wanted = |i: int| Seq::new(points.to_multiset().count(i), |j: int| ch);
    law_same_keys(points);
    assert(places.take(n) =~= places);
    assert forall|i: int| 0 <= i <= b.text.len() implies #[trigger] added(i) == wanted(i) by {
        lemma_stacked_same(places, ch, b.selections.len(), n, i);
    }
    lemma_woven_same(b.text, added, wanted, 0);
    assert(b.text.take(0) + woven(b.text, added, 0) =~= woven(b.text, added, 0));
}

/// The characters of a text from `i` on, without those at the indices that are gone.
pub open spec fn kept(t: Seq<char>, gone: spec_fn(int) -> bool, i: int) -> Seq<char>
    decreases t.len() - i,
{
    if i >= t.len() {
        Seq::empty()
    } else if gone(i) {
        kept(t, gone, i + 1)
    } else {
        seq![t[i]] + kept(t, gone, i + 1)
    }
}

/// Where nothing is gone, the characters are all there.
pub proof fn lemma_kept_untouched(t: Seq<char>, gone: spec_fn(int) -> bool, m: int, p: int)
    requires
        0 <= m <= p <= t.len(),
        forall|j: int| m <= j < p ==> !#[trigger] gone(j),
    ensures
        kept(t, gone, m) == t.subrange(m, p) + kept(t, gone, p),
    decreases p - m,
{
    if m < p {
        lemma_kept_untouched(t, gone, m + 1, p);
        assert(!gone(m));
        assert(t.subrange(m, p) =~= seq![t[m]] + t.subrange(m + 1, p));
    }
    assert(kept(t, gone, m) =~= t.subrange(m, p) + kept(t, gone, p));
}

proof fn lemma_kept_gone(t: Seq<char>, gone: spec_fn(int) -> bool, m: int, p: int)
    requires
        0 <= m <= p <= t.len(),
        forall|j: int| m <= j < p ==> #[trigger] gone(j),
    ensures
        kept(t, gone, m) == kept(t, gone, p),
    decreases p - m,
{
    if m < p {
        assert(gone(m));
        lemma_kept_gone(t, gone, m + 1, p);
    }
}

/// Only which characters are gone matters.
pub proof fn lemma_kept_same(t: Seq<char>, a: spec_fn(int) -> bool, b: spec_fn(int) -> bool, i: int)
    requires
        forall|j: int| i <= j < t.len() ==> #[trigger] a(j) == b(j),
    ensures
        kept(t, a, i) == kept(t, b, i),
    decreases t.len() - i,
{
    if i < t.len() {
        assert(a(i) == b(i));
        lemma_kept_same(t, a, b, i + 1);
    }
}

/// Whether `i` lies in a range.
pub open spec fn in_range(r: Range<usize>, i: int) -> bool {
    r.start <= i < r.end
}

/// Whether ranges lie in a text of `len` characters and no two of them share an index.
pub open spec fn apart(len: int, ranges: Seq<Range<usize>>) -> bool {
    &&& forall|a: int|
        0 <= a < ranges.len() ==> (#[trigger] ranges[a]).start <= ranges[a].end <= len
    &&& forall|a: int, b: int, i: int|
        0 <= a < b < ranges.len() ==> !(#[trigger] in_range(ranges[a], i) && #[trigger] in_range(
            ranges[b],
            i,
        ))
}

/// In the order from the back, ranges that are apart are still apart, and later ones start first.
pub proof fn lemma_apart_from_back(len: int, ranges: Seq<Range<usize>>, i: int, j: int)
    requires
        apart(len, ranges),
        0 <= i < j < ranges.len(),
    ensures
        ({
            let a = range_from_back(ranges, i);
            let b = range_from_back(ranges, j);
            &&& a.start <= a.end <= len
            &&& b.start <= b.end <= len
            &&& b.start <= a.start
            &&& a.start < a.end ==> b.end <= a.start
        }),
{
    let keys = starts(ranges);
    law_from_back(keys);
    let order = from_back(keys);
    assert(sooner(keys, order[i], order[j]));
    let a = range_from_back(ranges, i);
    let b = range_from_back(ranges, j);
    assert(keys[order[i]] == a.start);
    assert(keys[order[j]] == b.start);
    if a.start < a.end && b.end > a.start {
        assert(in_range(ranges[order[i]], a.start as int));
        assert(in_range(ranges[order[j]], a.start as int));
    }
}

pub proof fn lemma_left_after(len: int, ranges: Seq<Range<usize>>, k: int, j: int)
    requires
        apart(len, ranges),
        0 <= k <= j < ranges.len(),
    ensures
        range_from_back(ranges, j).start <= range_from_back(ranges, j).end <= left_after(
            len,
            ranges,
            k,
        ),
    decreases k,
{
    law_from_back(starts(ranges));
    assert(0 <= from_back(starts(ranges))[j] < ranges.len());
    if k > 0 {
        lemma_left_after(len, ranges, k - 1, j);
        lemma_left_after(len, ranges, k - 1, k - 1);
        lemma_apart_from_back(len, ranges, k - 1, j);
    }
}

/// Ranges that lie in the text and share no index can be removed together.
pub proof fn law_apart_can_be_cut(len: int, ranges: Seq<Range<usize>>)
    requires
        apart(len, ranges),
    ensures
        can_cut(len, ranges),
{
    assert forall|k: int|
        #![trigger range_from_back(ranges, k)]
        0 <= k < ranges.len() implies range_from_back(ranges, k).start <= range_from_back(
        ranges,
        k,
    ).end <= left_after(len, ranges, k) by {
        lemma_left_after(len, ranges, k, k);
    }
}

/// Whether one of the first `k` ranges, from the back, holds the index `i`.
spec fn cut_before(ranges: Seq<Range<usize>>, k: int, i: int) -> bool {
    exists|j: int| 0 <= j < k && in_range(#[trigger] range_from_back(ranges, j), i)
}

proof fn lemma_cut_text(b: BufferView, ranges: Seq<Range<usize>>, k: int, m: int)
    requires
        apart(b.text.len() as int, ranges),
        0 <= k <= ranges.len(),
        0 <= m <= b.text.len(),
        forall|j: int| 0 <= j < k ==> m <= (#[trigger] range_from_back(ranges, j)).start,
    ensures
        cut_up_to(b, ranges, k).text == b.text.take(m) + kept(
            b.text,
            |i: int| cut_before(ranges, k, i),
            m,
        ),
    decreases k,
{
    let t = b.text;
    let gone = |i: int| cut_before(ranges, k, i);
    if k <= 0 {
        lemma_kept_untouched(t, gone, m, t.len() as int);
        assert(t.take(m) + (t.subrange(m, t.len() as int) + Seq::<char>::empty()) =~= t);
    } else {
        let earlier = |i: int| cut_before(ranges, k - 1, i);
        let r = range_from_back(ranges, k - 1);
        let s = r.start as int;
        let e = r.end as int;
        lemma_left_after(t.len() as int, ranges, 0, k - 1);
        assert forall|j: int| 0 <= j < k - 1 implies s <= (#[trigger] range_from_back(
            ranges,
            j,
        )).start by {
            lemma_apart_from_back(t.len() as int, ranges, j, k - 1);
        }
        lemma_cut_text(b, ranges, k - 1, s);
        assert forall|i: int| s <= i < e implies !#[trigger] earlier(i) by {
            if earlier(i) {
                let j = choose|j: int|
                    0 <= j < k - 1 && in_range(#[trigger] range_from_back(ranges, j), i);
                lemma_apart_from_back(t.len() as int, ranges, j, k - 1);
            }
        }
        lemma_kept_untouched(t, earlier, s, e);
        assert forall|i: int| s <= i < e implies #[trigger] gone(i) by {
            assert(in_range(range_from_back(ranges, k - 1), i));
        }
        lemma_kept_gone(t, gone, s, e);
        assert forall|i: int| e <= i < t.len() implies #[trigger] gone(i) == earlier(i) by {
            if gone(i) {
                let j = choose|j: int|
                    0 <= j < k && in_range(#[trigger] range_from_back(ranges, j), i);
                assert(j != k - 1);
                assert(earlier(i));
            }
            if earlier(i) {
                let j = choose|j: int|
                    0 <= j < k - 1 && in_range(#[trigger] range_from_back(ranges, j), i);
                assert(gone(i));
            }
        }
        lemma_kept_same(t, gone, earlier, e);
        assert forall|i: int| m <= i < s implies !#[trigger] gone(i) by {
            if gone(i) {
                let j = choose|j: int|
                    0 <= j < k && in_range(#[trigger] range_from_back(ranges, j), i);
                assert(s <= range_from_back(ranges, j).start);
            }
        }
        lemma_kept_untouched(t, gone, m, s);
        let before = cut_up_to(b, ranges, k - 1).text;
        assert(before =~= t.take(e) + kept(t, earlier, e));
        assert(cut_up_to(b, ranges, k).text == without(before, s, e));
        assert(without(before, s, e) =~= t.take(s) + kept(t, earlier, e));
        assert(t.take(s) =~= t.take(m) + t.subrange(m, s));
        assert(cut_up_to(b, ranges, k).text =~= t.take(m) + kept(t, gone, m));
    }
}

/// Removing ranges that share no index removes exactly the characters in them.
pub proof fn law_cut_text(b: BufferView, ranges: Seq<Range<usize>>)
    requires
        apart(b.text.len() as int, ranges),
    ensures
        all_cut(b, ranges).text == kept(
            b.text,
            |i: int| exists|a: int| 0 <= a < ranges.len() && in_range(#[trigger] ranges[a], i),
            0,
        ),
{
    let n = ranges.len() as int;
    let gone = |i: int| cut_before(ranges, n, i);
    let wanted = |i: int| exists|a: int| 0 <= a < ranges.len() && in_range(#[trigger] ranges[a], i);
    law_from_back(starts(ranges));
    let order = from_back(starts(ranges));
    lemma_cut_text(b, ranges, n, 0);
    assert forall|i: int| 0 <= i < b.text.len() implies #[trigger] gone(i) == wanted(i) by {
        if gone(i) {
            let j = choose|j: int| 0 <= j < n && in_range(#[trigger] range_from_back(ranges, j), i);
            assert(in_range(ranges[order[j]], i));
        }
        if wanted(i) {
            let a = choose|a: int| 0 <= a < ranges.len() && in_range(#[trigger] ranges[a], i);
            assert(order.contains(a));
            let j = choose|j: int| 0 <= j < order.len() && order[j] == a;
            assert(in_range(range_from_back(ranges, j), i));
        }
    }
    lemma_kept_same(b.text, gone, wanted, 0);
    assert(b.text.take(0) + kept(b.text, gone, 0) =~= kept(b.text, gone, 0));
}

/// Whether no two selections cover the same character.
pub open spec fn selections_apart(b: BufferView) -> bool {
    forall|k: int, l: int, i: int|
        0 <= k < l < b.selections.len() ==> !(#[trigger] covers(
            aligned(b.text, b.selections[k]),
            i,
        ) && #[trigger] covers(aligned(b.text, b.selections[l]), i))
}

/// The ranges of selections that share no character are apart, and hold what is selected.
pub proof fn lemma_selected_ranges_apart(b: BufferView)
    requires
        b.text.len() <= usize::MAX,
        selections_apart(b),
    ensures
        apart(b.text.len() as int, selected_ranges(b)),
        forall|a: int, i: int|
            0 <= a < b.selections.len() ==> #[trigger] in_range(selected_ranges(b)[a], i) == covers(
                aligned(b.text, b.selections[a]),
                i,
            ),
{
    let ranges = selected_ranges(b);
    let t = b.text;
    assert forall|a: int| 0 <= a < ranges.len() implies (#[trigger] ranges[a]).start
        <= ranges[a].end <= t.len() by {
        law_coord_round_trip(t, b.selections[a].cursor);
        law_coord_round_trip(t, b.selections[a].anchor);
    }
    assert forall|a: int, i: int| 0 <= a < ranges.len() implies #[trigger] in_range(ranges[a], i)
        == covers(aligned(t, b.selections[a]), i) by {
        law_coord_round_trip(t, b.selections[a].cursor);
        law_coord_round_trip(t, b.selections[a].anchor);
    }
    assert(apart(t.len() as int, ranges));
}

/// Selections that share no character can be deleted together, and deleting them removes exactly
/// the selected characters.
pub proof fn law_deleted_text(b: BufferView)
    requires
        b.text.len() <= usize::MAX,
        selections_apart(b),
    ensures
        can_cut(b.text.len() as int, selected_ranges(b)),
        deleted(b).text == kept(b.text, |i: int| selected(b, i), 0),
{
    let ranges = selected_ranges(b);
    let t = b.text;
    lemma_selected_ranges_apart(b);
    law_apart_can_be_cut(t.len() as int, ranges);
    law_cut_text(all_collapsed(b), ranges);
    let gone = |i: int| exists|a: int| 0 <= a < ranges.len() && in_range(#[trigger] ranges[a], i);
    let wanted = |i: int| selected(b, i);
    assert forall|i: int| 0 <= i < t.len() implies #[trigger] gone(i) == wanted(i) by {
        if gone(i) {
            let a = choose|a: int| 0 <= a < ranges.len() && in_range(#[trigger] ranges[a], i);
            assert(covers(aligned(t, b.selections[a]), i));
        }
        if wanted(i) {
            let a = choose|a: int|
                0 <= a < b.selections.len() && covers(#[trigger] aligned(t, b.selections[a]), i);
            assert(in_range(ranges[a], i));
        }
    }
    lemma_kept_same(t, gone, wanted, 0);
}

proof fn lemma_typed_keeps_selections(b: BufferView, points: Seq<int>, ch: char, k: int)
    ensures
        typed_up_to(b, points, ch, k).selections.len() == b.selections.len(),
        typed_up_to(b, points, ch, k).primary_sel_i == b.primary_sel_i,
    decreases k,
{
    if k > 0 {
        lemma_typed_keeps_selections(b, points, ch, k - 1);
    }
}

proof fn lemma_pasted_keeps_selections(
    b: BufferView,
    points: Seq<int>,
    pieces: Seq<Seq<char>>,
    extend: bool,
    k: int,
)
    ensures
        pasted_up_to(b, points, pieces, extend, k).selections.len() == b.selections.len(),
        pasted_up_to(b, points, pieces, extend, k).primary_sel_i == b.primary_sel_i,
    decreases k,
{
    if k > 0 {
        lemma_pasted_keeps_selections(b, points, pieces, extend, k - 1);
    }
}

proof fn lemma_cut_keeps_selections(b: BufferView, ranges: Seq<Range<usize>>, k: int)
    ensures
        cut_up_to(b, ranges, k).selections.len() == b.selections.len(),
        cut_up_to(b, ranges, k).primary_sel_i == b.primary_sel_i,
    decreases k,
{
    if k > 0 {
        lemma_cut_keeps_selections(b, ranges, k - 1);
    }
}

/// Whether two buffers have as many selections, and the same one as the primary.
pub open spec fn same_selections(a: BufferView, b: BufferView) -> bool {
    &&& a.selections.len() == b.selections.len()
    &&& a.primary_sel_i == b.primary_sel_i
}

/// No edit adds a selection, takes one away or makes another one the primary.
pub proof fn law_edits_keep_selections(
    b: BufferView,
    ch: char,
    pieces: Seq<Seq<char>>,
    extend: bool,
)
    ensures
        same_selections(inserted(b, ch), b),
        same_selections(pasted(b, pieces, extend), b),
        same_selections(deleted(b), b),
        same_selections(backspaced(b), b),
{
    let points = cursor_indices(b);
    lemma_typed_keeps_selections(b, points, ch, b.selections.len() as int);
    lemma_pasted_keeps_selections(b, points, pieces, extend, b.selections.len() as int);
    lemma_cut_keeps_selections(
        all_collapsed(b),
        selected_ranges(b),
        selected_ranges(b).len() as int,
    );
    lemma_cut_keeps_selections(
        all_collapsed(b),
        ranges_before_cursors(b),
        ranges_before_cursors(b).len() as int,
    );
}

} // verus!
