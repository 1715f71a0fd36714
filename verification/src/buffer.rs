//! A text that is being edited, with the selections in it.

use crate::coord::{
    backward, coord_of, down, forward, index_of, line_begin, next_word, past_line_end,
    previous_word, trimmed, up, Coord,
};
use crate::idx::Idx;
use crate::rope::{empty_rope, rope_chars, slice};
use crate::selection::{
    aligned, covers, range_end, range_start, reversed, runs_forward, Selection, SelectionUnaligned,
};
use ropey::Rope;
use vstd::prelude::*;

verus! {

/// A text opened for editing, and the state around it.
#[derive(Debug)]
pub struct Buffer {
    pub text: Rope,
    pub selections: Vec<SelectionUnaligned>,
    pub primary_sel_i: usize,
}

/// What a buffer holds.
#[verifier::ext_equal]
pub struct BufferView {
    pub text: Seq<char>,
    pub selections: Seq<SelectionUnaligned>,
    pub primary_sel_i: int,
}

impl View for Buffer {
    type V = BufferView;

    open spec fn view(&self) -> BufferView {
        BufferView {
            text: rope_chars(self.text),
            selections: self.selections@,
            primary_sel_i: self.primary_sel_i as int,
        }
    }
}

/// The buffer that holds `text`, with one selection of nothing at its start.
pub open spec fn fresh(text: Seq<char>) -> BufferView {
    let start = Coord { line: 0, column: 0 };
    BufferView {
        text,
        selections: seq![SelectionUnaligned { anchor: start, cursor: start }],
        primary_sel_i: 0,
    }
}

/// A buffer with `change` made to each of its selections.
pub open spec fn with_each(
    b: BufferView,
    change: spec_fn(SelectionUnaligned) -> SelectionUnaligned,
) -> BufferView {
    BufferView { selections: b.selections.map_values(change), ..b }
}

/// A buffer with each cursor moved by `step`, and the anchors left where the cursors were.
pub open spec fn moved(b: BufferView, step: spec_fn(Coord) -> Coord) -> BufferView {
    with_each(
        b,
        |s: SelectionUnaligned| SelectionUnaligned { anchor: s.cursor, cursor: step(s.cursor) },
    )
}

/// A buffer with each cursor moved by `step`, and the anchors left where they were.
pub open spec fn extended(b: BufferView, step: spec_fn(Coord) -> Coord) -> BufferView {
    with_each(
        b,
        |s: SelectionUnaligned| SelectionUnaligned { anchor: s.anchor, cursor: step(s.cursor) },
    )
}

/// Whether some selection of the buffer covers the character at `i`.
pub open spec fn selected(b: BufferView, i: int) -> bool {
    exists|k: int|
        0 <= k < b.selections.len() && covers(#[trigger] aligned(b.text, b.selections[k]), i)
}

/// The earlier of two coordinates.
pub open spec fn earlier(a: Coord, b: Coord) -> Coord {
    if b.line < a.line || (b.line == a.line && b.column < a.column) {
        b
    } else {
        a
    }
}

/// A buffer whose one selection is the whole text, in the direction of the primary selection.
pub open spec fn all_selected(b: BufferView) -> BufferView {
    let start = coord_of(b.text, 0);
    let end = coord_of(b.text, b.text.len() as int);
    let primary = aligned(b.text, b.selections[b.primary_sel_i]);
    BufferView {
        selections: seq![
            if runs_forward(primary) {
                SelectionUnaligned { anchor: start, cursor: end }
            } else {
                SelectionUnaligned { anchor: end, cursor: start }
            },
        ],
        ..b
    }
}

/// The texts that the selections cover, in order.
pub open spec fn selected_texts(b: BufferView) -> Seq<Seq<char>> {
    b.selections.map_values(
        |s: SelectionUnaligned|
            b.text.subrange(range_start(aligned(b.text, s)), range_end(aligned(b.text, s))),
    )
}

/// The texts that ropes hold, in order.
pub open spec fn texts_of(ropes: Seq<Rope>) -> Seq<Seq<char>> {
    ropes.map_values(|rope: Rope| rope_chars(rope))
}

/// A selection whose cursor stands at `idx` or behind it, put `offset` characters behind where
/// its cursor stood. Both ends go by the cursor.
pub open spec fn shifted_on(
    t: Seq<char>,
    s: SelectionUnaligned,
    idx: int,
    offset: int,
) -> SelectionUnaligned {
    if idx <= index_of(t, s.cursor) {
        let to = coord_of(t, index_of(t, s.cursor) + offset);
        SelectionUnaligned { anchor: to, cursor: to }
    } else {
        s
    }
}

/// A coordinate that stands behind `idx`, put `offset` characters before where it stood.
pub open spec fn shifted_coord_back(t: Seq<char>, c: Coord, idx: int, offset: int) -> Coord {
    if idx < index_of(t, c) {
        backward(t, c, offset)
    } else {
        c
    }
}

/// A selection with what stands of it behind `idx` put `offset` characters before where it stood.
pub open spec fn shifted_back(
    t: Seq<char>,
    s: SelectionUnaligned,
    idx: int,
    offset: int,
) -> SelectionUnaligned {
    SelectionUnaligned {
        anchor: shifted_coord_back(t, s.anchor, idx, offset),
        cursor: shifted_coord_back(t, s.cursor, idx, offset),
    }
}

/// A buffer with each selection on the whole line of its cursor.
pub open spec fn lines_selected(b: BufferView) -> BufferView {
    with_each(
        b,
        |s: SelectionUnaligned|
            SelectionUnaligned {
                anchor: line_begin(s.cursor),
                cursor: past_line_end(b.text, s.cursor),
            },
    )
}

/// A buffer with each selection from the start of its first line to the end of its cursor's line.
pub open spec fn lines_extended(b: BufferView) -> BufferView {
    with_each(
        b,
        |s: SelectionUnaligned|
            SelectionUnaligned {
                anchor: line_begin(earlier(s.cursor, s.anchor)),
                cursor: past_line_end(b.text, s.cursor),
            },
    )
}

/// Whether `i` is a place in a list of `n`.
pub open spec fn is_place(i: int, n: int) -> bool {
    0 <= i < n
}

/// Whether the call at the place `i` may find the text `t`, going by `texts`.
pub open spec fn may_find(texts: spec_fn(int, Rope) -> bool, i: int, t: Rope) -> bool {
    texts(i, t)
}

/// Whether `f` may be called on a coordinate in a text.
pub open spec fn accepts<F: Fn(Coord, &Rope) -> R, R>(f: &F, c: Coord, text: &Rope) -> bool {
    call_requires(*f, (c, text))
}

/// Whether `f` may return `r` of a coordinate in a text.
pub open spec fn returns_of<F: Fn(Coord, &Rope) -> R, R>(
    f: &F,
    c: Coord,
    text: &Rope,
    r: R,
) -> bool {
    call_ensures(*f, (c, text), r)
}

/// Whether `f` may be called on a cursor and an anchor in a text.
pub open spec fn accepts_both<F: Fn(Coord, Coord, &Rope) -> R, R>(
    f: &F,
    s: SelectionUnaligned,
    text: &Rope,
) -> bool {
    call_requires(*f, (s.cursor, s.anchor, text))
}

/// Whether `f` may return `r` of a cursor and an anchor in a text.
pub open spec fn returns_of_both<F: Fn(Coord, Coord, &Rope) -> R, R>(
    f: &F,
    s: SelectionUnaligned,
    text: &Rope,
    r: R,
) -> bool {
    call_ensures(*f, (s.cursor, s.anchor, text), r)
}

impl Clone for Buffer {
    fn clone(&self) -> (b: Buffer)
        ensures
            b@ == self@,
    {
        let b = Buffer {
            text: self.text.clone(),
            selections: self.selections.clone(),
            primary_sel_i: self.primary_sel_i,
        };
        assert(b.selections@ == self.selections@);
        b
    }
}

impl Default for Buffer {
    fn default() -> (b: Buffer)
        ensures
            b@ == fresh(Seq::empty()),
    {
        Buffer::from_text(empty_rope())
    }
}

impl Buffer {
    /// A buffer that holds `text`, with one selection of nothing at its start.
    pub fn from_text(text: Rope) -> (b: Buffer)
        ensures
            b@ == fresh(rope_chars(text)),
            b.text == text,
    {
        let sel = SelectionUnaligned::default();
        Buffer { text, selections: vec![sel], primary_sel_i: 0 }
    }

    /// What `f` returns of each selection, in order.
    pub fn for_each_selection<F, R>(&self, f: F) -> (out: Vec<R>) where
        F: FnMut(&SelectionUnaligned, &Rope) -> R,

        requires
            forall|j: int|
                0 <= j < self.selections.len() ==> call_requires(
                    f,
                    (&#[trigger] self.selections[j], &self.text),
                ),
        ensures
            out.len() == self.selections.len(),
            forall|i: int|
                0 <= i < out.len() ==> call_ensures(
                    f,
                    (&self.selections[i], &self.text),
                    #[trigger] out[i],
                ),
    {
        let mut call = f;
        let mut out: Vec<R> = Vec::new();
        let mut i: usize = 0;
        while i < self.selections.len()
            invariant
                call == f,
                i <= self.selections.len(),
                out.len() == i,
                forall|j: int|
                    0 <= j < self.selections.len() ==> call_requires(
                        f,
                        (&#[trigger] self.selections[j], &self.text),
                    ),
                forall|j: int|
                    0 <= j < i ==> call_ensures(
                        f,
                        (&self.selections[j], &self.text),
                        #[trigger] out[j],
                    ),
            decreases self.selections.len() - i,
        {
            let r = call(&self.selections[i], &self.text);
            out.push(r);
            i = i + 1;
        }
        out
    }

    /// Calls `f` on each selection and the text, in order, and returns what it returned. Each
    /// call finds the text as the calls before it left it.
    ///
    /// `f` must accept each text that it may find. Where it changes no text, every call finds the
    /// one text there is.
    pub fn for_each_selection_mut<F, R>(&mut self, f: F) -> (out: Vec<R>) where
        F: FnMut(&mut SelectionUnaligned, &mut Rope) -> R,

        requires
            exists|texts: spec_fn(int, Rope) -> bool| {
                &&& #[trigger] may_find(texts, 0, old(self).text)
                &&& forall|j: int, s: &mut SelectionUnaligned, t: &mut Rope|
                    is_place(j, old(self).selections.len() as int) && *s == old(
                        self,
                    ).selections[j] && #[trigger] may_find(texts, j, *t)
                        ==> #[trigger] call_requires(f, (s, t))
                &&& forall|j: int, s: &mut SelectionUnaligned, t: &mut Rope, r: R|
                    is_place(j, old(self).selections.len() as int) && *s == old(
                        self,
                    ).selections[j] && #[trigger] may_find(texts, j, *t)
                        && #[trigger] call_ensures(f, (s, t), r)
                        ==> may_find(texts, j + 1, *final(t))
            },
        ensures
            final(self).primary_sel_i == old(self).primary_sel_i,
            final(self).selections.len() == old(self).selections.len(),
            out.len() == old(self).selections.len(),
            exists|texts: Seq<Rope>| {
                &&& #[trigger] texts.len() == out.len() + 1
                &&& texts[0] == old(self).text
                &&& texts[out.len() as int] == final(self).text
                &&& forall|i: int|
                    #![trigger out[i]]
                    #![trigger final(self).selections[i]]
                    #![trigger is_place(i, out.len() as int)]
                    is_place(i, out.len() as int) ==> exists|
                        s: &mut SelectionUnaligned,
                        t: &mut Rope,
                    | {
                        &&& *s == old(self).selections[i]
                        &&& *final(s) == final(self).selections[i]
                        &&& *t == texts[i]
                        &&& *final(t) == texts[i + 1]
                        &&& #[trigger] call_ensures(f, (s, t), out[i])
                    }
            },
            (forall|s: &mut SelectionUnaligned, t: &mut Rope, r: R|
                #[trigger] call_ensures(f, (s, t), r) ==> *final(t) == *t) ==> {
                &&& final(self).text == old(self).text
                &&& forall|i: int|
                    #![trigger out[i]]
                    #![trigger final(self).selections[i]]
                    #![trigger is_place(i, out.len() as int)]
                    is_place(i, out.len() as int) ==> exists|
                        s: &mut SelectionUnaligned,
                        t: &mut Rope,
                    | {
                        &&& *s == old(self).selections[i]
                        &&& *final(s) == final(self).selections[i]
                        &&& *t == old(self).text
                        &&& *final(t) == old(self).text
                        &&& #[trigger] call_ensures(f, (s, t), out[i])
                    }
            },
    {
        let mut call = f;
        let mut out: Vec<R> = Vec::new();
        let mut i: usize = 0;
        let ghost mut texts: Seq<Rope> = seq![self.text];
        while i < self.selections.len()
            invariant
                call == f,
                i <= self.selections.len(),
                out.len() == i,
                self.primary_sel_i == old(self).primary_sel_i,
                self.selections.len() == old(self).selections.len(),
                texts.len() == i + 1,
                texts[0] == old(self).text,
                texts[i as int] == self.text,
                exists|texts: spec_fn(int, Rope) -> bool| {
                    &&& #[trigger] may_find(texts, i as int, self.text)
                    &&& forall|j: int, s: &mut SelectionUnaligned, t: &mut Rope|
                        is_place(j, old(self).selections.len() as int) && *s == old(
                            self,
                        ).selections[j] && #[trigger] may_find(texts, j, *t)
                            ==> #[trigger] call_requires(f, (s, t))
                    &&& forall|j: int, s: &mut SelectionUnaligned, t: &mut Rope, r: R|
                        is_place(j, old(self).selections.len() as int) && *s == old(
                            self,
                        ).selections[j] && #[trigger] may_find(texts, j, *t)
                            && #[trigger] call_ensures(f, (s, t), r)
                            ==> may_find(texts, j + 1, *final(t))
                },
                forall|k: int|
                    #![trigger is_place(k, i as int)]
                    is_place(k, i as int) ==> exists|s: &mut SelectionUnaligned, t: &mut Rope| {
                        &&& *s == old(self).selections[k]
                        &&& *final(s) == self.selections[k]
                        &&& *t == texts[k]
                        &&& *final(t) == texts[k + 1]
                        &&& #[trigger] call_ensures(f, (s, t), out[k])
                    },
                forall|j: int|
                    i <= j < self.selections.len() ==> self.selections[j]
                        == old(self).selections[j],
                (forall|s: &mut SelectionUnaligned, t: &mut Rope, r: R|
                    #[trigger] call_ensures(f, (s, t), r) ==> *final(t) == *t) ==> forall|k: int|
                    0 <= k <= i ==> texts[k] == old(self).text,
            decreases self.selections.len() - i,
        {
            let ghost n = i as int;
            let ghost done = out@;
            let ghost before = self.selections@;
            let ghost passed = texts;
            let r = call(&mut self.selections[i], &mut self.text);
            proof {
                texts = texts.push(self.text);
            }
            out.push(r);
            assert(out[n] == r);
            assert forall|k: int|
                #![trigger is_place(k, n + 1)]
                is_place(k, n + 1) implies exists|s: &mut SelectionUnaligned, t: &mut Rope| {
                &&& *s == old(self).selections[k]
                &&& *final(s) == self.selections[k]
                &&& *t == texts[k]
                &&& *final(t) == texts[k + 1]
                &&& #[trigger] call_ensures(f, (s, t), out[k])
            } by {
                if k < n {
                    assert(is_place(k, n));
                    assert(out[k] == done[k]);
                    assert(self.selections[k] == before[k]);
                    assert(texts[k] == passed[k] && texts[k + 1] == passed[k + 1]);
                }
            }
            i = i + 1;
        }
        out
    }

    /// What `f` returns of each selection and its position, in order.
    pub fn for_each_enumerated_selection<F, R>(&self, f: F) -> (out: Vec<R>) where
        F: FnMut(usize, &SelectionUnaligned, &Rope) -> R,

        requires
            forall|j: int|
                0 <= j < self.selections.len() ==> call_requires(
                    f,
                    (j as usize, &#[trigger] self.selections[j], &self.text),
                ),
        ensures
            out.len() == self.selections.len(),
            forall|i: int|
                0 <= i < out.len() ==> call_ensures(
                    f,
                    (i as usize, &self.selections[i], &self.text),
                    #[trigger] out[i],
                ),
    {
        let mut call = f;
        let mut out: Vec<R> = Vec::new();
        let mut i: usize = 0;
        while i < self.selections.len()
            invariant
                call == f,
                i <= self.selections.len(),
                out.len() == i,
                forall|j: int|
                    0 <= j < self.selections.len() ==> call_requires(
                        f,
                        (j as usize, &#[trigger] self.selections[j], &self.text),
                    ),
                forall|j: int|
                    0 <= j < i ==> call_ensures(
                        f,
                        (j as usize, &self.selections[j], &self.text),
                        #[trigger] out[j],
                    ),
            decreases self.selections.len() - i,
        {
            let r = call(i, &self.selections[i], &self.text);
            out.push(r);
            i = i + 1;
        }
        out
    }

    /// Calls `f` on each position, its selection and the text, in order, and returns what it
    /// returned. Each call finds the text as the calls before it left it.
    ///
    /// `f` must accept each text that it may find. Where it changes no text, every call finds the
    /// one text there is.
    pub fn for_each_enumerated_selection_mut<F, R>(&mut self, f: F) -> (out: Vec<R>) where
        F: FnMut(usize, &mut SelectionUnaligned, &mut Rope) -> R,

        requires
            exists|texts: spec_fn(int, Rope) -> bool| {
                &&& #[trigger] may_find(texts, 0, old(self).text)
                &&& forall|j: usize, s: &mut SelectionUnaligned, t: &mut Rope|
                    is_place(j as int, old(self).selections.len() as int) && *s == old(
                        self,
                    ).selections[j as int] && may_find(texts, j as int, *t)
                        ==> #[trigger] call_requires(f, (j, s, t))
                &&& forall|j: usize, s: &mut SelectionUnaligned, t: &mut Rope, r: R|
                    is_place(j as int, old(self).selections.len() as int) && *s == old(
                        self,
                    ).selections[j as int] && may_find(texts, j as int, *t)
                        && #[trigger] call_ensures(f, (j, s, t), r)
                        ==> may_find(texts, j + 1, *final(t))
            },
        ensures
            final(self).primary_sel_i == old(self).primary_sel_i,
            final(self).selections.len() == old(self).selections.len(),
            out.len() == old(self).selections.len(),
            exists|texts: Seq<Rope>| {
                &&& #[trigger] texts.len() == out.len() + 1
                &&& texts[0] == old(self).text
                &&& texts[out.len() as int] == final(self).text
                &&& forall|i: int|
                    #![trigger out[i]]
                    #![trigger final(self).selections[i]]
                    #![trigger is_place(i, out.len() as int)]
                    is_place(i, out.len() as int) ==> exists|
                        s: &mut SelectionUnaligned,
                        t: &mut Rope,
                    | {
                        &&& *s == old(self).selections[i]
                        &&& *final(s) == final(self).selections[i]
                        &&& *t == texts[i]
                        &&& *final(t) == texts[i + 1]
                        &&& #[trigger] call_ensures(f, (i as usize, s, t), out[i])
                    }
            },
            (forall|j: usize, s: &mut SelectionUnaligned, t: &mut Rope, r: R|
                #[trigger] call_ensures(f, (j, s, t), r) ==> *final(t) == *t) ==> {
                &&& final(self).text == old(self).text
                &&& forall|i: int|
                    #![trigger out[i]]
                    #![trigger final(self).selections[i]]
                    #![trigger is_place(i, out.len() as int)]
                    is_place(i, out.len() as int) ==> exists|
                        s: &mut SelectionUnaligned,
                        t: &mut Rope,
                    | {
                        &&& *s == old(self).selections[i]
                        &&& *final(s) == final(self).selections[i]
                        &&& *t == old(self).text
                        &&& *final(t) == old(self).text
                        &&& #[trigger] call_ensures(f, (i as usize, s, t), out[i])
                    }
            },
    {
        let mut call = f;
        let mut out: Vec<R> = Vec::new();
        let mut i: usize = 0;
        let ghost mut texts: Seq<Rope> = seq![self.text];
        while i < self.selections.len()
            invariant
                call == f,
                i <= self.selections.len(),
                out.len() == i,
                self.primary_sel_i == old(self).primary_sel_i,
                self.selections.len() == old(self).selections.len(),
                texts.len() == i + 1,
                texts[0] == old(self).text,
                texts[i as int] == self.text,
                exists|texts: spec_fn(int, Rope) -> bool| {
                    &&& #[trigger] may_find(texts, i as int, self.text)
                    &&& forall|j: usize, s: &mut SelectionUnaligned, t: &mut Rope|
                        is_place(j as int, old(self).selections.len() as int) && *s == old(
                            self,
                        ).selections[j as int] && may_find(texts, j as int, *t)
                            ==> #[trigger] call_requires(f, (j, s, t))
                    &&& forall|j: usize, s: &mut SelectionUnaligned, t: &mut Rope, r: R|
                        is_place(j as int, old(self).selections.len() as int) && *s == old(
                            self,
                        ).selections[j as int] && may_find(texts, j as int, *t)
                            && #[trigger] call_ensures(f, (j, s, t), r)
                            ==> may_find(texts, j + 1, *final(t))
                },
                forall|k: int|
                    #![trigger is_place(k, i as int)]
                    is_place(k, i as int) ==> exists|s: &mut SelectionUnaligned, t: &mut Rope| {
                        &&& *s == old(self).selections[k]
                        &&& *final(s) == self.selections[k]
                        &&& *t == texts[k]
                        &&& *final(t) == texts[k + 1]
                        &&& #[trigger] call_ensures(f, (k as usize, s, t), out[k])
                    },
                forall|j: int|
                    i <= j < self.selections.len() ==> self.selections[j]
                        == old(self).selections[j],
                (forall|j: usize, s: &mut SelectionUnaligned, t: &mut Rope, r: R|
                    #[trigger] call_ensures(f, (j, s, t), r) ==> *final(t) == *t) ==> forall|k: int|
                    0 <= k <= i ==> texts[k] == old(self).text,
            decreases self.selections.len() - i,
        {
            let ghost n = i as int;
            let ghost done = out@;
            let ghost before = self.selections@;
            let ghost passed = texts;
            let r = call(i, &mut self.selections[i], &mut self.text);
            proof {
                texts = texts.push(self.text);
            }
            out.push(r);
            assert(out[n] == r && n as usize == i);
            assert forall|k: int|
                #![trigger is_place(k, n + 1)]
                is_place(k, n + 1) implies exists|s: &mut SelectionUnaligned, t: &mut Rope| {
                &&& *s == old(self).selections[k]
                &&& *final(s) == self.selections[k]
                &&& *t == texts[k]
                &&& *final(t) == texts[k + 1]
                &&& #[trigger] call_ensures(f, (k as usize, s, t), out[k])
            } by {
                if k < n {
                    assert(is_place(k, n));
                    assert(out[k] == done[k]);
                    assert(self.selections[k] == before[k]);
                    assert(texts[k] == passed[k] && texts[k + 1] == passed[k + 1]);
                }
            }
            i = i + 1;
        }
        out
    }

    /// Whether some selection covers the character at `idx`.
    pub fn is_idx_selected(&self, idx: Idx) -> (r: bool)
        ensures
            r == selected(self@, idx.0 as int),
    {
        let mut i: usize = 0;
        while i < self.selections.len()
            invariant
                i <= self.selections.len(),
                forall|k: int|
                    0 <= k < i ==> !covers(
                        #[trigger] aligned(self@.text, self@.selections[k]),
                        idx.0 as int,
                    ),
            decreases self.selections.len() - i,
        {
            if self.selections[i].align(&self.text).is_idx_inside(idx) {
                assert(covers(aligned(self@.text, self@.selections[i as int]), idx.0 as int));
                return true;
            }
            i = i + 1;
        }
        false
    }

    /// Puts the cursor and the anchor of each selection in each other's place.
    pub fn reverse_selections(&mut self)
        ensures
            final(self)@ == with_each(old(self)@, |s: SelectionUnaligned| reversed(s)),
    {
        let change = |sel: &mut SelectionUnaligned, _text: &mut Rope|
            ensures
                *final(sel) == reversed(*old(sel)),
                *final(_text) == *old(_text),
            {
                *sel = sel.reversed();
            };
        let ghost before = self.text;
        let ghost same = |i: int, t: Rope| t == before;
        assert(may_find(same, 0, self.text));
        self.for_each_selection_mut(change);
    }

    /// Moves each cursor to where `f` says, and each anchor to where the cursor was.
    pub fn move_cursor<F>(&mut self, f: F) where F: Fn(Coord, &Rope) -> Coord
        requires
            forall|j: int|
                0 <= j < old(self).selections.len() ==> call_requires(
                    f,
                    ((#[trigger] old(self).selections[j]).cursor, &old(self).text),
                ),
        ensures
            final(self).text == old(self).text,
            final(self).primary_sel_i == old(self).primary_sel_i,
            final(self).selections.len() == old(self).selections.len(),
            forall|i: int|
                #![trigger final(self).selections[i]]
                0 <= i < old(self).selections.len() ==> {
                    &&& final(self).selections[i].anchor == old(self).selections[i].cursor
                    &&& call_ensures(
                        f,
                        (old(self).selections[i].cursor, &old(self).text),
                        final(self).selections[i].cursor,
                    )
                },
    {
        let change = |sel: &mut SelectionUnaligned, text: &mut Rope|
            requires
                accepts(&f, sel.cursor, &*text),
            ensures
                final(sel).anchor == old(sel).cursor,
                returns_of(&f, old(sel).cursor, &*old(text), final(sel).cursor),
                *final(text) == *old(text),
            {
                let new_cursor = f(sel.cursor, text);
                sel.anchor = sel.cursor;
                sel.cursor = new_cursor;
            };
        let ghost before = self.text;
        let ghost same = |i: int, t: Rope| t == before;
        assert(may_find(same, 0, self.text));
        self.for_each_selection_mut(change);
    }

    /// Moves each anchor and each cursor to where `f` says, anchor first.
    pub fn move_cursor_2<F>(&mut self, f: F) where F: Fn(Coord, &Rope) -> (Coord, Coord)
        requires
            forall|j: int|
                0 <= j < old(self).selections.len() ==> call_requires(
                    f,
                    ((#[trigger] old(self).selections[j]).cursor, &old(self).text),
                ),
        ensures
            final(self).text == old(self).text,
            final(self).primary_sel_i == old(self).primary_sel_i,
            final(self).selections.len() == old(self).selections.len(),
            forall|i: int|
                #![trigger final(self).selections[i]]
                0 <= i < old(self).selections.len() ==> call_ensures(
                    f,
                    (old(self).selections[i].cursor, &old(self).text),
                    (final(self).selections[i].anchor, final(self).selections[i].cursor),
                ),
    {
        let change = |sel: &mut SelectionUnaligned, text: &mut Rope|
            requires
                accepts(&f, sel.cursor, &*text),
            ensures
                returns_of(
                    &f,
                    old(sel).cursor,
                    &*old(text),
                    (final(sel).anchor, final(sel).cursor),
                ),
                *final(text) == *old(text),
            {
                let (new_anchor, new_cursor) = f(sel.cursor, text);
                sel.anchor = new_anchor;
                sel.cursor = new_cursor;
            };
        let ghost before = self.text;
        let ghost same = |i: int, t: Rope| t == before;
        assert(may_find(same, 0, self.text));
        self.for_each_selection_mut(change);
    }

    /// Moves each cursor to where `f` says; the anchors stay.
    pub fn extend_cursor<F>(&mut self, f: F) where F: Fn(Coord, &Rope) -> Coord
        requires
            forall|j: int|
                0 <= j < old(self).selections.len() ==> call_requires(
                    f,
                    ((#[trigger] old(self).selections[j]).cursor, &old(self).text),
                ),
        ensures
            final(self).text == old(self).text,
            final(self).primary_sel_i == old(self).primary_sel_i,
            final(self).selections.len() == old(self).selections.len(),
            forall|i: int|
                #![trigger final(self).selections[i]]
                0 <= i < old(self).selections.len() ==> {
                    &&& final(self).selections[i].anchor == old(self).selections[i].anchor
                    &&& call_ensures(
                        f,
                        (old(self).selections[i].cursor, &old(self).text),
                        final(self).selections[i].cursor,
                    )
                },
    {
        let change = |sel: &mut SelectionUnaligned, text: &mut Rope|
            requires
                accepts(&f, sel.cursor, &*text),
            ensures
                final(sel).anchor == old(sel).anchor,
                returns_of(&f, old(sel).cursor, &*old(text), final(sel).cursor),
                *final(text) == *old(text),
            {
                sel.cursor = f(sel.cursor, text);
            };
        let ghost before = self.text;
        let ghost same = |i: int, t: Rope| t == before;
        assert(may_find(same, 0, self.text));
        self.for_each_selection_mut(change);
    }

    /// Moves each cursor to where `f` says of an anchor and a cursor; the anchors stay.
    pub fn extend_cursor_2<F>(&mut self, f: F) where F: Fn(Coord, &Rope) -> (Coord, Coord)
        requires
            forall|j: int|
                0 <= j < old(self).selections.len() ==> call_requires(
                    f,
                    ((#[trigger] old(self).selections[j]).cursor, &old(self).text),
                ),
        ensures
            final(self).text == old(self).text,
            final(self).primary_sel_i == old(self).primary_sel_i,
            final(self).selections.len() == old(self).selections.len(),
            forall|i: int|
                #![trigger final(self).selections[i]]
                0 <= i < old(self).selections.len() ==> {
                    &&& final(self).selections[i].anchor == old(self).selections[i].anchor
                    &&& exists|new_anchor: Coord|
                        call_ensures(
                            f,
                            (old(self).selections[i].cursor, &old(self).text),
                            (new_anchor, final(self).selections[i].cursor),
                        )
                },
    {
        let change = |sel: &mut SelectionUnaligned, text: &mut Rope| -> (r: Coord)
            requires
                accepts(&f, sel.cursor, &*text),
            ensures
                final(sel).anchor == old(sel).anchor,
                returns_of(&f, old(sel).cursor, &*old(text), (r, final(sel).cursor)),
                *final(text) == *old(text),
            {
                let (new_anchor, new_cursor) = f(sel.cursor, text);
                sel.cursor = new_cursor;
                new_anchor
            };
        let ghost before = self.text;
        let ghost same = |i: int, t: Rope| t == before;
        assert(may_find(same, 0, self.text));
        let new_anchors = self.for_each_selection_mut(change);
        assert forall|i: int| 0 <= i < self.selections.len() implies exists|new_anchor: Coord|
            call_ensures(
                f,
                (old(self).selections[i].cursor, &old(self).text),
                (new_anchor, (#[trigger] self.selections[i]).cursor),
            ) by {
            assert(call_ensures(
                f,
                (old(self).selections[i].cursor, &old(self).text),
                (new_anchors[i], self.selections[i].cursor),
            ));
        }
    }

    /// Moves each cursor and each anchor to where `f` says of the two, cursor first.
    pub fn change_selection<F>(&mut self, f: F) where F: Fn(Coord, Coord, &Rope) -> (Coord, Coord)
        requires
            forall|j: int|
                #![trigger old(self).selections[j]]
                0 <= j < old(self).selections.len() ==> call_requires(
                    f,
                    (
                        old(self).selections[j].cursor,
                        old(self).selections[j].anchor,
                        &old(self).text,
                    ),
                ),
        ensures
            final(self).text == old(self).text,
            final(self).primary_sel_i == old(self).primary_sel_i,
            final(self).selections.len() == old(self).selections.len(),
            forall|i: int|
                #![trigger final(self).selections[i]]
                0 <= i < old(self).selections.len() ==> call_ensures(
                    f,
                    (
                        old(self).selections[i].cursor,
                        old(self).selections[i].anchor,
                        &old(self).text,
                    ),
                    (final(self).selections[i].cursor, final(self).selections[i].anchor),
                ),
    {
        let change = |sel: &mut SelectionUnaligned, text: &mut Rope|
            requires
                accepts_both(&f, *sel, &*text),
            ensures
                returns_of_both(
                    &f,
                    *old(sel),
                    &*old(text),
                    (final(sel).cursor, final(sel).anchor),
                ),
                *final(text) == *old(text),
            {
                let (new_cursor, new_anchor) = f(sel.cursor, sel.anchor, text);
                sel.anchor = new_anchor;
                sel.cursor = new_cursor;
            };
        let ghost before = self.text;
        let ghost same = |i: int, t: Rope| t == before;
        assert(may_find(same, 0, self.text));
        self.for_each_selection_mut(change);
    }

    /// Moves each cursor `n` characters back; the selection is what it moved over.
    pub fn move_cursor_backward(&mut self, n: usize)
        ensures
            final(self)@ == moved(old(self)@, |c: Coord| backward(old(self)@.text, c, n as int)),
    {
        let step = |coord: Coord, text: &Rope| -> (r: Coord)
            ensures
                r == backward(rope_chars(*text), coord, n as int),
            { coord.backward(n, text) };
        self.move_cursor(step);
    }

    /// Moves each cursor `n` characters on; the selection is what it moved over.
    pub fn move_cursor_forward(&mut self, n: usize)
        ensures
            final(self)@ == moved(old(self)@, |c: Coord| forward(old(self)@.text, c, n as int)),
    {
        let step = |coord: Coord, text: &Rope| -> (r: Coord)
            ensures
                r == forward(rope_chars(*text), coord, n as int),
            { coord.forward(n, text) };
        self.move_cursor(step);
    }

    /// Moves each cursor `n` lines down, and keeps its column; the selection is what it moved over.
    pub fn move_cursor_down(&mut self, n: usize)
        ensures
            final(self)@ == moved(old(self)@, |c: Coord| down(old(self)@.text, c, n as int)),
    {
        let step = |coord: Coord, text: &Rope| -> (r: Coord)
            ensures
                r == down(rope_chars(*text), coord, n as int),
            { coord.down_unaligned(n, text) };
        self.move_cursor(step);
    }

    /// Moves each cursor `n` lines up, and keeps its column; the selection is what it moved over.
    pub fn move_cursor_up(&mut self, n: usize)
        ensures
            final(self)@ == moved(old(self)@, |c: Coord| up(c, n as int)),
    {
        let step = |coord: Coord, text: &Rope| -> (r: Coord)
            ensures
                r == up(coord, n as int),
            { coord.up_unaligned(n, text) };
        self.move_cursor(step);
    }

    /// Moves each cursor `n` characters back; the anchors stay.
    pub fn extend_cursor_backward(&mut self, n: usize)
        ensures
            final(self)@ == extended(old(self)@, |c: Coord| backward(old(self)@.text, c, n as int)),
    {
        let step = |coord: Coord, text: &Rope| -> (r: Coord)
            ensures
                r == backward(rope_chars(*text), coord, n as int),
            { coord.backward(n, text) };
        self.extend_cursor(step);
    }

    /// Moves each cursor `n` characters on; the anchors stay.
    pub fn extend_cursor_forward(&mut self, n: usize)
        ensures
            final(self)@ == extended(old(self)@, |c: Coord| forward(old(self)@.text, c, n as int)),
    {
        let step = |coord: Coord, text: &Rope| -> (r: Coord)
            ensures
                r == forward(rope_chars(*text), coord, n as int),
            { coord.forward(n, text) };
        self.extend_cursor(step);
    }

    /// Moves each cursor `n` lines down, and keeps its column; the anchors stay.
    pub fn extend_cursor_down(&mut self, n: usize)
        ensures
            final(self)@ == extended(old(self)@, |c: Coord| down(old(self)@.text, c, n as int)),
    {
        let step = |coord: Coord, text: &Rope| -> (r: Coord)
            ensures
                r == down(rope_chars(*text), coord, n as int),
            { coord.down_unaligned(n, text) };
        self.extend_cursor(step);
    }

    /// Moves each cursor `n` lines up, and keeps its column; the anchors stay.
    pub fn extend_cursor_up(&mut self, n: usize)
        ensures
            final(self)@ == extended(old(self)@, |c: Coord| up(c, n as int)),
    {
        let step = |coord: Coord, text: &Rope| -> (r: Coord)
            ensures
                r == up(coord, n as int),
            { coord.up_unaligned(n, text) };
        self.extend_cursor(step);
    }

    /// Selects the next word from each cursor on.
    pub fn move_cursor_forward_word(&mut self)
        ensures
            final(self)@ == with_each(
                old(self)@,
                |s: SelectionUnaligned|
                    SelectionUnaligned {
                        anchor: next_word(old(self)@.text, s.cursor).0,
                        cursor: next_word(old(self)@.text, s.cursor).1,
                    },
            ),
    {
        let step = |coord: Coord, text: &Rope| -> (r: (Coord, Coord))
            ensures
                r == next_word(rope_chars(*text), coord),
            { coord.forward_word(text) };
        self.move_cursor_2(step);
    }

    /// Selects the word before each cursor, backwards.
    pub fn move_cursor_backward_word(&mut self)
        ensures
            final(self)@ == with_each(
                old(self)@,
                |s: SelectionUnaligned|
                    SelectionUnaligned {
                        anchor: previous_word(old(self)@.text, s.cursor).0,
                        cursor: previous_word(old(self)@.text, s.cursor).1,
                    },
            ),
    {
        let step = |coord: Coord, text: &Rope| -> (r: (Coord, Coord))
            ensures
                r == previous_word(rope_chars(*text), coord),
            { coord.backward_word(text) };
        self.move_cursor_2(step);
    }

    /// The line and column that the first selection's cursor is shown at.
    pub fn cursor_pos(&self) -> (coord: Coord)
        requires
            self@.selections.len() > 0,
        ensures
            coord == trimmed(self@.text, self@.selections[0].cursor),
    {
        self.selections[0].cursor.trim_column_to_buf(&self.text)
    }

    /// Selects the whole line of each cursor.
    pub fn move_line(&mut self)
        ensures
            final(self)@ == lines_selected(old(self)@),
    {
        let change = |cursor: Coord, _anchor: Coord, text: &Rope| -> (r: (Coord, Coord))
            ensures
                r.0 == past_line_end(rope_chars(*text), cursor),
                r.1 == line_begin(cursor),
            { (cursor.forward_past_line_end(text), cursor.backward_to_line_start(text)) };
        self.change_selection(change);
    }

    /// Extends each selection to whole lines.
    pub fn extend_line(&mut self)
        ensures
            final(self)@ == lines_extended(old(self)@),
    {
        let change = |cursor: Coord, anchor: Coord, text: &Rope| -> (r: (Coord, Coord))
            ensures
                r.0 == past_line_end(rope_chars(*text), cursor),
                r.1 == line_begin(earlier(cursor, anchor)),
            {
                let first = if anchor.line < cursor.line || (anchor.line == cursor.line
                    && anchor.column < cursor.column) {
                    anchor
                } else {
                    cursor
                };
                (
                    cursor.forward_past_line_end(text),
                    if first.column == 0 {
                        first
                    } else {
                        first.backward_to_line_start(text)
                    },
                )
            };
        self.change_selection(change);
    }

    /// Selects the whole text, in the direction of the primary selection.
    pub fn select_all(&mut self)
        requires
            old(self)@.primary_sel_i < old(self)@.selections.len(),
        ensures
            final(self)@ == all_selected(old(self)@),
    {
        let len = self.text.len_chars();
        let forward = match self.selections[self.primary_sel_i].align(&self.text).is_forward() {
            Some(forward) => forward,
            None => true,
        };
        let all = if forward {
            Selection { anchor: Idx(0), cursor: Idx(len) }
        } else {
            Selection { cursor: Idx(0), anchor: Idx(len) }
        };
        self.selections = vec![SelectionUnaligned::from_selection(all, &self.text)];
    }

    /// Puts each selection whose cursor stands at `idx` or behind it `offset` characters behind
    /// where its cursor stood.
    pub fn add_to_every_selection_after(&mut self, idx: Idx, offset: usize)
        ensures
            final(self)@ == with_each(
                old(self)@,
                |s: SelectionUnaligned|
                    shifted_on(old(self)@.text, s, idx.0 as int, offset as int),
            ),
    {
        let change = |sel: &mut SelectionUnaligned, text: &mut Rope|
            ensures
                *final(sel) == shifted_on(
                    rope_chars(*old(text)),
                    *old(sel),
                    idx.0 as int,
                    offset as int,
                ),
                *final(text) == *old(text),
            {
                let _len = text.len_chars();
                let cursor_idx = sel.cursor.to_idx(text);
                let anchor_idx = sel.cursor.to_idx(text);
                if idx.0 <= cursor_idx.0 {
                    sel.cursor = Idx(cursor_idx.0.saturating_add(offset)).to_coord(text);
                }
                if idx.0 <= anchor_idx.0 {
                    sel.anchor = Idx(anchor_idx.0.saturating_add(offset)).to_coord(text);
                }
            };
        let ghost before = self.text;
        let ghost same = |i: int, t: Rope| t == before;
        assert(may_find(same, 0, self.text));
        self.for_each_selection_mut(change);
    }

    /// Puts each cursor and each anchor that stands behind `idx` `offset` characters before where
    /// it stood.
    pub fn sub_to_every_selection_after(&mut self, idx: Idx, offset: usize)
        ensures
            final(self).text == old(self).text,
            final(self)@ == with_each(
                old(self)@,
                |s: SelectionUnaligned|
                    shifted_back(old(self)@.text, s, idx.0 as int, offset as int),
            ),
    {
        let change = |sel: &mut SelectionUnaligned, text: &mut Rope|
            ensures
                *final(sel) == shifted_back(
                    rope_chars(*old(text)),
                    *old(sel),
                    idx.0 as int,
                    offset as int,
                ),
                *final(text) == *old(text),
            {
                let cursor_idx = sel.cursor.to_idx(text);
                let anchor_idx = sel.anchor.to_idx(text);
                if idx.0 < cursor_idx.0 {
                    sel.cursor = Idx(cursor_idx.0.saturating_sub(offset)).to_coord(text);
                }
                if idx.0 < anchor_idx.0 {
                    sel.anchor = Idx(anchor_idx.0.saturating_sub(offset)).to_coord(text);
                }
            };
        let ghost before = self.text;
        let ghost same = |i: int, t: Rope| t == before;
        assert(may_find(same, 0, self.text));
        self.for_each_selection_mut(change);
    }

    /// The texts that the selections cover, in order.
    pub fn yank(&mut self) -> (yanked: Vec<Rope>)
        ensures
            final(self)@ == old(self)@,
            texts_of(yanked@) == selected_texts(old(self)@),
    {
        let copy = |sel: &mut SelectionUnaligned, text: &mut Rope| -> (r: Rope)
            ensures
                *final(sel) == *old(sel),
                *final(text) == *old(text),
                rope_chars(r) == rope_chars(*old(text)).subrange(
                    range_start(aligned(rope_chars(*old(text)), *old(sel))),
                    range_end(aligned(rope_chars(*old(text)), *old(sel))),
                ),
            {
                let range = sel.align(text).sorted_range_usize();
                slice(text, range.start, range.end)
            };
        let ghost before = self.text;
        let ghost same = |i: int, t: Rope| t == before;
        assert(may_find(same, 0, self.text));
        self.for_each_selection_mut(copy)
    }
}

} // verus!
