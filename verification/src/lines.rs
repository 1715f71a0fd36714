//! Text as a sequence of characters, and its division into lines.

use vstd::prelude::*;

verus! {

/// Pieces put one behind the other.
pub open spec fn joined(pieces: Seq<Seq<char>>) -> Seq<char>
    decreases pieces.len(),
{
    if pieces.len() == 0 {
        Seq::empty()
    } else {
        joined(pieces.drop_last()) + pieces.last()
    }
}

/// Pieces put one before the other: the last piece comes first.
pub open spec fn joined_backwards(pieces: Seq<Seq<char>>) -> Seq<char>
    decreases pieces.len(),
{
    if pieces.len() == 0 {
        Seq::empty()
    } else {
        pieces.last() + joined_backwards(pieces.drop_last())
    }
}

/// A text with `piece` put before the character at `i`.
pub open spec fn spliced(t: Seq<char>, i: int, piece: Seq<char>) -> Seq<char> {
    t.take(i) + piece + t.skip(i)
}

/// A text without the characters from `start` up to, not including, `end`.
pub open spec fn without(t: Seq<char>, start: int, end: int) -> Seq<char> {
    t.take(start) + t.skip(end)
}

/// A character that breaks a line.
pub open spec fn is_line_break(c: char) -> bool {
    ||| c == '\u{a}'
    ||| c == '\u{b}'
    ||| c == '\u{c}'
    ||| c == '\u{d}'
    ||| c == '\u{85}'
    ||| c == '\u{2028}'
    ||| c == '\u{2029}'
}

/// Whether the character at `i` is the last one of a line that is not the last line. A carriage
/// return directly before a line feed is not: the two together end one line.
pub open spec fn ends_line(t: Seq<char>, i: int) -> bool {
    &&& 0 <= i < t.len()
    &&& is_line_break(t[i])
    &&& !(t[i] == '\u{d}' && i + 1 < t.len() && t[i + 1] == '\u{a}')
}

/// The zero-based number of the line that the index `i` lies on: how many lines end before it.
pub open spec fn line_of(t: Seq<char>, i: int) -> nat
    decreases i,
{
    if i <= 0 {
        0
    } else {
        line_of(t, i - 1) + if ends_line(t, i - 1) { 1nat } else { 0nat }
    }
}

/// How many lines the text has; at least one.
pub open spec fn line_count(t: Seq<char>) -> nat {
    line_of(t, t.len() as int) + 1
}

/// Whether a line starts at `i`: at the start of the text, or directly behind a line's end.
pub open spec fn is_line_start(t: Seq<char>, i: int) -> bool {
    i == 0 || ends_line(t, i - 1)
}

/// Whether `i` is the index at which the line `line` starts.
pub open spec fn starts_line(t: Seq<char>, line: int, i: int) -> bool {
    &&& 0 <= i <= t.len()
    &&& is_line_start(t, i)
    &&& line_of(t, i) == line
}

/// The index at which the line `line` starts; behind the last line, the end of the text.
pub open spec fn line_start(t: Seq<char>, line: int) -> int {
    if line >= line_count(t) {
        t.len() as int
    } else {
        choose|i: int| starts_line(t, line, i)
    }
}

/// The characters of the line `line`, with the line break that ends it.
pub open spec fn line_chars(t: Seq<char>, line: int) -> Seq<char> {
    t.subrange(line_start(t, line), line_start(t, line + 1))
}

/// The line of an index is at most the index.
pub proof fn lemma_line_of_bound(t: Seq<char>, i: int)
    requires
        0 <= i,
    ensures
        line_of(t, i) <= i,
    decreases i,
{
    if i > 0 {
        lemma_line_of_bound(t, i - 1);
    }
}

/// A later index lies on the same line or on a later one.
pub proof fn lemma_line_of_monotone(t: Seq<char>, i: int, j: int)
    requires
        i <= j,
    ensures
        line_of(t, i) <= line_of(t, j),
    decreases j - i,
{
    if i < j {
        lemma_line_of_monotone(t, i, j - 1);
    }
}

/// Every line up to the one that `n` lies on starts at or before `n`.
proof fn lemma_line_starts_somewhere(t: Seq<char>, line: int, n: int) -> (i: int)
    requires
        0 <= n <= t.len(),
        0 <= line <= line_of(t, n),
    ensures
        i <= n,
        starts_line(t, line, i),
    decreases n,
{
    if line == line_of(t, n) && is_line_start(t, n) {
        n
    } else {
        lemma_line_starts_somewhere(t, line, n - 1)
    }
}

/// A line starts at one index only.
proof fn lemma_line_starts_once(t: Seq<char>, line: int, i: int, j: int)
    requires
        starts_line(t, line, i),
        starts_line(t, line, j),
        i <= j,
    ensures
        i == j,
{
    if i < j {
        lemma_line_of_monotone(t, i, j - 1);
    }
}

/// What `line_start` is for the lines of a text.
pub proof fn lemma_line_start(t: Seq<char>, line: int)
    requires
        0 <= line,
    ensures
        0 <= line_start(t, line) <= t.len(),
        line < line_count(t) ==> starts_line(t, line, line_start(t, line)),
        line_start(t, 0) == 0,
{
    assert(starts_line(t, 0, 0));
    if line < line_count(t) {
        let i = lemma_line_starts_somewhere(t, line, t.len() as int);
        assert(starts_line(t, line, i));
    }
    let z = line_start(t, 0);
    assert(starts_line(t, 0, z));
    lemma_line_starts_once(t, 0, 0, z);
}

/// An index that starts a line is where `line_start` says.
pub proof fn lemma_line_start_is(t: Seq<char>, line: int, i: int)
    requires
        starts_line(t, line, i),
    ensures
        line_start(t, line) == i,
{
    lemma_line_of_monotone(t, i, t.len() as int);
    lemma_line_start(t, line);
    let s = line_start(t, line);
    if s <= i {
        lemma_line_starts_once(t, line, s, i);
    } else {
        lemma_line_starts_once(t, line, i, s);
    }
}

/// An index lies between the start of its line and the start of the next.
pub proof fn lemma_line_holds(t: Seq<char>, i: int)
    requires
        0 <= i <= t.len(),
    ensures
        line_of(t, i) < line_count(t),
        line_start(t, line_of(t, i) as int) <= i,
        line_of(t, i) + 1 < line_count(t) ==> i < line_start(t, line_of(t, i) as int + 1),
{
    let line = line_of(t, i) as int;
    lemma_line_of_monotone(t, i, t.len() as int);
    let s = lemma_line_starts_somewhere(t, line, i);
    lemma_line_start_is(t, line, s);
    if line + 1 < line_count(t) {
        let next = line_start(t, line + 1);
        lemma_line_start(t, line + 1);
        if next <= i {
            lemma_line_of_monotone(t, next, i);
        }
    }
}

/// An index between the start of a line and the start of the next lies on that line.
pub proof fn lemma_line_of_within(t: Seq<char>, line: int, i: int)
    requires
        0 <= line < line_count(t),
        line_start(t, line) <= i <= t.len(),
        line + 1 < line_count(t) ==> i < line_start(t, line + 1),
    ensures
        line_of(t, i) == line,
{
    lemma_line_start(t, line);
    lemma_line_of_monotone(t, line_start(t, line), i);
    lemma_line_of_monotone(t, i, t.len() as int);
    if line_of(t, i) > line {
        let next = lemma_line_starts_somewhere(t, line + 1, i);
        lemma_line_start_is(t, line + 1, next);
    }
}

/// A line that is not the last one starts before the next line does.
pub proof fn lemma_line_starts_ordered(t: Seq<char>, line: int)
    requires
        0 <= line,
        line + 1 < line_count(t),
    ensures
        line_start(t, line) < line_start(t, line + 1),
{
    lemma_line_start(t, line);
    lemma_line_start(t, line + 1);
    if line_start(t, line + 1) <= line_start(t, line) {
        lemma_line_of_monotone(t, line_start(t, line + 1), line_start(t, line));
    }
}

/// Two texts that agree on their first `n` characters agree on the lines of the indices before
/// `n`, and of `n` itself where they agree on whether a line ends directly before it.
pub proof fn lemma_line_of_prefix(t: Seq<char>, u: Seq<char>, n: int, i: int)
    requires
        0 <= i <= n <= t.len(),
        n <= u.len(),
        t.take(n) == u.take(n),
        i == n ==> ends_line(t, n - 1) == ends_line(u, n - 1),
    ensures
        line_of(t, i) == line_of(u, i),
    decreases i,
{
    if i > 0 {
        lemma_line_of_prefix(t, u, n, i - 1);
        assert(t[i - 1] == t.take(n)[i - 1]);
        assert(u[i - 1] == u.take(n)[i - 1]);
        if i < n {
            assert(t[i] == t.take(n)[i]);
            assert(u[i] == u.take(n)[i]);
        }
    }
}

} // verus!
