use breeze::buffer::Buffer;
use breeze::coord::Coord;
use breeze::idx::Idx;
use breeze::selection::SelectionUnaligned;
use ropey::Rope;

fn at(line: usize, column: usize) -> Coord {
    Coord { line, column }
}

fn sel(anchor: Coord, cursor: Coord) -> SelectionUnaligned {
    SelectionUnaligned { anchor, cursor }
}

fn buffer(text: &str, selections: &[SelectionUnaligned]) -> Buffer {
    Buffer { text: Rope::from_str(text), selections: selections.to_vec(), primary_sel_i: 0 }
}

#[test]
fn default_buffer_is_empty() {
    let b = Buffer::default();
    assert_eq!(b.text.to_string(), "");
    assert_eq!(b.selections, vec![sel(at(0, 0), at(0, 0))]);
    assert_eq!(b.primary_sel_i, 0);
}

#[test]
fn opened_text_has_one_cursor_at_its_start() {
    let b = Buffer::from_text(Rope::from_str("ab\nc"));
    assert_eq!(b.text.to_string(), "ab\nc");
    assert_eq!(b.selections, vec![sel(at(0, 0), at(0, 0))]);
    assert_eq!(b.cursor_pos(), at(0, 0));
}

#[test]
fn clone_holds_the_same() {
    let mut b = buffer("ab", &[sel(at(0, 0), at(0, 1))]);
    let copy = b.clone();
    b.insert('x');
    assert_eq!(copy.text.to_string(), "ab");
    assert_eq!(copy.selections, vec![sel(at(0, 0), at(0, 1))]);
}

#[test]
fn selections_are_visited_in_order() {
    let mut b = buffer("abc", &[sel(at(0, 0), at(0, 1)), sel(at(0, 2), at(0, 3))]);
    assert_eq!(b.for_each_selection(|s, text| s.cursor.column + text.len_chars()), vec![4, 6]);
    let anchors = b.for_each_enumerated_selection(|i, s, _| (i, s.anchor.column));
    assert_eq!(anchors, vec![(0, 0), (1, 2)]);
    let cursors = b.for_each_selection_mut(|s, _| {
        let column = s.cursor.column;
        *s = s.reversed();
        column
    });
    assert_eq!(cursors, vec![1, 3]);
    assert_eq!(b.selections, vec![sel(at(0, 1), at(0, 0)), sel(at(0, 3), at(0, 2))]);
    let places = b.for_each_enumerated_selection_mut(|i, s, _| {
        *s = s.collapsed();
        i
    });
    assert_eq!(places, vec![0, 1]);
    assert_eq!(b.selections, vec![sel(at(0, 0), at(0, 0)), sel(at(0, 2), at(0, 2))]);
}

#[test]
fn each_call_finds_the_text_as_the_last_one_left_it() {
    let mut b = buffer("ab", &[sel(at(0, 0), at(0, 1)), sel(at(0, 1), at(0, 2))]);
    let found = b.for_each_enumerated_selection_mut(|i, s, text| {
        let found = text.to_string();
        text.insert_char(s.anchor.column, if i == 0 { 'x' } else { 'y' });
        s.cursor = at(7, i);
        found
    });
    assert_eq!(found, vec!["ab", "xab"]);
    assert_eq!(b.text.to_string(), "xyab");
    assert_eq!(b.selections, vec![sel(at(0, 0), at(7, 0)), sel(at(0, 1), at(7, 1))]);
    let lengths = b.for_each_selection_mut(|s, text| {
        text.remove(s.anchor.column..s.anchor.column + 1);
        text.len_chars()
    });
    assert_eq!(lengths, vec![3, 2]);
    assert_eq!(b.text.to_string(), "yb");
}

#[test]
fn calls_may_keep_count() {
    let mut b = buffer("abc", &[sel(at(0, 0), at(0, 1)), sel(at(0, 2), at(0, 3))]);
    let mut calls = 0;
    let counted = b.for_each_selection_mut(|s, _| {
        calls += 1;
        s.cursor = s.anchor;
        calls
    });
    assert_eq!(counted, vec![1, 2]);
    b.for_each_selection(|_, _| calls += 1);
    b.for_each_enumerated_selection(|i, _, _| calls += i);
    assert_eq!(calls, 5);
}

#[test]
fn selected_indices_are_those_covered() {
    let b = buffer("abcdef", &[sel(at(0, 1), at(0, 2)), sel(at(0, 5), at(0, 4))]);
    let selected: Vec<usize> = (0..7).filter(|i| b.is_idx_selected(Idx(*i))).collect();
    assert_eq!(selected, vec![1, 4]);
}

#[test]
fn reversed_selections_swap_their_ends() {
    let mut b = buffer("abc", &[sel(at(0, 0), at(0, 2))]);
    b.reverse_selections();
    assert_eq!(b.selections, vec![sel(at(0, 2), at(0, 0))]);
}

#[test]
fn moving_leaves_the_anchor_at_the_old_cursor() {
    let mut b = buffer("abcdef\nghi", &[sel(at(0, 0), at(0, 2))]);
    b.move_cursor_forward(2);
    assert_eq!(b.selections, vec![sel(at(0, 2), at(0, 4))]);
    b.move_cursor_backward(1);
    assert_eq!(b.selections, vec![sel(at(0, 4), at(0, 3))]);
    b.move_cursor_down(1);
    assert_eq!(b.selections, vec![sel(at(0, 3), at(1, 3))]);
    b.move_cursor_up(1);
    assert_eq!(b.selections, vec![sel(at(1, 3), at(0, 3))]);
    assert_eq!(b.text.to_string(), "abcdef\nghi");
}

#[test]
fn extending_leaves_the_anchor() {
    let mut b = buffer("abcdef\nghi", &[sel(at(0, 1), at(0, 2))]);
    b.extend_cursor_forward(2);
    assert_eq!(b.selections, vec![sel(at(0, 1), at(0, 4))]);
    b.extend_cursor_backward(1);
    assert_eq!(b.selections, vec![sel(at(0, 1), at(0, 3))]);
    b.extend_cursor_down(1);
    assert_eq!(b.selections, vec![sel(at(0, 1), at(1, 3))]);
    b.extend_cursor_up(1);
    assert_eq!(b.selections, vec![sel(at(0, 1), at(0, 3))]);
}

#[test]
fn moving_by_a_function() {
    let mut b = buffer("abcdef", &[sel(at(0, 1), at(0, 2))]);
    b.move_cursor(|c, text| c.forward(1, text));
    assert_eq!(b.selections, vec![sel(at(0, 2), at(0, 3))]);
    b.move_cursor_2(|c, text| (c, c.forward(2, text)));
    assert_eq!(b.selections, vec![sel(at(0, 3), at(0, 5))]);
    b.extend_cursor(|c, text| c.backward(1, text));
    assert_eq!(b.selections, vec![sel(at(0, 3), at(0, 4))]);
    b.extend_cursor_2(|c, text| (at(0, 0), c.forward(1, text)));
    assert_eq!(b.selections, vec![sel(at(0, 3), at(0, 5))]);
    b.change_selection(|cursor, anchor, _| (anchor, cursor));
    assert_eq!(b.selections, vec![sel(at(0, 5), at(0, 3))]);
}

#[test]
fn words_are_selected() {
    let mut b = buffer("foo bar", &[sel(at(0, 0), at(0, 0))]);
    b.move_cursor_forward_word();
    assert_eq!(b.selections, vec![sel(at(0, 0), at(0, 3))]);
    b.move_cursor_forward_word();
    assert_eq!(b.selections, vec![sel(at(0, 4), at(0, 7))]);
    b.move_cursor_backward_word();
    assert_eq!(b.selections, vec![sel(at(0, 7), at(0, 4))]);
}

#[test]
fn cursor_is_shown_within_its_line() {
    let b = buffer("abc\nd", &[sel(at(0, 0), at(1, 9))]);
    assert_eq!(b.cursor_pos(), at(1, 1));
}

#[test]
fn line_is_selected_with_its_break() {
    let mut b = buffer("ab\ncd\nef", &[sel(at(0, 0), at(1, 1))]);
    b.move_line();
    assert_eq!(b.selections, vec![sel(at(1, 0), at(2, 0))]);
    let selected: Vec<usize> = (0..9).filter(|i| b.is_idx_selected(Idx(*i))).collect();
    assert_eq!(selected, vec![3, 4, 5]);
    b.move_line();
    assert_eq!(b.selections, vec![sel(at(2, 0), at(2, 2))]);
}

#[test]
fn line_selection_is_extended() {
    let mut b = buffer("ab\ncd\nef", &[sel(at(1, 1), at(1, 2))]);
    b.extend_line();
    assert_eq!(b.selections, vec![sel(at(1, 0), at(2, 0))]);
    let mut b = buffer("ab\ncd\nef", &[sel(at(1, 1), at(0, 1))]);
    b.extend_line();
    assert_eq!(b.selections, vec![sel(at(0, 0), at(1, 0))]);
}

#[test]
fn all_is_selected_in_the_direction_of_the_primary() {
    let mut b = buffer("ab\nc", &[sel(at(0, 0), at(0, 1)), sel(at(1, 0), at(1, 0))]);
    b.select_all();
    assert_eq!(b.selections, vec![sel(at(0, 0), at(1, 1))]);
    assert!((0..4).all(|i| b.is_idx_selected(Idx(i))));
    assert!(!b.is_idx_selected(Idx(4)));
    let mut b = buffer("ab\nc", &[sel(at(0, 2), at(0, 1))]);
    b.select_all();
    assert_eq!(b.selections, vec![sel(at(1, 1), at(0, 0))]);
}

#[test]
fn selections_after_an_index_are_pushed_on() {
    let mut b = buffer("abcdef", &[sel(at(0, 0), at(0, 2)), sel(at(0, 5), at(0, 0))]);
    b.add_to_every_selection_after(Idx(1), 2);
    assert_eq!(b.selections, vec![sel(at(0, 4), at(0, 4)), sel(at(0, 5), at(0, 0))]);
    let mut b = buffer("abcdef", &[sel(at(0, 1), at(0, 1))]);
    b.add_to_every_selection_after(Idx(1), usize::MAX);
    assert_eq!(b.selections, vec![sel(at(0, 6), at(0, 6))]);
}

#[test]
fn selections_after_an_index_are_pulled_back() {
    let mut b = buffer("abcdef", &[sel(at(0, 0), at(0, 3)), sel(at(0, 5), at(0, 1))]);
    b.sub_to_every_selection_after(Idx(1), 2);
    assert_eq!(b.selections, vec![sel(at(0, 0), at(0, 1)), sel(at(0, 3), at(0, 1))]);
}

#[test]
fn yanking_takes_copies() {
    let mut b = buffer("ab\ncd", &[sel(at(0, 1), at(1, 1)), sel(at(0, 1), at(0, 0))]);
    let yanked: Vec<String> = b.yank().iter().map(|r| r.to_string()).collect();
    assert_eq!(yanked, vec!["b\nc", "a"]);
    assert_eq!(b.text.to_string(), "ab\ncd");
    assert_eq!(b.selections, vec![sel(at(0, 1), at(1, 1)), sel(at(0, 1), at(0, 0))]);
}
