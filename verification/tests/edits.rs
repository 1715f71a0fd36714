use breeze::buffer::Buffer;
use breeze::coord::Coord;
use breeze::idx::Idx;
use breeze::selection::SelectionUnaligned;
use ropey::Rope;

fn at(line: usize, column: usize) -> Coord {
    Coord { line, column }
}

fn sel(anchor: Coord, cursor: Coord) -> SelectionUnaligned {
    SelectionUnaligned { anchor, cursor }
}

fn cursor(line: usize, column: usize) -> SelectionUnaligned {
    sel(at(line, column), at(line, column))
}

fn buffer(text: &str, selections: &[SelectionUnaligned]) -> Buffer {
    Buffer { text: Rope::from_str(text), selections: selections.to_vec(), primary_sel_i: 0 }
}

#[test]
fn typing_goes_before_the_cursor() {
    let mut b = buffer("ab", &[sel(at(0, 0), at(0, 1))]);
    b.insert('x');
    assert_eq!(b.text.to_string(), "axb");
    assert_eq!(b.selections, vec![cursor(0, 2)]);
}

#[test]
fn typing_a_line_break_goes_to_the_next_line() {
    let mut b = buffer("ab", &[cursor(0, 1)]);
    b.insert('\n');
    assert_eq!(b.text.to_string(), "a\nb");
    assert_eq!(b.selections, vec![cursor(1, 0)]);
}

#[test]
fn typing_with_cursors_on_one_line() {
    let mut b = buffer("abcd", &[cursor(0, 1), cursor(0, 3), cursor(0, 3)]);
    b.insert('x');
    assert_eq!(b.text.to_string(), "axbcxxd");
    assert_eq!(b.selections, vec![cursor(0, 2), cursor(0, 5), cursor(0, 6)]);
}

#[test]
fn typing_with_cursors_on_two_lines_overshoots() {
    let mut b = buffer("ab\ncd", &[cursor(0, 1), cursor(1, 1)]);
    b.insert('x');
    assert_eq!(b.text.to_string(), "axb\ncxd");
    assert_eq!(b.selections, vec![cursor(0, 2), cursor(1, 3)]);
}

#[test]
fn typing_past_the_end_of_a_line() {
    let mut b = buffer("ab\ncd", &[cursor(0, 9)]);
    b.insert('x');
    assert_eq!(b.text.to_string(), "abx\ncd");
}

#[test]
fn backspace_undoes_typing() {
    let mut b = buffer("ab\ncd", &[cursor(1, 1)]);
    b.insert('x');
    assert_eq!(b.text.to_string(), "ab\ncxd");
    b.backspace();
    assert_eq!(b.text.to_string(), "ab\ncd");
    assert_eq!(b.selections, vec![cursor(1, 1)]);
}

#[test]
fn backspace_undoes_typing_at_several_cursors() {
    let places = [cursor(0, 3), cursor(0, 0), cursor(0, 3), cursor(0, 5)];
    let mut b = buffer("abcde", &places);
    b.insert('x');
    assert_eq!(b.text.to_string(), "xabcxxdex");
    b.backspace();
    assert_eq!(b.text.to_string(), "abcde");
    assert_eq!(b.selections, places.to_vec());
}

#[test]
fn backspace_undoes_typing_on_a_later_line() {
    let places = [cursor(1, 2), cursor(1, 0)];
    let mut b = buffer("ab\ncd\nef", &places);
    b.insert('x');
    assert_eq!(b.text.to_string(), "ab\nxcdx\nef");
    b.backspace();
    assert_eq!(b.text.to_string(), "ab\ncd\nef");
    assert_eq!(b.selections, places.to_vec());
}

#[test]
fn backspace_joins_lines() {
    let mut b = buffer("ab\ncd", &[cursor(1, 0)]);
    b.backspace();
    assert_eq!(b.text.to_string(), "abcd");
    assert_eq!(b.selections, vec![cursor(0, 2)]);
}

#[test]
fn backspace_with_cursors_on_one_line() {
    let mut b = buffer("abc", &[cursor(0, 1), cursor(0, 3)]);
    b.backspace();
    assert_eq!(b.text.to_string(), "b");
    assert_eq!(b.selections, vec![cursor(0, 0), cursor(0, 1)]);
}

#[test]
fn deleting_removes_what_is_selected() {
    let mut b = buffer("hello world", &[sel(at(0, 0), at(0, 5)), sel(at(0, 6), at(0, 11))]);
    let selected: Vec<usize> = (0..11).filter(|i| b.is_idx_selected(Idx(*i))).collect();
    assert_eq!(selected, vec![0, 1, 2, 3, 4, 6, 7, 8, 9, 10]);
    let yanked: Vec<String> = b.delete().iter().map(|r| r.to_string()).collect();
    assert_eq!(yanked, vec!["hello", "world"]);
    assert_eq!(b.text.to_string(), " ");
    assert_eq!(b.selections, vec![cursor(0, 0), cursor(0, 1)]);
}

#[test]
fn deleting_backwards_keeps_the_cursor() {
    let mut b = buffer("hello", &[sel(at(0, 4), at(0, 1))]);
    let yanked = b.delete();
    assert_eq!(yanked[0].to_string(), "ell");
    assert_eq!(b.text.to_string(), "ho");
    assert_eq!(b.selections, vec![cursor(0, 1)]);
}

#[test]
fn deleting_nothing_changes_no_text() {
    let mut b = buffer("hello", &[cursor(0, 2)]);
    let yanked = b.delete();
    assert_eq!(yanked.len(), 1);
    assert_eq!(yanked[0].to_string(), "");
    assert_eq!(b.text.to_string(), "hello");
    assert_eq!(b.selections, vec![cursor(0, 2)]);
}

#[test]
fn deleting_across_lines() {
    let mut b = buffer("ab\ncd\nef", &[sel(at(0, 1), at(2, 1))]);
    b.delete();
    assert_eq!(b.text.to_string(), "af");
    assert_eq!(b.selections, vec![cursor(0, 1)]);
}

#[test]
fn pasting_brings_back_what_was_deleted() {
    let mut b = buffer("ab\ncd\nef", &[sel(at(0, 1), at(2, 1))]);
    let yanked = b.delete();
    b.paste(&yanked);
    assert_eq!(b.text.to_string(), "ab\ncd\nef");
    assert_eq!(b.selections, vec![sel(at(0, 1), at(2, 1))]);
}

#[test]
fn ranges_are_removed_from_the_back() {
    let mut b = buffer("abcdef", &[cursor(0, 6)]);
    b.remove_ranges(vec![(0, 0..1), (0, 3..5)]);
    assert_eq!(b.text.to_string(), "bcf");
    assert_eq!(b.selections, vec![cursor(0, 3)]);
}

#[test]
fn pasting_selects_what_was_pasted() {
    let mut b = buffer("ab", &[cursor(0, 1)]);
    b.paste(&[Rope::from_str("XY")]);
    assert_eq!(b.text.to_string(), "aXYb");
    assert_eq!(b.selections, vec![sel(at(0, 1), at(0, 3))]);
}

#[test]
fn pasting_keeps_the_direction() {
    let mut b = buffer("ab", &[sel(at(0, 2), at(0, 1))]);
    b.paste(&[Rope::from_str("XY")]);
    assert_eq!(b.text.to_string(), "aXYb");
    assert_eq!(b.selections, vec![sel(at(0, 3), at(0, 1))]);
}

#[test]
fn pasting_extends_the_selection() {
    let mut b = buffer("ab", &[sel(at(0, 0), at(0, 1))]);
    b.paste_extend(&[Rope::from_str("XY")]);
    assert_eq!(b.text.to_string(), "aXYb");
    assert_eq!(b.selections, vec![sel(at(0, 0), at(0, 3))]);
    let mut b = buffer("ab", &[sel(at(0, 2), at(0, 1))]);
    b.paste_extend(&[Rope::from_str("XY")]);
    assert_eq!(b.selections, vec![sel(at(0, 4), at(0, 1))]);
}

#[test]
fn first_piece_goes_to_the_last_cursor() {
    let mut b = buffer("ab", &[cursor(0, 0), cursor(0, 2)]);
    b.paste(&[Rope::from_str("1"), Rope::from_str("2")]);
    assert_eq!(b.text.to_string(), "2ab1");
    assert_eq!(b.selections, vec![sel(at(0, 0), at(0, 1)), sel(at(0, 3), at(0, 4))]);
}

#[test]
fn pasting_at_several_cursors_keeps_each_direction() {
    let mut b = buffer(
        "abcdef",
        &[sel(at(0, 0), at(0, 1)), sel(at(0, 4), at(0, 2)), cursor(0, 5), cursor(0, 3)],
    );
    let pieces = ["12", "", "345", "6"].map(Rope::from_str);
    b.paste(&pieces);
    assert_eq!(b.text.to_string(), "a6b345cde12f");
    assert_eq!(
        b.selections,
        vec![
            sel(at(0, 1), at(0, 2)),
            sel(at(0, 6), at(0, 3)),
            sel(at(0, 9), at(0, 11)),
            sel(at(0, 7), at(0, 7)),
        ]
    );
    let yanked: Vec<String> = b.yank().iter().map(|r| r.to_string()).collect();
    assert_eq!(yanked, vec!["6", "345", "12", ""]);
}

#[test]
fn pasting_into_several_selections() {
    let mut b = buffer("abcdef", &[sel(at(0, 0), at(0, 1)), sel(at(0, 5), at(0, 3))]);
    b.paste_extend(&[Rope::from_str("12"), Rope::from_str("3")]);
    assert_eq!(b.text.to_string(), "a3bc12def");
    assert_eq!(b.selections, vec![sel(at(0, 0), at(0, 2)), sel(at(0, 8), at(0, 4))]);
    let yanked: Vec<String> = b.yank().iter().map(|r| r.to_string()).collect();
    assert_eq!(yanked, vec!["a3", "12de"]);
}

#[test]
fn cursors_without_a_piece_get_nothing() {
    let mut b = buffer("ab", &[cursor(0, 0), cursor(0, 2)]);
    b.paste(&[Rope::from_str("1")]);
    assert_eq!(b.text.to_string(), "ab1");
    assert_eq!(b.selections, vec![cursor(0, 0), sel(at(0, 2), at(0, 3))]);
    b.paste(&[]);
    assert_eq!(b.text.to_string(), "ab1");
}

#[test]
fn stored_pieces_go_in_one_before_the_other() {
    let words: String = (0..2000).map(|i| format!("{} ", i)).collect();
    let rope = Rope::from_str(&words);
    let chunks: Vec<&str> = rope.chunks().collect();
    assert!(chunks.len() > 1);
    let backwards: String = chunks.iter().rev().copied().collect();
    let mut b = buffer("ab", &[cursor(0, 1)]);
    b.paste(&[rope.clone()]);
    assert_eq!(b.text.to_string(), format!("a{}b", backwards));
    assert_eq!(b.selections, vec![sel(at(0, 1), at(0, 1 + rope.len_chars()))]);
}

#[test]
fn edits_keep_the_number_of_selections() {
    let mut b = buffer("abcdef", &[cursor(0, 1), cursor(0, 3), cursor(0, 5)]);
    b.primary_sel_i = 2;
    b.insert('x');
    b.paste(&[Rope::from_str("yy")]);
    b.paste_extend(&[Rope::from_str("zz")]);
    assert_eq!(b.selections.len(), 3);
    assert_eq!(b.primary_sel_i, 2);
}
