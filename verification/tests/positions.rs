use breeze::coord::Coord;
use breeze::idx::Idx;
use breeze::order::back_to_front;
use breeze::selection::{Selection, SelectionUnaligned};
use ropey::Rope;

fn at(line: usize, column: usize) -> Coord {
    Coord { line, column }
}

#[test]
fn index_to_coord_and_back() {
    let text = Rope::from_str("ab\ncd\r\nef");
    let expected = [
        at(0, 0),
        at(0, 1),
        at(0, 2),
        at(1, 0),
        at(1, 1),
        at(1, 2),
        at(1, 3),
        at(2, 0),
        at(2, 1),
        at(2, 2),
    ];
    for (i, coord) in expected.iter().enumerate() {
        assert_eq!(Idx(i).to_coord(&text), *coord);
        assert_eq!(coord.to_idx(&text), Idx(i));
    }
}

#[test]
fn index_past_the_end_is_the_end() {
    let text = Rope::from_str("ab\nc");
    assert_eq!(Idx(100).to_coord(&text), at(1, 1));
    assert_eq!(at(7, 3).to_idx(&text), Idx(4));
    assert_eq!(at(7, 3).trim_column_to_buf(&text), at(1, 1));
}

#[test]
fn column_past_the_line_is_trimmed() {
    let text = Rope::from_str("ab\ncd\r\nef");
    assert_eq!(at(0, 9).trim_column_to_buf(&text), at(0, 2));
    assert_eq!(at(1, 9).trim_column_to_buf(&text), at(1, 3));
    assert_eq!(at(2, 9).trim_column_to_buf(&text), at(2, 2));
    assert_eq!(at(0, 1).trim_column_to_buf(&text), at(0, 1));
    assert_eq!(at(1, 9).to_idx(&text), Idx(6));
}

#[test]
fn every_kind_of_line_break_counts() {
    let text = Rope::from_str("a\u{2028}b\u{2029}c\u{85}d\u{b}e\u{c}f\rg\nh\r\ni");
    assert_eq!(Idx(text.len_chars()).to_coord(&text), at(8, 1));
}

#[test]
fn empty_text_has_one_place() {
    let text = Rope::from_str("");
    assert_eq!(Idx(0).to_coord(&text), at(0, 0));
    assert_eq!(at(0, 5).to_idx(&text), Idx(0));
    assert_eq!(at(0, 0).forward(1, &text), at(0, 0));
    assert_eq!(at(0, 0).backward(1, &text), at(0, 0));
}

#[test]
fn forward_and_backward_cross_lines() {
    let text = Rope::from_str("ab\ncd");
    assert_eq!(at(0, 1).forward(3, &text), at(1, 1));
    assert_eq!(at(1, 1).backward(3, &text), at(0, 1));
    assert_eq!(at(0, 1).forward(100, &text), at(1, 2));
    assert_eq!(at(0, 1).forward(usize::MAX, &text), at(1, 2));
    assert_eq!(at(1, 1).backward(100, &text), at(0, 0));
}

#[test]
fn down_and_up_keep_the_column() {
    let text = Rope::from_str("long line\nx\nlong line");
    let down = at(0, 6).down_unaligned(1, &text);
    assert_eq!(down, at(1, 6));
    assert_eq!(down.down_unaligned(1, &text), at(2, 6));
    assert_eq!(at(0, 6).down_unaligned(2, &text).up_unaligned(2, &text), at(0, 6));
    assert_eq!(at(0, 6).down_unaligned(9, &text), at(2, 6));
    assert_eq!(at(1, 6).up_unaligned(9, &text), at(0, 6));
}

#[test]
fn line_ends_and_starts() {
    let text = Rope::from_str("ab\ncd");
    assert_eq!(at(0, 1).forward_past_line_end(&text), at(1, 0));
    assert_eq!(at(1, 1).forward_past_line_end(&text), at(1, 2));
    assert_eq!(at(4, 1).forward_past_line_end(&text), at(1, 2));
    assert_eq!(at(1, 1).backward_to_line_start(&text), at(1, 0));
}

#[test]
fn words_forward_and_backward() {
    let text = Rope::from_str("foo  bar\n\tbaz");
    assert_eq!(at(0, 0).forward_word(&text), (at(0, 0), at(0, 3)));
    assert_eq!(at(0, 3).forward_word(&text), (at(0, 5), at(0, 8)));
    assert_eq!(at(0, 8).forward_word(&text), (at(1, 1), at(1, 4)));
    assert_eq!(at(1, 4).forward_word(&text), (at(1, 4), at(1, 4)));
    assert_eq!(at(1, 4).backward_word(&text), (at(1, 4), at(1, 1)));
    assert_eq!(at(1, 1).backward_word(&text), (at(0, 8), at(0, 5)));
    assert_eq!(at(0, 2).backward_word(&text), (at(0, 2), at(0, 0)));
    assert_eq!(at(0, 0).backward_word(&text), (at(0, 0), at(0, 0)));
}

#[test]
fn selection_directions() {
    let forward = Selection { anchor: Idx(1), cursor: Idx(4) };
    let backward = Selection { anchor: Idx(4), cursor: Idx(1) };
    let nothing = Selection { anchor: Idx(4), cursor: Idx(4) };
    assert_eq!(forward.is_forward(), Some(true));
    assert_eq!(backward.is_forward(), Some(false));
    assert_eq!(nothing.is_forward(), None);
    assert_eq!(forward.sorted_range_usize(), 1..4);
    assert_eq!(backward.sorted_range_usize(), 1..4);
    assert_eq!(nothing.sorted_range_usize(), 4..4);
}

#[test]
fn selection_covers_its_range() {
    for sel in [
        Selection { anchor: Idx(1), cursor: Idx(3) },
        Selection { anchor: Idx(3), cursor: Idx(1) },
    ] {
        assert!(!sel.is_idx_inside(Idx(0)));
        assert!(sel.is_idx_inside(Idx(1)));
        assert!(sel.is_idx_inside(Idx(2)));
        assert!(!sel.is_idx_inside(Idx(3)));
    }
}

#[test]
fn reversing_twice_changes_nothing() {
    let sel = SelectionUnaligned { anchor: at(0, 1), cursor: at(2, 3) };
    assert_eq!(sel.reversed(), SelectionUnaligned { anchor: at(2, 3), cursor: at(0, 1) });
    assert_eq!(sel.reversed().reversed(), sel);
    assert_eq!(sel.collapsed(), SelectionUnaligned { anchor: at(2, 3), cursor: at(2, 3) });
}

#[test]
fn selections_are_aligned_to_the_text() {
    let text = Rope::from_str("ab\ncd");
    let sel = SelectionUnaligned { anchor: at(0, 9), cursor: at(1, 1) };
    assert_eq!(sel.align(&text), Selection { anchor: Idx(2), cursor: Idx(4) });
    assert_eq!(
        SelectionUnaligned::from_selection(sel.align(&text), &text),
        SelectionUnaligned { anchor: at(0, 2), cursor: at(1, 1) }
    );
    assert_eq!(
        SelectionUnaligned::default(),
        SelectionUnaligned { anchor: at(0, 0), cursor: at(0, 0) }
    );
}

#[test]
fn order_goes_from_the_back() {
    assert_eq!(back_to_front(&vec![3, 1, 3, 2]), vec![2, 0, 3, 1]);
    assert_eq!(back_to_front(&vec![]), Vec::<usize>::new());
    assert_eq!(back_to_front(&vec![5, 5, 5]), vec![2, 1, 0]);
}
