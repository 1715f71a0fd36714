use breeze::coord::Coord;
use breeze::editor::Breeze;
use breeze::mode::Mode;
use breeze::selection::SelectionUnaligned;
use breeze::writer::CachingAnsciWriter;
use ropey::Rope;

fn at(line: usize, column: usize) -> Coord {
    Coord { line, column }
}

fn editor(cols: u16, rows: u16, text: &str) -> Breeze {
    let mut breeze = Breeze::init(cols, rows);
    breeze.open(Rope::from_str(text));
    breeze
}

fn draw(breeze: &mut Breeze) -> String {
    String::from_utf8(breeze.draw_to_buf()).unwrap()
}

fn lines(n: usize) -> String {
    (0..n).map(|i| format!("{}\n", i)).collect()
}

fn put_cursor(breeze: &mut Breeze, line: usize, column: usize) {
    let place = at(line, column);
    breeze.state.buffer.selections = vec![SelectionUnaligned { anchor: place, cursor: place }];
}

#[test]
fn new_writer_holds_nothing() {
    let w = CachingAnsciWriter::default();
    assert_eq!((w.cur_fg, w.cur_bg), (None, None));
    assert_eq!(w.into_vec(), Vec::<u8>::new());
}

#[test]
fn colors_are_written_once() {
    let mut w = CachingAnsciWriter::default();
    w.change_color(16, 4);
    w.write_str("a");
    w.change_color(16, 4);
    w.write_str("b");
    w.change_color(16, 255);
    w.change_color(7, 255);
    assert_eq!((w.cur_fg, w.cur_bg), (Some(7), Some(255)));
    assert_eq!(
        String::from_utf8(w.into_vec()).unwrap(),
        "\x1b[38;5;16m\x1b[48;5;4mab\x1b[48;5;255m\x1b[38;5;7m"
    );
}

#[test]
fn colors_are_taken_back_once() {
    let mut w = CachingAnsciWriter::default();
    w.reset_color();
    w.change_color(1, 2);
    w.reset_color();
    w.write_str("a");
    w.reset_color();
    w.flush();
    assert_eq!((w.cur_fg, w.cur_bg), (None, None));
    assert_eq!(
        String::from_utf8(w.into_vec()).unwrap(),
        "\x1b[38;5;1m\x1b[48;5;2m\x1b[39m\x1b[49ma"
    );
}

#[test]
fn color_of_one_side_is_taken_back() {
    let mut w = CachingAnsciWriter { buf: Vec::new(), cur_fg: None, cur_bg: Some(3) };
    w.reset_color();
    assert_eq!(w.buf, b"\x1b[49m".to_vec());
    let mut w = CachingAnsciWriter { buf: Vec::new(), cur_fg: Some(3), cur_bg: None };
    w.reset_color();
    assert_eq!(w.buf, b"\x1b[39m".to_vec());
}

#[test]
fn bytes_are_written_as_they_are() {
    let mut w = CachingAnsciWriter::default();
    assert_eq!(w.write(&[0xff, 0, 7]), 3);
    assert_eq!(w.write(&[]), 0);
    assert_eq!(w.into_vec(), vec![0xff, 0, 7]);
}

#[test]
fn codes_are_those_of_the_terminal_crate() {
    let mut breeze = editor(80, 24, "a");
    let expected = format!(
        "{}{}a{}normal \x1b[6 q{}{}",
        termion::clear::All,
        termion::cursor::Goto(1, 1),
        termion::cursor::Goto(1, 24),
        termion::cursor::Goto(1, 1),
        termion::cursor::Show,
    );
    assert_eq!(draw(&mut breeze), expected);
}

#[test]
fn new_editor_draws_an_empty_text() {
    let mut breeze = Breeze::init(80, 24);
    assert_eq!((breeze.display_cols, breeze.display_rows), (80, 24));
    assert_eq!((breeze.prev_start_line, breeze.window_margin), (0, 4));
    assert_eq!(
        draw(&mut breeze),
        "\x1b[2J\x1b[1;1H\x1b[24;1Hnormal \x1b[6 q\x1b[1;1H\x1b[?25h"
    );
}

#[test]
fn lines_are_drawn_one_to_a_row() {
    let mut breeze = editor(10, 4, "hi\nyo");
    put_cursor(&mut breeze, 1, 1);
    assert_eq!(
        draw(&mut breeze),
        "\x1b[2J\x1b[1;1Hhi\x1b[2;1Hyo\x1b[4;1Hnormal \x1b[6 q\x1b[2;2H\x1b[?25h"
    );
}

#[test]
fn selection_is_drawn_in_colors() {
    let mut breeze = editor(10, 4, "hi\nyo");
    breeze.state.buffer.select_all();
    assert_eq!(
        draw(&mut breeze),
        "\x1b[2J\x1b[1;1H\x1b[38;5;16m\x1b[48;5;4mhi\u{b7}\x1b[2;1Hyo\x1b[39m\x1b[49m\
         \x1b[4;1Hnormal \x1b[6 q\x1b[2;3H\x1b[?25h"
    );
}

#[test]
fn selection_ends_within_a_line() {
    let mut breeze = editor(10, 4, "abc");
    breeze.state.buffer.selections =
        vec![SelectionUnaligned { anchor: at(0, 1), cursor: at(0, 2) }];
    assert_eq!(
        draw(&mut breeze),
        "\x1b[2J\x1b[1;1Ha\x1b[38;5;16m\x1b[48;5;4mb\x1b[39m\x1b[49mc\
         \x1b[4;1Hnormal \x1b[6 q\x1b[1;3H\x1b[?25h"
    );
}

#[test]
fn long_lines_are_cut_off() {
    let mut breeze = editor(2, 4, "hello\nyou");
    assert_eq!(
        draw(&mut breeze),
        "\x1b[2J\x1b[1;1Hhe\x1b[2;1Hyo\x1b[4;1Hnormal \x1b[6 q\x1b[1;1H\x1b[?25h"
    );
}

#[test]
fn only_line_feeds_are_left_out() {
    let mut breeze = editor(10, 4, "\u{e4}\r\n\u{4e2d}");
    assert_eq!(
        draw(&mut breeze),
        "\x1b[2J\x1b[1;1H\u{e4}\r\x1b[2;1H\u{4e2d}\x1b[4;1Hnormal \x1b[6 q\x1b[1;1H\x1b[?25h"
    );
}

#[test]
fn one_row_holds_the_status_alone() {
    let mut breeze = editor(10, 1, "a\nb");
    put_cursor(&mut breeze, 1, 0);
    assert_eq!(draw(&mut breeze), "\x1b[2J\x1b[1;1Hnormal \x1b[6 q\x1b[1;1H\x1b[?25h");
    assert_eq!(breeze.prev_start_line, 1);
}

#[test]
fn mode_and_number_are_in_the_status() {
    let mut breeze = editor(10, 3, "");
    breeze.state.mode = Mode::Normal { num_prefix: Some(120) };
    assert!(draw(&mut breeze).contains("\x1b[3;1Hnormal 120\x1b[6 q"));
    breeze.state.mode = Mode::Insert;
    assert!(draw(&mut breeze).contains("\x1b[3;1Hinsert \x1b[6 q"));
}

#[test]
fn window_follows_the_cursor() {
    let mut breeze = editor(10, 11, &lines(100));
    put_cursor(&mut breeze, 50, 0);
    let frame = draw(&mut breeze);
    assert_eq!(breeze.prev_start_line, 42);
    assert!(frame.starts_with("\x1b[2J\x1b[1;1H42\x1b[2;1H43\x1b[3;1H44"));
    assert!(frame.contains("\x1b[10;1H51\x1b[11;1Hnormal "));
    assert!(frame.ends_with("\x1b[9;1H\x1b[?25h"));
    put_cursor(&mut breeze, 45, 0);
    draw(&mut breeze);
    assert_eq!(breeze.prev_start_line, 42);
    put_cursor(&mut breeze, 43, 0);
    draw(&mut breeze);
    assert_eq!(breeze.prev_start_line, 41);
    put_cursor(&mut breeze, 1, 0);
    draw(&mut breeze);
    assert_eq!(breeze.prev_start_line, 0);
}

#[test]
fn window_ends_with_the_text() {
    let mut breeze = editor(10, 11, &lines(100));
    put_cursor(&mut breeze, 100, 0);
    let frame = draw(&mut breeze);
    assert_eq!(breeze.prev_start_line, 92);
    assert!(frame.starts_with("\x1b[2J\x1b[1;1H91\x1b[2;1H92"));
    assert!(frame.ends_with("\x1b[10;1H\x1b[?25h"));
}

#[test]
fn drawing_again_draws_the_same() {
    let mut breeze = editor(10, 11, &lines(100));
    put_cursor(&mut breeze, 57, 1);
    let first = draw(&mut breeze);
    let second = draw(&mut breeze);
    assert_eq!(first, second);
    assert!(first.starts_with("\x1b[2J"));
    assert!(first.contains("\x1b[6 q"));
}

#[test]
fn column_wraps_where_the_terminal_cannot_count_on() {
    let mut breeze = editor(10, 4, &"x".repeat(70_000));
    put_cursor(&mut breeze, 0, 65_534);
    assert!(draw(&mut breeze).ends_with("\x1b[1;65535H\x1b[?25h"));
    put_cursor(&mut breeze, 0, 65_535);
    assert!(draw(&mut breeze).ends_with("\x1b[1;0H\x1b[?25h"));
    put_cursor(&mut breeze, 0, 65_536);
    assert!(draw(&mut breeze).ends_with("\x1b[1;1H\x1b[?25h"));
}

#[test]
fn size_is_taken_over() {
    let mut breeze = Breeze::init(80, 24);
    breeze.fix_size(100, 50);
    assert_eq!((breeze.display_cols, breeze.display_rows), (100, 50));
    assert_eq!(breeze.window_margin, 10);
}
