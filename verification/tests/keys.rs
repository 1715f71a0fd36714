use breeze::coord::Coord;
use breeze::editor::{Action, Breeze, Event};
use breeze::mode::{Key, Mode};
use breeze::selection::SelectionUnaligned;
use breeze::state::State;
use ropey::Rope;

fn at(line: usize, column: usize) -> Coord {
    Coord { line, column }
}

fn sel(anchor: Coord, cursor: Coord) -> SelectionUnaligned {
    SelectionUnaligned { anchor, cursor }
}

fn normal(num_prefix: Option<usize>) -> Mode {
    Mode::Normal { num_prefix }
}

fn state(text: &str) -> State {
    let mut breeze = Breeze::init(80, 24);
    breeze.open(Rope::from_str(text));
    breeze.state
}

fn press(state: State, keys: &str) -> State {
    keys.chars().fold(state, |s, c| {
        let mode = s.mode;
        mode.handle(s, Key::Char(c))
    })
}

fn press_key(state: State, key: Key) -> State {
    let mode = state.mode;
    mode.handle(state, key)
}

#[test]
fn default_state_is_fresh() {
    let s = State::default();
    assert!(!s.quit);
    assert_eq!(s.mode, normal(None));
    assert_eq!(s.mode, Mode::default());
    assert_eq!(s.buffer.text.to_string(), "");
    assert!(s.yanked.is_empty());
}

#[test]
fn clone_of_a_state_holds_the_same() {
    let s = press(state("ab"), "Ly3");
    let t = s.clone();
    assert_eq!(t.mode, normal(Some(3)));
    assert_eq!(t.buffer.text.to_string(), "ab");
    assert_eq!(t.buffer.selections, s.buffer.selections);
    assert_eq!(t.yanked.len(), 1);
    assert_eq!(t.yanked[0].to_string(), "a");
    assert!(!t.quit);
}

#[test]
fn modes_have_names() {
    assert_eq!(normal(None).name(), "normal");
    assert_eq!(Mode::Insert.name(), "insert");
    assert_eq!(normal(None).num_prefix_str(), "");
    assert_eq!(normal(Some(0)).num_prefix_str(), "0");
    assert_eq!(normal(Some(907)).num_prefix_str(), "907");
    assert_eq!(normal(Some(usize::MAX)).num_prefix_str(), format!("{}", usize::MAX));
    assert_eq!(Mode::Insert.num_prefix_str(), "");
}

#[test]
fn digits_make_up_a_number() {
    let s = press(state("abcdefghijklmnop"), "12");
    assert_eq!(s.mode, normal(Some(12)));
    let s = press(s, "l");
    assert_eq!(s.mode, normal(None));
    assert_eq!(s.buffer.selections, vec![sel(at(0, 0), at(0, 12))]);
    let s = press(s, "3h");
    assert_eq!(s.buffer.selections, vec![sel(at(0, 12), at(0, 9))]);
    let s = press(s, "0l");
    assert_eq!(s.buffer.selections, vec![sel(at(0, 9), at(0, 9))]);
}

#[test]
fn number_grows_no_further_than_it_can() {
    let s = press(state(""), "9999999999999999999999999");
    assert_eq!(s.mode, normal(Some(usize::MAX)));
    let s = press_key(s, Key::Esc);
    assert_eq!(s.mode, normal(None));
}

#[test]
fn moving_keys_move() {
    let s = press(state("abc\ndef"), "l");
    assert_eq!(s.buffer.selections, vec![sel(at(0, 0), at(0, 1))]);
    let s = press(s, "j");
    assert_eq!(s.buffer.selections, vec![sel(at(0, 1), at(1, 1))]);
    let s = press(s, "h");
    assert_eq!(s.buffer.selections, vec![sel(at(1, 1), at(1, 0))]);
    let s = press(s, "k");
    assert_eq!(s.buffer.selections, vec![sel(at(1, 0), at(0, 0))]);
}

#[test]
fn shifted_keys_extend() {
    let s = press(state("abc\ndef"), "L");
    assert_eq!(s.buffer.selections, vec![sel(at(0, 0), at(0, 1))]);
    let s = press(s, "J");
    assert_eq!(s.buffer.selections, vec![sel(at(0, 0), at(1, 1))]);
    let s = press(s, "H");
    assert_eq!(s.buffer.selections, vec![sel(at(0, 0), at(1, 0))]);
    let s = press(s, "K");
    assert_eq!(s.buffer.selections, vec![sel(at(0, 0), at(0, 0))]);
}

#[test]
fn word_and_line_keys_select() {
    let s = press(state("foo bar\nx"), "w");
    assert_eq!(s.buffer.selections, vec![sel(at(0, 0), at(0, 3))]);
    let s = press(s, "'");
    assert_eq!(s.buffer.selections, vec![sel(at(0, 3), at(0, 0))]);
    let s = press(s, "wwb");
    assert_eq!(s.buffer.selections, vec![sel(at(0, 7), at(0, 4))]);
    let s = press(s, "x");
    assert_eq!(s.buffer.selections, vec![sel(at(0, 0), at(1, 0))]);
    let s = press(s, "X");
    assert_eq!(s.buffer.selections, vec![sel(at(0, 0), at(1, 1))]);
    let s = press(s, "%");
    assert_eq!(s.buffer.selections, vec![sel(at(0, 0), at(1, 1))]);
}

#[test]
fn deleted_text_is_pasted() {
    let s = press(state("foo bar"), "wd");
    assert_eq!(s.buffer.text.to_string(), " bar");
    assert_eq!(s.yanked[0].to_string(), "foo");
    let s = press(s, "p");
    assert_eq!(s.buffer.text.to_string(), "foo bar");
    assert_eq!(s.buffer.selections, vec![sel(at(0, 0), at(0, 3))]);
    let s = press(s, "P");
    assert_eq!(s.buffer.text.to_string(), "foofoo bar");
    assert_eq!(s.buffer.selections, vec![sel(at(0, 0), at(0, 6))]);
    assert_eq!(s.yanked[0].to_string(), "foo");
}

#[test]
fn yanked_text_stays() {
    let s = press(state("foo bar"), "wy");
    assert_eq!(s.buffer.text.to_string(), "foo bar");
    assert_eq!(s.yanked[0].to_string(), "foo");
}

#[test]
fn typing_in_the_insert_mode() {
    let s = press(state("b"), "i");
    assert_eq!(s.mode, Mode::Insert);
    let s = press(s, "aq3");
    assert_eq!(s.buffer.text.to_string(), "aq3b");
    assert!(!s.quit);
    let s = press_key(s, Key::Backspace);
    assert_eq!(s.buffer.text.to_string(), "aqb");
    let s = press_key(s, Key::Other);
    assert_eq!(s.mode, Mode::Insert);
    let s = press_key(s, Key::Esc);
    assert_eq!(s.mode, normal(None));
    assert_eq!(s.buffer.selections, vec![sel(at(0, 2), at(0, 2))]);
}

#[test]
fn backspace_at_the_start_does_nothing() {
    let s = press_key(press(state("ab"), "i"), Key::Backspace);
    assert_eq!(s.buffer.text.to_string(), "ab");
    assert_eq!(s.buffer.selections, vec![sel(at(0, 0), at(0, 0))]);
}

#[test]
fn other_keys_do_nothing() {
    let s = press(state("ab"), "7z");
    assert_eq!(s.mode, normal(None));
    let s = press_key(press_key(s, Key::Backspace), Key::Other);
    assert_eq!(s.buffer.text.to_string(), "ab");
    assert_eq!(s.mode, normal(None));
    assert!(!s.quit);
}

#[test]
fn quitting_stops_the_editor() {
    let mut breeze = Breeze::init(80, 24);
    assert_eq!(breeze.handle_event(Event::Key(Key::Char('l'))), Action::Draw);
    assert_eq!(breeze.handle_event(Event::Key(Key::Char('q'))), Action::Quit);
    assert!(breeze.state.quit);
    assert_eq!(breeze.handle_event(Event::Mouse), Action::Quit);
}

#[test]
fn events_change_what_they_should() {
    let mut breeze = Breeze::init(80, 24);
    breeze.open(Rope::from_str("ab"));
    breeze.prev_start_line = 3;
    assert_eq!(breeze.handle_event(Event::Unsupported { cols: 40, rows: 10 }), Action::Draw);
    assert_eq!((breeze.display_cols, breeze.display_rows, breeze.window_margin), (40, 10, 2));
    assert_eq!(breeze.handle_event(Event::Mouse), Action::Draw);
    assert_eq!((breeze.display_cols, breeze.display_rows, breeze.window_margin), (40, 10, 2));
    assert_eq!(breeze.handle_event(Event::Key(Key::Char('L'))), Action::Draw);
    assert_eq!(breeze.handle_event(Event::Key(Key::Char('d'))), Action::Draw);
    assert_eq!(breeze.state.buffer.text.to_string(), "b");
    assert_eq!(breeze.state.yanked[0].to_string(), "a");
    assert_eq!(breeze.handle_event(Event::Key(Key::Char('p'))), Action::Draw);
    assert_eq!(breeze.state.buffer.text.to_string(), "ab");
    assert_eq!(breeze.prev_start_line, 3);
}

#[test]
fn opening_replaces_the_text_alone() {
    let mut breeze = Breeze::init(80, 24);
    breeze.handle_event(Event::Key(Key::Char('i')));
    breeze.handle_event(Event::Key(Key::Char('a')));
    breeze.open(Rope::from_str("new"));
    assert_eq!(breeze.state.buffer.text.to_string(), "new");
    assert_eq!(breeze.state.buffer.selections, vec![sel(at(0, 0), at(0, 0))]);
    assert_eq!(breeze.state.mode, Mode::Insert);
}
