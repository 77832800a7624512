use modal_edit::action::{ActionKind, EditKind, MovementKind, SelectionKind};
use modal_edit::buffer::Buffer;
use modal_edit::cmdline::{parse_command, Command};
use modal_edit::editor::{Cursor, Key, Mode, Signal, State, Yanked};
use modal_edit::grammar::parse;

fn chars(s: &str) -> Vec<char> {
    s.chars().collect()
}

fn session(lines: &[&str]) -> State {
    let buffer = Buffer::from_lines(lines.iter().map(|l| chars(l)).collect());
    State::new(buffer, 10)
}

fn type_keys(s: &mut State, input: &str) {
    for c in input.chars() {
        s.handle_key(Key::Char(c));
    }
}

fn lines_of(s: &State) -> Vec<String> {
    s.buffer.lines().iter().map(|l| l.iter().collect()).collect()
}

fn yank_text(s: &State) -> String {
    s.yanked.text().iter().collect()
}

fn pending(s: &State) -> Option<String> {
    match &s.mode {
        Mode::Normal(p) => Some(p.iter().collect()),
        _ => None,
    }
}

fn assert_cursor_in_text(s: &State) {
    let lines = s.buffer.lines();
    assert!(s.cursor.row < lines.len());
    assert!(s.cursor.col <= lines[s.cursor.row].len());
}

#[test]
fn dd_removes_line_into_register() {
    let mut s = session(&["abc", "def"]);
    type_keys(&mut s, "dd");
    assert_eq!(lines_of(&s), vec!["def"]);
    assert_eq!(yank_text(&s), "abc\n");
    assert_eq!(s.cursor, Cursor { row: 0, col: 0 });
    assert_eq!(pending(&s), Some(String::new()));
}

#[test]
fn dw_removes_word_and_blank() {
    let mut s = session(&["hello world"]);
    type_keys(&mut s, "dw");
    assert_eq!(lines_of(&s), vec!["world"]);
    assert_eq!(yank_text(&s), "hello ");
}

#[test]
fn line_register_pastes_below() {
    let mut s = session(&["x"]);
    s.yanked = Yanked::Lines(vec![chars("abc")]);
    assert_eq!(yank_text(&s), "abc\n");
    type_keys(&mut s, "p");
    assert_eq!(lines_of(&s), vec!["x", "abc"]);
    assert_eq!(s.cursor, Cursor { row: 1, col: 0 });
}

#[test]
fn counted_remove_char() {
    let mut s = session(&["abcdef"]);
    type_keys(&mut s, "5x");
    assert_eq!(lines_of(&s), vec!["f"]);
    assert_eq!(yank_text(&s), "abcde");
}

#[test]
fn remove_char_count_past_row_end() {
    let mut s = session(&["abc"]);
    type_keys(&mut s, "l9x");
    assert_eq!(lines_of(&s), vec!["a"]);
    assert_eq!(yank_text(&s), "bc");
    assert_eq!(s.cursor, Cursor { row: 0, col: 1 });
}

#[test]
fn parsed_count_is_leading_number() {
    let (n, a) = parse(&chars("12j")).unwrap();
    assert_eq!(n, 3);
    assert_eq!(a.count, 12);
    assert_eq!(a.kind, ActionKind::Movement(MovementKind::CursorDown));
    let (n, a) = parse(&chars("x")).unwrap();
    assert_eq!(n, 1);
    assert_eq!(a.count, 1);
    let (n, a) = parse(&chars("0x")).unwrap();
    assert_eq!((n, a.count), (2, 1));
    let (_, a) = parse(&chars("007x")).unwrap();
    assert_eq!(a.count, 7);
    let (_, a) = parse(&chars("99999999999999999999999x")).unwrap();
    assert_eq!(a.count, 1);
}

#[test]
fn counted_movement_moves_that_far() {
    let mut s = session(&["a", "b", "c", "d", "e"]);
    type_keys(&mut s, "3j");
    assert_eq!(s.cursor, Cursor { row: 3, col: 0 });
    type_keys(&mut s, "2k");
    assert_eq!(s.cursor, Cursor { row: 1, col: 0 });
    type_keys(&mut s, "9j");
    assert_eq!(s.cursor, Cursor { row: 4, col: 0 });
    let mut t = session(&["abcdef"]);
    type_keys(&mut t, "4l");
    assert_eq!(t.cursor.col, 4);
    type_keys(&mut t, "3h");
    assert_eq!(t.cursor.col, 1);
    type_keys(&mut t, "9h");
    assert_eq!(t.cursor.col, 0);
}

#[test]
fn counted_paste_repeats() {
    let mut s = session(&["ab"]);
    s.yanked = Yanked::Chars(chars("xy"));
    type_keys(&mut s, "3p");
    assert_eq!(lines_of(&s), vec!["axyxyxyb"]);
    let mut t = session(&["top"]);
    t.yanked = Yanked::Lines(vec![chars("l")]);
    type_keys(&mut t, "2P");
    assert_eq!(lines_of(&t), vec!["l", "l", "top"]);
    assert_eq!(t.cursor, Cursor { row: 0, col: 0 });
}

#[test]
fn dd_matches_line_selection_token() {
    let start = ["one", "two", "three"];
    let mut a = session(&start);
    let mut b = session(&start);
    type_keys(&mut a, "j2dd");
    type_keys(&mut b, "j2d_");
    assert_eq!(lines_of(&a), vec!["one"]);
    assert_eq!(lines_of(&a), lines_of(&b));
    assert_eq!(a.cursor, b.cursor);
    assert_eq!(yank_text(&a), yank_text(&b));
    assert_eq!(yank_text(&a), "two\nthree\n");
}

#[test]
fn removing_every_line_leaves_one_empty_line() {
    let mut s = session(&["a", "b"]);
    type_keys(&mut s, "5dd");
    assert_eq!(lines_of(&s), vec![""]);
    assert_eq!(yank_text(&s), "a\nb\n");
}

#[test]
fn yank_then_paste_round_trip() {
    let mut s = session(&["one two"]);
    type_keys(&mut s, "yw");
    assert_eq!(yank_text(&s), "one ");
    assert_eq!(lines_of(&s), vec!["one two"]);
    type_keys(&mut s, "P");
    assert_eq!(lines_of(&s), vec!["one one two"]);
    let mut t = session(&["a", "b"]);
    type_keys(&mut t, "yyp");
    assert_eq!(lines_of(&t), vec!["a", "a", "b"]);
}

#[test]
fn remove_then_paste_restores_row() {
    let mut s = session(&["hello brave world"]);
    type_keys(&mut s, "wdw");
    assert_eq!(lines_of(&s), vec!["hello world"]);
    type_keys(&mut s, "P");
    assert_eq!(lines_of(&s), vec!["hello brave world"]);
    let mut t = session(&["abc"]);
    type_keys(&mut t, "lxP");
    assert_eq!(lines_of(&t), vec!["abc"]);
}

#[test]
fn cancel_returns_to_empty_normal() {
    let mut s = session(&["abc"]);
    type_keys(&mut s, "2d");
    assert_eq!(pending(&s), Some("2d".to_string()));
    s.handle_key(Key::Esc);
    assert_eq!(pending(&s), Some(String::new()));
    assert_eq!(lines_of(&s), vec!["abc"]);
    type_keys(&mut s, "3y");
    s.handle_key(Key::Ctrl('c'));
    assert_eq!(pending(&s), Some(String::new()));
    type_keys(&mut s, ":wq");
    s.handle_key(Key::Esc);
    assert_eq!(pending(&s), Some(String::new()));
    type_keys(&mut s, "i");
    s.handle_key(Key::Ctrl('c'));
    assert_eq!(pending(&s), Some(String::new()));
}

#[test]
fn unknown_input_waits_for_cancel() {
    let (n, a) = parse(&chars("zq<Esc>")).unwrap();
    assert_eq!(n, 7);
    assert_eq!(a.kind, ActionKind::CancelPending);
    assert!(parse(&chars("zq")).is_none());
    assert!(parse(&chars("d")).is_none());
    assert!(parse(&chars("")).is_none());
}

#[test]
fn grammar_order_and_tokens() {
    let (n, a) = parse(&chars("<C-f>")).unwrap();
    assert_eq!((n, a.kind), (5, ActionKind::Movement(MovementKind::ScrollScreenDown)));
    let (_, a) = parse(&chars("gg")).unwrap();
    assert_eq!(a.kind, ActionKind::Movement(MovementKind::MoveToHead));
    let (_, a) = parse(&chars("diw")).unwrap();
    assert_eq!(a.kind, ActionKind::Edit(EditKind::RemoveSelection(SelectionKind::Word.once())));
    let (_, a) = parse(&chars("D")).unwrap();
    assert_eq!(a.kind, ActionKind::Edit(EditKind::RemoveSelection(SelectionKind::LineRemain.once())));
    let (_, a) = parse(&chars("cc")).unwrap();
    assert_eq!(a.kind, ActionKind::Change(SelectionKind::Line.once()));
    let (_, a) = parse(&chars("Y")).unwrap();
    assert_eq!(a.kind, ActionKind::Yank(SelectionKind::Line.once()));
    let (n, a) = parse(&chars("<Right>")).unwrap();
    assert_eq!((n, a.kind), (7, ActionKind::Movement(MovementKind::CursorRight)));
}

#[test]
fn cursor_stays_in_text() {
    let mut s = session(&["abc", "", "defgh"]);
    let keys = "lllljjjxkkk$ddGwbx<>5p.iq";
    for c in keys.chars() {
        s.handle_key(Key::Char(c));
        assert_cursor_in_text(&s);
    }
    s.handle_key(Key::Esc);
    for k in [Key::Down, Key::Right, Key::Ctrl('f'), Key::Ctrl('b'), Key::Up, Key::Left] {
        s.handle_key(k);
        assert_cursor_in_text(&s);
    }
}

#[test]
fn insert_mode_types_and_breaks_lines() {
    let mut s = session(&["ad"]);
    type_keys(&mut s, "a");
    assert!(matches!(s.mode, Mode::Insert));
    type_keys(&mut s, "bc\nx");
    assert_eq!(lines_of(&s), vec!["abc", "xd"]);
    assert_eq!(s.cursor, Cursor { row: 1, col: 1 });
    s.handle_key(Key::Esc);
    assert_eq!(pending(&s), Some(String::new()));
}

#[test]
fn change_removes_then_inserts() {
    let mut s = session(&["old text"]);
    type_keys(&mut s, "cwnew ");
    assert_eq!(lines_of(&s), vec!["new text"]);
    assert_eq!(yank_text(&s), "old ");
}

#[test]
fn repeat_replays_last_action() {
    let mut s = session(&["abcdef"]);
    type_keys(&mut s, ".");
    assert_eq!(lines_of(&s), vec!["abcdef"]);
    type_keys(&mut s, "2x..");
    assert_eq!(lines_of(&s), vec![""]);
}

#[test]
fn word_motions() {
    let mut s = session(&["one  two three"]);
    type_keys(&mut s, "w");
    assert_eq!(s.cursor.col, 5);
    type_keys(&mut s, "w");
    assert_eq!(s.cursor.col, 9);
    type_keys(&mut s, "2b");
    assert_eq!(s.cursor.col, 0);
    assert_eq!(s.count_word_forward(), 5);
    type_keys(&mut s, "$");
    assert_eq!(s.cursor.col, 14);
    assert_eq!(s.count_word_back(), 5);
    let mut t = session(&["   indented"]);
    type_keys(&mut t, "$^");
    assert_eq!(t.cursor.col, 3);
}

#[test]
fn cursor_offset_counts_line_breaks() {
    let mut s = session(&["ab", "cde", "f"]);
    type_keys(&mut s, "jjl");
    assert_eq!(s.cursor, Cursor { row: 2, col: 1 });
    assert_eq!(s.get_cursor_offset(), 8);
}

#[test]
fn command_line_signals() {
    let mut s = session(&["abc"]);
    type_keys(&mut s, ":w out.txt");
    assert!(matches!(s.mode, Mode::CmdLine(_)));
    match s.handle_key(Key::Char('\n')) {
        Signal::Write(p) => assert_eq!(p.iter().collect::<String>(), "out.txt"),
        other => panic!("unexpected {:?}", other),
    }
    assert_eq!(pending(&s), Some(String::new()));
    type_keys(&mut s, ":qx");
    s.handle_key(Key::Backspace);
    assert!(matches!(s.handle_key(Key::Char('\n')), Signal::Quit));
    type_keys(&mut s, ":bogus");
    assert!(matches!(s.handle_key(Key::Char('\n')), Signal::Nope));
    assert_eq!(pending(&s), Some(String::new()));
}

#[test]
fn command_grammar() {
    assert!(matches!(parse_command(&chars("q")), Some(Command::Quit)));
    match parse_command(&chars("w!  a/b")) {
        Some(Command::Write(p)) => assert_eq!(p.iter().collect::<String>(), "a/b"),
        other => panic!("unexpected {:?}", other),
    }
    assert!(parse_command(&chars("w ")).is_none());
    assert!(parse_command(&chars("wq")).is_none());
}

#[test]
fn buffer_text_joins_lines() {
    let b = Buffer::from_lines(vec![chars("ab"), chars(""), chars("c")]);
    assert_eq!(b.text().iter().collect::<String>(), "ab\n\nc");
    let e = Buffer::from_lines(vec![]);
    assert_eq!(e.line_count(), 1);
    assert_eq!(e.row_len(0), 0);
}

#[test]
fn text_splits_into_lines() {
    let b = Buffer::from_text(&chars("ab\n\ncd\n"));
    let lines: Vec<String> = b.lines().iter().map(|l| l.iter().collect()).collect();
    assert_eq!(lines, vec!["ab", "", "cd", ""]);
    assert_eq!(b.text().iter().collect::<String>(), "ab\n\ncd\n");
    let e = Buffer::from_text(&chars(""));
    assert_eq!(e.line_count(), 1);
}

#[test]
fn register_shape() {
    assert!(Yanked::Lines(vec![chars("a")]).ends_with_line_break());
    assert!(!Yanked::Chars(chars("a\n")).ends_with_line_break());
    let mut s = session(&["ab", "cd"]);
    type_keys(&mut s, "jyy");
    assert!(s.yanked.ends_with_line_break());
    assert_eq!(s.buffer.row(1), chars("cd"));
    assert_eq!(s.mode.get_cmd().len(), 0);
    type_keys(&mut s, ":w");
    assert_eq!(s.mode.get_cmdline(), &chars("w"));
}

#[test]
fn word_steps_cross_line_breaks() {
    let mut s = session(&["a", "b"]);
    type_keys(&mut s, "$");
    assert_eq!(s.cursor, Cursor { row: 0, col: 1 });
    assert_eq!(s.get_cursor_offset(), 1);
    assert_eq!(s.count_word_forward(), 1);
    type_keys(&mut s, "w");
    assert_eq!(s.cursor, Cursor { row: 1, col: 0 });
    assert_eq!(s.count_word_back(), 2);
    type_keys(&mut s, "b");
    assert_eq!(s.cursor, Cursor { row: 0, col: 0 });
    let mut t = session(&["ab", "cd"]);
    type_keys(&mut t, "$dw");
    assert_eq!(lines_of(&t), vec!["abcd"]);
    assert_eq!(yank_text(&t), "\n");
    assert_eq!(t.cursor, Cursor { row: 0, col: 2 });
    type_keys(&mut t, "P");
    assert_eq!(lines_of(&t), vec!["ab", "cd"]);
    let mut u = session(&["one", "two three"]);
    type_keys(&mut u, "2dw");
    assert_eq!(lines_of(&u), vec!["three"]);
    assert_eq!(yank_text(&u), "one\ntwo ");
}

#[test]
fn zero_count_is_default() {
    let mut s = session(&["abc"]);
    type_keys(&mut s, "0x");
    assert_eq!(lines_of(&s), vec!["bc"]);
    assert_eq!(yank_text(&s), "a");
}

#[test]
fn buffer_row_ranges() {
    let mut b = Buffer::from_lines(vec![chars("hello"), chars("x")]);
    assert_eq!(b.subseq_chars(1, 0, 3), chars("ell"));
    assert_eq!(b.remove_chars(3, 0, 10), chars("lo"));
    assert_eq!(b.row(0), chars("hel"));
    assert_eq!(b.get_offset_by_cursor(1, 1), 5);
    assert_eq!(b.offset_of(1, 1), 5);
    assert_eq!(b.position_of(4), (1, 0));
}
