use moded::command_bar::{match_cmd, BarCommand, CommandBarAction};
use moded::editor::{Editor, EditorMode, SpecialKey};
use moded::indent::indent_wanted;
use moded::search::search;
use moded::text_buffer::{LinePos, TextBuffer};
use moded::vim_commands::{Action, Modifier, Motion, Object};

fn editor(s: &str) -> Editor {
    Editor::new(TextBuffer::from_data(s.as_bytes().to_vec()), None)
}

fn keys(ed: &mut Editor, chars: &str) -> CommandBarAction {
    ed.handle_input(&chars.chars().collect(), &Vec::new())
}

#[test]
fn delete_word_removes_leading_word() {
    let mut ed = editor("foo bar\nbaz\n");
    let _ = keys(&mut ed, "dw");
    assert_eq!(ed.current_content().0, "bar\nbaz\n".as_bytes().to_vec());
    assert_eq!(ed.cursors[0].x, 1);
    assert_eq!(ed.cursors[0].y, 1);
}

#[test]
fn visual_delete_spans_lines() {
    let mut ed = editor("foo bar\nbaz\n");
    let _ = keys(&mut ed, "vjlld");
    assert_eq!(ed.current_content().0, "\n".as_bytes().to_vec());
    assert_eq!(ed.mode, EditorMode::Normal);
    assert_eq!(ed.cursors[0].x, 1);
    assert_eq!(ed.cursors[0].y, 1);
}

#[test]
fn command_bar_write_returns_exact_bytes() {
    let content = "some saved text\nwith two lines\n";
    let ed_buf = TextBuffer::from_data(content.as_bytes().to_vec());
    let mut ed = Editor::new(ed_buf, Some(String::from("notes.txt")));
    let _ = keys(&mut ed, ":");
    assert_eq!(ed.mode, EditorMode::CommandBar);
    let act = ed.handle_input(&vec!['w'], &vec![SpecialKey::Enter]);
    assert!(matches!(act, CommandBarAction::Write));
    let (bytes, path) = ed.current_content();
    assert_eq!(bytes, content.as_bytes().to_vec());
    assert_eq!(path, Some(String::from("notes.txt")));
    assert_eq!(ed.mode, EditorMode::Normal);
}

#[test]
fn motion_accumulates_counts_and_operators() {
    let mut m = Motion::new();
    m.parse('2', EditorMode::Normal);
    m.parse('3', EditorMode::Normal);
    assert!(matches!(m.modifier, Some(Modifier::Count(23))));
    m.parse('d', EditorMode::Normal);
    assert!(matches!(m.action, Some(Action::Delete)));
    assert!(m.object.is_none());
    m.parse('d', EditorMode::Normal);
    assert!(matches!(m.object, Some(Object::Line)));
    m.clear();
    assert!(m.action.is_none() && m.object.is_none() && m.modifier.is_none());
}

#[test]
fn leading_zero_is_line_start() {
    let mut m = Motion::new();
    m.parse('0', EditorMode::Normal);
    assert!(matches!(m.object, Some(Object::LineStart)));
    let mut m2 = Motion::new();
    m2.parse('1', EditorMode::Normal);
    m2.parse('0', EditorMode::Normal);
    assert!(matches!(m2.modifier, Some(Modifier::Count(10))));
}

#[test]
fn command_table_prefixes() {
    assert_eq!(match_cmd("w"), Some(BarCommand::Write));
    assert_eq!(match_cmd("write"), Some(BarCommand::Write));
    assert_eq!(match_cmd("q"), Some(BarCommand::Quit));
    assert_eq!(match_cmd("quit"), Some(BarCommand::Quit));
    assert_eq!(match_cmd("e"), Some(BarCommand::Edit));
    assert_eq!(match_cmd("ed"), Some(BarCommand::Edit));
    assert_eq!(match_cmd("z"), None);
    assert_eq!(match_cmd("wx"), None);
}

#[test]
fn search_finds_sorted_positions() {
    let b = TextBuffer::from_data("abc abc\nxabc".as_bytes().to_vec());
    let hits = search("abc".as_bytes(), &b);
    assert_eq!(hits.len(), 3);
    assert_eq!((hits[0].line, hits[0].col), (0, 0));
    assert_eq!((hits[1].line, hits[1].col), (0, 4));
    assert_eq!((hits[2].line, hits[2].col), (1, 1));
}

#[test]
fn indentation_copies_spaces() {
    let b = TextBuffer::from_data("  foo\nbar".as_bytes().to_vec());
    assert_eq!(indent_wanted(0, &b), None);
    assert_eq!(indent_wanted(1, &b), Some(2));
}

#[test]
fn insert_mode_types_text() {
    let mut ed = editor("world");
    let _ = keys(&mut ed, "i");
    assert_eq!(ed.mode, EditorMode::Insert);
    let _ = ed.handle_input(&"hello ".chars().collect(), &Vec::new());
    assert_eq!(ed.current_content().0, "hello world".as_bytes().to_vec());
    let _ = ed.handle_input(&Vec::new(), &vec![SpecialKey::Escape]);
    assert_eq!(ed.mode, EditorMode::Normal);
}

#[test]
fn char_delete_and_line_delete() {
    let mut ed = editor("abc\ndef\n");
    let _ = keys(&mut ed, "x");
    assert_eq!(ed.current_content().0, "bc\ndef\n".as_bytes().to_vec());
    let _ = keys(&mut ed, "dd");
    assert_eq!(ed.current_content().0, "def\n".as_bytes().to_vec());
}

#[test]
fn search_mode_jumps_to_match() {
    let mut ed = editor("alpha\nbeta gamma\n");
    let _ = keys(&mut ed, "/");
    assert_eq!(ed.mode, EditorMode::Search);
    let _ = ed.handle_input(&"gamma".chars().collect(), &Vec::new());
    let _ = ed.handle_input(&Vec::new(), &vec![SpecialKey::Enter]);
    assert_eq!(ed.mode, EditorMode::Normal);
    assert_eq!(ed.cursors[0].y, 2);
    assert_eq!(ed.cursors[0].x, 6);
}

#[test]
fn enter_splits_and_indents() {
    let mut ed = editor("  foo");
    let _ = keys(&mut ed, "i");
    // jump to the end of the line, then break it
    let _ = ed.handle_input(&Vec::new(), &vec![SpecialKey::Escape]);
    let _ = keys(&mut ed, "$a");
    let _ = ed.handle_input(&Vec::new(), &vec![SpecialKey::Enter]);
    let _ = ed.handle_input(&"bar".chars().collect(), &Vec::new());
    assert_eq!(ed.current_content().0, "  foo\n  bar\n".as_bytes().to_vec());
}

#[test]
fn word_motions_move_cursor() {
    let mut ed = editor("foo bar baz");
    let _ = keys(&mut ed, "w");
    assert_eq!((ed.cursors[0].y, ed.cursors[0].x), (1, 5));
    let _ = keys(&mut ed, "w");
    assert_eq!((ed.cursors[0].y, ed.cursors[0].x), (1, 9));
    let _ = keys(&mut ed, "b");
    assert_eq!((ed.cursors[0].y, ed.cursors[0].x), (1, 5));
}

#[test]
fn goto_line_commands() {
    let mut ed = editor("a\nb\nc\nd\n");
    let _ = keys(&mut ed, "3gg");
    assert_eq!(ed.cursors[0].y, 3);
    let _ = keys(&mut ed, "G");
    assert_eq!(ed.cursors[0].y, 4);
    let _ = keys(&mut ed, "gg");
    assert_eq!(ed.cursors[0].y, 1);
}

#[test]
fn inside_word_delete() {
    let mut ed = editor("foo bar baz");
    let _ = keys(&mut ed, "ww");
    let _ = keys(&mut ed, "diw");
    assert_eq!(ed.current_content().0, "foo bar ".as_bytes().to_vec());
}

#[test]
fn escape_cancels_pending_motion() {
    let mut ed = editor("abc");
    let _ = keys(&mut ed, "d");
    assert!(ed.motion.action.is_some());
    let _ = ed.handle_input(&Vec::new(), &vec![SpecialKey::Escape]);
    assert!(ed.motion.action.is_none());
    assert_eq!(ed.current_content().0, "abc".as_bytes().to_vec());
}

#[test]
fn open_line_below_and_above() {
    let mut ed = editor("  foo\nbar");
    let _ = keys(&mut ed, "o");
    assert_eq!(ed.mode, EditorMode::Insert);
    let _ = ed.handle_input(&"mid".chars().collect(), &Vec::new());
    assert_eq!(ed.current_content().0, "  foo\n  mid\nbar".as_bytes().to_vec());
    let _ = ed.handle_input(&Vec::new(), &vec![SpecialKey::Escape]);
    let mut ed2 = editor("one\ntwo");
    let _ = keys(&mut ed2, "j");
    let _ = keys(&mut ed2, "O");
    assert_eq!(ed2.mode, EditorMode::Insert);
    let _ = ed2.handle_input(&"mid".chars().collect(), &Vec::new());
    assert_eq!(ed2.current_content().0, "one\nmid\ntwo".as_bytes().to_vec());
}

#[test]
fn around_word_deletes_current_token() {
    let mut ed = editor("foo bar baz");
    let _ = keys(&mut ed, "ww");
    let _ = keys(&mut ed, "daw");
    assert_eq!(ed.current_content().0, "foo bar ".as_bytes().to_vec());
}

#[test]
fn counted_word_motion_repeats() {
    let mut ed = editor("one two three four");
    let _ = keys(&mut ed, "2w");
    assert_eq!((ed.cursors[0].y, ed.cursors[0].x), (1, 9));
    let _ = keys(&mut ed, "9w");
    assert_eq!((ed.cursors[0].y, ed.cursors[0].x), (1, 15));
}

#[test]
fn tab_indents_four_spaces() {
    let mut ed = editor("x");
    let _ = keys(&mut ed, "i");
    let _ = ed.handle_input(&Vec::new(), &vec![SpecialKey::Tab]);
    assert_eq!(ed.current_content().0, "    x".as_bytes().to_vec());
    assert_eq!(ed.cursors[0].x, 5);
}

#[test]
fn visual_line_delete_removes_lines() {
    let mut ed = editor("one\ntwo\nthree\n");
    let _ = keys(&mut ed, "Vjd");
    assert_eq!(ed.current_content().0, "three\n".as_bytes().to_vec());
    assert_eq!(ed.mode, EditorMode::Normal);
    assert_eq!((ed.cursors[0].y, ed.cursors[0].x), (1, 1));
}

#[test]
fn edit_command_opens_or_switches() {
    let mut ed = Editor::new(
        TextBuffer::from_data("first".as_bytes().to_vec()),
        Some(String::from("a.txt")),
    );
    let _ = keys(&mut ed, ":");
    let act = ed.handle_input(&"e b.txt".chars().collect(), &vec![SpecialKey::Enter]);
    match act {
        CommandBarAction::NewBuffer(p) => assert_eq!(p, "b.txt"),
        _ => panic!("expected a request to open the file"),
    }
    ed.add_buffer(
        TextBuffer::from_data("second".as_bytes().to_vec()),
        Some(String::from("b.txt")),
    );
    assert_eq!(ed.current_buffer, 1);
    let _ = keys(&mut ed, ":");
    let act2 = ed.handle_input(&"e a.txt".chars().collect(), &vec![SpecialKey::Enter]);
    assert!(matches!(act2, CommandBarAction::SwitchToBuffer(0)));
    assert_eq!(ed.current_buffer, 0);
    let _ = keys(&mut ed, ":");
    let act3 = ed.handle_input(&"quit".chars().collect(), &vec![SpecialKey::Enter]);
    assert!(matches!(act3, CommandBarAction::Quit));
}

#[test]
fn dollar_sets_wanted_column() {
    let mut ed = editor("abcdef\nxy\nlonger line");
    let _ = keys(&mut ed, "$");
    assert_eq!(ed.cursors[0].x, 6);
    assert_eq!(ed.cursors[0].wanted_x, 6);
    let _ = keys(&mut ed, "j");
    assert_eq!(ed.cursors[0].x, 2);
    let _ = keys(&mut ed, "j");
    assert_eq!(ed.cursors[0].x, 6);
}
