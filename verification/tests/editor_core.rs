use edi::editor::{Editor, Mode};
use edi::text::Pos;

fn join(e: &Editor) -> Vec<String> {
    let mut lines = Vec::new();
    let n = e.line_count();
    let mut i = 0;
    while i < n {
        let mut s = String::new();
        let m = e.word_count(i);
        let mut j = 0;
        while j < m {
            s.push_str(&e.word(i, j));
            j += 1;
        }
        lines.push(s);
        i += 1;
    }
    lines
}

#[test]
fn tokenize_one_word() {
    let mut e = Editor::new();
    e.insert("test");

    assert_eq!(join(&e), vec!["test"])
}

#[test]
fn tokenize_multiple_words() {
    let mut e = Editor::new();
    e.insert("foo bar ham");

    assert_eq!(join(&e), vec!["foo bar ham"])
}

#[test]
fn tokenize_multiple_spaces() {
    let mut e = Editor::new();
    e.insert(" ham   eggs ");

    assert_eq!(join(&e), vec![" ham   eggs "])
}

#[test]
fn tokenize_multiple_lines() {
    let mut e = Editor::new();
    e.insert("foo\nbar");

    assert_eq!(join(&e), vec!["foo", "bar"])
}

#[test]
fn tokenize_empty_lines() {
    let mut e = Editor::new();
    e.insert("\n\n\n");

    assert_eq!(join(&e), vec!["", "", "", ""])
}

#[test]
fn tokenize_empty() {
    let mut e = Editor::new();
    e.insert("");

    assert_eq!(join(&e), vec![""])
}

#[test]
fn tokenize_delete_single_line() {
    let mut e = Editor::new();
    e.insert("fooo");
    e.delete();

    assert_eq!(join(&e), vec!["foo"])
}

#[test]
fn tokenize_delete_multiline() {
    let mut e = Editor::new();
    e.insert("f");
    e.new_line();
    e.delete();
    e.insert("oobar");

    assert_eq!(join(&e), vec!["foobar"])
}

#[test]
fn cursor_pos() {
    let mut e = Editor::new();
    e.insert("foo");

    assert_eq!(join(&e), vec!["foo"]);
    assert_eq!(
        e.cursor_pos(),
        Pos {
            idx: 3,
            col: 3,
            line: 0
        }
    );

    e.new_line();
    assert_eq!(
        e.cursor_pos(),
        Pos {
            idx: 4,
            col: 0,
            line: 1
        }
    );
}

#[test]
fn cursor_newline() {
    let mut e = Editor::new();
    e.insert("foo");
    e.new_line();
    e.insert("bar");

    assert_eq!(join(&e), vec!["foo", "bar"]);
    assert_eq!(
        e.cursor_pos(),
        Pos {
            idx: 7,
            col: 3,
            line: 1
        }
    );

    e.move_start_of_line();
    assert_eq!(
        e.cursor_pos(),
        Pos {
            idx: 4,
            col: 0,
            line: 1
        }
    );

    e.move_end_of_line();
    assert_eq!(
        e.cursor_pos(),
        Pos {
            idx: 7,
            col: 3,
            line: 1
        }
    );
}

#[test]
fn insert_then_newline_then_insert() {
    let mut e = Editor::new();
    e.insert("foo");
    e.new_line();
    e.insert("bar");

    assert_eq!(join(&e), vec!["foo", "bar"]);
    let p = e.cursor_pos();
    assert_eq!(p.line, 1);
    assert_eq!(p.col, 3);
}

#[test]
fn insert_with_embedded_newline() {
    let mut e = Editor::new();
    e.insert("a\nb");

    assert_eq!(join(&e), vec!["a", "b"]);
    let p = e.cursor_pos();
    assert_eq!(p.line, 1);
    assert_eq!(p.col, 1);
    assert_eq!(p.idx, 3);
}

#[test]
fn from_text_round_trip() {
    let e = Editor::from_text("one two\n three \n\nfour");
    assert_eq!(join(&e), vec!["one two", " three ", "", "four"]);
    assert_eq!(
        e.cursor_pos(),
        Pos {
            idx: 0,
            col: 0,
            line: 0
        }
    );
    assert!(e.mode == Mode::Normal);
}

#[test]
fn word_accessors() {
    let e = Editor::from_text(" ham   eggs ");
    assert_eq!(e.line_count(), 1);
    assert_eq!(e.word_count(0), 5);
    assert_eq!(e.word(0, 0), " ");
    assert_eq!(e.word(0, 1), "ham");
    assert_eq!(e.word(0, 2), "   ");
    assert_eq!(e.word(0, 3), "eggs");
    assert_eq!(e.word(0, 4), " ");
}

#[test]
fn delete_char_within_line() {
    let mut e = Editor::from_text("foo");
    e.delete_char();
    assert_eq!(join(&e), vec!["oo"]);
    // at the line's end nothing happens
    e.move_end_of_line();
    e.delete_char();
    assert_eq!(join(&e), vec!["oo"]);
}

#[test]
fn delete_at_buffer_start_is_noop() {
    let mut e = Editor::from_text("foo");
    e.delete();
    assert_eq!(join(&e), vec!["foo"]);
    assert_eq!(
        e.cursor_pos(),
        Pos {
            idx: 0,
            col: 0,
            line: 0
        }
    );
}

#[test]
fn delete_line_first_of_two() {
    let mut e = Editor::from_text("foo\nbar");
    e.delete_line();
    assert_eq!(join(&e), vec!["bar"]);
    assert_eq!(
        e.cursor_pos(),
        Pos {
            idx: 0,
            col: 0,
            line: 0
        }
    );
}

#[test]
fn delete_line_last_of_two() {
    let mut e = Editor::from_text("foo\nbar");
    e.move_down();
    e.delete_line();
    assert_eq!(join(&e), vec!["foo"]);
    assert_eq!(
        e.cursor_pos(),
        Pos {
            idx: 0,
            col: 0,
            line: 0
        }
    );
}

#[test]
fn delete_line_only_line() {
    let mut e = Editor::from_text("foo");
    e.delete_line();
    assert_eq!(join(&e), vec![""]);
    assert_eq!(
        e.cursor_pos(),
        Pos {
            idx: 0,
            col: 0,
            line: 0
        }
    );
}

#[test]
fn delete_line_clamps_column() {
    let mut e = Editor::from_text("longer line\nab\nrest");
    e.move_end_of_line();
    assert_eq!(e.cursor_pos().col, 11);
    e.delete_line();
    // the cursor stays on the same line index, clamped to "ab"
    assert_eq!(join(&e), vec!["ab", "rest"]);
    assert_eq!(
        e.cursor_pos(),
        Pos {
            idx: 2,
            col: 2,
            line: 0
        }
    );
}

#[test]
fn vertical_motion_clamps_and_restores_nothing() {
    let mut e = Editor::from_text("longest\nab\nmiddle");
    e.move_end_of_line();
    e.move_down();
    assert_eq!(e.cursor_pos().col, 2);
    e.move_down();
    // no "remembered column": the clamped column carries over
    assert_eq!(e.cursor_pos().col, 2);
    e.move_up();
    e.move_up();
    assert_eq!(e.cursor_pos().col, 2);
    // at the first line, moving up is a no-op
    e.move_up();
    assert_eq!(e.cursor_pos().line, 0);
}

#[test]
fn word_motions_on_one_line() {
    let mut e = Editor::from_text("foo bar");
    e.next_word();
    assert_eq!(e.cursor_pos().col, 4);
    e.prev_word();
    assert_eq!(e.cursor_pos().col, 0);
    e.next_word_end();
    assert_eq!(e.cursor_pos().col, 2);
    e.next_word_end();
    assert_eq!(e.cursor_pos().col, 6);
}

#[test]
fn word_motions_stabilize_at_boundaries() {
    let mut e = Editor::from_text("foo bar");
    e.move_end_of_line();
    // delete the last word from its start
    e.prev_word();
    assert_eq!(e.cursor_pos().col, 4);
    e.delete_char();
    e.delete_char();
    e.delete_char();
    assert_eq!(join(&e), vec!["foo "]);
    // repeated motions at the buffer boundaries never panic and reach a
    // fixed point
    let mut i = 0;
    while i < 5 {
        e.next_word();
        i += 1;
    }
    let fixed_fwd = e.cursor_pos();
    e.next_word();
    assert_eq!(e.cursor_pos(), fixed_fwd);
    i = 0;
    while i < 5 {
        e.prev_word();
        i += 1;
    }
    let fixed_back = e.cursor_pos();
    e.prev_word();
    assert_eq!(e.cursor_pos(), fixed_back);
}

#[test]
fn start_next_and_prev_line() {
    let mut e = Editor::from_text("foo");
    e.start_next_line();
    assert_eq!(join(&e), vec!["foo", ""]);
    assert_eq!(
        e.cursor_pos(),
        Pos {
            idx: 4,
            col: 0,
            line: 1
        }
    );
    assert!(e.mode == Mode::Insert);

    let mut e2 = Editor::from_text("foo");
    e2.start_prev_line();
    assert_eq!(join(&e2), vec!["", "foo"]);
    assert_eq!(
        e2.cursor_pos(),
        Pos {
            idx: 0,
            col: 0,
            line: 0
        }
    );
    assert!(e2.mode == Mode::Insert);
}

#[test]
fn insert_mode_entries() {
    let mut e = Editor::from_text("foo");
    e.enter_insert_after();
    assert!(e.mode == Mode::Insert);
    assert_eq!(e.cursor_pos().col, 1);
    e.exit_insert();
    assert!(e.mode == Mode::Normal);

    e.append_line();
    assert!(e.mode == Mode::Insert);
    assert_eq!(e.cursor_pos().col, 3);
    e.exit_insert();

    e.prepend_line();
    assert!(e.mode == Mode::Insert);
    assert_eq!(e.cursor_pos().col, 0);
}

#[test]
fn status_line_follows_mode() {
    let mut e = Editor::new();
    assert_eq!(e.status_line(), "NORMAL");
    e.handle_normal("i");
    assert_eq!(e.status_line(), "INSERT");
    e.exit_insert();
    e.handle_normal(":");
    assert_eq!(e.status_line(), ":");
    e.handle_command("wq");
    assert_eq!(e.status_line(), ":wq");
}
