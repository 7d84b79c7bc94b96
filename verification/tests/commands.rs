use edi::command::{Action, CommandType, InputBuffer};
use edi::cooldown::{Cooldown, CooldownState};
use edi::editor::{Editor, Mode};

#[test]
fn repeat_count_folds_into_vertical_motion() {
    let mut e = Editor::from_text("a\nb\nc\nd\ne");
    assert!(!e.handle_normal("2"));
    assert!(e.handle_normal("j"));
    assert_eq!(e.cursor_pos().line, 2);
}

#[test]
fn repeat_count_clamps_to_available_lines() {
    let mut e = Editor::from_text("a\nb\nc\nd\ne");
    assert!(!e.handle_normal("9"));
    assert!(e.handle_normal("j"));
    assert_eq!(e.cursor_pos().line, 4);
}

#[test]
fn repeat_count_multi_digit() {
    let mut text = String::new();
    for i in 0..12 {
        if i > 0 {
            text.push('\n');
        }
        text.push('x');
    }
    let mut e = Editor::from_text(&text);
    assert!(!e.handle_normal("1"));
    assert!(!e.handle_normal("0"));
    assert!(e.handle_normal("j"));
    assert_eq!(e.cursor_pos().line, 10);

    let mut e2 = Editor::from_text(&text);
    assert!(!e2.handle_normal("10"));
    assert!(e2.handle_normal("j"));
    assert_eq!(e2.cursor_pos().line, 10);
}

#[test]
fn lone_zero_is_start_of_line_command() {
    let mut e = Editor::from_text("hello");
    e.handle_normal("$");
    assert_eq!(e.cursor_pos().col, 5);
    assert!(e.handle_normal("0"));
    assert_eq!(e.cursor_pos().col, 0);
}

#[test]
fn zero_extends_accumulated_count() {
    let mut ib = InputBuffer::new();
    assert!(ib.check("2").is_none());
    assert_eq!(ib.repeat, Some(2));
    assert!(ib.check("0").is_none());
    assert_eq!(ib.repeat, Some(20));
    let action = ib.check("x");
    assert_eq!(
        action,
        Some(Action {
            repeat: 20,
            cmd: CommandType::DeleteChar
        })
    );
    assert_eq!(ib.repeat, None);
}

#[test]
fn huge_count_saturates() {
    let mut ib = InputBuffer::new();
    assert!(ib.check("99999999999999999999999999").is_none());
    assert_eq!(ib.repeat, Some(usize::MAX));
}

#[test]
fn sequence_times_out_between_keys() {
    let mut e = Editor::from_text("foo\nbar");
    assert!(!e.handle_normal("d"));
    // wait past the 500 ms window: the pending "d" is abandoned
    e.update(600);
    assert!(!e.handle_normal("d"));
    assert_eq!(e.line_count(), 2);
}

#[test]
fn sequence_within_window_deletes_line() {
    let mut e = Editor::from_text("foo\nbar");
    assert!(!e.handle_normal("d"));
    e.update(100);
    assert!(e.handle_normal("d"));
    assert_eq!(e.line_count(), 1);
    let mut s = String::new();
    for j in 0..e.word_count(0) {
        s.push_str(&e.word(0, j));
    }
    assert_eq!(s, "bar");
}

#[test]
fn invalid_key_resets_pending_without_action() {
    let mut e = Editor::from_text("foo\nbar");
    let before = e.cursor_pos();
    assert!(!e.handle_normal("g"));
    assert_eq!(e.cursor_pos(), before);
    assert_eq!(e.line_count(), 2);
    // the recognizer is clean again: a following command still works
    assert!(e.handle_normal("j"));
    assert_eq!(e.cursor_pos().line, 1);
}

#[test]
fn invalid_key_drops_pending_prefix() {
    let mut e = Editor::from_text("foo\nbar");
    assert!(!e.handle_normal("d"));
    assert!(!e.handle_normal("g"));
    // "d" then "d" would have deleted; "g" broke the sequence
    assert!(!e.handle_normal("d"));
    assert_eq!(e.line_count(), 2);
}

#[test]
fn normal_mode_commands_dispatch() {
    let mut e = Editor::from_text("foo bar\nsecond");
    assert!(e.handle_normal("w"));
    assert_eq!(e.cursor_pos().col, 4);
    assert!(e.handle_normal("h"));
    assert_eq!(e.cursor_pos().col, 3);
    assert!(e.handle_normal("l"));
    assert_eq!(e.cursor_pos().col, 4);
    assert!(e.handle_normal("b"));
    assert_eq!(e.cursor_pos().col, 0);
    assert!(e.handle_normal("e"));
    assert_eq!(e.cursor_pos().col, 2);
    assert!(e.handle_normal("j"));
    assert_eq!(e.cursor_pos().line, 1);
    assert!(e.handle_normal("k"));
    assert_eq!(e.cursor_pos().line, 0);
    assert!(e.handle_normal("i"));
    assert!(e.mode == Mode::Insert);
}

#[test]
fn cooldown_counts_down_and_flips() {
    let mut cd = Cooldown::new(500, 100);
    assert!(cd.state == CooldownState::Active);
    assert_eq!(cd.current, 0);
    cd.reset(CooldownState::Active);
    assert_eq!(cd.current, 500);
    cd.update(100);
    assert!(cd.state == CooldownState::Active);
    assert_eq!(cd.current, 400);
    cd.update(400);
    assert!(cd.state == CooldownState::OnCooldown);
    assert_eq!(cd.current, 100);
    cd.update(100);
    assert!(cd.state == CooldownState::Active);
    assert_eq!(cd.current, 500);
}

#[test]
fn cooldown_reset_loads_the_given_state() {
    let mut cd = Cooldown::new(500, 100);
    cd.reset(CooldownState::OnCooldown);
    assert!(cd.state == CooldownState::OnCooldown);
    assert_eq!(cd.current, 100);
}

#[test]
fn two_key_sequence_in_one_chunk() {
    let mut e = Editor::from_text("foo\nbar");
    assert!(e.handle_normal("dd"));
    assert_eq!(e.line_count(), 1);
}

#[test]
fn counted_line_deletion() {
    let mut e = Editor::from_text("a\nb\nc");
    assert!(!e.handle_normal("2"));
    assert!(!e.handle_normal("d"));
    assert!(e.handle_normal("d"));
    assert_eq!(e.line_count(), 1);
    let mut s = String::new();
    for j in 0..e.word_count(0) {
        s.push_str(&e.word(0, j));
    }
    assert_eq!(s, "c");
}
