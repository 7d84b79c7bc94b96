use edi::editor::{Editor, Mode};
use edi::excmd::{CmdBuffer, ExCmdResult};

#[test]
fn colon_q_quits() {
    let mut e = Editor::new();
    assert!(e.handle_normal(":"));
    assert!(e.mode == Mode::Command);
    e.handle_command("q");
    assert_eq!(e.status_line(), ":q");
    let r = e.command_execute();
    assert_eq!(r, ExCmdResult::Quit(true));
    assert!(e.mode == Mode::Normal);
}

#[test]
fn colon_cq_cancels_quit() {
    let mut e = Editor::new();
    e.handle_normal(":");
    e.handle_command("cq");
    let r = e.command_execute();
    assert_eq!(r, ExCmdResult::Quit(false));
}

#[test]
fn unknown_command_is_reported_verbatim() {
    let mut e = Editor::new();
    e.handle_normal(":");
    e.handle_command("x");
    let r = e.command_execute();
    assert_eq!(r, ExCmdResult::UnknownCommand(String::from(":x")));
    assert!(e.mode == Mode::Normal);
    assert_eq!(e.status_line(), "NORMAL");
}

#[test]
fn escape_cancels_command_mode() {
    let mut e = Editor::new();
    e.handle_normal(":");
    e.handle_command("q");
    e.exit_command();
    assert!(e.mode == Mode::Normal);
    // the buffer was cleared: re-entering starts fresh
    e.handle_normal(":");
    assert_eq!(e.status_line(), ":");
}

#[test]
fn command_backspace_edits_the_line() {
    let mut e = Editor::new();
    e.handle_normal(":");
    e.handle_command("qq");
    e.command_delete_char();
    assert_eq!(e.status_line(), ":q");
    let r = e.command_execute();
    assert_eq!(r, ExCmdResult::Quit(true));
}

#[test]
fn cmd_buffer_accumulates_and_resets() {
    let mut cb = CmdBuffer::new();
    assert_eq!(cb.as_str(), "");
    cb.input(":");
    cb.input("cq");
    assert_eq!(cb.as_str(), ":cq");
    cb.reset();
    assert_eq!(cb.as_str(), "");
}

#[test]
fn cmd_buffer_delete_char_on_empty_is_noop() {
    let mut cb = CmdBuffer::new();
    cb.delete_char();
    assert_eq!(cb.as_str(), "");
    cb.input(":a");
    cb.delete_char();
    assert_eq!(cb.as_str(), ":");
}

#[test]
fn execute_always_clears_the_buffer() {
    let mut cb = CmdBuffer::new();
    cb.input(":nope");
    let r = cb.execute();
    assert_eq!(r, ExCmdResult::UnknownCommand(String::from(":nope")));
    assert_eq!(cb.as_str(), "");
    cb.input(":q");
    assert_eq!(cb.execute(), ExCmdResult::Quit(true));
    assert_eq!(cb.as_str(), "");
}
