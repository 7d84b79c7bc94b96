//! The editor: a character buffer, the derived line index, the cursor, and
//! the mode-driven dispatch that ties the command recognizer and the
//! ex-command buffer to the edit and motion operations.
//!
//! Every operation keeps the editor well formed (`Editor::wf`): the line
//! index describes the buffer exactly and the cursor sits on a real
//! position of its line. The index is rebuilt from scratch after every
//! buffer mutation and the cursor is re-derived from its offset, so the
//! invariant never depends on how an edit patched the previous index.

use vstd::prelude::*;
use vstd::string::StrSliceExecFns;
use crate::command::{Action, CommandType, InputBuffer, checked};
use crate::excmd::{CmdBuffer, ExCmdResult, ExCmdType, ex_cmd_of};
use crate::text::{
    Line, Pos, Token, Tokenizer, lines_wf, nl_count, tokens_chained, tokens_content_wf,
    tokens_alternate, tokens_end, tokens_fit, is_word_char, splice, cut, first_touching, first_after,
    last_ending_by, lemma_first_touching_range, lemma_first_after_range,
    lemma_last_ending_by_range, lemma_chain, lemma_col_after_newline, lemma_line_content,
    lemma_line_start_count, lemma_pos_line, lemma_lines_count, lemma_tokens_end_ge,
    lemma_nl_count_split, lemma_nl_count_single, lemma_nl_count_zero, lemma_nl_count_concat,
    lines_text, lemma_round_trip, lemma_start_characterization,
};

verus! {

/// Which interpretation incoming input gets: normal-mode commands, literal
/// insertion, or ex-command accumulation.
#[derive(Clone, Copy, PartialEq, Eq, Structural, Debug)]
pub enum Mode {
    Normal,
    Insert,
    Command,
}

pub struct Editor {
    pub mode: Mode,
    pub buffer: Vec<char>,
    pub lines: Vec<Line>,
    pub cursor: Pos,
    pub input_buffer: InputBuffer,
    pub command_buffer: CmdBuffer,
}

impl Editor {
    /// The cursor names a real line, its column measures its offset from
    /// that line's start, and it sits no further right than the line's end.
    pub open spec fn cursor_wf(self) -> bool {
        &&& (self.cursor.line as int) < self.lines@.len()
        &&& self.lines@[self.cursor.line as int].spec_start() + self.cursor.col == self.cursor.idx
        &&& self.cursor.idx <= self.lines@[self.cursor.line as int].spec_end()
    }

    /// The line index describes the buffer and the cursor is consistent
    /// with the index. Established by the constructors and preserved by
    /// every operation.
    pub open spec fn wf(self) -> bool {
        &&& lines_wf(self.lines@, self.buffer@)
        &&& self.cursor_wf()
    }

    pub open spec fn cur_line(self) -> Line {
        self.lines@[self.cursor.line as int]
    }

    /// Number of content characters on the cursor's line.
    pub open spec fn cur_line_len(self) -> int {
        self.cur_line().spec_len()
    }

    pub fn new() -> (r: Editor)
        ensures
            r.wf(),
            r.mode == Mode::Normal,
            r.buffer@ == Seq::<char>::empty(),
            r.cursor == (Pos { idx: 0, line: 0, col: 0 }),
            r.input_buffer.buf@ == Seq::<char>::empty(),
            r.input_buffer.repeat is None,
            r.command_buffer.buffer@ == Seq::<char>::empty(),
    {
        let mut lines: Vec<Line> = Vec::new();
        lines.push(Line { idx: 0, tokens: Vec::new() });
        let r = Editor {
            mode: Mode::Normal,
            buffer: Vec::new(),
            lines,
            cursor: Pos { idx: 0, line: 0, col: 0 },
            input_buffer: InputBuffer::new(),
            command_buffer: CmdBuffer::new(),
        };
        r
    }

    /// An editor over pre-existing text, with the cursor at the start.
    /// The host reads the file; this constructor does the indexing.
    pub fn from_text(text: &str) -> (r: Editor)
        ensures
            r.wf(),
            r.mode == Mode::Normal,
            r.buffer@ == text@,
            r.cursor == (Pos { idx: 0, line: 0, col: 0 }),
            r.input_buffer.buf@ == Seq::<char>::empty(),
            r.input_buffer.repeat is None,
            r.command_buffer.buffer@ == Seq::<char>::empty(),
    {
        let mut ed = Editor::new();
        let ghost e0 = ed;
        let n = text.unicode_len();
        let mut i: usize = 0;
        while i < n
            invariant
                n == text@.len(),
                0 <= i <= n,
                ed == (Editor { buffer: ed.buffer, ..e0 }),
                ed.buffer@ == text@.subrange(0, i as int),
            decreases n - i,
        {
            ed.buffer.push(text.get_char(i));
            proof {
                assert(ed.buffer@ =~= text@.subrange(0, i + 1));
            }
            i += 1;
        }
        proof {
            assert(ed.buffer@ =~= text@);
        }
        ed.tokenize();
        let ghost lines = ed.lines@;
        proof {
            lemma_line_content(lines[0], ed.buffer@);
        }
        ed.cursor = Pos { idx: 0, line: 0, col: 0 };
        ed
    }

    /// Rebuild the whole line index from the buffer: one left-to-right
    /// pass, closing a line at each newline and always appending a final
    /// line so the index is never empty.
    fn tokenize(&mut self)
        ensures
            *final(self) == (Editor { lines: final(self).lines, ..*old(self) }),
            lines_wf(final(self).lines@, old(self).buffer@),
    {
        let ghost buf = self.buffer@;
        let mut lines: Vec<Line> = Vec::new();
        let mut tokens: Vec<Token> = Vec::new();
        let mut tokenizer = Tokenizer::new();
        let mut start_of_line: usize = 0;

        proof {
            assert(self.buffer.len() == buf.len());
        }

        while tokenizer.idx < self.buffer.len()
            invariant
                self.buffer@ == buf,
                buf.len() <= usize::MAX,
                tokenizer.idx <= buf.len(),
                start_of_line <= tokenizer.idx,
                // completed lines
                forall|i: int| 0 <= i < lines@.len() ==> (#[trigger] lines@[i]).wf(buf),
                forall|i: int| 0 <= i < lines@.len() ==> (#[trigger] lines@[i]).spec_end() < buf.len()
                    && buf[lines@[i].spec_end()] == '\n',
                forall|i: int| #![trigger lines@[i], lines@[i + 1]] 0 <= i < lines@.len() - 1
                    ==> lines@[i + 1].spec_start() == lines@[i].spec_end() + 1,
                lines@.len() > 0 ==> lines@[0].spec_start() == 0,
                start_of_line as int == (if lines@.len() == 0 { 0int } else {
                    lines@.last().spec_end() + 1
                }),
                // the line under construction
                tokens_content_wf(tokens@, buf),
                tokens_chained(tokens@, start_of_line as int),
                tokens_alternate(tokens@),
                tokens_end(tokens@, start_of_line as int) == tokenizer.idx,
                tokens@.len() > 0 ==> (tokenizer.idx == buf.len()
                    || (tokens@.last() is Word ==> !is_word_char(buf[tokenizer.idx as int]))
                    && (tokens@.last() is Space ==> buf[tokenizer.idx as int] != ' ')),
            decreases buf.len() - tokenizer.idx,
        {
            let ghost pre_idx = tokenizer.idx as int;
            match tokenizer.next(&self.buffer) {
                Some(token) => {
                    match token {
                        Token::Word { .. } => {
                            proof {
                                if tokens@.len() > 0 {
                                    assert(token.wf(buf));
                                    assert(buf[pre_idx] != ' ' && buf[pre_idx] != '\n');
                                    assert(!(tokens@.last() is Word));
                                }
                            }
                            let ghost old_toks = tokens@;
                            tokens.push(token);
                            proof {
                                assert(tokens@ == old_toks.push(token));
                                assert(tokens@.last() == token);
                                assert forall|j: int| 0 <= j < tokens@.len() - 1
                                    implies (#[trigger] tokens@[j + 1]).spec_idx()
                                        == tokens@[j].spec_end() by {
                                    if j + 1 < old_toks.len() {
                                        assert(tokens@[j] == old_toks[j]);
                                        assert(tokens@[j + 1] == old_toks[j + 1]);
                                    } else {
                                        assert(tokens@[j] == old_toks[j]);
                                        assert(tokens@[j + 1] == token);
                                        assert(old_toks[j] == old_toks.last());
                                    }
                                }
                                assert forall|j: int| 0 <= j < tokens@.len() - 1
                                    implies ((#[trigger] tokens@[j]) is Word
                                        <==> tokens@[j + 1] is Space) by {
                                    if j + 1 < old_toks.len() {
                                        assert(tokens@[j] == old_toks[j]);
                                        assert(tokens@[j + 1] == old_toks[j + 1]);
                                    } else {
                                        assert(tokens@[j] == old_toks.last());
                                        assert(tokens@[j + 1] == token);
                                    }
                                }
                            }
                        },
                        Token::Space { .. } => {
                            proof {
                                if tokens@.len() > 0 {
                                    assert(token.wf(buf));
                                    assert(buf[pre_idx] == ' ');
                                    assert(!(tokens@.last() is Space));
                                }
                            }
                            let ghost old_toks = tokens@;
                            tokens.push(token);
                            proof {
                                assert(tokens@ == old_toks.push(token));
                                assert(tokens@.last() == token);
                                assert forall|j: int| 0 <= j < tokens@.len() - 1
                                    implies (#[trigger] tokens@[j + 1]).spec_idx()
                                        == tokens@[j].spec_end() by {
                                    if j + 1 < old_toks.len() {
                                        assert(tokens@[j] == old_toks[j]);
                                        assert(tokens@[j + 1] == old_toks[j + 1]);
                                    } else {
                                        assert(tokens@[j] == old_toks[j]);
                                        assert(tokens@[j + 1] == token);
                                        assert(old_toks[j] == old_toks.last());
                                    }
                                }
                                assert forall|j: int| 0 <= j < tokens@.len() - 1
                                    implies ((#[trigger] tokens@[j]) is Word
                                        <==> tokens@[j + 1] is Space) by {
                                    if j + 1 < old_toks.len() {
                                        assert(tokens@[j] == old_toks[j]);
                                        assert(tokens@[j + 1] == old_toks[j + 1]);
                                    } else {
                                        assert(tokens@[j] == old_toks.last());
                                        assert(tokens@[j + 1] == token);
                                    }
                                }
                            }
                        },
                        Token::Newline { idx } => {
                            let ghost old_lines = lines@;
                            let new_line = Line { idx: start_of_line, tokens };
                            proof {
                                assert(new_line.spec_end()
                                    == tokens_end(new_line.tokens@, start_of_line as int));
                                assert(new_line.wf(buf));
                            }
                            lines.push(new_line);
                            tokens = Vec::new();
                            start_of_line = idx + 1;
                            proof {
                                assert(lines@ == old_lines.push(new_line));
                                assert(lines@.last() == new_line);
                                assert(new_line.spec_end() == idx as int);
                                assert forall|i: int| 0 <= i < lines@.len()
                                    implies (#[trigger] lines@[i]).wf(buf)
                                        && lines@[i].spec_end() < buf.len()
                                        && buf[lines@[i].spec_end()] == '\n' by {
                                    if i < old_lines.len() {
                                        assert(lines@[i] == old_lines[i]);
                                    } else {
                                        assert(lines@[i] == new_line);
                                    }
                                }
                                assert forall|i: int| 0 <= i < lines@.len() - 1
                                    implies (#[trigger] lines@[i + 1]).spec_start()
                                        == lines@[i].spec_end() + 1 by {
                                    if i + 1 < old_lines.len() {
                                        assert(lines@[i] == old_lines[i]);
                                        assert(lines@[i + 1] == old_lines[i + 1]);
                                    } else {
                                        assert(lines@[i] == old_lines.last());
                                        assert(lines@[i + 1] == new_line);
                                    }
                                }
                                assert(tokens@ =~= Seq::<Token>::empty());
                            }
                        },
                    }
                },
                None => {
                    proof {
                        assert(false);
                    }
                },
            }
        }

        let ghost old_lines = lines@;
        let last_line = Line { idx: start_of_line, tokens };
        proof {
            assert(last_line.spec_end() == tokens_end(last_line.tokens@, start_of_line as int));
            assert(last_line.wf(buf));
            assert(last_line.spec_end() == buf.len());
        }
        lines.push(last_line);
        proof {
            assert(lines@ == old_lines.push(last_line));
            assert(lines@.last() == last_line);
            assert forall|i: int| 0 <= i < lines@.len()
                implies (#[trigger] lines@[i]).wf(buf) by {
                if i < old_lines.len() {
                    assert(lines@[i] == old_lines[i]);
                } else {
                    assert(lines@[i] == last_line);
                }
            }
            assert forall|i: int| 0 <= i < lines@.len() - 1
                implies (#[trigger] lines@[i]).spec_end() < buf.len()
                    && buf[lines@[i].spec_end()] == '\n'
                    && lines@[i + 1].spec_start() == lines@[i].spec_end() + 1 by {
                assert(lines@[i] == old_lines[i]);
                if i + 1 < old_lines.len() {
                    assert(lines@[i + 1] == old_lines[i + 1]);
                } else {
                    assert(old_lines[i] == old_lines.last());
                    assert(lines@[i + 1] == last_line);
                }
            }
            assert(lines_wf(lines@, buf));
        }
        self.lines = lines;
    }
}

/// The line containing offset `idx` (between its start and end inclusive),
/// found by scanning the index; `lines_wf` guarantees exactly one line
/// qualifies, since line ranges tile the whole buffer.
fn locate(lines: &Vec<Line>, idx: usize, Ghost(buf): Ghost<Seq<char>>) -> (r: (usize, usize))
    requires
        lines_wf(lines@, buf),
        idx <= buf.len(),
        buf.len() <= usize::MAX,
    ensures
        (r.0 as int) < lines@.len(),
        lines@[r.0 as int].spec_start() + r.1 == idx,
        idx <= lines@[r.0 as int].spec_end(),
{
    let n = lines.len();
    let mut i: usize = 0;
    proof {
        lemma_line_content(lines@[0], buf);
    }
    while lines[i].end() < idx
        invariant
            lines_wf(lines@, buf),
            idx <= buf.len(),
            buf.len() <= usize::MAX,
            n == lines@.len(),
            0 <= i < n,
            forall|k: int| 0 <= k < i ==> (#[trigger] lines@[k]).spec_end() < idx,
            lines@[i as int].spec_end() <= usize::MAX,
        decreases n - i,
    {
        proof {
            if i + 1 >= n {
                assert(lines@[i as int].spec_end() == buf.len());
            }
            lemma_line_content(lines@[i + 1], buf);
        }
        i += 1;
    }
    proof {
        if i > 0 {
            assert(lines@[i - 1].spec_end() < idx);
            crate::text::lemma_chain(lines@, buf, i - 1);
        }
    }
    let start = lines[i].start();
    (i, idx - start)
}


/// What a clamped vertical move to `to_line` yields: the column is kept
/// when that line is long enough, else clamped to the line's length.
pub open spec fn vertical_target(pre: Editor, to_line: int) -> Pos {
    let l = pre.lines@[to_line];
    let c = if pre.cursor.col <= l.spec_len() {
        pre.cursor.col as int
    } else {
        l.spec_len()
    };
    Pos { idx: (l.spec_start() + c) as usize, line: to_line as usize, col: c as usize }
}

/// Only the cursor may differ between `pre` and `post`.
pub open spec fn only_cursor_changed(pre: Editor, post: Editor) -> bool {
    post == (Editor { cursor: post.cursor, ..pre })
}

pub open spec fn move_left_post(pre: Editor, post: Editor) -> bool {
    &&& only_cursor_changed(pre, post)
    &&& post.cursor == (if pre.cursor.col >= 1 {
        Pos {
            idx: (pre.cursor.idx - 1) as usize,
            line: pre.cursor.line,
            col: (pre.cursor.col - 1) as usize,
        }
    } else {
        pre.cursor
    })
}

pub open spec fn move_right_post(pre: Editor, post: Editor) -> bool {
    &&& only_cursor_changed(pre, post)
    &&& post.cursor == (if pre.cursor.col < pre.cur_line_len() {
        Pos {
            idx: (pre.cursor.idx + 1) as usize,
            line: pre.cursor.line,
            col: (pre.cursor.col + 1) as usize,
        }
    } else {
        pre.cursor
    })
}

pub open spec fn move_up_post(pre: Editor, post: Editor) -> bool {
    &&& only_cursor_changed(pre, post)
    &&& post.cursor == (if pre.cursor.line > 0 {
        vertical_target(pre, pre.cursor.line - 1)
    } else {
        pre.cursor
    })
}

pub open spec fn move_down_post(pre: Editor, post: Editor) -> bool {
    &&& only_cursor_changed(pre, post)
    &&& post.cursor == (if pre.cursor.line + 1 < pre.lines@.len() {
        vertical_target(pre, pre.cursor.line + 1)
    } else {
        pre.cursor
    })
}

pub open spec fn move_start_of_line_post(pre: Editor, post: Editor) -> bool {
    &&& only_cursor_changed(pre, post)
    &&& post.cursor == (Pos {
        idx: pre.cur_line().spec_start() as usize,
        line: pre.cursor.line,
        col: 0,
    })
}

pub open spec fn move_end_of_line_post(pre: Editor, post: Editor) -> bool {
    &&& only_cursor_changed(pre, post)
    &&& post.cursor == (Pos {
        idx: pre.cur_line().spec_end() as usize,
        line: pre.cursor.line,
        col: pre.cur_line_len() as usize,
    })
}

/// Normal mode switches to Insert; any other mode is left alone.
pub open spec fn insert_mode_of(m: Mode) -> Mode {
    if m == Mode::Normal {
        Mode::Insert
    } else {
        m
    }
}

pub open spec fn enter_insert_post(pre: Editor, post: Editor) -> bool {
    post == (Editor { mode: insert_mode_of(pre.mode), ..pre })
}

pub open spec fn enter_insert_after_post(pre: Editor, post: Editor) -> bool {
    if pre.mode == Mode::Normal {
        let cur = if pre.cursor.col < pre.cur_line_len() {
            Pos {
                idx: (pre.cursor.idx + 1) as usize,
                line: pre.cursor.line,
                col: (pre.cursor.col + 1) as usize,
            }
        } else {
            pre.cursor
        };
        post == (Editor { mode: Mode::Insert, cursor: cur, ..pre })
    } else {
        post == pre
    }
}

/// Entering Command mode seeds the ex-command buffer with the colon.
pub open spec fn enter_command_post(pre: Editor, post: Editor) -> bool {
    &&& post == (Editor { mode: Mode::Command, command_buffer: post.command_buffer, ..pre })
    &&& post.command_buffer.buffer@ == pre.command_buffer.buffer@ + ":"@
}

pub open spec fn append_line_post(pre: Editor, post: Editor) -> bool {
    post == (Editor {
        mode: insert_mode_of(pre.mode),
        cursor: Pos {
            idx: pre.cur_line().spec_end() as usize,
            line: pre.cursor.line,
            col: pre.cur_line_len() as usize,
        },
        ..pre
    })
}

pub open spec fn prepend_line_post(pre: Editor, post: Editor) -> bool {
    post == (Editor {
        mode: insert_mode_of(pre.mode),
        cursor: Pos {
            idx: pre.cur_line().spec_start() as usize,
            line: pre.cursor.line,
            col: 0,
        },
        ..pre
    })
}

impl Editor {
    /// One column left, stopping at the start of the line.
    pub fn move_left(&mut self)
        requires
            old(self).wf(),
        ensures
            final(self).wf(),
            move_left_post(*old(self), *final(self)),
    {
        proof {
            lemma_line_content(self.cur_line(), self.buffer@);
        }
        self.cursor.prev(1);
    }

    /// One column right, stopping at the end of the line.
    pub fn move_right(&mut self)
        requires
            old(self).wf(),
        ensures
            final(self).wf(),
            move_right_post(*old(self), *final(self)),
    {
        proof {
            self.lemma_buffer_fits();
            lemma_line_content(self.cur_line(), self.buffer@);
        }
        let llen = self.cur_line_len_exec();
        if self.cursor.col < llen {
            self.cursor.next(1);
        }
    }

    /// One line up if there is one, keeping the column where possible.
    pub fn move_up(&mut self)
        requires
            old(self).wf(),
        ensures
            final(self).wf(),
            move_up_post(*old(self), *final(self)),
    {
        if self.cursor.line > 0 {
            let target = self.cursor.line - 1;
            self.move_vertical(target);
        }
    }

    /// One line down if there is one, keeping the column where possible.
    pub fn move_down(&mut self)
        requires
            old(self).wf(),
        ensures
            final(self).wf(),
            move_down_post(*old(self), *final(self)),
    {
        proof {
            assert(self.lines.len() == self.lines@.len());
        }
        if self.cursor.line + 1 < self.lines.len() {
            let target = self.cursor.line + 1;
            self.move_vertical(target);
        }
    }

    /// Jump to column 0 of the current line.
    pub fn move_start_of_line(&mut self)
        requires
            old(self).wf(),
        ensures
            final(self).wf(),
            move_start_of_line_post(*old(self), *final(self)),
    {
        proof {
            lemma_line_content(self.cur_line(), self.buffer@);
        }
        let line_start = self.lines[self.cursor.line].start();
        self.cursor.col = 0;
        self.cursor.idx = line_start;
    }

    /// Jump to the end of the current line (one past its last character).
    pub fn move_end_of_line(&mut self)
        requires
            old(self).wf(),
        ensures
            final(self).wf(),
            move_end_of_line_post(*old(self), *final(self)),
    {
        proof {
            self.lemma_buffer_fits();
            lemma_line_content(self.cur_line(), self.buffer@);
        }
        let current_line = &self.lines[self.cursor.line];
        let line_end = current_line.end();
        self.cursor.col = line_end - current_line.start();
        self.cursor.idx = line_end;
    }

    /// The buffer, hence every line-index offset, fits the address space.
    proof fn lemma_buffer_fits(&self)
        ensures
            self.buffer@.len() <= usize::MAX,
    {
        assert(self.buffer.len() == self.buffer@.len());
    }

    /// Length in characters of the cursor's line.
    fn cur_line_len_exec(&self) -> (r: usize)
        requires
            self.wf(),
        ensures
            r == self.cur_line_len(),
    {
        proof {
            self.lemma_buffer_fits();
            lemma_line_content(self.cur_line(), self.buffer@);
        }
        let l = &self.lines[self.cursor.line];
        l.end() - l.start()
    }

    /// Clamped move to an existing line, shared by the vertical motions.
    fn move_vertical(&mut self, target: usize)
        requires
            old(self).wf(),
            (target as int) < old(self).lines@.len(),
        ensures
            final(self).wf(),
            only_cursor_changed(*old(self), *final(self)),
            final(self).cursor == vertical_target(*old(self), target as int),
    {
        proof {
            self.lemma_buffer_fits();
            lemma_line_content(self.lines@[target as int], self.buffer@);
        }
        let line = &self.lines[target];
        let llen = line.end() - line.start();
        let column = if self.cursor.col <= llen {
            self.cursor.col
        } else {
            llen
        };
        let line_start_idx = line.start();
        self.cursor = Pos { idx: line_start_idx + column, line: target, col: column };
    }

    /// Leave Insert mode for Normal mode; other modes are unaffected.
    pub fn exit_insert(&mut self)
        requires
            old(self).wf(),
        ensures
            final(self).wf(),
            *final(self) == (Editor {
                mode: if old(self).mode == Mode::Insert { Mode::Normal } else { old(self).mode },
                ..*old(self)
            }),
    {
        if matches!(self.mode, Mode::Insert) {
            self.mode = Mode::Normal;
        }
    }

    fn enter_insert(&mut self)
        requires
            old(self).wf(),
        ensures
            final(self).wf(),
            enter_insert_post(*old(self), *final(self)),
    {
        if matches!(self.mode, Mode::Normal) {
            self.mode = Mode::Insert;
        }
    }

    fn enter_command(&mut self)
        requires
            old(self).wf(),
        ensures
            final(self).wf(),
            enter_command_post(*old(self), *final(self)),
    {
        self.mode = Mode::Command;
        self.command_buffer.input(":");
    }

    /// Abandon Command mode: back to Normal with the ex-command buffer
    /// cleared. No-op in the other modes.
    pub fn exit_command(&mut self)
        requires
            old(self).wf(),
        ensures
            final(self).wf(),
            old(self).mode == Mode::Command ==> *final(self) == (Editor {
                mode: Mode::Normal,
                command_buffer: final(self).command_buffer,
                ..*old(self)
            }) && final(self).command_buffer.buffer@ == Seq::<char>::empty(),
            old(self).mode != Mode::Command ==> *final(self) == *old(self),
    {
        if matches!(self.mode, Mode::Command) {
            self.mode = Mode::Normal;
            self.command_buffer.reset();
        }
    }

    /// Backspace within the ex-command line. No-op outside Command mode.
    pub fn command_delete_char(&mut self)
        requires
            old(self).wf(),
        ensures
            final(self).wf(),
            *final(self) == (Editor { command_buffer: final(self).command_buffer, ..*old(self) }),
            old(self).mode != Mode::Command
                ==> final(self).command_buffer == old(self).command_buffer,
            old(self).mode == Mode::Command ==> {
                let b = old(self).command_buffer.buffer@;
                final(self).command_buffer.buffer@ == (if b.len() > 0 { b.drop_last() } else { b })
            },
    {
        if matches!(self.mode, Mode::Command) {
            self.command_buffer.delete_char();
        }
    }

    /// Dispatch the accumulated ex command and return to Normal mode; the
    /// ex-command buffer is cleared win or lose.
    pub fn command_execute(&mut self) -> (r: ExCmdResult)
        requires
            old(self).wf(),
        ensures
            final(self).wf(),
            *final(self) == (Editor {
                mode: Mode::Normal,
                command_buffer: final(self).command_buffer,
                ..*old(self)
            }),
            final(self).command_buffer.buffer@ == Seq::<char>::empty(),
            match ex_cmd_of(old(self).command_buffer.buffer@) {
                Some(ExCmdType::Quit) => r == ExCmdResult::Quit(true),
                Some(ExCmdType::CancelQuit) => r == ExCmdResult::Quit(false),
                None => r matches ExCmdResult::UnknownCommand(text)
                    && text@ == old(self).command_buffer.buffer@,
            },
    {
        let result = self.command_buffer.execute();
        self.mode = Mode::Normal;
        result
    }

    /// Command-mode text goes into the ex-command buffer verbatim.
    pub fn handle_command(&mut self, input: &str)
        requires
            old(self).wf(),
        ensures
            final(self).wf(),
            *final(self) == (Editor { command_buffer: final(self).command_buffer, ..*old(self) }),
            final(self).command_buffer.buffer@ == old(self).command_buffer.buffer@ + input@,
    {
        self.command_buffer.input(input);
    }

    /// Switch to Insert mode, placing the cursor after the character under
    /// it (if any), so typed text lands behind that character.
    pub fn enter_insert_after(&mut self)
        requires
            old(self).wf(),
        ensures
            final(self).wf(),
            enter_insert_after_post(*old(self), *final(self)),
    {
        if matches!(self.mode, Mode::Normal) {
            proof {
                self.lemma_buffer_fits();
                lemma_line_content(self.cur_line(), self.buffer@);
            }
            let llen = self.cur_line_len_exec();
            if self.cursor.col < llen {
                self.cursor.next(1);
            }
            self.mode = Mode::Insert;
        }
    }

    /// Move to the end of the current line and enter Insert mode.
    pub fn append_line(&mut self)
        requires
            old(self).wf(),
        ensures
            final(self).wf(),
            append_line_post(*old(self), *final(self)),
    {
        self.move_end_of_line();
        self.enter_insert();
    }

    /// Move to the start of the current line and enter Insert mode.
    pub fn prepend_line(&mut self)
        requires
            old(self).wf(),
        ensures
            final(self).wf(),
            prepend_line_post(*old(self), *final(self)),
    {
        self.move_start_of_line();
        self.enter_insert();
    }

    /// Advance the input-timeout clock.
    pub fn update(&mut self, delta: u64)
        requires
            old(self).wf(),
        ensures
            final(self).wf(),
            *final(self) == (Editor { input_buffer: final(self).input_buffer, ..*old(self) }),
            crate::command::ticked(old(self).input_buffer, final(self).input_buffer, delta),
    {
        self.input_buffer.update(delta);
    }

    /// The cursor as a (column, line) pair for the host's display.
    pub fn cursor(&self) -> (r: (usize, usize))
        ensures
            r.0 == self.cursor.col,
            r.1 == self.cursor.line,
    {
        (self.cursor.col, self.cursor.line)
    }

    /// The full cursor position: offset, line and column.
    pub fn cursor_pos(&self) -> (r: Pos)
        ensures
            r == self.cursor,
    {
        self.cursor
    }

    /// The status text the host shows: the mode's name, or the ex command
    /// being typed.
    pub fn status_line(&self) -> (r: &str)
        ensures
            self.mode == Mode::Normal ==> r@ == "NORMAL"@,
            self.mode == Mode::Insert ==> r@ == "INSERT"@,
            self.mode == Mode::Command ==> r@ == self.command_buffer.buffer@,
    {
        match self.mode {
            Mode::Normal => "NORMAL",
            Mode::Insert => "INSERT",
            Mode::Command => self.command_buffer.as_str(),
        }
    }
}


/// Removing the character under the cursor, when the cursor sits on one;
/// at or past the line's end nothing happens.
pub open spec fn delete_char_post(pre: Editor, post: Editor) -> bool {
    if pre.cursor.idx < pre.cur_line().spec_end() {
        &&& post == (Editor {
            buffer: post.buffer,
            lines: post.lines,
            cursor: post.cursor,
            ..pre
        })
        &&& post.buffer@ == cut(pre.buffer@, pre.cursor.idx as int, pre.cursor.idx + 1)
        &&& lines_wf(post.lines@, post.buffer@)
        &&& post.cursor_wf()
        &&& post.cursor == pre.cursor
    } else {
        post == pre
    }
}

/// Removing the cursor's whole line together with one adjacent line
/// terminator: its own for a line with a successor, the preceding one for
/// the last of several lines, and none when it is the only line (the buffer
/// just becomes empty). The cursor lands on the line now occupying the old
/// index with the column clamped, or at the start of the previous line.
pub open spec fn delete_line_post(pre: Editor, post: Editor) -> bool {
    let start = pre.cur_line().spec_start();
    let end = pre.cur_line().spec_end();
    &&& post == (Editor { buffer: post.buffer, lines: post.lines, cursor: post.cursor, ..pre })
    &&& lines_wf(post.lines@, post.buffer@)
    &&& post.cursor_wf()
    &&& if pre.cursor.line + 1 < pre.lines@.len() {
        &&& post.buffer@ == cut(pre.buffer@, start, end + 1)
        &&& post.cursor.line == pre.cursor.line
        &&& post.cursor.col == (if pre.cursor.col <= post.cur_line_len() {
            pre.cursor.col as int
        } else {
            post.cur_line_len()
        })
        &&& post.cursor.idx == post.cur_line().spec_start() + post.cursor.col
    } else if pre.cursor.line > 0 {
        &&& post.buffer@ == cut(pre.buffer@, start - 1, end)
        &&& post.cursor.line == pre.cursor.line - 1
        &&& post.cursor.col == 0
        &&& post.cursor.idx == post.cur_line().spec_start()
    } else {
        &&& post.buffer@ == cut(pre.buffer@, start, end)
        &&& post.cursor == (Pos { idx: 0, line: 0, col: 0 })
    }
}

/// Splitting the current line at the cursor: a line terminator is inserted
/// at the cursor's offset and the cursor moves to column 0 of the line
/// after it.
pub open spec fn new_line_post(pre: Editor, post: Editor) -> bool {
    &&& post == (Editor { buffer: post.buffer, lines: post.lines, cursor: post.cursor, ..pre })
    &&& post.buffer@ == splice(pre.buffer@, pre.cursor.idx as int, seq!['\n'])
    &&& lines_wf(post.lines@, post.buffer@)
    &&& post.cursor_wf()
    &&& post.cursor.idx == pre.cursor.idx + 1
    &&& post.cursor.line == pre.cursor.line + 1
    &&& post.cursor.col == 0
}

/// Splicing text in at the cursor: the cursor's offset advances past the
/// inserted text, the line index moves down by one line per terminator in
/// the text, and text without terminators just pushes the column right.
pub open spec fn insert_post(pre: Editor, post: Editor, text: Seq<char>) -> bool {
    &&& post == (Editor { buffer: post.buffer, lines: post.lines, cursor: post.cursor, ..pre })
    &&& post.buffer@ == splice(pre.buffer@, pre.cursor.idx as int, text)
    &&& lines_wf(post.lines@, post.buffer@)
    &&& post.cursor_wf()
    &&& post.cursor.idx == pre.cursor.idx + text.len()
    &&& post.cursor.line == pre.cursor.line + nl_count(text)
    &&& (forall|k: int| 0 <= k < text.len() ==> text[k] != '\n')
        ==> post.cursor.col == pre.cursor.col + text.len()
}

/// Backspace: the character before the cursor goes away and the cursor
/// moves back over it — one column left, or, from column 0, onto the join
/// point where the two merged lines meet (the end of what was the previous
/// line). At the very start of the buffer nothing happens.
pub open spec fn delete_post(pre: Editor, post: Editor) -> bool {
    if pre.cursor.idx > 0 {
        &&& post == (Editor { buffer: post.buffer, lines: post.lines, cursor: post.cursor, ..pre })
        &&& post.buffer@ == cut(pre.buffer@, pre.cursor.idx - 1, pre.cursor.idx as int)
        &&& lines_wf(post.lines@, post.buffer@)
        &&& post.cursor_wf()
        &&& post.cursor.idx == pre.cursor.idx - 1
        &&& if pre.cursor.col > 0 {
            post.cursor.line == pre.cursor.line
                && post.cursor.col == pre.cursor.col - 1
        } else {
            post.cursor.line == pre.cursor.line - 1
                && post.cursor.col == pre.lines@[pre.cursor.line - 1].spec_len()
        }
    } else {
        post == pre
    }
}

/// Opening a new line below the current one: a terminator is inserted at
/// the line's end, the cursor lands on column 0 of the new empty line, and
/// the editor enters Insert mode (from Normal).
pub open spec fn start_next_line_post(pre: Editor, post: Editor) -> bool {
    let e = pre.cur_line().spec_end();
    &&& post == (Editor {
        mode: insert_mode_of(pre.mode),
        buffer: post.buffer,
        lines: post.lines,
        cursor: post.cursor,
        ..pre
    })
    &&& post.buffer@ == splice(pre.buffer@, e, seq!['\n'])
    &&& lines_wf(post.lines@, post.buffer@)
    &&& post.cursor_wf()
    &&& post.cursor.idx == e + 1
    &&& post.cursor.line == pre.cursor.line + 1
    &&& post.cursor.col == 0
}

/// Opening a new line above the current one: a terminator is inserted at
/// the line's start, the cursor lands on column 0 of the new empty line
/// (which takes over the old line index), and the editor enters Insert
/// mode (from Normal).
pub open spec fn start_prev_line_post(pre: Editor, post: Editor) -> bool {
    let st = pre.cur_line().spec_start();
    &&& post == (Editor {
        mode: insert_mode_of(pre.mode),
        buffer: post.buffer,
        lines: post.lines,
        cursor: post.cursor,
        ..pre
    })
    &&& post.buffer@ == splice(pre.buffer@, st, seq!['\n'])
    &&& lines_wf(post.lines@, post.buffer@)
    &&& post.cursor_wf()
    &&& post.cursor.idx == st
    &&& post.cursor.line == pre.cursor.line
    &&& post.cursor.col == 0
}

/// Remove the characters in `[from, to)`, shifting the rest left.
fn remove_range(v: &mut Vec<char>, from: usize, to: usize)
    requires
        from <= to <= old(v)@.len(),
    ensures
        final(v)@ == cut(old(v)@, from as int, to as int),
{
    let ghost orig = v@;
    let count = to - from;
    let mut k: usize = 0;
    while k < count
        invariant
            from + count <= orig.len(),
            count == to - from,
            0 <= k <= count,
            v@ == orig.subrange(0, from as int) + orig.subrange(from + k, orig.len() as int),
        decreases count - k,
    {
        proof {
            assert(v@.len() == from + (orig.len() - from - k));
        }
        v.remove(from);
        proof {
            assert(v@ =~= orig.subrange(0, from as int)
                + orig.subrange(from + k + 1, orig.len() as int));
        }
        k += 1;
    }
    proof {
        assert(v@ =~= cut(orig, from as int, to as int));
    }
}

impl Editor {
    /// Rebuild the line index and place the cursor at offset `idx`, deriving
    /// its line and column from the index.
    fn reindex(&mut self, idx: usize)
        requires
            idx <= old(self).buffer@.len(),
        ensures
            *final(self) == (Editor {
                lines: final(self).lines,
                cursor: final(self).cursor,
                ..*old(self)
            }),
            lines_wf(final(self).lines@, old(self).buffer@),
            final(self).cursor_wf(),
            final(self).cursor.idx == idx,
    {
        proof {
            self.lemma_buffer_fits();
        }
        self.tokenize();
        let (line, col) = locate(&self.lines, idx, Ghost(self.buffer@));
        self.cursor = Pos { idx, line, col };
    }

    /// Splice `input` into the buffer at the cursor and advance the cursor
    /// past it. Always succeeds; text with line terminators simply yields
    /// several lines.
    pub fn insert(&mut self, input: &str)
        requires
            old(self).wf(),
        ensures
            final(self).wf(),
            insert_post(*old(self), *final(self), input@),
    {
        let ghost orig = self.buffer@;
        let at = self.cursor.idx;
        let n = input.unicode_len();
        let mut i: usize = 0;
        while i < n
            invariant
                n == input@.len(),
                0 <= i <= n,
                at + i <= self.buffer@.len(),
                *self == (Editor { buffer: self.buffer, ..*old(self) }),
                self.buffer@ == orig.subrange(0, at as int) + input@.subrange(0, i as int)
                    + orig.subrange(at as int, orig.len() as int),
                at as int <= orig.len(),
            decreases n - i,
        {
            proof {
                assert(self.buffer.len() == self.buffer@.len());
            }
            self.buffer.insert(at + i, input.get_char(i));
            proof {
                assert(self.buffer@ =~= orig.subrange(0, at as int)
                    + input@.subrange(0, i + 1) + orig.subrange(at as int, orig.len() as int));
            }
            i += 1;
        }
        proof {
            assert(self.buffer.len() == self.buffer@.len());
            assert(input@.subrange(0, n as int) =~= input@);
            assert(self.buffer@ == splice(orig, at as int, input@));
        }
        let ghost olines = old(self).lines@;
        let ghost oline = self.cursor.line as int;
        let new_idx = at + n;
        self.reindex(new_idx);
        proof {
            let nb = self.buffer@;
            let nlines = self.lines@;
            let nline = self.cursor.line as int;
            lemma_pos_line(olines, orig, oline, at as int);
            assert(nb.subrange(0, at + n) =~= orig.subrange(0, at as int) + input@);
            lemma_nl_count_concat(orig.subrange(0, at as int), input@);
            lemma_pos_line(nlines, nb, nline, at + n);
            assert(nline == oline + nl_count(input@));
            if forall|k: int| 0 <= k < input@.len() ==> input@[k] != '\n' {
                // no terminator inserted: same line, column pushed right
                lemma_nl_count_zero(input@);
                let s = olines[oline].spec_start();
                lemma_line_start_count(olines, orig, oline);
                assert(nb.subrange(0, s) =~= orig.subrange(0, s));
                if s > 0 {
                    lemma_chain(olines, orig, oline - 1);
                    assert(nb[s - 1] == orig[s - 1]);
                }
                lemma_start_characterization(nlines, nb, nline, s);
            }
        }
    }

    /// Insert a line terminator at the cursor and move to column 0 of the
    /// line that now follows.
    pub fn new_line(&mut self)
        requires
            old(self).wf(),
        ensures
            final(self).wf(),
            new_line_post(*old(self), *final(self)),
    {
        let ghost orig = self.buffer@;
        let ghost olines = self.lines@;
        let ghost oline = self.cursor.line as int;
        let at = self.cursor.idx;
        proof {
            self.lemma_buffer_fits();
        }
        self.buffer.insert(at, '\n');
        proof {
            assert(self.buffer@ =~= splice(orig, at as int, seq!['\n']));
            assert(self.buffer.len() == self.buffer@.len());
        }
        self.reindex(at + 1);
        proof {
            let nb = self.buffer@;
            let p = at + 1;
            // the new cursor line is one past the old one: one more newline
            // now sits before the cursor
            lemma_pos_line(olines, orig, oline, at as int);
            assert(nb.subrange(0, p as int) =~= orig.subrange(0, at as int) + seq!['\n']);
            lemma_nl_count_concat(orig.subrange(0, at as int), seq!['\n']);
            assert(nl_count(seq!['\n']) == 1) by {
                let s = seq!['\n'];
                assert(s.len() == 1 && s.last() == '\n');
                assert(s.drop_last() =~= Seq::<char>::empty());
                assert(nl_count(Seq::<char>::empty()) == 0);
            }
            lemma_pos_line(self.lines@, nb, self.cursor.line as int, p as int);
            // and the cursor sits right after that newline: column 0
            assert(nb[p - 1] == '\n');
            lemma_col_after_newline(self.lines@, nb, self.cursor.line as int, p as int);
        }
    }

    /// Backspace: remove the character before the cursor, if any.
    pub fn delete(&mut self)
        requires
            old(self).wf(),
        ensures
            final(self).wf(),
            delete_post(*old(self), *final(self)),
    {
        if self.cursor.idx > 0 {
            proof {
                lemma_line_content(self.cur_line(), self.buffer@);
            }
            let ghost orig = self.buffer@;
            let ghost olines = self.lines@;
            let ghost oline = self.cursor.line as int;
            let ghost ocol = self.cursor.col as int;
            let at = self.cursor.idx - 1;
            self.buffer.remove(at);
            proof {
                assert(self.buffer@ =~= cut(orig, at as int, at + 1));
            }
            self.reindex(at);
            proof {
                let nb = self.buffer@;
                let nlines = self.lines@;
                let nline = self.cursor.line as int;
                assert(nb.subrange(0, at as int) =~= orig.subrange(0, at as int));
                lemma_pos_line(nlines, nb, nline, at as int);
                lemma_line_start_count(olines, orig, oline);
                let s = olines[oline].spec_start();
                if ocol > 0 {
                    // same line, one column left: the prefix before the
                    // cursor did not change
                    lemma_pos_line(olines, orig, oline, at as int);
                    assert(nline == oline);
                    assert(nb.subrange(0, s) =~= orig.subrange(0, s));
                    if s > 0 {
                        lemma_chain(olines, orig, oline - 1);
                        assert(nb[s - 1] == orig[s - 1]);
                    }
                    lemma_start_characterization(nlines, nb, nline, s);
                } else {
                    // at column 0 the removed character is the previous
                    // line's terminator: the lines merge and the cursor
                    // lands where they meet
                    lemma_chain(olines, orig, oline - 1);
                    assert(at as int == s - 1);
                    assert(orig[s - 1] == '\n');
                    lemma_nl_count_split(orig, 0, s - 1, s);
                    lemma_nl_count_single(orig, s - 1);
                    assert(nl_count(orig.subrange(0, s - 1)) == oline - 1);
                    assert(nline == oline - 1);
                    let s2 = olines[oline - 1].spec_start();
                    lemma_line_start_count(olines, orig, oline - 1);
                    lemma_line_content(olines[oline - 1], orig);
                    assert(nb.subrange(0, s2) =~= orig.subrange(0, s2));
                    if s2 > 0 {
                        lemma_chain(olines, orig, oline - 2);
                        assert(nb[s2 - 1] == orig[s2 - 1]);
                    }
                    lemma_start_characterization(nlines, nb, nline, s2);
                    assert(olines[oline - 1].spec_end() == s - 1);
                }
            }
        }
    }

    /// Remove the character under the cursor, when the cursor is within the
    /// line's content; at or past the line end nothing happens.
    pub fn delete_char(&mut self)
        requires
            old(self).wf(),
        ensures
            final(self).wf(),
            delete_char_post(*old(self), *final(self)),
    {
        let llen = self.cur_line_len_exec();
        if self.cursor.col < llen {
            proof {
                lemma_line_content(self.cur_line(), self.buffer@);
            }
            let at = self.cursor.idx;
            let ghost orig = self.buffer@;
            let ghost olines = self.lines@;
            let ghost oline = self.cursor.line as int;
            self.buffer.remove(at);
            proof {
                assert(self.buffer@ =~= cut(orig, at as int, at + 1));
            }
            self.reindex(at);
            proof {
                // the prefix before the cursor is untouched, so the cursor
                // keeps its line and column
                let nb = self.buffer@;
                let nlines = self.lines@;
                let nline = self.cursor.line as int;
                assert(nb.subrange(0, at as int) =~= orig.subrange(0, at as int));
                lemma_pos_line(olines, orig, oline, at as int);
                lemma_pos_line(nlines, nb, nline, at as int);
                let s = olines[oline].spec_start();
                lemma_line_start_count(olines, orig, oline);
                assert(nb.subrange(0, s) =~= orig.subrange(0, s));
                if s > 0 {
                    lemma_chain(olines, orig, oline - 1);
                    assert(nb[s - 1] == orig[s - 1]);
                }
                lemma_start_characterization(nlines, nb, nline, s);
            }
        }
    }

    /// Remove the cursor's whole line together with one adjacent line
    /// terminator (see `delete_line_post` for the three cases).
    pub fn delete_line(&mut self)
        requires
            old(self).wf(),
        ensures
            final(self).wf(),
            delete_line_post(*old(self), *final(self)),
    {
        proof {
            self.lemma_buffer_fits();
            lemma_line_content(self.cur_line(), self.buffer@);
            assert(self.lines.len() == self.lines@.len());
        }
        let ghost orig = self.buffer@;
        let ghost olines = self.lines@;
        let ghost oline = self.cursor.line as int;
        let start = self.lines[self.cursor.line].start();
        let end = self.lines[self.cursor.line].end();
        if self.cursor.line + 1 < self.lines.len() {
            proof {
                lemma_chain(olines, orig, oline);
                lemma_lines_count(olines, orig);
                assert(orig.subrange(0, orig.len() as int) =~= orig);
                // the removed span [start, end + 1) holds exactly one newline
                lemma_nl_count_split(orig, 0, start as int, orig.len() as int);
                lemma_nl_count_split(orig, start as int, end + 1, orig.len() as int);
                lemma_nl_count_split(orig, start as int, end as int, end + 1);
                assert(nl_count(orig.subrange(start as int, end as int)) == 0) by {
                    assert forall|k: int| 0 <= k < orig.subrange(start as int, end as int).len()
                        implies orig.subrange(start as int, end as int)[k] != '\n' by {
                        assert(orig.subrange(start as int, end as int)[k] == orig[start + k]);
                    }
                    lemma_nl_count_zero(orig.subrange(start as int, end as int));
                }
                lemma_nl_count_single(orig, end as int);
            }
            remove_range(&mut self.buffer, start, end + 1);
            self.tokenize();
            proof {
                let nb = self.buffer@;
                assert(nl_count(nb) == nl_count(orig) - 1) by {
                    lemma_nl_count_concat(
                        orig.subrange(0, start as int),
                        orig.subrange(end + 1, orig.len() as int),
                    );
                }
                lemma_lines_count(self.lines@, nb);
                assert(self.lines@.len() == olines.len() - 1);
                lemma_line_content(self.lines@[oline], nb);
                assert(self.lines.len() == self.lines@.len());
            }
            let l = &self.lines[self.cursor.line];
            let llen = l.end() - l.start();
            let col = if self.cursor.col <= llen {
                self.cursor.col
            } else {
                llen
            };
            let st = l.start();
            self.cursor = Pos { idx: st + col, line: self.cursor.line, col };
        } else if self.cursor.line > 0 {
            proof {
                lemma_chain(olines, orig, oline - 1);
                lemma_lines_count(olines, orig);
                assert(orig.subrange(0, orig.len() as int) =~= orig);
                assert(end as int == orig.len());
                assert(orig[start - 1] == '\n');
                // the removed span [start - 1, end) holds exactly one newline
                lemma_nl_count_split(orig, 0, start - 1, orig.len() as int);
                lemma_nl_count_split(orig, start - 1, start as int, orig.len() as int);
                lemma_nl_count_single(orig, start - 1);
                assert(nl_count(orig.subrange(start as int, orig.len() as int)) == 0) by {
                    assert forall|k: int|
                        0 <= k < orig.subrange(start as int, orig.len() as int).len()
                        implies orig.subrange(start as int, orig.len() as int)[k] != '\n' by {
                        assert(orig.subrange(start as int, orig.len() as int)[k]
                            == orig[start + k]);
                    }
                    lemma_nl_count_zero(orig.subrange(start as int, orig.len() as int));
                }
            }
            remove_range(&mut self.buffer, start - 1, end);
            self.tokenize();
            proof {
                let nb = self.buffer@;
                assert(nl_count(nb) == nl_count(orig) - 1) by {
                    lemma_nl_count_concat(
                        orig.subrange(0, start - 1),
                        orig.subrange(end as int, orig.len() as int),
                    );
                    assert(orig.subrange(end as int, orig.len() as int)
                        =~= Seq::<char>::empty());
                }
                lemma_lines_count(self.lines@, nb);
                assert(self.lines@.len() == olines.len() - 1);
                lemma_line_content(self.lines@[oline - 1], nb);
                assert(self.lines.len() == self.lines@.len());
            }
            let l = &self.lines[self.cursor.line - 1];
            let st = l.start();
            let target = self.cursor.line - 1;
            self.cursor = Pos { idx: st, line: target, col: 0 };
        } else {
            remove_range(&mut self.buffer, start, end);
            self.tokenize();
            proof {
                lemma_line_content(self.lines@[0], self.buffer@);
            }
            self.cursor = Pos { idx: 0, line: 0, col: 0 };
        }
    }

    /// Open a new line below the current one and enter Insert mode.
    pub fn start_next_line(&mut self)
        requires
            old(self).wf(),
        ensures
            final(self).wf(),
            start_next_line_post(*old(self), *final(self)),
    {
        proof {
            self.lemma_buffer_fits();
            lemma_line_content(self.cur_line(), self.buffer@);
        }
        let ghost orig = self.buffer@;
        let ghost olines = self.lines@;
        let ghost oline = self.cursor.line as int;
        let line_end = self.lines[self.cursor.line].end();
        self.buffer.insert(line_end, '\n');
        proof {
            assert(self.buffer@ =~= splice(orig, line_end as int, seq!['\n']));
            assert(self.buffer.len() == self.buffer@.len());
        }
        self.reindex(line_end + 1);
        proof {
            let nb = self.buffer@;
            let p = line_end + 1;
            lemma_pos_line(olines, orig, oline, line_end as int);
            assert(nb.subrange(0, p as int) =~= orig.subrange(0, line_end as int) + seq!['\n']);
            lemma_nl_count_concat(orig.subrange(0, line_end as int), seq!['\n']);
            assert(nl_count(seq!['\n']) == 1) by {
                let s = seq!['\n'];
                assert(s.len() == 1 && s.last() == '\n');
                assert(s.drop_last() =~= Seq::<char>::empty());
                assert(nl_count(Seq::<char>::empty()) == 0);
            }
            lemma_pos_line(self.lines@, nb, self.cursor.line as int, p as int);
            assert(nb[p - 1] == '\n');
            lemma_col_after_newline(self.lines@, nb, self.cursor.line as int, p as int);
        }
        self.enter_insert();
    }

    /// Open a new line above the current one and enter Insert mode.
    pub fn start_prev_line(&mut self)
        requires
            old(self).wf(),
        ensures
            final(self).wf(),
            start_prev_line_post(*old(self), *final(self)),
    {
        proof {
            self.lemma_buffer_fits();
            lemma_line_content(self.cur_line(), self.buffer@);
        }
        let ghost orig = self.buffer@;
        let ghost olines = self.lines@;
        let ghost oline = self.cursor.line as int;
        let line_start = self.lines[self.cursor.line].start();
        self.buffer.insert(line_start, '\n');
        proof {
            assert(self.buffer@ =~= splice(orig, line_start as int, seq!['\n']));
        }
        self.reindex(line_start);
        proof {
            let nb = self.buffer@;
            let p = line_start as int;
            lemma_line_start_count(olines, orig, oline);
            assert(nb.subrange(0, p) =~= orig.subrange(0, p));
            lemma_pos_line(self.lines@, nb, self.cursor.line as int, p);
            // column 0: either at the buffer start or right after the
            // newline that ended the previous line
            if p > 0 {
                lemma_chain(olines, orig, oline - 1);
                assert(nb[p - 1] == orig[p - 1]);
                lemma_col_after_newline(self.lines@, nb, self.cursor.line as int, p);
            }
        }
        self.enter_insert();
    }
}


/// The cursor position at the first character of token `j` of line
/// `line_idx`.
pub open spec fn token_start_target(lines: Seq<Line>, line_idx: int, j: int) -> Pos {
    let l = lines[line_idx];
    Pos {
        idx: l.tokens@[j].spec_idx() as usize,
        line: line_idx as usize,
        col: (l.tokens@[j].spec_idx() - l.spec_start()) as usize,
    }
}

/// The cursor position at the last character of token `j` of line
/// `line_idx`.
pub open spec fn token_end_target(lines: Seq<Line>, line_idx: int, j: int) -> Pos {
    let l = lines[line_idx];
    Pos {
        idx: (l.tokens@[j].spec_end() - 1) as usize,
        line: line_idx as usize,
        col: (l.tokens@[j].spec_end() - 1 - l.spec_start()) as usize,
    }
}

/// Moving to the start of the next word: the first Word token after the
/// cursor on its line, else the first token of the next line, else a plain
/// downward move (which at the last line does nothing).
pub open spec fn next_word_post(pre: Editor, post: Editor) -> bool {
    let toks = pre.cur_line().tokens@;
    let cl = pre.cursor.line as int;
    &&& only_cursor_changed(pre, post)
    &&& match first_after(toks, 0, pre.cursor.idx as int) {
        Some(j) => post.cursor == token_start_target(pre.lines@, cl, j),
        None => {
            if cl + 1 < pre.lines@.len() {
                if pre.lines@[cl + 1].tokens@.len() > 0 {
                    post.cursor == token_start_target(pre.lines@, cl + 1, 0)
                } else {
                    post.cursor == vertical_target(pre, cl + 1)
                }
            } else {
                post.cursor == pre.cursor
            }
        },
    }
}

/// Moving to the start of the previous word: the word the cursor is inside
/// (when it does not start at the cursor), else the nearest word wholly
/// behind the cursor on its line, else the last token of the previous
/// line, else a plain upward move (which at the first line does nothing).
pub open spec fn prev_word_post(pre: Editor, post: Editor) -> bool {
    let toks = pre.cur_line().tokens@;
    let cl = pre.cursor.line as int;
    let idx = pre.cursor.idx as int;
    let cw = first_touching(toks, 0, idx);
    let chosen = match cw {
        Some(j) => if toks[j].spec_idx() < idx {
            Some(j)
        } else {
            last_ending_by(toks, toks.len() - 1, idx)
        },
        None => last_ending_by(toks, toks.len() - 1, idx),
    };
    &&& only_cursor_changed(pre, post)
    &&& match chosen {
        Some(j) => post.cursor == token_start_target(pre.lines@, cl, j),
        None => {
            if cl > 0 {
                if pre.lines@[cl - 1].tokens@.len() > 0 {
                    post.cursor == token_start_target(
                        pre.lines@,
                        cl - 1,
                        pre.lines@[cl - 1].tokens@.len() - 1,
                    )
                } else {
                    post.cursor == vertical_target(pre, cl - 1)
                }
            } else {
                post.cursor == pre.cursor
            }
        },
    }
}

/// Moving to the end of the current or next word: the word the cursor is
/// inside when its last character is still ahead, else the first word after
/// the cursor on its line, else the first token of the next line, else a
/// plain downward move.
pub open spec fn next_word_end_post(pre: Editor, post: Editor) -> bool {
    let toks = pre.cur_line().tokens@;
    let cl = pre.cursor.line as int;
    let idx = pre.cursor.idx as int;
    let cw = first_touching(toks, 0, idx);
    let chosen = match cw {
        Some(j) => if toks[j].spec_end() > idx + 1 {
            Some(j)
        } else {
            first_after(toks, 0, idx)
        },
        None => first_after(toks, 0, idx),
    };
    &&& only_cursor_changed(pre, post)
    &&& match chosen {
        Some(j) => post.cursor == token_end_target(pre.lines@, cl, j),
        None => {
            if cl + 1 < pre.lines@.len() {
                if pre.lines@[cl + 1].tokens@.len() > 0 {
                    post.cursor == token_end_target(pre.lines@, cl + 1, 0)
                } else {
                    post.cursor == vertical_target(pre, cl + 1)
                }
            } else {
                post.cursor == pre.cursor
            }
        },
    }
}

impl Editor {
    /// Every token of line `li` fits the address space and lies within the
    /// line's range.
    proof fn lemma_line_tokens(&self, li: int)
        requires
            self.wf(),
            0 <= li < self.lines@.len(),
        ensures
            tokens_fit(self.lines@[li].tokens@),
            self.lines@[li].spec_end() <= usize::MAX,
            forall|j: int| 0 <= j < self.lines@[li].tokens@.len()
                ==> self.lines@[li].spec_start()
                    <= (#[trigger] self.lines@[li].tokens@[j]).spec_idx()
                    && self.lines@[li].tokens@[j].spec_end() <= self.lines@[li].spec_end()
                    && self.lines@[li].tokens@[j].spec_len() >= 1,
    {
        self.lemma_buffer_fits();
        let l = self.lines@[li];
        lemma_line_content(l, self.buffer@);
        lemma_tokens_end_ge(l.tokens@, l.spec_start(), self.buffer@);
        assert forall|j: int| 0 <= j < l.tokens@.len()
            implies l.spec_start() <= (#[trigger] l.tokens@[j]).spec_idx()
                && l.tokens@[j].spec_end() <= l.spec_end()
                && l.tokens@[j].spec_len() >= 1 by {
            assert(l.tokens@[j].wf(self.buffer@));
        }
        assert forall|j: int| 0 <= j < l.tokens@.len()
            implies (#[trigger] l.tokens@[j]).spec_end() <= usize::MAX by {}
    }

    /// Move to the start of the next word.
    pub fn next_word(&mut self)
        requires
            old(self).wf(),
        ensures
            final(self).wf(),
            next_word_post(*old(self), *final(self)),
    {
        proof {
            self.lemma_line_tokens(self.cursor.line as int);
            lemma_first_after_range(
                self.cur_line().tokens@,
                0,
                self.cursor.idx as int,
            );
        }
        let cl = self.cursor.line;
        let m = self.lines[cl].next_word(self.cursor.idx);
        match m {
            Some(tok) => {
                let p = tok.start_pos(&self.lines[cl], cl);
                self.cursor = p;
            },
            None => {
                proof {
                    assert(self.lines.len() == self.lines@.len());
                }
                let mut moved = false;
                if cl + 1 < self.lines.len() {
                    proof {
                        self.lemma_line_tokens(cl + 1);
                    }
                    if self.lines[cl + 1].tokens.len() > 0 {
                        let tok = self.lines[cl + 1].tokens[0];
                        let p = tok.start_pos(&self.lines[cl + 1], cl + 1);
                        self.cursor = p;
                        moved = true;
                    }
                }
                if !moved {
                    self.move_down();
                }
            },
        }
    }

    /// Move to the start of the previous word.
    pub fn prev_word(&mut self)
        requires
            old(self).wf(),
        ensures
            final(self).wf(),
            prev_word_post(*old(self), *final(self)),
    {
        proof {
            self.lemma_line_tokens(self.cursor.line as int);
            lemma_first_touching_range(self.cur_line().tokens@, 0, self.cursor.idx as int);
            lemma_last_ending_by_range(
                self.cur_line().tokens@,
                self.cur_line().tokens@.len() - 1,
                self.cursor.idx as int,
            );
        }
        let cl = self.cursor.line;
        let idx = self.cursor.idx;
        let cw = self.lines[cl].current_word(idx);
        let mut chosen: Option<Token> = None;
        if let Some(t) = cw {
            if t.idx() < idx {
                chosen = Some(t);
            }
        }
        if chosen.is_none() {
            chosen = self.lines[cl].prev_word(idx);
        }
        match chosen {
            Some(tok) => {
                let p = tok.start_pos(&self.lines[cl], cl);
                self.cursor = p;
            },
            None => {
                let mut moved = false;
                if cl > 0 {
                    proof {
                        self.lemma_line_tokens(cl - 1);
                    }
                    let ntoks = self.lines[cl - 1].tokens.len();
                    if ntoks > 0 {
                        let tok = self.lines[cl - 1].tokens[ntoks - 1];
                        let p = tok.start_pos(&self.lines[cl - 1], cl - 1);
                        self.cursor = p;
                        moved = true;
                    }
                }
                if !moved {
                    self.move_up();
                }
            },
        }
    }

    /// Move to the last character of the current word, or of the next one
    /// when the cursor already sits on (or past) that character.
    pub fn next_word_end(&mut self)
        requires
            old(self).wf(),
        ensures
            final(self).wf(),
            next_word_end_post(*old(self), *final(self)),
    {
        proof {
            self.lemma_line_tokens(self.cursor.line as int);
            lemma_first_touching_range(self.cur_line().tokens@, 0, self.cursor.idx as int);
            lemma_first_after_range(self.cur_line().tokens@, 0, self.cursor.idx as int);
        }
        let cl = self.cursor.line;
        let idx = self.cursor.idx;
        let cw = self.lines[cl].current_word(idx);
        let mut chosen: Option<Token> = None;
        if let Some(t) = cw {
            let e = t.idx() + t.len();
            if e - 1 > idx {
                chosen = Some(t);
            }
        }
        if chosen.is_none() {
            chosen = self.lines[cl].next_word(idx);
        }
        match chosen {
            Some(tok) => {
                let p = tok.end_pos(&self.lines[cl], cl);
                self.cursor = p;
            },
            None => {
                proof {
                    assert(self.lines.len() == self.lines@.len());
                }
                let mut moved = false;
                if cl + 1 < self.lines.len() {
                    proof {
                        self.lemma_line_tokens(cl + 1);
                    }
                    if self.lines[cl + 1].tokens.len() > 0 {
                        let tok = self.lines[cl + 1].tokens[0];
                        let p = tok.end_pos(&self.lines[cl + 1], cl + 1);
                        self.cursor = p;
                        moved = true;
                    }
                }
                if !moved {
                    self.move_down();
                }
            },
        }
    }
}


/// How a single application of `cmd` relates the editor before and after:
/// exactly the corresponding operation's contract.
pub open spec fn cmd_step(pre: Editor, post: Editor, cmd: CommandType) -> bool {
    match cmd {
        CommandType::EnterInsert => enter_insert_post(pre, post),
        CommandType::EnterInsertAfter => enter_insert_after_post(pre, post),
        CommandType::EnterCommand => enter_command_post(pre, post),
        CommandType::MoveLeft => move_left_post(pre, post),
        CommandType::MoveDown => move_down_post(pre, post),
        CommandType::MoveRight => move_right_post(pre, post),
        CommandType::MoveUp => move_up_post(pre, post),
        CommandType::MoveEndOfLine => move_end_of_line_post(pre, post),
        CommandType::MoveStartOfLine => move_start_of_line_post(pre, post),
        CommandType::NextWord => next_word_post(pre, post),
        CommandType::NextWordEnd => next_word_end_post(pre, post),
        CommandType::PrevWord => prev_word_post(pre, post),
        CommandType::StartNextLine => start_next_line_post(pre, post),
        CommandType::StartPrevLine => start_prev_line_post(pre, post),
        CommandType::AppendLine => append_line_post(pre, post),
        CommandType::PrependLine => prepend_line_post(pre, post),
        CommandType::DeleteLine => delete_line_post(pre, post),
        CommandType::DeleteChar => delete_char_post(pre, post),
    }
}

/// `post` is reachable from `pre` by applying `cmd` exactly `n` times.
pub open spec fn cmd_steps(pre: Editor, post: Editor, cmd: CommandType, n: nat) -> bool
    decreases n,
{
    if n == 0 {
        post == pre
    } else {
        exists|mid: Editor| cmd_step(pre, mid, cmd) && cmd_steps(mid, post, cmd, (n - 1) as nat)
    }
}

/// Extending a chain of steps by one more step at its end.
proof fn lemma_cmd_steps_snoc(pre: Editor, mid: Editor, post: Editor, cmd: CommandType, n: nat)
    requires
        cmd_steps(pre, mid, cmd, n),
        cmd_step(mid, post, cmd),
    ensures
        cmd_steps(pre, post, cmd, n + 1),
    decreases n,
{
    if n == 0 {
        assert(cmd_step(pre, post, cmd) && cmd_steps(post, post, cmd, 0));
    } else {
        let m = choose|m: Editor| cmd_step(pre, m, cmd) && cmd_steps(m, mid, cmd, (n - 1) as nat);
        lemma_cmd_steps_snoc(m, mid, post, cmd, (n - 1) as nat);
        assert(cmd_step(pre, m, cmd) && cmd_steps(m, post, cmd, n));
    }
}

impl Editor {
    /// Apply one resolved command to the editor.
    fn apply_cmd(&mut self, cmd: CommandType)
        requires
            old(self).wf(),
        ensures
            final(self).wf(),
            cmd_step(*old(self), *final(self), cmd),
    {
        match cmd {
            CommandType::EnterInsert => self.enter_insert(),
            CommandType::EnterInsertAfter => self.enter_insert_after(),
            CommandType::EnterCommand => self.enter_command(),
            CommandType::MoveLeft => self.move_left(),
            CommandType::MoveDown => self.move_down(),
            CommandType::MoveRight => self.move_right(),
            CommandType::MoveUp => self.move_up(),
            CommandType::MoveEndOfLine => self.move_end_of_line(),
            CommandType::MoveStartOfLine => self.move_start_of_line(),
            CommandType::NextWord => self.next_word(),
            CommandType::NextWordEnd => self.next_word_end(),
            CommandType::PrevWord => self.prev_word(),
            CommandType::StartNextLine => self.start_next_line(),
            CommandType::StartPrevLine => self.start_prev_line(),
            CommandType::AppendLine => self.append_line(),
            CommandType::PrependLine => self.prepend_line(),
            CommandType::DeleteLine => self.delete_line(),
            CommandType::DeleteChar => self.delete_char(),
        }
    }

    /// Route one normal-mode input chunk through the command recognizer; if
    /// it resolves to an action, apply that action's command `repeat` times.
    /// Returns whether a command fired.
    pub fn handle_normal(&mut self, input: &str) -> (r: bool)
        requires
            old(self).wf(),
        ensures
            final(self).wf(),
            exists|a: Option<Action>| {
                &&& #[trigger] checked(old(self).input_buffer, final(self).input_buffer, input@, a)
                &&& r == (a is Some)
                &&& match a {
                    None => *final(self) == (Editor {
                        input_buffer: final(self).input_buffer,
                        ..*old(self)
                    }),
                    Some(act) => cmd_steps(
                        Editor { input_buffer: final(self).input_buffer, ..*old(self) },
                        *final(self),
                        act.cmd,
                        act.repeat as nat,
                    ),
                }
            },
    {
        let res = self.input_buffer.check(input);
        match res {
            Some(action) => {
                let ghost start = *self;
                let mut k: usize = 0;
                while k < action.repeat
                    invariant
                        0 <= k <= action.repeat,
                        self.wf(),
                        self.input_buffer == start.input_buffer,
                        cmd_steps(start, *self, action.cmd, k as nat),
                    decreases action.repeat - k,
                {
                    let ghost before = *self;
                    self.apply_cmd(action.cmd);
                    proof {
                        lemma_cmd_steps_snoc(start, before, *self, action.cmd, k as nat);
                        assert(self.input_buffer == before.input_buffer);
                    }
                    k += 1;
                }
                proof {
                    assert(checked(
                        old(self).input_buffer,
                        self.input_buffer,
                        input@,
                        Some(action),
                    ));
                }
                true
            },
            None => {
                proof {
                    assert(checked(old(self).input_buffer, self.input_buffer, input@, {
                        let a: Option<Action> = None;
                        a
                    }));
                }
                false
            },
        }
    }
}


/// Relies on String::push: appends exactly the given character and changes
/// nothing else.
#[verifier::external_body]
fn push_char(s: &mut String, c: char)
    ensures
        final(s)@ == old(s)@.push(c),
{
    s.push(c);
}

impl Editor {
    /// How many lines the buffer currently has (always at least one).
    pub fn line_count(&self) -> (r: usize)
        requires
            self.wf(),
        ensures
            r == self.lines@.len(),
            r >= 1,
    {
        self.lines.len()
    }

    /// How many tokens (word and space runs) line `line` carries.
    pub fn word_count(&self, line: usize) -> (r: usize)
        requires
            self.wf(),
            (line as int) < self.lines@.len(),
        ensures
            r == self.lines@[line as int].tokens@.len(),
    {
        self.lines[line].tokens.len()
    }

    /// The text of token `token` of line `line`: exactly the characters the
    /// token covers in the buffer.
    pub fn word(&self, line: usize, token: usize) -> (r: String)
        requires
            self.wf(),
            (line as int) < self.lines@.len(),
            (token as int) < self.lines@[line as int].tokens@.len(),
        ensures
            r@ == self.buffer@.subrange(
                self.lines@[line as int].tokens@[token as int].spec_idx(),
                self.lines@[line as int].tokens@[token as int].spec_end(),
            ),
    {
        proof {
            self.lemma_line_tokens(line as int);
            lemma_line_content(self.lines@[line as int], self.buffer@);
            assert(self.buffer.len() == self.buffer@.len());
        }
        let t = self.lines[line].tokens[token];
        let start = t.idx();
        let len = t.len();
        let mut out = String::new();
        let mut k: usize = 0;
        while k < len
            invariant
                self.wf(),
                (line as int) < self.lines@.len(),
                (token as int) < self.lines@[line as int].tokens@.len(),
                self.buffer@.len() <= usize::MAX,
                start + len <= self.buffer@.len(),
                start == self.lines@[line as int].tokens@[token as int].spec_idx(),
                len == self.lines@[line as int].tokens@[token as int].spec_len(),
                0 <= k <= len,
                out@ == self.buffer@.subrange(start as int, start + k),
            decreases len - k,
        {
            push_char(&mut out, self.buffer[start + k]);
            proof {
                assert(out@ =~= self.buffer@.subrange(start as int, start + k + 1));
            }
            k += 1;
        }
        out
    }
}

/// Tokenization round trip for a whole editor: joining every line's token
/// text, with one line terminator between consecutive lines, yields the
/// buffer exactly. Since every operation keeps the editor well formed, this
/// holds after any sequence of edits.
pub proof fn lemma_editor_round_trip(ed: Editor)
    requires
        ed.wf(),
    ensures
        lines_text(ed.lines@, ed.buffer@) == ed.buffer@,
{
    lemma_round_trip(ed.lines@, ed.buffer@);
}

/// At the buffer's bottom boundary the next-word motion is a fixed point:
/// on the last line with no word after the cursor, it leaves the editor
/// unchanged, so repeating it stabilizes instead of running away.
pub proof fn lemma_next_word_fixed_at_end(pre: Editor, post: Editor)
    requires
        pre.wf(),
        next_word_post(pre, post),
        first_after(pre.cur_line().tokens@, 0, pre.cursor.idx as int) is None,
        pre.cursor.line + 1 == pre.lines@.len(),
    ensures
        post == pre,
{
}

/// At the buffer's top boundary the previous-word motion is a fixed point:
/// on the first line with no word at or before the cursor, it leaves the
/// editor unchanged.
pub proof fn lemma_prev_word_fixed_at_start(pre: Editor, post: Editor)
    requires
        pre.wf(),
        prev_word_post(pre, post),
        pre.cursor.line == 0,
        ({
            let toks = pre.cur_line().tokens@;
            let idx = pre.cursor.idx as int;
            &&& match first_touching(toks, 0, idx) {
                Some(j) => toks[j].spec_idx() >= idx,
                None => true,
            }
            &&& last_ending_by(toks, toks.len() - 1, idx) is None
        }),
    ensures
        post == pre,
{
}


/// A repeat count folds into vertical motion exactly: applying the down
/// motion `n` times moves the cursor down `n` lines, clamped to the last
/// line, and never touches the text.
pub proof fn lemma_move_down_repeat(pre: Editor, post: Editor, n: nat)
    requires
        pre.wf(),
        cmd_steps(pre, post, CommandType::MoveDown, n),
    ensures
        post.wf(),
        post == (Editor { cursor: post.cursor, ..pre }),
        post.cursor.line as int == (if pre.cursor.line + n < pre.lines@.len() {
            pre.cursor.line + n
        } else {
            pre.lines@.len() - 1
        }),
    decreases n,
{
    if n > 0 {
        let mid = choose|mid: Editor|
            cmd_step(pre, mid, CommandType::MoveDown)
                && cmd_steps(mid, post, CommandType::MoveDown, (n - 1) as nat);
        assert(pre.buffer.len() == pre.buffer@.len());
        assert(pre.lines.len() == pre.lines@.len());
        if pre.cursor.line + 1 < pre.lines@.len() {
            let l = pre.lines@[pre.cursor.line + 1];
            lemma_line_content(l, pre.buffer@);
            let c = if pre.cursor.col <= l.spec_len() {
                pre.cursor.col as int
            } else {
                l.spec_len()
            };
            assert(0 <= c <= l.spec_len());
            assert(0 <= l.spec_start() + c <= pre.buffer@.len());
            assert(mid.cursor == vertical_target(pre, pre.cursor.line + 1));
            assert(mid.cursor.idx == l.spec_start() + c);
            assert(mid.cursor.col == c);
            assert(mid.cursor.line == pre.cursor.line + 1);
            assert(mid.lines@ == pre.lines@ && mid.buffer@ == pre.buffer@);
            assert(mid.wf());
        } else {
            assert(mid == pre);
        }
        lemma_move_down_repeat(mid, post, (n - 1) as nat);
    }
}

} // verus!
