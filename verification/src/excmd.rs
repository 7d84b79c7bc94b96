//! The ex-command buffer: accumulates a colon-prefixed command line (the
//! leading ':' included), dispatches it on demand against the fixed table of
//! ex commands, and reports unknown text verbatim for user feedback.

use vstd::prelude::*;
use vstd::string::StringExecFns;

verus! {

#[derive(PartialEq, Debug)]
pub enum ExCmdResult {
    Command(ExCmdType),
    UnknownCommand(String),
    Quit(bool),
}

#[derive(Clone, Copy, PartialEq, Eq, Structural, Debug)]
pub enum ExCmdType {
    Quit,
    CancelQuit,
}

/// The fixed ex-command table: the full accumulated text (colon included)
/// must match an entry exactly.
pub open spec fn ex_cmd_of(s: Seq<char>) -> Option<ExCmdType> {
    if s == ":q"@ {
        Some(ExCmdType::Quit)
    } else if s == ":cq"@ {
        Some(ExCmdType::CancelQuit)
    } else {
        None
    }
}

pub struct CmdBuffer {
    pub buffer: String,
}

impl CmdBuffer {
    pub fn new() -> (r: CmdBuffer)
        ensures
            r.buffer@ == Seq::<char>::empty(),
    {
        CmdBuffer { buffer: String::new() }
    }

    /// Append raw text verbatim.
    pub fn input(&mut self, input: &str)
        ensures
            final(self).buffer@ == old(self).buffer@ + input@,
    {
        self.buffer.append(input);
    }

    /// Dispatch the accumulated text: `:q` quits, `:cq` cancel-quits, any
    /// other text is reported back unchanged. The buffer is cleared either
    /// way.
    pub fn execute(&mut self) -> (r: ExCmdResult)
        ensures
            final(self).buffer@ == Seq::<char>::empty(),
            match ex_cmd_of(old(self).buffer@) {
                Some(ExCmdType::Quit) => r == ExCmdResult::Quit(true),
                Some(ExCmdType::CancelQuit) => r == ExCmdResult::Quit(false),
                None => r matches ExCmdResult::UnknownCommand(text)
                    && text@ == old(self).buffer@,
            },
    {
        let result = if self.buffer == String::from_str(":q") {
            ExCmdResult::Quit(true)
        } else if self.buffer == String::from_str(":cq") {
            ExCmdResult::Quit(false)
        } else {
            ExCmdResult::UnknownCommand(self.buffer.clone())
        };
        self.reset();
        result
    }

    /// Backspace: drop the last character; no-op when empty.
    pub fn delete_char(&mut self)
        ensures
            old(self).buffer@.len() == 0 ==> final(self).buffer@ == old(self).buffer@,
            old(self).buffer@.len() > 0 ==> final(self).buffer@ == old(self).buffer@.drop_last(),
    {
        let n = self.buffer.as_str().unicode_len();
        if n > 0 {
            let shortened = self.buffer.as_str().substring_char(0, n - 1).to_owned();
            assert(shortened@ =~= self.buffer@.drop_last());
            self.buffer = shortened;
        }
    }

    pub fn reset(&mut self)
        ensures
            final(self).buffer@ == Seq::<char>::empty(),
    {
        self.buffer = String::new();
    }

    pub fn as_str(&self) -> (r: &str)
        ensures
            r@ == self.buffer@,
    {
        self.buffer.as_str()
    }
}

} // verus!
