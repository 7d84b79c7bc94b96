//! The normal-mode command recognizer: an incremental prefix matcher over
//! the fixed command table, with numeric repeat-count accumulation and a
//! timeout that abandons a half-typed sequence after too long a pause.

use vstd::prelude::*;
use vstd::string::StrSliceExecFns;
use crate::cooldown::{Cooldown, CooldownState, stepped};

verus! {

#[derive(Clone, Copy, PartialEq, Eq, Structural, Debug)]
pub enum CommandType {
    EnterInsert,
    EnterInsertAfter,
    EnterCommand,
    MoveLeft,
    MoveDown,
    MoveRight,
    MoveUp,
    MoveEndOfLine,
    MoveStartOfLine,
    NextWord,
    NextWordEnd,
    PrevWord,
    StartNextLine,
    StartPrevLine,
    AppendLine,
    PrependLine,
    DeleteLine,
    DeleteChar,
}

/// The single-key entries of the command table.
pub open spec fn cmd_of_char(c: char) -> Option<CommandType> {
    if c == 'i' {
        Some(CommandType::EnterInsert)
    } else if c == 'a' {
        Some(CommandType::EnterInsertAfter)
    } else if c == ':' {
        Some(CommandType::EnterCommand)
    } else if c == 'h' {
        Some(CommandType::MoveLeft)
    } else if c == 'j' {
        Some(CommandType::MoveDown)
    } else if c == 'l' {
        Some(CommandType::MoveRight)
    } else if c == 'k' {
        Some(CommandType::MoveUp)
    } else if c == '$' {
        Some(CommandType::MoveEndOfLine)
    } else if c == '0' {
        Some(CommandType::MoveStartOfLine)
    } else if c == 'w' {
        Some(CommandType::NextWord)
    } else if c == 'e' {
        Some(CommandType::NextWordEnd)
    } else if c == 'b' {
        Some(CommandType::PrevWord)
    } else if c == 'o' {
        Some(CommandType::StartNextLine)
    } else if c == 'O' {
        Some(CommandType::StartPrevLine)
    } else if c == 'A' {
        Some(CommandType::AppendLine)
    } else if c == 'I' {
        Some(CommandType::PrependLine)
    } else if c == 'x' {
        Some(CommandType::DeleteChar)
    } else {
        None
    }
}

/// The full command table: seventeen single-key commands plus the one
/// two-key sequence, "dd".
pub open spec fn cmd_of(s: Seq<char>) -> Option<CommandType> {
    if s.len() == 1 {
        cmd_of_char(s[0])
    } else if s.len() == 2 && s[0] == 'd' && s[1] == 'd' {
        Some(CommandType::DeleteLine)
    } else {
        None
    }
}

/// The strings that are proper prefixes of at least one table entry: the
/// empty string, and "d" (a prefix of "dd"). A pending literal equal to one
/// of these is kept so the sequence can still be completed.
pub open spec fn is_partial_cmd(s: Seq<char>) -> bool {
    s.len() == 0 || (s.len() == 1 && s[0] == 'd')
}

/// A fully resolved unit of work: apply `cmd` `repeat` times.
#[derive(Clone, Copy, PartialEq, Eq, Structural, Debug)]
pub struct Action {
    pub repeat: usize,
    pub cmd: CommandType,
}

#[derive(Clone, Copy, PartialEq, Eq, Structural, Debug)]
pub enum CommandMatch {
    FullMatch(CommandType),
    PartialMatch,
    NoMatch,
}

pub struct Command;

impl Command {
    /// Classify a pending literal against the command table: an exact entry,
    /// a proper prefix of an entry, or neither.
    pub fn from_input(input: &Vec<char>) -> (m: CommandMatch)
        ensures
            match m {
                CommandMatch::FullMatch(t) => cmd_of(input@) == Some(t),
                CommandMatch::PartialMatch => cmd_of(input@) is None && is_partial_cmd(input@),
                CommandMatch::NoMatch => cmd_of(input@) is None && !is_partial_cmd(input@),
            },
    {
        if input.len() == 1 {
            let c = input[0];
            if c == 'i' {
                CommandMatch::FullMatch(CommandType::EnterInsert)
            } else if c == 'a' {
                CommandMatch::FullMatch(CommandType::EnterInsertAfter)
            } else if c == ':' {
                CommandMatch::FullMatch(CommandType::EnterCommand)
            } else if c == 'h' {
                CommandMatch::FullMatch(CommandType::MoveLeft)
            } else if c == 'j' {
                CommandMatch::FullMatch(CommandType::MoveDown)
            } else if c == 'l' {
                CommandMatch::FullMatch(CommandType::MoveRight)
            } else if c == 'k' {
                CommandMatch::FullMatch(CommandType::MoveUp)
            } else if c == '$' {
                CommandMatch::FullMatch(CommandType::MoveEndOfLine)
            } else if c == '0' {
                CommandMatch::FullMatch(CommandType::MoveStartOfLine)
            } else if c == 'w' {
                CommandMatch::FullMatch(CommandType::NextWord)
            } else if c == 'e' {
                CommandMatch::FullMatch(CommandType::NextWordEnd)
            } else if c == 'b' {
                CommandMatch::FullMatch(CommandType::PrevWord)
            } else if c == 'o' {
                CommandMatch::FullMatch(CommandType::StartNextLine)
            } else if c == 'O' {
                CommandMatch::FullMatch(CommandType::StartPrevLine)
            } else if c == 'A' {
                CommandMatch::FullMatch(CommandType::AppendLine)
            } else if c == 'I' {
                CommandMatch::FullMatch(CommandType::PrependLine)
            } else if c == 'x' {
                CommandMatch::FullMatch(CommandType::DeleteChar)
            } else if c == 'd' {
                CommandMatch::PartialMatch
            } else {
                CommandMatch::NoMatch
            }
        } else if input.len() == 2 {
            if input[0] == 'd' && input[1] == 'd' {
                CommandMatch::FullMatch(CommandType::DeleteLine)
            } else {
                CommandMatch::NoMatch
            }
        } else if input.len() == 0 {
            CommandMatch::PartialMatch
        } else {
            CommandMatch::NoMatch
        }
    }
}

/// A decimal digit, '0' through '9'.
pub open spec fn is_digit(c: char) -> bool {
    48 <= c as int && c as int <= 57
}

pub open spec fn digit_val(c: char) -> int {
    c as int - 48
}

pub open spec fn all_digits(s: Seq<char>) -> bool {
    forall|i: int| 0 <= i < s.len() ==> is_digit(s[i])
}

/// Place-value accumulation: starting from `acc`, fold each digit in as the
/// next lower decimal place.
pub open spec fn fold_digits(acc: int, s: Seq<char>) -> int
    decreases s.len(),
{
    if s.len() == 0 {
        acc
    } else {
        fold_digits(acc * 10 + digit_val(s[0]), s.subrange(1, s.len() as int))
    }
}

/// Clamp to the largest representable count.
pub open spec fn sat_usize(x: int) -> int {
    if x > usize::MAX as int {
        usize::MAX as int
    } else {
        x
    }
}

/// A chunk is folded into the repeat counter when it consists entirely of
/// digits and either its value is nonzero or a count is already accumulating
/// (so a leading lone "0" still dispatches as a command).
pub open spec fn is_count_chunk(s: Seq<char>, repeat: Option<usize>) -> bool {
    s.len() > 0 && all_digits(s) && (fold_digits(0, s) > 0 || repeat is Some)
}

proof fn lemma_fold_digits_append(acc: int, s: Seq<char>, c: char)
    ensures
        fold_digits(acc, s.push(c)) == fold_digits(acc, s) * 10 + digit_val(c),
    decreases s.len(),
{
    let t = s.push(c);
    assert(t.len() == s.len() + 1);
    if s.len() == 0 {
        assert(t[0] == c);
        assert(t.subrange(1, t.len() as int) =~= Seq::<char>::empty());
        assert(fold_digits(acc * 10 + digit_val(c), Seq::<char>::empty()) == acc * 10 + digit_val(c));
        assert(fold_digits(acc, t) == acc * 10 + digit_val(c));
        assert(fold_digits(acc, s) == acc);
    } else {
        let rest = s.subrange(1, s.len() as int);
        assert(t[0] == s[0]);
        assert(t.subrange(1, t.len() as int) =~= rest.push(c));
        lemma_fold_digits_append(acc * 10 + digit_val(s[0]), rest, c);
        assert(fold_digits(acc, t) == fold_digits(acc * 10 + digit_val(s[0]), rest.push(c)));
        assert(fold_digits(acc, s) == fold_digits(acc * 10 + digit_val(s[0]), rest));
    }
}

proof fn lemma_fold_digits_lb(acc: int, s: Seq<char>)
    requires
        acc >= 0,
        all_digits(s),
    ensures
        fold_digits(acc, s) >= acc,
    decreases s.len(),
{
    if s.len() > 0 {
        assert(is_digit(s[0]));
        lemma_fold_digits_lb(acc * 10 + digit_val(s[0]), s.subrange(1, s.len() as int));
    }
}

/// Fold the digits of `s` onto `acc`, clamping at `usize::MAX`.
fn fold_digits_sat(acc: usize, s: &str) -> (r: usize)
    requires
        all_digits(s@),
    ensures
        r as int == sat_usize(fold_digits(acc as int, s@)),
{
    let n = s.unicode_len();
    let mut r: usize = acc;
    let mut i: usize = 0;
    while i < n
        invariant
            all_digits(s@),
            n == s@.len(),
            0 <= i <= n,
            r as int == sat_usize(fold_digits(acc as int, s@.subrange(0, i as int))),
        decreases n - i,
    {
        let c = s.get_char(i);
        let d: u128 = c as u128 - 48;
        proof {
            assert(is_digit(s@[i as int]));
            assert(s@.subrange(0, i + 1) =~= s@.subrange(0, i as int).push(s@[i as int]));
            lemma_fold_digits_append(acc as int, s@.subrange(0, i as int), s@[i as int]);
            lemma_fold_digits_lb(acc as int, s@.subrange(0, i as int));
        }
        let wide: u128 = r as u128 * 10 + d;
        if wide > usize::MAX as u128 {
            r = usize::MAX;
        } else {
            r = wide as usize;
        }
        i += 1;
    }
    proof {
        assert(s@.subrange(0, n as int) =~= s@);
    }
    r
}

/// Whether every character of `s` is a decimal digit (and so the chunk is a
/// candidate for the repeat counter rather than the command table).
fn str_all_digits(s: &str) -> (b: bool)
    ensures
        b == all_digits(s@),
{
    let n = s.unicode_len();
    let mut i: usize = 0;
    while i < n
        invariant
            n == s@.len(),
            0 <= i <= n,
            forall|k: int| 0 <= k < i ==> is_digit(s@[k]),
        decreases n - i,
    {
        let c = s.get_char(i);
        let v = c as u32;
        if v < 48 || v > 57 {
            assert(!is_digit(s@[i as int]));
            return false;
        }
        i += 1;
    }
    true
}

pub struct InputBuffer {
    pub buf: Vec<char>,
    pub cd: Cooldown,
    pub repeat: Option<usize>,
}

/// The starting accumulator for a digit chunk: the count so far, or zero.
pub open spec fn repeat_acc(repeat: Option<usize>) -> int {
    match repeat {
        Some(k) => k as int,
        None => 0,
    }
}

/// The repeat count an action fires with: the accumulated count, or one.
pub open spec fn repeat_or_one(repeat: Option<usize>) -> usize {
    match repeat {
        Some(k) => k,
        None => 1usize,
    }
}

/// How one `check(input)` call relates the recognizer before and after, and
/// what it returned: a digit chunk folds into the counter, anything else
/// extends the pending literal and is dispatched against the command table;
/// the timeout clock is restarted either way.
pub open spec fn checked(
    pre: InputBuffer,
    post: InputBuffer,
    input: Seq<char>,
    r: Option<Action>,
) -> bool {
    &&& post.cd.state == CooldownState::Active
    &&& post.cd.current == pre.cd.duration
    &&& post.cd.duration == pre.cd.duration
    &&& post.cd.cooldown == pre.cd.cooldown
    &&& if is_count_chunk(input, pre.repeat) {
        &&& r is None
        &&& post.buf@ == pre.buf@
        &&& post.repeat matches Some(k)
            && k as int == sat_usize(fold_digits(repeat_acc(pre.repeat), input))
    } else {
        let pending = pre.buf@ + input;
        match cmd_of(pending) {
            Some(t) => {
                &&& r == Some(Action { repeat: repeat_or_one(pre.repeat), cmd: t })
                &&& post.buf@ == Seq::<char>::empty()
                &&& post.repeat is None
            },
            None => {
                &&& r is None
                &&& if is_partial_cmd(pending) {
                    post.buf@ == pending && post.repeat == pre.repeat
                } else {
                    post.buf@ == Seq::<char>::empty() && post.repeat is None
                }
            },
        }
    }
}

/// How one `update(delta)` call relates the recognizer before and after:
/// the timer advances, and if it left the `Active` state the half-typed
/// sequence and the accumulated count are abandoned.
pub open spec fn ticked(pre: InputBuffer, post: InputBuffer, delta: u64) -> bool {
    &&& stepped(pre.cd, post.cd, delta)
    &&& if post.cd.state == CooldownState::Active {
        post.buf@ == pre.buf@ && post.repeat == pre.repeat
    } else {
        post.buf@ == Seq::<char>::empty() && post.repeat is None
    }
}

impl InputBuffer {
    pub fn new() -> (r: InputBuffer)
        ensures
            r.buf@ == Seq::<char>::empty(),
            r.repeat is None,
            r.cd.state == CooldownState::Active,
            r.cd.duration == 500,
            r.cd.cooldown == 100,
    {
        InputBuffer { buf: Vec::new(), cd: Cooldown::new(500, 100), repeat: None }
    }

    fn reset(&mut self)
        ensures
            final(self).buf@ == Seq::<char>::empty(),
            final(self).repeat is None,
            final(self).cd.state == CooldownState::Active,
            final(self).cd.current == old(self).cd.duration,
            final(self).cd.duration == old(self).cd.duration,
            final(self).cd.cooldown == old(self).cd.cooldown,
    {
        self.buf.clear();
        self.cd.reset(CooldownState::Active);
        self.repeat = None;
    }

    /// Advance the timeout clock; once it runs out, the half-typed sequence
    /// and the accumulated count are abandoned.
    pub fn update(&mut self, delta: u64)
        ensures
            ticked(*old(self), *final(self), delta),
    {
        self.cd.update(delta);
        if !matches!(self.cd.state, CooldownState::Active) {
            self.buf.clear();
            self.repeat = None;
        }
    }

    /// Feed one input chunk. A digit chunk folds into the repeat counter.
    /// Anything else extends the pending literal, which is then dispatched
    /// against the command table: an exact match yields the action and clears
    /// all pending state, a proper prefix is kept, and anything else is
    /// dropped silently. Every accepted chunk restarts the timeout clock.
    pub fn check(&mut self, input: &str) -> (r: Option<Action>)
        ensures
            checked(*old(self), *final(self), input@, r),
    {
        let digits = str_all_digits(input);
        let is_count = if digits && input.unicode_len() > 0 {
            let value = fold_digits_sat(0, input);
            proof {
                lemma_fold_digits_lb(0, input@);
            }
            value > 0 || self.repeat.is_some()
        } else {
            false
        };

        if is_count {
            let acc0 = match self.repeat {
                Some(k) => k,
                None => 0,
            };
            self.repeat = Some(fold_digits_sat(acc0, input));
            self.cd.reset(CooldownState::Active);
            None
        } else {
            let n = input.unicode_len();
            let mut i: usize = 0;
            while i < n
                invariant
                    n == input@.len(),
                    0 <= i <= n,
                    self.buf@ == old(self).buf@ + input@.subrange(0, i as int),
                    self.cd == old(self).cd,
                    self.repeat == old(self).repeat,
                decreases n - i,
            {
                self.buf.push(input.get_char(i));
                proof {
                    assert(self.buf@ =~= old(self).buf@ + input@.subrange(0, i + 1));
                }
                i += 1;
            }
            proof {
                assert(self.buf@ =~= old(self).buf@ + input@);
            }

            match Command::from_input(&self.buf) {
                CommandMatch::PartialMatch => {
                    self.cd.reset(CooldownState::Active);
                    None
                },
                CommandMatch::FullMatch(t) => {
                    let action = Action {
                        repeat: match self.repeat {
                            Some(k) => k,
                            None => 1,
                        },
                        cmd: t,
                    };
                    self.reset();
                    Some(action)
                },
                CommandMatch::NoMatch => {
                    self.reset();
                    None
                },
            }
        }
    }
}

} // verus!
