//! The text model: a buffer of characters classified into Word / Space /
//! Newline tokens, grouped into lines. The line index is derived data,
//! rebuilt from the buffer after every mutation; `lines_wf` says what it
//! means for an index to describe a buffer correctly, and is strong enough
//! to determine the index from the buffer alone.

use vstd::prelude::*;

verus! {

/// A classified run of buffer content: a maximal run of non-space,
/// non-newline characters, a maximal run of the space character, or a
/// single line terminator.
#[derive(Clone, Copy, PartialEq, Eq, Structural, Debug)]
pub enum Token {
    Word { idx: usize, len: usize },
    Space { idx: usize, len: usize },
    Newline { idx: usize },
}

/// Characters that belong to a Word token: anything but the one space
/// character and the line terminator. (Tabs and other whitespace are
/// deliberately treated as word characters.)
pub open spec fn is_word_char(c: char) -> bool {
    c != ' ' && c != '\n'
}

impl Token {
    pub open spec fn spec_idx(self) -> int {
        match self {
            Token::Word { idx, .. } => idx as int,
            Token::Space { idx, .. } => idx as int,
            Token::Newline { idx } => idx as int,
        }
    }

    pub open spec fn spec_len(self) -> int {
        match self {
            Token::Word { len, .. } => len as int,
            Token::Space { len, .. } => len as int,
            Token::Newline { .. } => 1,
        }
    }

    /// One past the last character covered by this token.
    pub open spec fn spec_end(self) -> int {
        self.spec_idx() + self.spec_len()
    }

    /// The token covers a nonempty, in-bounds range whose characters all
    /// have the classification the tag claims.
    pub open spec fn wf(self, buf: Seq<char>) -> bool {
        match self {
            Token::Word { idx, len } => len > 0 && idx + len <= buf.len()
                && forall|k: int| idx <= k < idx + len ==> is_word_char(#[trigger] buf[k]),
            Token::Space { idx, len } => len > 0 && idx + len <= buf.len()
                && forall|k: int| idx <= k < idx + len ==> #[trigger] buf[k] == ' ',
            Token::Newline { idx } => idx < buf.len() && buf[idx as int] == '\n',
        }
    }

    pub fn len(&self) -> (r: usize)
        ensures
            r == self.spec_len(),
    {
        match self {
            Token::Word { len, .. } => *len,
            Token::Space { len, .. } => *len,
            Token::Newline { .. } => 1,
        }
    }

    pub fn idx(&self) -> (r: usize)
        ensures
            r == self.spec_idx(),
    {
        match self {
            Token::Word { idx, .. } => *idx,
            Token::Space { idx, .. } => *idx,
            Token::Newline { idx } => *idx,
        }
    }

    /// The cursor position of this token's first character, on the line
    /// that owns it.
    pub fn start_pos(&self, line: &Line, line_idx: usize) -> (p: Pos)
        requires
            line.spec_start() <= self.spec_idx(),
        ensures
            p.idx == self.spec_idx(),
            p.line == line_idx,
            p.col == self.spec_idx() - line.spec_start(),
    {
        let idx = self.idx();
        Pos { idx, line: line_idx, col: idx - line.start() }
    }

    /// The cursor position of this token's last character, on the line
    /// that owns it.
    pub fn end_pos(&self, line: &Line, line_idx: usize) -> (p: Pos)
        requires
            line.spec_start() <= self.spec_idx(),
            1 <= self.spec_len(),
            self.spec_end() <= usize::MAX,
        ensures
            p.idx == self.spec_end() - 1,
            p.line == line_idx,
            p.col == self.spec_end() - 1 - line.spec_start(),
    {
        let idx = self.idx();
        let len = self.len();
        Pos { idx: idx + len - 1, line: line_idx, col: idx - line.start() + len - 1 }
    }
}

/// Each token is well formed for `buf` and is a content token (Word or
/// Space), never a Newline.
pub open spec fn tokens_content_wf(toks: Seq<Token>, buf: Seq<char>) -> bool {
    forall|j: int| 0 <= j < toks.len()
        ==> (#[trigger] toks[j]).wf(buf) && !(toks[j] is Newline)
}

/// The tokens tile a contiguous region beginning at `start`: the first one
/// starts there and each later one starts where its predecessor ended.
pub open spec fn tokens_chained(toks: Seq<Token>, start: int) -> bool {
    &&& toks.len() > 0 ==> toks[0].spec_idx() == start
    &&& forall|j: int| #![trigger toks[j], toks[j + 1]] 0 <= j < toks.len() - 1
        ==> toks[j + 1].spec_idx() == toks[j].spec_end()
}

/// Tokens alternate between Word and Space, which makes each one a maximal
/// run: two runs of the same kind would have merged.
pub open spec fn tokens_alternate(toks: Seq<Token>) -> bool {
    forall|j: int| #![trigger toks[j], toks[j + 1]] 0 <= j < toks.len() - 1
        ==> (toks[j] is Word <==> toks[j + 1] is Space)
}

/// One past the region tiled by `toks` from `start`: the last token's end,
/// or `start` itself when there are no tokens.
pub open spec fn tokens_end(toks: Seq<Token>, start: int) -> int {
    if toks.len() == 0 {
        start
    } else {
        toks.last().spec_end()
    }
}

/// A cursor position: absolute buffer offset, line index, and column
/// within that line. `idx == line start + col` whenever the position is
/// consistent with a line index.
#[derive(Clone, Copy, PartialEq, Eq, Structural, Debug)]
pub struct Pos {
    pub idx: usize,
    pub line: usize,
    pub col: usize,
}

impl Pos {
    /// Advance by `offset` columns within the current line.
    pub fn next(&mut self, offset: usize)
        requires
            old(self).idx + offset <= usize::MAX,
            old(self).col + offset <= usize::MAX,
        ensures
            final(self).idx == old(self).idx + offset,
            final(self).col == old(self).col + offset,
            final(self).line == old(self).line,
    {
        self.idx += offset;
        self.col += offset;
    }

    /// Retreat by `offset` columns, but only if the column allows it;
    /// otherwise leave the position unchanged.
    pub fn prev(&mut self, offset: usize)
        requires
            old(self).col <= old(self).idx,
        ensures
            old(self).col >= offset ==> *final(self) == (Pos {
                idx: (old(self).idx - offset) as usize,
                line: old(self).line,
                col: (old(self).col - offset) as usize,
            }),
            old(self).col < offset ==> *final(self) == *old(self),
    {
        if self.col >= offset {
            self.col -= offset;
            self.idx -= offset;
        }
    }

    /// Step over a line terminator: one offset forward, onto column 0 of
    /// the next line.
    pub fn new_line(&mut self)
        requires
            old(self).idx < usize::MAX,
            old(self).line < usize::MAX,
        ensures
            final(self).idx == old(self).idx + 1,
            final(self).col == 0,
            final(self).line == old(self).line + 1,
    {
        self.idx += 1;
        self.col = 0;
        self.line += 1;
    }
}

/// One line of the buffer: its starting offset and the Word/Space tokens
/// covering its content. The terminating newline belongs to no line.
pub struct Line {
    pub idx: usize,
    pub tokens: Vec<Token>,
}

impl Line {
    pub open spec fn spec_start(self) -> int {
        self.idx as int
    }

    /// One past the line's last content character: the end of its last
    /// token, or the start offset if the line is empty.
    pub open spec fn spec_end(self) -> int {
        if self.tokens@.len() == 0 {
            self.idx as int
        } else {
            self.tokens@.last().spec_end()
        }
    }

    pub open spec fn spec_len(self) -> int {
        self.spec_end() - self.spec_start()
    }

    /// The tokens are well formed, contain no Newline, start at the line's
    /// offset, tile the line contiguously, and alternate between Word and
    /// Space (so each is a maximal run).
    pub open spec fn wf(self, buf: Seq<char>) -> bool {
        let toks = self.tokens@;
        &&& self.idx <= buf.len()
        &&& tokens_content_wf(toks, buf)
        &&& tokens_chained(toks, self.idx as int)
        &&& tokens_alternate(toks)
    }

    pub fn start(&self) -> (r: usize)
        ensures
            r == self.spec_start(),
    {
        self.idx
    }

    pub fn end(&self) -> (r: usize)
        requires
            self.spec_end() <= usize::MAX,
        ensures
            r == self.spec_end(),
    {
        if self.tokens.is_empty() {
            self.idx
        } else {
            let last_token = &self.tokens[self.tokens.len() - 1];
            last_token.idx() + last_token.len()
        }
    }
}

/// First index at or after `pos` whose token is a Word still covering or
/// past offset `idx` (see `word_touching`), if any.
pub open spec fn first_touching(toks: Seq<Token>, pos: int, idx: int) -> Option<int>
    decreases toks.len() - pos,
{
    if pos < 0 || pos >= toks.len() {
        None
    } else if word_touching(toks[pos], idx) {
        Some(pos)
    } else {
        first_touching(toks, pos + 1, idx)
    }
}

/// First index at or after `pos` whose token is a Word starting strictly
/// after offset `idx` (see `word_after`), if any.
pub open spec fn first_after(toks: Seq<Token>, pos: int, idx: int) -> Option<int>
    decreases toks.len() - pos,
{
    if pos < 0 || pos >= toks.len() {
        None
    } else if word_after(toks[pos], idx) {
        Some(pos)
    } else {
        first_after(toks, pos + 1, idx)
    }
}

/// Last index at or before `pos` whose token is a Word ending at or before
/// offset `idx` (see `word_ending_by`), if any.
pub open spec fn last_ending_by(toks: Seq<Token>, pos: int, idx: int) -> Option<int>
    decreases pos + 1,
{
    if pos < 0 || pos >= toks.len() {
        None
    } else if word_ending_by(toks[pos], idx) {
        Some(pos)
    } else {
        last_ending_by(toks, pos - 1, idx)
    }
}

/// A Word token still covering or past offset `idx`: the token the cursor
/// is inside, or the first word after it.
pub open spec fn word_touching(t: Token, idx: int) -> bool {
    t is Word && t.spec_end() > idx
}

/// A Word token starting strictly after offset `idx`.
pub open spec fn word_after(t: Token, idx: int) -> bool {
    t is Word && t.spec_idx() > idx
}

/// A Word token ending at or before offset `idx`.
pub open spec fn word_ending_by(t: Token, idx: int) -> bool {
    t is Word && t.spec_end() <= idx
}

/// Every token's range fits the address space; lines derived from a real
/// buffer always satisfy this, since token ranges lie inside the buffer.
pub open spec fn tokens_fit(toks: Seq<Token>) -> bool {
    forall|j: int| 0 <= j < toks.len() ==> (#[trigger] toks[j]).spec_end() <= usize::MAX
}

impl Line {
    /// The first Word token whose range ends after `idx`: the word under
    /// the cursor, or failing that the next word on the line.
    pub fn current_word(&self, idx: usize) -> (r: Option<Token>)
        requires
            tokens_fit(self.tokens@),
        ensures
            match first_touching(self.tokens@, 0, idx as int) {
                Some(j) => r == Some(self.tokens@[j]),
                None => r is None,
            },
    {
        let n = self.tokens.len();
        let mut i: usize = 0;
        while i < n
            invariant
                tokens_fit(self.tokens@),
                n == self.tokens@.len(),
                0 <= i <= n,
                first_touching(self.tokens@, 0, idx as int)
                    == first_touching(self.tokens@, i as int, idx as int),
            decreases n - i,
        {
            let t = self.tokens[i];
            let hit = match t {
                Token::Word { idx: tidx, len } => tidx + len > idx,
                _ => false,
            };
            if hit {
                assert(word_touching(self.tokens@[i as int], idx as int));
                return Some(t);
            }
            assert(!word_touching(self.tokens@[i as int], idx as int));
            i += 1;
        }
        None
    }

    /// The first Word token starting strictly after `idx`.
    pub fn next_word(&self, idx: usize) -> (r: Option<Token>)
        ensures
            match first_after(self.tokens@, 0, idx as int) {
                Some(j) => r == Some(self.tokens@[j]),
                None => r is None,
            },
    {
        let n = self.tokens.len();
        let mut i: usize = 0;
        while i < n
            invariant
                n == self.tokens@.len(),
                0 <= i <= n,
                first_after(self.tokens@, 0, idx as int)
                    == first_after(self.tokens@, i as int, idx as int),
            decreases n - i,
        {
            let t = self.tokens[i];
            let hit = match t {
                Token::Word { idx: tidx, .. } => tidx > idx,
                _ => false,
            };
            if hit {
                assert(word_after(self.tokens@[i as int], idx as int));
                return Some(t);
            }
            assert(!word_after(self.tokens@[i as int], idx as int));
            i += 1;
        }
        None
    }

    /// The last Word token whose range ends at or before `idx`: the nearest
    /// word wholly behind the cursor.
    pub fn prev_word(&self, idx: usize) -> (r: Option<Token>)
        requires
            tokens_fit(self.tokens@),
        ensures
            match last_ending_by(self.tokens@, self.tokens@.len() - 1, idx as int) {
                Some(j) => r == Some(self.tokens@[j]),
                None => r is None,
            },
    {
        let n = self.tokens.len();
        let mut i: usize = n;
        while i > 0
            invariant
                tokens_fit(self.tokens@),
                n == self.tokens@.len(),
                0 <= i <= n,
                last_ending_by(self.tokens@, n - 1, idx as int)
                    == last_ending_by(self.tokens@, i - 1, idx as int),
            decreases i,
        {
            let t = self.tokens[i - 1];
            let hit = match t {
                Token::Word { idx: tidx, len } => tidx + len <= idx,
                _ => false,
            };
            if hit {
                assert(word_ending_by(self.tokens@[i - 1], idx as int));
                return Some(t);
            }
            assert(!word_ending_by(self.tokens@[i - 1], idx as int));
            i -= 1;
        }
        None
    }
}


/// Every line is well formed and the lines chain across the buffer from
/// `start` to the buffer's end, with exactly one newline character between
/// consecutive lines.
pub open spec fn lines_wf_at(lines: Seq<Line>, buf: Seq<char>, start: int) -> bool {
    &&& lines.len() >= 1
    &&& lines[0].spec_start() == start
    &&& forall|i: int| 0 <= i < lines.len() ==> (#[trigger] lines[i]).wf(buf)
    &&& forall|i: int| 0 <= i < lines.len() - 1 ==> (#[trigger] lines[i]).spec_end() < buf.len()
        && buf[lines[i].spec_end()] == '\n'
    &&& forall|i: int| #![trigger lines[i], lines[i + 1]] 0 <= i < lines.len() - 1
        ==> lines[i + 1].spec_start() == lines[i].spec_end() + 1
    &&& lines[lines.len() - 1].spec_end() == buf.len()
}

/// The line index correctly describes the whole buffer. Together with the
/// alternation requirement inside `Line::wf` this determines the index from
/// the buffer alone: line boundaries must sit exactly at the newlines, and
/// within a line the maximal-run rule fixes every token boundary.
pub open spec fn lines_wf(lines: Seq<Line>, buf: Seq<char>) -> bool {
    lines_wf_at(lines, buf, 0)
}

/// Direct access to the chaining facts of `lines_wf` for one boundary:
/// line `i` ends on a newline and line `i + 1` starts right after it.
pub proof fn lemma_chain(lines: Seq<Line>, buf: Seq<char>, i: int)
    requires
        lines_wf(lines, buf),
        0 <= i < lines.len() - 1,
    ensures
        lines[i].spec_end() < buf.len(),
        buf[lines[i].spec_end()] == '\n',
        lines[i + 1].spec_start() == lines[i].spec_end() + 1,
{
    let a = lines[i];
    let b = lines[i + 1];
    assert(a == lines[i] && b == lines[i + 1]);
}

/// Single-pass classifier over the buffer: each call to `next` returns the
/// token starting at the scan offset and advances the offset past it.
pub struct Tokenizer {
    pub idx: usize,
}

/// First offset at or after `from` where the maximal run of characters
/// satisfying the given classification ends.
fn scan_while_space(val: &Vec<char>, from: usize) -> (end: usize)
    requires
        from <= val@.len(),
    ensures
        from <= end <= val@.len(),
        forall|k: int| from <= k < end ==> val@[k] == ' ',
        end < val@.len() ==> val@[end as int] != ' ',
    decreases val@.len() - from,
{
    let n = val.len();
    let mut i: usize = from;
    while i < n
        invariant
            from <= i <= n,
            n == val@.len(),
            forall|k: int| from <= k < i ==> val@[k] == ' ',
        decreases n - i,
    {
        if val[i] != ' ' {
            return i;
        }
        i += 1;
    }
    i
}

fn scan_while_word(val: &Vec<char>, from: usize) -> (end: usize)
    requires
        from <= val@.len(),
    ensures
        from <= end <= val@.len(),
        forall|k: int| from <= k < end ==> is_word_char(val@[k]),
        end < val@.len() ==> !is_word_char(val@[end as int]),
    decreases val@.len() - from,
{
    let n = val.len();
    let mut i: usize = from;
    while i < n
        invariant
            from <= i <= n,
            n == val@.len(),
            forall|k: int| from <= k < i ==> is_word_char(val@[k]),
        decreases n - i,
    {
        let c = val[i];
        if c == ' ' || c == '\n' {
            return i;
        }
        i += 1;
    }
    i
}

impl Tokenizer {
    pub fn new() -> (t: Tokenizer)
        ensures
            t.idx == 0,
    {
        Tokenizer { idx: 0 }
    }

    /// Consume the maximal run of word characters starting at the scan
    /// offset as one Word token.
    pub fn take_word(&mut self, val: &Vec<char>) -> (r: Option<Token>)
        requires
            old(self).idx < val@.len(),
            is_word_char(val@[old(self).idx as int]),
        ensures
            r matches Some(t) && {
                &&& t is Word
                &&& t.spec_idx() == old(self).idx
                &&& t.spec_end() == final(self).idx
                &&& t.wf(val@)
                &&& final(self).idx <= val@.len()
                &&& (final(self).idx == val@.len()
                    || !is_word_char(val@[final(self).idx as int]))
            },
    {
        let start = self.idx;
        let end = scan_while_word(val, start);
        self.idx = end;
        Some(Token::Word { idx: start, len: end - start })
    }

    /// Consume the maximal run of spaces starting at the scan offset as one
    /// Space token.
    pub fn take_space(&mut self, val: &Vec<char>) -> (r: Option<Token>)
        requires
            old(self).idx < val@.len(),
            val@[old(self).idx as int] == ' ',
        ensures
            r matches Some(t) && {
                &&& t is Space
                &&& t.spec_idx() == old(self).idx
                &&& t.spec_end() == final(self).idx
                &&& t.wf(val@)
                &&& final(self).idx <= val@.len()
                &&& (final(self).idx == val@.len() || val@[final(self).idx as int] != ' ')
            },
    {
        let start = self.idx;
        let end = scan_while_space(val, start);
        self.idx = end;
        Some(Token::Space { idx: start, len: end - start })
    }

    /// The token starting at the scan offset, or None once the buffer is
    /// exhausted: a Newline for '\n', a Space run for ' ', a Word run for
    /// anything else.
    pub fn next(&mut self, val: &Vec<char>) -> (r: Option<Token>)
        ensures
            old(self).idx >= val@.len() ==> r is None && *final(self) == *old(self),
            old(self).idx < val@.len() ==> (r matches Some(t) && {
                let c = val@[old(self).idx as int];
                &&& t.spec_idx() == old(self).idx
                &&& t.wf(val@)
                &&& final(self).idx == t.spec_end()
                &&& final(self).idx <= val@.len()
                &&& (c == ' ' ==> t is Space)
                &&& (c == '\n' ==> t is Newline)
                &&& (is_word_char(c) ==> t is Word)
                &&& (t is Word ==> final(self).idx == val@.len()
                    || !is_word_char(val@[final(self).idx as int]))
                &&& (t is Space ==> final(self).idx == val@.len()
                    || val@[final(self).idx as int] != ' ')
            }),
    {
        if self.idx >= val.len() {
            None
        } else {
            let current = val[self.idx];
            if current == ' ' {
                self.take_space(val)
            } else if current == '\n' {
                let idx = self.idx;
                self.idx += 1;
                Some(Token::Newline { idx })
            } else {
                self.take_word(val)
            }
        }
    }
}


/// How many line terminators a character sequence holds.
pub open spec fn nl_count(s: Seq<char>) -> nat
    decreases s.len(),
{
    if s.len() == 0 {
        0
    } else {
        nl_count(s.drop_last()) + (if s.last() == '\n' { 1nat } else { 0nat })
    }
}

pub proof fn lemma_nl_count_concat(a: Seq<char>, b: Seq<char>)
    ensures
        nl_count(a + b) == nl_count(a) + nl_count(b),
    decreases b.len(),
{
    if b.len() == 0 {
        assert(a + b =~= a);
    } else {
        assert((a + b).drop_last() =~= a + b.drop_last());
        assert((a + b).last() == b.last());
        lemma_nl_count_concat(a, b.drop_last());
    }
}

pub proof fn lemma_nl_count_zero(s: Seq<char>)
    requires
        forall|k: int| 0 <= k < s.len() ==> s[k] != '\n',
    ensures
        nl_count(s) == 0,
    decreases s.len(),
{
    if s.len() > 0 {
        lemma_nl_count_zero(s.drop_last());
    }
}

/// Counting line terminators over adjacent regions adds up.
pub proof fn lemma_nl_count_split(buf: Seq<char>, a: int, b: int, c: int)
    requires
        0 <= a <= b <= c <= buf.len(),
    ensures
        nl_count(buf.subrange(a, c)) == nl_count(buf.subrange(a, b)) + nl_count(buf.subrange(b, c)),
{
    assert(buf.subrange(a, b) + buf.subrange(b, c) =~= buf.subrange(a, c));
    lemma_nl_count_concat(buf.subrange(a, b), buf.subrange(b, c));
}

pub proof fn lemma_nl_count_single(buf: Seq<char>, p: int)
    requires
        0 <= p < buf.len(),
    ensures
        nl_count(buf.subrange(p, p + 1)) == (if buf[p] == '\n' { 1nat } else { 0nat }),
{
    let s = buf.subrange(p, p + 1);
    assert(s.drop_last() =~= Seq::<char>::empty());
    assert(s.last() == buf[p]);
    assert(nl_count(Seq::<char>::empty()) == 0);
}

/// The region a chained token run tiles does not run backwards, and every
/// token inside it sits between `start` and the run's end.
pub proof fn lemma_tokens_end_ge(toks: Seq<Token>, start: int, buf: Seq<char>)
    requires
        tokens_content_wf(toks, buf),
        tokens_chained(toks, start),
    ensures
        tokens_end(toks, start) >= start,
        toks.len() > 0 ==> toks[0].spec_idx() == start && tokens_end(toks, start) == toks.last().spec_end(),
        forall|j: int| 0 <= j < toks.len()
            ==> start <= (#[trigger] toks[j]).spec_idx()
                && toks[j].spec_end() <= tokens_end(toks, start),
    decreases toks.len(),
{
    if toks.len() > 0 {
        let rest = toks.subrange(1, toks.len() as int);
        let start2 = toks[0].spec_end();
        assert forall|j: int| 0 <= j < rest.len() implies (#[trigger] rest[j]) == toks[j + 1] by {}
        lemma_tokens_end_ge(rest, start2, buf);
        if rest.len() > 0 {
            assert(toks.last() == rest.last());
            assert(tokens_end(toks, start) == tokens_end(rest, start2));
        } else {
            assert(tokens_end(toks, start) == toks[0].spec_end());
        }
        assert(toks[0].wf(buf));
        assert(toks[0].spec_len() > 0);
        assert(start2 <= tokens_end(toks, start));
        assert forall|j: int| 0 <= j < toks.len()
            implies start <= (#[trigger] toks[j]).spec_idx()
                && toks[j].spec_end() <= tokens_end(toks, start) by {
            if j == 0 {
            } else {
                assert(rest[j - 1] == toks[j]);
                assert(start2 <= rest[j - 1].spec_idx());
                assert(rest[j - 1].spec_end() <= tokens_end(rest, start2));
            }
        }
    }
}

/// Every character covered by a chained run of content tokens is a word
/// character or a space; in particular it is never a line terminator.
pub proof fn lemma_tokens_cover(toks: Seq<Token>, start: int, buf: Seq<char>, p: int)
    requires
        tokens_content_wf(toks, buf),
        tokens_chained(toks, start),
        start <= p < tokens_end(toks, start),
    ensures
        buf[p] != '\n',
    decreases toks.len(),
{
    lemma_tokens_end_ge(toks, start, buf);
    assert(toks.len() > 0);
    if p < toks[0].spec_end() {
        assert(toks[0].wf(buf));
    } else {
        let rest = toks.subrange(1, toks.len() as int);
        let start2 = toks[0].spec_end();
        assert forall|j: int| 0 <= j < rest.len() implies (#[trigger] rest[j]) == toks[j + 1] by {}
        assert(rest.len() > 0) by {
            if rest.len() == 0 {
                assert(tokens_end(toks, start) == toks[0].spec_end());
            }
        }
        assert(toks.last() == rest.last());
        lemma_tokens_cover(rest, start2, buf, p);
    }
}

/// No character of a line's content region is a line terminator, and the
/// region is in bounds.
pub proof fn lemma_line_content(l: Line, buf: Seq<char>)
    requires
        l.wf(buf),
    ensures
        l.spec_start() <= l.spec_end() <= buf.len(),
        forall|p: int| l.spec_start() <= p < l.spec_end() ==> buf[p] != '\n',
{
    let toks = l.tokens@;
    lemma_tokens_end_ge(toks, l.spec_start(), buf);
    if toks.len() > 0 {
        let last = toks[toks.len() - 1];
        assert(last.wf(buf));
        assert(l.spec_end() == last.spec_end());
        assert(last.spec_end() <= buf.len()) by {
            match last {
                Token::Word { idx, len } => {},
                Token::Space { idx, len } => {},
                Token::Newline { idx } => {},
            }
        }
    }
    assert forall|p: int| l.spec_start() <= p < l.spec_end() implies buf[p] != '\n' by {
        lemma_tokens_cover(toks, l.spec_start(), buf, p);
    }
}

/// The text of a run of tokens: each token's covered characters, in order,
/// with nothing in between.
pub open spec fn tokens_text(toks: Seq<Token>, buf: Seq<char>) -> Seq<char>
    decreases toks.len(),
{
    if toks.len() == 0 {
        Seq::<char>::empty()
    } else {
        buf.subrange(toks[0].spec_idx(), toks[0].spec_end())
            + tokens_text(toks.subrange(1, toks.len() as int), buf)
    }
}

/// A chained run of content tokens reads back exactly the region it tiles.
pub proof fn lemma_tokens_text_tiles(toks: Seq<Token>, start: int, buf: Seq<char>)
    requires
        tokens_content_wf(toks, buf),
        tokens_chained(toks, start),
        0 <= start <= buf.len(),
    ensures
        tokens_text(toks, buf) == buf.subrange(start, tokens_end(toks, start)),
    decreases toks.len(),
{
    lemma_tokens_end_ge(toks, start, buf);
    if toks.len() == 0 {
        assert(buf.subrange(start, start) =~= Seq::<char>::empty());
    } else {
        let rest = toks.subrange(1, toks.len() as int);
        let start2 = toks[0].spec_end();
        assert forall|j: int| 0 <= j < rest.len() implies (#[trigger] rest[j]) == toks[j + 1] by {}
        assert(toks[0].wf(buf));
        lemma_tokens_end_ge(rest, start2, buf);
        lemma_tokens_text_tiles(rest, start2, buf);
        if rest.len() > 0 {
            assert(toks.last() == rest.last());
        }
        assert(buf.subrange(start, toks[0].spec_end()) + buf.subrange(start2, tokens_end(rest, start2))
            =~= buf.subrange(start, tokens_end(toks, start)));
    }
}

/// The lines' words joined back together: each line's token text, with one
/// line terminator between consecutive lines.
pub open spec fn lines_text(lines: Seq<Line>, buf: Seq<char>) -> Seq<char>
    decreases lines.len(),
{
    if lines.len() == 0 {
        Seq::<char>::empty()
    } else if lines.len() == 1 {
        tokens_text(lines[0].tokens@, buf)
    } else {
        tokens_text(lines[0].tokens@, buf) + seq!['\n']
            + lines_text(lines.subrange(1, lines.len() as int), buf)
    }
}

proof fn lemma_lines_text_at(lines: Seq<Line>, buf: Seq<char>, start: int)
    requires
        lines_wf_at(lines, buf, start),
        0 <= start <= buf.len(),
    ensures
        lines_text(lines, buf) == buf.subrange(start, buf.len() as int),
    decreases lines.len(),
{
    let l0 = lines[0];
    lemma_line_content(l0, buf);
    lemma_tokens_text_tiles(l0.tokens@, start, buf);
    if lines.len() == 1 {
        assert(tokens_end(l0.tokens@, start) == buf.len());
    } else {
        let rest = lines.subrange(1, lines.len() as int);
        assert forall|j: int| 0 <= j < rest.len() implies (#[trigger] rest[j]) == lines[j + 1] by {}
        let start2 = l0.spec_end() + 1;
        assert(rest[0].spec_start() == start2);
        assert(lines.last() == rest.last());
        lemma_lines_text_at(rest, buf, start2);
        assert(buf.subrange(start, l0.spec_end()) + seq!['\n'] + buf.subrange(start2, buf.len() as int)
            =~= buf.subrange(start, buf.len() as int)) by {
            assert(buf[l0.spec_end()] == '\n');
        }
    }
}

/// Tokenization round trip: joining every line's token text, with one line
/// terminator between consecutive lines, reconstructs the buffer exactly.
pub proof fn lemma_round_trip(lines: Seq<Line>, buf: Seq<char>)
    requires
        lines_wf(lines, buf),
    ensures
        lines_text(lines, buf) == buf,
{
    lemma_lines_text_at(lines, buf, 0);
    assert(buf.subrange(0, buf.len() as int) =~= buf);
}

/// The buffer prefix before line `i` holds exactly `i` line terminators.
pub proof fn lemma_line_start_count(lines: Seq<Line>, buf: Seq<char>, i: int)
    requires
        lines_wf(lines, buf),
        0 <= i < lines.len(),
    ensures
        0 <= lines[i].spec_start() <= buf.len(),
        nl_count(buf.subrange(0, lines[i].spec_start())) == i,
    decreases i,
{
    lemma_line_content(lines[i], buf);
    if i > 0 {
        lemma_line_start_count(lines, buf, i - 1);
        lemma_chain(lines, buf, i - 1);
        let prev = lines[i - 1];
        lemma_line_content(prev, buf);
        let s = prev.spec_start();
        let e = prev.spec_end();
        lemma_nl_count_split(buf, 0, s, lines[i].spec_start());
        lemma_nl_count_split(buf, s, e, lines[i].spec_start());
        assert(nl_count(buf.subrange(s, e)) == 0) by {
            assert forall|k: int| 0 <= k < buf.subrange(s, e).len()
                implies buf.subrange(s, e)[k] != '\n' by {
                assert(buf.subrange(s, e)[k] == buf[s + k]);
            }
            lemma_nl_count_zero(buf.subrange(s, e));
        }
        lemma_nl_count_single(buf, e);
    } else {
        assert(buf.subrange(0, 0) =~= Seq::<char>::empty());
    }
}

/// A position on line `j` (between the line's start and end, inclusive) has
/// exactly `j` line terminators before it. In particular the line index and
/// column of a consistent cursor position are determined by the offset.
pub proof fn lemma_pos_line(lines: Seq<Line>, buf: Seq<char>, j: int, p: int)
    requires
        lines_wf(lines, buf),
        0 <= j < lines.len(),
        lines[j].spec_start() <= p <= lines[j].spec_end(),
    ensures
        nl_count(buf.subrange(0, p)) == j,
{
    lemma_line_start_count(lines, buf, j);
    lemma_line_content(lines[j], buf);
    let s = lines[j].spec_start();
    lemma_nl_count_split(buf, 0, s, p);
    assert(nl_count(buf.subrange(s, p)) == 0) by {
        assert forall|k: int| 0 <= k < buf.subrange(s, p).len()
            implies buf.subrange(s, p)[k] != '\n' by {
            assert(buf.subrange(s, p)[k] == buf[s + k]);
        }
        lemma_nl_count_zero(buf.subrange(s, p));
    }
}

/// A well-formed line index has one more line than the buffer has line
/// terminators.
pub proof fn lemma_lines_count(lines: Seq<Line>, buf: Seq<char>)
    requires
        lines_wf(lines, buf),
    ensures
        lines.len() == nl_count(buf) + 1,
{
    let j = lines.len() - 1;
    lemma_pos_line(lines, buf, j, lines[j].spec_end());
    assert(buf.subrange(0, buf.len() as int) =~= buf);
}

/// At most one line contains a given offset, so a cursor's line and column
/// are functions of its offset.
pub proof fn lemma_line_unique(lines: Seq<Line>, buf: Seq<char>, j1: int, j2: int, p: int)
    requires
        lines_wf(lines, buf),
        0 <= j1 < lines.len(),
        0 <= j2 < lines.len(),
        lines[j1].spec_start() <= p <= lines[j1].spec_end(),
        lines[j2].spec_start() <= p <= lines[j2].spec_end(),
    ensures
        j1 == j2,
{
    lemma_pos_line(lines, buf, j1, p);
    lemma_pos_line(lines, buf, j2, p);
}


/// `buf` with `ins` spliced in at offset `at`.
pub open spec fn splice(buf: Seq<char>, at: int, ins: Seq<char>) -> Seq<char> {
    buf.subrange(0, at) + ins + buf.subrange(at, buf.len() as int)
}

/// `buf` with the region `[from, to)` removed.
pub open spec fn cut(buf: Seq<char>, from: int, to: int) -> Seq<char> {
    buf.subrange(0, from) + buf.subrange(to, buf.len() as int)
}

/// A position sitting right after a line terminator can only be the start
/// of its line (column zero): every other position on a line has a content
/// character directly before it.
pub proof fn lemma_col_after_newline(lines: Seq<Line>, buf: Seq<char>, j: int, p: int)
    requires
        lines_wf(lines, buf),
        0 <= j < lines.len(),
        lines[j].spec_start() <= p <= lines[j].spec_end(),
        p > 0,
        buf[p - 1] == '\n',
    ensures
        p == lines[j].spec_start(),
{
    if lines[j].spec_start() < p {
        lemma_line_content(lines[j], buf);
    }
}


/// A successful forward search yields an in-range index whose token
/// satisfies the search's predicate.
pub proof fn lemma_first_touching_range(toks: Seq<Token>, pos: int, idx: int)
    ensures
        first_touching(toks, pos, idx) matches Some(j)
            ==> pos <= j < toks.len() && word_touching(toks[j], idx),
    decreases toks.len() - pos,
{
    if 0 <= pos < toks.len() && !word_touching(toks[pos], idx) {
        lemma_first_touching_range(toks, pos + 1, idx);
    }
}

pub proof fn lemma_first_after_range(toks: Seq<Token>, pos: int, idx: int)
    ensures
        first_after(toks, pos, idx) matches Some(j)
            ==> pos <= j < toks.len() && word_after(toks[j], idx),
    decreases toks.len() - pos,
{
    if 0 <= pos < toks.len() && !word_after(toks[pos], idx) {
        lemma_first_after_range(toks, pos + 1, idx);
    }
}

/// A successful backward search yields an in-range index whose token
/// satisfies the search's predicate.
pub proof fn lemma_last_ending_by_range(toks: Seq<Token>, pos: int, idx: int)
    ensures
        last_ending_by(toks, pos, idx) matches Some(j)
            ==> 0 <= j <= pos && j < toks.len() && word_ending_by(toks[j], idx),
    decreases pos + 1,
{
    if 0 <= pos < toks.len() && !word_ending_by(toks[pos], idx) {
        lemma_last_ending_by_range(toks, pos - 1, idx);
    }
}


/// Line starts are characterized by their prefix count: a position with
/// exactly `j` line terminators before it, sitting at the buffer start or
/// right after a terminator, can only be the start of line `j`.
pub proof fn lemma_start_characterization(lines: Seq<Line>, buf: Seq<char>, j: int, p: int)
    requires
        lines_wf(lines, buf),
        0 <= j < lines.len(),
        0 <= p <= buf.len(),
        nl_count(buf.subrange(0, p)) == j,
        p == 0 || buf[p - 1] == '\n',
    ensures
        p == lines[j].spec_start(),
{
    let s = lines[j].spec_start();
    lemma_line_start_count(lines, buf, j);
    if p < s {
        // then a terminator at s - 1 would push the count past j
        assert(s > 0);
        if j == 0 {
            assert(s == 0);
        } else {
            lemma_chain(lines, buf, j - 1);
            assert(buf[s - 1] == '\n');
            lemma_nl_count_split(buf, 0, p, s);
            lemma_nl_count_split(buf, p, s - 1, s);
            lemma_nl_count_single(buf, s - 1);
        }
    } else if p > s {
        // then the terminator at p - 1 would push the count past j
        assert(p > 0);
        assert(buf[p - 1] == '\n');
        lemma_nl_count_split(buf, 0, s, p);
        lemma_nl_count_split(buf, s, p - 1, p);
        lemma_nl_count_single(buf, p - 1);
    }
}


/// Direct access to the chaining and alternation facts of a token run for
/// one boundary: token `j + 1` starts where token `j` ends, with the
/// opposite kind.
proof fn lemma_token_chain(toks: Seq<Token>, start: int, j: int)
    requires
        tokens_chained(toks, start),
        tokens_alternate(toks),
        0 <= j < toks.len() - 1,
    ensures
        toks[j + 1].spec_idx() == toks[j].spec_end(),
        toks[j] is Word <==> toks[j + 1] is Space,
{
    let a = toks[j];
    let b = toks[j + 1];
    assert(a == toks[j] && b == toks[j + 1]);
}

/// The first tokens of two alternating runs tiling the same region cannot
/// end at different places: the earlier end would sit inside the other run's
/// first token, with a character of the wrong class right after it.
proof fn lemma_first_token_end_le(t1: Seq<Token>, t2: Seq<Token>, start: int, buf: Seq<char>)
    requires
        tokens_content_wf(t1, buf),
        tokens_chained(t1, start),
        tokens_alternate(t1),
        tokens_content_wf(t2, buf),
        tokens_chained(t2, start),
        tokens_end(t1, start) == tokens_end(t2, start),
        t1.len() > 0,
        t2.len() > 0,
        t1[0] is Word <==> t2[0] is Word,
    ensures
        t2[0].spec_end() <= t1[0].spec_end(),
{
    lemma_tokens_end_ge(t1, start, buf);
    lemma_tokens_end_ge(t2, start, buf);
    let a = t1[0];
    let b = t2[0];
    assert(a.wf(buf) && b.wf(buf));
    let e1 = a.spec_end();
    let e2 = b.spec_end();
    if e1 < e2 {
        // e1 sits strictly inside b's run, so buf[e1] has b's class
        assert(start <= e1 < e2);
        if t1.len() == 1 {
            // then e1 is the whole region's end, yet b reaches past it
            assert(e1 == tokens_end(t1, start));
            assert(e2 <= tokens_end(t2, start));
            assert(false);
        } else {
            // the token after a has the opposite class, so buf[e1] has the
            // wrong class for b's run
            lemma_token_chain(t1, start, 0);
            assert(t1[1].spec_idx() == e1);
            assert(t1[1].wf(buf));
            assert(t1[1].spec_len() > 0);
            assert(t1[0] is Word <==> t1[1] is Space);
            if a is Word {
                assert(t1[1] is Space);
                assert(buf[e1] == ' ');
                assert(is_word_char(buf[e1]));
                assert(false);
            } else {
                assert(a is Space);
                assert(t1[1] is Word);
                assert(is_word_char(buf[e1]));
                assert(buf[e1] == ' ');
                assert(false);
            }
        }
    }
}

/// Two alternating runs of content tokens tiling the same region of the
/// buffer are the same run: the classification rules leave no choice in
/// where tokens start, end, or what kind they are.
proof fn lemma_tokens_unique(t1: Seq<Token>, t2: Seq<Token>, start: int, buf: Seq<char>)
    requires
        tokens_content_wf(t1, buf),
        tokens_chained(t1, start),
        tokens_alternate(t1),
        tokens_content_wf(t2, buf),
        tokens_chained(t2, start),
        tokens_alternate(t2),
        tokens_end(t1, start) == tokens_end(t2, start),
    ensures
        t1 =~= t2,
    decreases t1.len(),
{
    lemma_tokens_end_ge(t1, start, buf);
    lemma_tokens_end_ge(t2, start, buf);
    let end = tokens_end(t1, start);
    if t1.len() == 0 && t2.len() == 0 {
        assert(t1 =~= t2);
    } else if t1.len() == 0 {
        // t1 ends the region at `start`, but t2's first token reaches past it
        assert(t2[0].wf(buf));
        assert(t2[0].spec_end() <= end && end == start);
        assert(false);
    } else if t2.len() == 0 {
        assert(t1[0].wf(buf));
        assert(t1[0].spec_end() <= end && end == start);
        assert(false);
    } else {
        let a = t1[0];
        let b = t2[0];
        assert(a.wf(buf) && b.wf(buf));
        // same kind: the class of the first character decides it
        assert(a is Word <==> b is Word) by {
            if a is Word && b is Space {
                assert(is_word_char(buf[start]));
                assert(buf[start] == ' ');
            }
            if a is Space && b is Word {
                assert(buf[start] == ' ');
                assert(is_word_char(buf[start]));
            }
        }
        lemma_first_token_end_le(t1, t2, start, buf);
        lemma_first_token_end_le(t2, t1, start, buf);
        assert(a.spec_end() == b.spec_end());
        assert(a == b);
        // and the remainders tile the same region from the shared end
        let r1 = t1.subrange(1, t1.len() as int);
        let r2 = t2.subrange(1, t2.len() as int);
        let start2 = a.spec_end();
        assert forall|j: int| 0 <= j < r1.len() implies (#[trigger] r1[j]) == t1[j + 1] by {}
        assert forall|j: int| 0 <= j < r2.len() implies (#[trigger] r2[j]) == t2[j + 1] by {}
        if r1.len() > 0 {
            assert(t1.last() == r1.last());
        }
        if r2.len() > 0 {
            assert(t2.last() == r2.last());
        }
        lemma_tokens_end_ge(r1, start2, buf);
        lemma_tokens_end_ge(r2, start2, buf);
        assert(tokens_end(r1, start2) == tokens_end(r2, start2)) by {
            if r1.len() == 0 && r2.len() > 0 {
                assert(tokens_end(r2, start2) == end);
                assert(r2[0].wf(buf));
            }
            if r2.len() == 0 && r1.len() > 0 {
                assert(tokens_end(r1, start2) == end);
                assert(r1[0].wf(buf));
            }
        }
        lemma_tokens_unique(r1, r2, start2, buf);
        assert forall|j: int| 0 <= j < t1.len() implies t1[j] == t2[j] by {
            if j > 0 {
                assert(r1[j - 1] == t1[j]);
                assert(r2[j - 1] == t2[j]);
                assert(r1[j - 1] == r2[j - 1]);
            }
        }
        assert(t1.len() == t2.len());
        assert(t1 =~= t2);
    }
}

/// A buffer has exactly one well-formed line index: `lines_wf` pins the
/// number of lines, every line's start offset, and every line's token list.
/// The index an editor carries is therefore determined by its buffer alone.
pub proof fn lemma_index_unique(l1: Seq<Line>, l2: Seq<Line>, buf: Seq<char>)
    requires
        lines_wf(l1, buf),
        lines_wf(l2, buf),
    ensures
        l1.len() == l2.len(),
        forall|i: int| 0 <= i < l1.len()
            ==> (#[trigger] l1[i]).idx == l2[i].idx && l1[i].tokens@ == l2[i].tokens@,
{
    lemma_lines_count(l1, buf);
    lemma_lines_count(l2, buf);
    assert forall|i: int| 0 <= i < l1.len()
        implies (#[trigger] l1[i]).idx == l2[i].idx && l1[i].tokens@ == l2[i].tokens@ by {
        lemma_starts_agree(l1, l2, buf, i);
        lemma_line_content(l1[i], buf);
        lemma_line_content(l2[i], buf);
        // the two lines cover the same region, so their ends agree
        assert(l1[i].spec_end() == l2[i].spec_end()) by {
            lemma_ends_agree(l1, l2, buf, i);
        }
        assert(tokens_end(l1[i].tokens@, l1[i].spec_start()) == l1[i].spec_end());
        assert(tokens_end(l2[i].tokens@, l2[i].spec_start()) == l2[i].spec_end());
        lemma_tokens_unique(l1[i].tokens@, l2[i].tokens@, l1[i].spec_start(), buf);
    }
}

/// Line `i` starts at the same offset in any two well-formed indexes.
proof fn lemma_starts_agree(l1: Seq<Line>, l2: Seq<Line>, buf: Seq<char>, i: int)
    requires
        lines_wf(l1, buf),
        lines_wf(l2, buf),
        l1.len() == l2.len(),
        0 <= i < l1.len(),
    ensures
        l1[i].spec_start() == l2[i].spec_start(),
    decreases i,
{
    if i > 0 {
        lemma_starts_agree(l1, l2, buf, i - 1);
        lemma_ends_agree(l1, l2, buf, i - 1);
        lemma_chain(l1, buf, i - 1);
        lemma_chain(l2, buf, i - 1);
    }
}

/// Line `i` ends at the same offset in any two well-formed indexes that
/// start it at the same offset: the end is the first line terminator at or
/// after the start (or the buffer's end on the last line).
proof fn lemma_ends_agree(l1: Seq<Line>, l2: Seq<Line>, buf: Seq<char>, i: int)
    requires
        lines_wf(l1, buf),
        lines_wf(l2, buf),
        l1.len() == l2.len(),
        0 <= i < l1.len(),
        l1[i].spec_start() == l2[i].spec_start(),
    ensures
        l1[i].spec_end() == l2[i].spec_end(),
{
    lemma_line_content(l1[i], buf);
    lemma_line_content(l2[i], buf);
    let e1 = l1[i].spec_end();
    let e2 = l2[i].spec_end();
    if i < l1.len() - 1 {
        lemma_chain(l1, buf, i);
        lemma_chain(l2, buf, i);
        // the earlier end would be a terminator inside the other's content
        if e1 < e2 {
            assert(buf[e1] == '\n');
            assert(buf[e1] != '\n');
        }
        if e2 < e1 {
            assert(buf[e2] == '\n');
            assert(buf[e2] != '\n');
        }
    }
}

} // verus!
