//! Splits zone file text into logical entries of tokens.
//!
//! Handles comments, parentheses spanning lines, quoted strings and
//! backslash escapes. Escapes are kept raw in the token text so names and
//! rdata print back out exactly as written.
//!
//! What the lexer does is stated as a machine that reads one byte at a
//! time ([`lex_step`]); [`tokenise`] is proved to give what running that
//! machine over the whole text gives.

use vstd::prelude::*;
use vstd::string::*;
use vstd::utf8::*;
use crate::text::{string_bytes, cut_point, lemma_cut_after_ascii, lemma_valid_slice, utf8_string, string_of};

verus! {

broadcast use vstd::utf8::encode_utf8_valid_utf8, vstd::utf8::encode_utf8_decode_utf8;

#[derive(Debug, PartialEq)]
pub struct Token {
    pub text: String,
    pub quoted: bool,
}

#[derive(Debug)]
pub struct Line {
    /// The physical line the entry starts on.
    pub number: usize,
    /// True when the entry starts with whitespace, meaning it has no owner.
    pub leading_blank: bool,
    pub tokens: Vec<Token>,
}

#[derive(Debug)]
pub struct LexError {
    pub line: usize,
    pub message: String,
}

/// What the lexer is in the middle of.
#[derive(Clone, Copy, Debug, PartialEq, Eq, Structural)]
pub enum LexMode {
    Normal,
    Quoted,
    /// Just read a backslash outside quotes.
    Escape,
    /// Just read a backslash inside quotes.
    QuotedEscape,
    /// Inside a `;` comment.
    Comment,
}

/// Why the text can't be split into tokens.
#[derive(Clone, Copy, Debug, PartialEq, Eq, Structural)]
pub enum LexFault {
    UnterminatedQuote,
    UnexpectedClose,
    TrailingBackslash,
    UnclosedOpen,
}

pub open spec fn fault_message(f: LexFault) -> Seq<char> {
    match f {
        LexFault::UnterminatedQuote => "unterminated quoted string"@,
        LexFault::UnexpectedClose => "unexpected )"@,
        LexFault::TrailingBackslash => "trailing backslash"@,
        LexFault::UnclosedOpen => "unclosed ("@,
    }
}

pub struct TokenV {
    pub text: Seq<u8>,
    pub quoted: bool,
}

pub struct LineV {
    pub number: nat,
    pub leading_blank: bool,
    pub tokens: Seq<TokenV>,
}

/// The lexer's state between two bytes.
pub struct LexState {
    pub lines: Seq<LineV>,
    pub tokens: Seq<TokenV>,
    pub buf: Seq<u8>,
    pub in_token: bool,
    pub mode: LexMode,
    pub entry_line: nat,
    pub leading_blank: bool,
    pub line: nat,
    pub depth: nat,
    pub open_line: nat,
    pub at_line_start: bool,
}

pub open spec fn lex_init() -> LexState {
    LexState {
        lines: Seq::empty(),
        tokens: Seq::empty(),
        buf: Seq::empty(),
        in_token: false,
        mode: LexMode::Normal,
        entry_line: 0,
        leading_blank: false,
        line: 1,
        depth: 0,
        open_line: 0,
        at_line_start: true,
    }
}

/// Ends the token being read, if any.
pub open spec fn flush_token(st: LexState) -> LexState {
    if st.in_token {
        LexState {
            tokens: st.tokens.push(TokenV { text: st.buf, quoted: st.mode == LexMode::Quoted }),
            buf: Seq::empty(),
            in_token: false,
            ..st
        }
    } else {
        st
    }
}

/// Ends the entry being read, if it has any tokens.
pub open spec fn flush_line(st: LexState) -> LexState {
    let s = flush_token(st);
    if s.tokens.len() > 0 {
        LexState {
            lines: s.lines.push(
                LineV { number: s.entry_line, leading_blank: s.leading_blank, tokens: s.tokens },
            ),
            tokens: Seq::empty(),
            ..s
        }
    } else {
        s
    }
}

/// Notes where an entry starts, at the first byte of a physical line.
pub open spec fn start_line(st: LexState, c: u8) -> LexState {
    if st.at_line_start {
        if st.depth == 0 {
            LexState {
                at_line_start: false,
                entry_line: st.line,
                leading_blank: c == 32u8 || c == 9u8,
                ..st
            }
        } else {
            LexState { at_line_start: false, ..st }
        }
    } else {
        st
    }
}

/// One byte outside quotes, comments and escapes.
pub open spec fn step_normal(st: LexState, c: u8) -> Result<LexState, (nat, LexFault)> {
    if c == 59u8 {
        Ok(LexState { mode: LexMode::Comment, ..flush_token(st) })
    } else if c == 40u8 {
        let s = flush_token(st);
        Ok(
            LexState {
                open_line: if s.depth == 0 {
                    s.line
                } else {
                    s.open_line
                },
                depth: s.depth + 1,
                ..s
            },
        )
    } else if c == 41u8 {
        let s = flush_token(st);
        if s.depth == 0 {
            Err((s.line, LexFault::UnexpectedClose))
        } else {
            Ok(LexState { depth: (s.depth - 1) as nat, ..s })
        }
    } else if c == 32u8 || c == 9u8 || c == 13u8 {
        Ok(flush_token(st))
    } else if c == 10u8 {
        let s = if st.depth == 0 {
            flush_line(st)
        } else {
            flush_token(st)
        };
        Ok(LexState { line: s.line + 1, at_line_start: true, ..s })
    } else if c == 34u8 {
        Ok(LexState { in_token: true, mode: LexMode::Quoted, ..flush_token(st) })
    } else if c == 92u8 {
        Ok(LexState { mode: LexMode::Escape, ..st })
    } else {
        Ok(LexState { in_token: true, buf: st.buf.push(c), ..st })
    }
}

/// The lexer reading one byte.
pub open spec fn lex_step(st: LexState, c: u8) -> Result<LexState, (nat, LexFault)> {
    match st.mode {
        LexMode::Comment => if c == 10u8 {
            step_normal(start_line(LexState { mode: LexMode::Normal, ..st }, c), c)
        } else {
            Ok(st)
        },
        LexMode::Escape => if c != 10u8 && c != 13u8 {
            Ok(
                LexState {
                    in_token: true,
                    buf: st.buf.push(92u8).push(c),
                    mode: LexMode::Normal,
                    ..st
                },
            )
        } else {
            Err((st.line, LexFault::TrailingBackslash))
        },
        LexMode::QuotedEscape => if c != 10u8 {
            Ok(LexState { buf: st.buf.push(92u8).push(c), mode: LexMode::Quoted, ..st })
        } else {
            Err((st.line, LexFault::UnterminatedQuote))
        },
        LexMode::Quoted => {
            let s = start_line(st, c);
            if c == 34u8 {
                Ok(LexState { mode: LexMode::Normal, ..flush_token(s) })
            } else if c == 92u8 {
                Ok(LexState { mode: LexMode::QuotedEscape, ..s })
            } else if c == 10u8 {
                Err((s.line, LexFault::UnterminatedQuote))
            } else {
                Ok(LexState { buf: s.buf.push(c), ..s })
            }
        },
        LexMode::Normal => step_normal(start_line(st, c), c),
    }
}

/// The lexer after reading the first `m` bytes of `s`.
pub open spec fn lex_prefix(s: Seq<u8>, m: nat) -> Result<LexState, (nat, LexFault)>
    decreases m,
{
    if m == 0 {
        Ok(lex_init())
    } else {
        match lex_prefix(s, (m - 1) as nat) {
            Ok(st) => lex_step(st, s[m - 1]),
            Err(e) => Err(e),
        }
    }
}

/// The end of the text.
pub open spec fn lex_finish(st: LexState) -> Result<Seq<LineV>, (nat, LexFault)> {
    if st.mode == LexMode::Quoted || st.mode == LexMode::QuotedEscape {
        Err((st.line, LexFault::UnterminatedQuote))
    } else if st.mode == LexMode::Escape {
        Err((st.line, LexFault::TrailingBackslash))
    } else if st.depth > 0 {
        Err((st.open_line, LexFault::UnclosedOpen))
    } else {
        Ok(flush_line(st).lines)
    }
}

/// `b` without a leading byte order mark.
/// `b` starts with the UTF-8 byte order mark.
pub open spec fn starts_with_bom(b: Seq<u8>) -> bool {
    b.len() >= 3 && b[0] == 0xefu8 && b[1] == 0xbbu8 && b[2] == 0xbfu8
}

pub open spec fn strip_bom(b: Seq<u8>) -> Seq<u8> {
    if starts_with_bom(b) {
        b.skip(3)
    } else {
        b
    }
}

/// The entries of zone text, or where and why it can't be split.
pub open spec fn tokenise_spec(b: Seq<u8>) -> Result<Seq<LineV>, (nat, LexFault)> {
    let s = strip_bom(b);
    match lex_prefix(s, s.len()) {
        Ok(st) => lex_finish(st),
        Err(e) => Err(e),
    }
}

pub open spec fn token_view(t: Token) -> TokenV {
    TokenV { text: string_bytes(&t.text), quoted: t.quoted }
}

pub open spec fn tokens_view(ts: Seq<Token>) -> Seq<TokenV> {
    ts.map_values(|t: Token| token_view(t))
}

pub open spec fn line_view(l: Line) -> LineV {
    LineV { number: l.number as nat, leading_blank: l.leading_blank, tokens: tokens_view(l.tokens@) }
}

pub open spec fn lines_view(ls: Seq<Line>) -> Seq<LineV> {
    ls.map_values(|l: Line| line_view(l))
}

struct Lexer {
    lines: Vec<Line>,
    tokens: Vec<Token>,
    buf: Vec<u8>,
    in_token: bool,
    mode: LexMode,
    entry_line: usize,
    leading_blank: bool,
    line: usize,
    depth: usize,
    open_line: usize,
    at_line_start: bool,
}

impl Lexer {
    spec fn state(&self) -> LexState {
        LexState {
            lines: lines_view(self.lines@),
            tokens: tokens_view(self.tokens@),
            buf: self.buf@,
            in_token: self.in_token,
            mode: self.mode,
            entry_line: self.entry_line as nat,
            leading_blank: self.leading_blank,
            line: self.line as nat,
            depth: self.depth as nat,
            open_line: self.open_line as nat,
            at_line_start: self.at_line_start,
        }
    }

    /// The numbers stay small enough to keep counting.
    spec fn bounded(&self, room: int) -> bool {
        &&& self.line + room <= usize::MAX
        &&& self.depth + room <= usize::MAX
        &&& self.entry_line <= self.line
        &&& self.open_line <= self.line
    }

    fn flush_token(&mut self)
        requires
            old(self).in_token ==> valid_utf8(old(self).buf@),
            !old(self).in_token ==> old(self).buf@.len() == 0,
        ensures
            final(self).state() == flush_token(old(self).state()),
            !final(self).in_token,
            final(self).buf@.len() == 0,
            final(self).mode == old(self).mode,
            final(self).line == old(self).line,
            final(self).depth == old(self).depth,
            final(self).entry_line == old(self).entry_line,
            final(self).open_line == old(self).open_line,
    {
        if self.in_token {
            let mut bytes: Vec<u8> = Vec::new();
            std::mem::swap(&mut bytes, &mut self.buf);
            let text = utf8_string(bytes);
            let ghost old_tokens = self.tokens@;
            self.tokens.push(Token { text, quoted: self.mode == LexMode::Quoted });
            self.in_token = false;
            proof {
                assert(tokens_view(self.tokens@) =~= tokens_view(old_tokens).push(
                    TokenV { text: old(self).buf@, quoted: old(self).mode == LexMode::Quoted },
                ));
                assert(self.buf@ =~= Seq::<u8>::empty());
            }
        }
    }

    fn flush_line(&mut self)
        requires
            old(self).in_token ==> valid_utf8(old(self).buf@),
            !old(self).in_token ==> old(self).buf@.len() == 0,
        ensures
            final(self).state() == flush_line(old(self).state()),
            !final(self).in_token,
            final(self).buf@.len() == 0,
            final(self).mode == old(self).mode,
            final(self).line == old(self).line,
            final(self).depth == old(self).depth,
            final(self).entry_line == old(self).entry_line,
            final(self).open_line == old(self).open_line,
    {
        self.flush_token();
        if self.tokens.len() > 0 {
            let mut tokens: Vec<Token> = Vec::new();
            std::mem::swap(&mut tokens, &mut self.tokens);
            let ghost old_lines = self.lines@;
            self.lines.push(
                Line { number: self.entry_line, leading_blank: self.leading_blank, tokens },
            );
            proof {
                assert(lines_view(self.lines@) =~= lines_view(old_lines).push(
                    LineV {
                        number: self.entry_line as nat,
                        leading_blank: self.leading_blank,
                        tokens: tokens_view(tokens@),
                    },
                ));
                assert(tokens_view(self.tokens@) =~= Seq::<TokenV>::empty());
            }
        }
    }

    /// Between bytes, the token being read is a slice of the text from
    /// `ts`, cut where a character starts.
    spec fn tracks(&self, b: Seq<u8>, i: int, ts: int) -> bool {
        let esc = self.mode == LexMode::Escape || self.mode == LexMode::QuotedEscape;
        let end = if esc {
            i - 1
        } else {
            i
        };
        &&& 0 <= i <= b.len()
        &&& (esc ==> i >= 1 && b[i - 1] == 92u8)
        &&& (self.in_token ==> 0 <= ts <= end && cut_point(b, ts) && self.buf@ == b.subrange(
            ts,
            end,
        ))
        &&& (!self.in_token ==> self.buf@.len() == 0)
        &&& (self.mode == LexMode::Quoted || self.mode == LexMode::QuotedEscape ==> self.in_token)
        &&& (self.mode == LexMode::Normal && !self.in_token ==> cut_point(b, i))
        &&& (self.mode == LexMode::Comment ==> !self.in_token)
    }

    fn start_line(&mut self, c: u8)
        ensures
            final(self).state() == start_line(old(self).state(), c),
            final(self).lines == old(self).lines,
            final(self).tokens == old(self).tokens,
            final(self).buf == old(self).buf,
            final(self).in_token == old(self).in_token,
            final(self).mode == old(self).mode,
            final(self).line == old(self).line,
            final(self).depth == old(self).depth,
            final(self).open_line == old(self).open_line,
            final(self).entry_line <= final(self).line || final(self).entry_line == old(
                self,
            ).entry_line,
    {
        if self.at_line_start {
            self.at_line_start = false;
            if self.depth == 0 {
                self.entry_line = self.line;
                self.leading_blank = c == 32u8 || c == 9u8;
            }
        }
    }

    /// One byte outside quotes, comments and escapes, at position `i`.
    fn step_normal(&mut self, c: u8, Ghost(b): Ghost<Seq<u8>>, Ghost(i): Ghost<int>, Ghost(
        ts,
    ): Ghost<int>) -> (r: (Result<(), LexError>, Ghost<int>))
        requires
            valid_utf8(b),
            0 <= i < b.len(),
            b[i] == c,
            old(self).mode == LexMode::Normal,
            old(self).tracks(b, i, ts),
            old(self).bounded(b.len() - i),
        ensures
            match step_normal(old(self).state(), c) {
                Ok(st) => r.0 is Ok && final(self).state() == st && final(self).tracks(
                    b,
                    i + 1,
                    r.1@,
                ) && final(self).bounded(b.len() - i - 1),
                Err((l, f)) => r.0 matches Err(e) && e.line == l && e.message@ == fault_message(f),
            },
    {
        proof {
            if c < 0x80 {
                if self.in_token {
                    lemma_valid_slice(b, ts, i);
                }
                lemma_cut_after_ascii(b, i + 1);
            }
        }
        if c == 59u8 {
            self.flush_token();
            self.mode = LexMode::Comment;
            (Ok(()), Ghost(ts))
        } else if c == 40u8 {
            self.flush_token();
            if self.depth == 0 {
                self.open_line = self.line;
            }
            self.depth = self.depth + 1;
            (Ok(()), Ghost(ts))
        } else if c == 41u8 {
            self.flush_token();
            if self.depth == 0 {
                return (Err(fault(self.line, LexFault::UnexpectedClose)), Ghost(ts));
            }
            self.depth = self.depth - 1;
            (Ok(()), Ghost(ts))
        } else if c == 32u8 || c == 9u8 || c == 13u8 {
            self.flush_token();
            (Ok(()), Ghost(ts))
        } else if c == 10u8 {
            if self.depth == 0 {
                self.flush_line();
            } else {
                self.flush_token();
            }
            self.line = self.line + 1;
            self.at_line_start = true;
            (Ok(()), Ghost(ts))
        } else if c == 34u8 {
            self.flush_token();
            self.in_token = true;
            self.mode = LexMode::Quoted;
            proof {
                assert(self.buf@ =~= b.subrange(i + 1, i + 1));
            }
            (Ok(()), Ghost(i + 1))
        } else if c == 92u8 {
            self.mode = LexMode::Escape;
            (Ok(()), Ghost(ts))
        } else {
            let ghost ts2 = if self.in_token {
                ts
            } else {
                i
            };
            self.buf.push(c);
            self.in_token = true;
            proof {
                assert(self.buf@ =~= b.subrange(ts2, i + 1));
            }
            (Ok(()), Ghost(ts2))
        }
    }

    /// The lexer reading the byte at position `i`.
    fn step(&mut self, c: u8, Ghost(b): Ghost<Seq<u8>>, Ghost(i): Ghost<int>, Ghost(ts): Ghost<int>) -> (r: (
        Result<(), LexError>,
        Ghost<int>,
    ))
        requires
            valid_utf8(b),
            0 <= i < b.len(),
            b[i] == c,
            old(self).tracks(b, i, ts),
            old(self).bounded(b.len() - i),
        ensures
            match lex_step(old(self).state(), c) {
                Ok(st) => r.0 is Ok && final(self).state() == st && final(self).tracks(
                    b,
                    i + 1,
                    r.1@,
                ) && final(self).bounded(b.len() - i - 1),
                Err((l, f)) => r.0 matches Err(e) && e.line == l && e.message@ == fault_message(f),
            },
    {
        match self.mode {
            LexMode::Comment => {
                if c == 10u8 {
                    self.mode = LexMode::Normal;
                    proof {
                        assert(cut_point(b, i));
                    }
                    self.start_line(c);
                    self.step_normal(c, Ghost(b), Ghost(i), Ghost(ts))
                } else {
                    (Ok(()), Ghost(ts))
                }
            },
            LexMode::Escape => {
                if c != 10u8 && c != 13u8 {
                    let ghost ts2 = if self.in_token {
                        ts
                    } else {
                        i - 1
                    };
                    self.buf.push(92u8);
                    self.buf.push(c);
                    self.in_token = true;
                    self.mode = LexMode::Normal;
                    proof {
                        assert(self.buf@ =~= b.subrange(ts2, i + 1));
                    }
                    (Ok(()), Ghost(ts2))
                } else {
                    (Err(fault(self.line, LexFault::TrailingBackslash)), Ghost(ts))
                }
            },
            LexMode::QuotedEscape => {
                if c != 10u8 {
                    self.buf.push(92u8);
                    self.buf.push(c);
                    self.mode = LexMode::Quoted;
                    proof {
                        assert(self.buf@ =~= b.subrange(ts, i + 1));
                    }
                    (Ok(()), Ghost(ts))
                } else {
                    (Err(fault(self.line, LexFault::UnterminatedQuote)), Ghost(ts))
                }
            },
            LexMode::Quoted => {
                self.start_line(c);
                if c == 34u8 {
                    proof {
                        lemma_valid_slice(b, ts, i);
                        lemma_cut_after_ascii(b, i + 1);
                    }
                    self.flush_token();
                    self.mode = LexMode::Normal;
                    (Ok(()), Ghost(ts))
                } else if c == 92u8 {
                    self.mode = LexMode::QuotedEscape;
                    (Ok(()), Ghost(ts))
                } else if c == 10u8 {
                    (Err(fault(self.line, LexFault::UnterminatedQuote)), Ghost(ts))
                } else {
                    self.buf.push(c);
                    proof {
                        assert(self.buf@ =~= b.subrange(ts, i + 1));
                    }
                    (Ok(()), Ghost(ts))
                }
            },
            LexMode::Normal => {
                self.start_line(c);
                self.step_normal(c, Ghost(b), Ghost(i), Ghost(ts))
            },
        }
    }
}

fn fault(line: usize, f: LexFault) -> (e: LexError)
    ensures
        e.line == line,
        e.message@ == fault_message(f),
{
    let message = match f {
        LexFault::UnterminatedQuote => string_of("unterminated quoted string"),
        LexFault::UnexpectedClose => string_of("unexpected )"),
        LexFault::TrailingBackslash => string_of("trailing backslash"),
        LexFault::UnclosedOpen => string_of("unclosed ("),
    };
    LexError { line, message }
}

proof fn lemma_bom_cut(b: Seq<u8>)
    requires
        valid_utf8(b),
        b.len() >= 3,
        b[0] == 0xefu8,
        b[1] == 0xbbu8,
        b[2] == 0xbfu8,
    ensures
        cut_point(b, 3),
{
    if b.len() > 3 {
        assert(valid_first_scalar(b));
        assert(length_of_first_scalar(b) == 3);
        let rest = pop_first_scalar(b);
        assert(rest =~= b.subrange(3, b.len() as int));
        assert(valid_utf8(rest));
        assert(valid_first_scalar(rest));
        assert(rest[0] == b[3]);
    }
}

proof fn lemma_lex_err_stays(s: Seq<u8>, m: nat, k: nat)
    requires
        lex_prefix(s, m) is Err,
        m <= k,
    ensures
        lex_prefix(s, k) == lex_prefix(s, m),
    decreases k - m,
{
    if m < k {
        lemma_lex_err_stays(s, m, (k - 1) as nat);
    }
}

pub fn tokenise(input: &str) -> (r: Result<Vec<Line>, LexError>)
    requires
        input.spec_bytes().len() < usize::MAX,
    ensures
        match tokenise_spec(input.spec_bytes()) {
            Ok(ls) => r matches Ok(lines) && lines_view(lines@) == ls,
            Err((l, f)) => r matches Err(e) && e.line == l && e.message@ == fault_message(f),
        },
{
    let b = input.as_bytes();
    let n = b.len();
    // Editors on Windows like to start files with a byte order mark.
    let start: usize = if n >= 3 && b[0] == 0xefu8 && b[1] == 0xbbu8 && b[2] == 0xbfu8 {
        3
    } else {
        0
    };
    let ghost s = strip_bom(b@);
    proof {
        assert(s =~= b@.skip(start as int));
        if start == 3 {
            lemma_bom_cut(b@);
        }
    }
    let mut lx = Lexer {
        lines: Vec::new(),
        tokens: Vec::new(),
        buf: Vec::new(),
        in_token: false,
        mode: LexMode::Normal,
        entry_line: 0,
        leading_blank: false,
        line: 1,
        depth: 0,
        open_line: 0,
        at_line_start: true,
    };
    let ghost mut ts: int = 0;
    proof {
        assert(lines_view(lx.lines@) =~= Seq::<LineV>::empty());
        assert(tokens_view(lx.tokens@) =~= Seq::<TokenV>::empty());
        assert(lx.state() == lex_init());
    }
    let mut i = start;
    while i < n
        invariant
            start <= i <= n == b@.len(),
            valid_utf8(b@),
            b@ == input.spec_bytes(),
            s == b@.skip(start as int),
            s == strip_bom(input.spec_bytes()),
            lex_prefix(s, (i - start) as nat) == Ok::<LexState, (nat, LexFault)>(lx.state()),
            lx.tracks(b@, i as int, ts),
            lx.bounded(n - i),
        decreases n - i,
    {
        let (res, Ghost(ts2)) = lx.step(b[i], Ghost(b@), Ghost(i as int), Ghost(ts));
        proof {
            assert(s[i - start] == b@[i as int]);
        }
        match res {
            Err(e) => {
                proof {
                    lemma_lex_err_stays(s, (i - start + 1) as nat, s.len());
                }
                return Err(e);
            },
            Ok(()) => {},
        }
        proof {
            ts = ts2;
        }
        i += 1;
    }
    proof {
        assert((n - start) as nat == s.len());
    }
    if lx.mode == LexMode::Quoted || lx.mode == LexMode::QuotedEscape {
        return Err(fault(lx.line, LexFault::UnterminatedQuote));
    }
    if lx.mode == LexMode::Escape {
        return Err(fault(lx.line, LexFault::TrailingBackslash));
    }
    if lx.depth > 0 {
        return Err(fault(lx.open_line, LexFault::UnclosedOpen));
    }
    proof {
        if lx.in_token {
            lemma_valid_slice(b@, ts, n as int);
        }
    }
    lx.flush_line();
    Ok(lx.lines)
}

} // verus!
