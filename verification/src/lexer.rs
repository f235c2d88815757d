//! The lexer: splits source text into tokens, line by line.
use vstd::prelude::*;
use vstd::string::StringSliceAdditionalSpecFns;
use crate::utils::{ascii_chars, is_ascii_bytes, string_from_ascii};

verus! {

/// Tokens.
#[derive(Clone, Debug, PartialEq)]
pub enum Token {
    Lparen,
    Rparen,
    Lbracket,
    Rbracket,
    Eq,
    Ampersand,
    Star,
    Comma,
    Semicolon,
    Fn,
    Let,
    Mut,
    Box,
    Int(i32),
    Var(String),
}

/// The mathematical view of a token.
pub enum TokenV {
    Lparen,
    Rparen,
    Lbracket,
    Rbracket,
    Eq,
    Ampersand,
    Star,
    Comma,
    Semicolon,
    Fn,
    Let,
    Mut,
    Box,
    Int(i32),
    Var(Seq<char>),
}

impl View for Token {
    type V = TokenV;

    open spec fn view(&self) -> TokenV {
        match self {
            Token::Lparen => TokenV::Lparen,
            Token::Rparen => TokenV::Rparen,
            Token::Lbracket => TokenV::Lbracket,
            Token::Rbracket => TokenV::Rbracket,
            Token::Eq => TokenV::Eq,
            Token::Ampersand => TokenV::Ampersand,
            Token::Star => TokenV::Star,
            Token::Comma => TokenV::Comma,
            Token::Semicolon => TokenV::Semicolon,
            Token::Fn => TokenV::Fn,
            Token::Let => TokenV::Let,
            Token::Mut => TokenV::Mut,
            Token::Box => TokenV::Box,
            Token::Int(i) => TokenV::Int(*i),
            Token::Var(x) => TokenV::Var(x@),
        }
    }
}

impl Token {
    /// A copy of this token.
    pub fn duplicate(&self) -> (t: Token)
        ensures
            t@ == self@,
    {
        match self {
            Token::Lparen => Token::Lparen,
            Token::Rparen => Token::Rparen,
            Token::Lbracket => Token::Lbracket,
            Token::Rbracket => Token::Rbracket,
            Token::Eq => Token::Eq,
            Token::Ampersand => Token::Ampersand,
            Token::Star => Token::Star,
            Token::Comma => Token::Comma,
            Token::Semicolon => Token::Semicolon,
            Token::Fn => Token::Fn,
            Token::Let => Token::Let,
            Token::Mut => Token::Mut,
            Token::Box => Token::Box,
            Token::Int(i) => Token::Int(*i),
            Token::Var(x) => Token::Var(x.clone()),
        }
    }

    /// Whether two tokens are the same.
    pub fn same(&self, other: &Token) -> (b: bool)
        ensures
            b == (self@ == other@),
    {
        match (self, other) {
            (Token::Lparen, Token::Lparen) => true,
            (Token::Rparen, Token::Rparen) => true,
            (Token::Lbracket, Token::Lbracket) => true,
            (Token::Rbracket, Token::Rbracket) => true,
            (Token::Eq, Token::Eq) => true,
            (Token::Ampersand, Token::Ampersand) => true,
            (Token::Star, Token::Star) => true,
            (Token::Comma, Token::Comma) => true,
            (Token::Semicolon, Token::Semicolon) => true,
            (Token::Fn, Token::Fn) => true,
            (Token::Let, Token::Let) => true,
            (Token::Mut, Token::Mut) => true,
            (Token::Box, Token::Box) => true,
            (Token::Int(a), Token::Int(b)) => *a == *b,
            (Token::Var(a), Token::Var(b)) => *a == *b,
            _ => false,
        }
    }
}

/// A lexing error: an unknown character at a line and column (both from 1).
#[derive(Debug, Clone, Copy, PartialEq, Eq, Structural)]
pub enum Error {
    Unknown(usize, usize),
}

pub type LexResult = Result<Token, Error>;

/// The view of a lexer's position in its text `b`: `pos..end` is what is left
/// of the current line, `rest` is where the next line starts, and `line`, `col`
/// are the line and column numbers of `pos`.
pub struct LexV {
    pub rest: nat,
    pub end: nat,
    pub pos: nat,
    pub line: nat,
    pub col: nat,
}

pub open spec fn lex_wf(b: Seq<u8>, s: LexV) -> bool {
    &&& s.pos <= s.end <= s.rest <= b.len()
    &&& s.col <= s.pos + 1
    &&& s.line <= s.rest
}

/// The bytes of the lexemes of the fixed tokens, in the order they are tried.
pub open spec fn lexeme(k: int) -> (Seq<u8>, TokenV) {
    if k == 0 {
        (seq![40u8], TokenV::Lparen)
    } else if k == 1 {
        (seq![41u8], TokenV::Rparen)
    } else if k == 2 {
        (seq![123u8], TokenV::Lbracket)
    } else if k == 3 {
        (seq![125u8], TokenV::Rbracket)
    } else if k == 4 {
        (seq![61u8], TokenV::Eq)
    } else if k == 5 {
        (seq![38u8], TokenV::Ampersand)
    } else if k == 6 {
        (seq![42u8], TokenV::Star)
    } else if k == 7 {
        (seq![44u8], TokenV::Comma)
    } else if k == 8 {
        (seq![59u8], TokenV::Semicolon)
    } else if k == 9 {
        (seq![102u8, 110u8], TokenV::Fn)
    } else if k == 10 {
        (seq![108u8, 101u8, 116u8], TokenV::Let)
    } else if k == 11 {
        (seq![109u8, 117u8, 116u8], TokenV::Mut)
    } else {
        (seq![66u8, 111u8, 120u8, 58u8, 58u8, 110u8, 101u8, 119u8], TokenV::Box)
    }
}

/// The line `pos..end` of `b` starts with `pat`.
pub open spec fn starts_with(b: Seq<u8>, pos: nat, end: nat, pat: Seq<u8>) -> bool {
    pos + pat.len() <= end && end <= b.len() && b.subrange(pos as int, (pos + pat.len()) as int) == pat
}

/// The first lexeme, from number `k` on, that the rest of the line starts with.
pub open spec fn lexeme_from(b: Seq<u8>, s: LexV, k: int) -> Option<(TokenV, nat)>
    decreases 13 - k,
{
    if k < 0 || k >= 13 {
        None
    } else if starts_with(b, s.pos, s.end, lexeme(k).0) {
        Some((lexeme(k).1, lexeme(k).0.len()))
    } else {
        lexeme_from(b, s, k + 1)
    }
}

pub open spec fn is_digit(c: u8) -> bool {
    48 <= c <= 57
}

pub open spec fn is_alpha(c: u8) -> bool {
    (65 <= c <= 90) || (97 <= c <= 122)
}

pub open spec fn is_word(c: u8) -> bool {
    is_digit(c) || is_alpha(c) || c == 95
}

/// ASCII whitespace.
pub open spec fn is_space(c: u8) -> bool {
    c == 9 || c == 10 || c == 11 || c == 12 || c == 13 || c == 32
}

/// Line `..end` of `b` holds, at `p`, a whitespace character encoded in more
/// than one byte (U+0085, U+00A0, U+1680, U+2000 to U+200A, U+2028, U+2029,
/// U+202F, U+205F or U+3000).
pub open spec fn wide_space_at(b: Seq<u8>, p: nat, end: nat) -> bool {
    let q = p as int;
    let e = end as int;
    ||| q + 1 < e && b[q] == 0xC2 && (b[q + 1] == 0x85 || b[q + 1] == 0xA0)
    ||| q + 2 < e && b[q] == 0xE1 && b[q + 1] == 0x9A && b[q + 2] == 0x80
    ||| q + 2 < e && b[q] == 0xE2 && b[q + 1] == 0x80 && 0x80 <= b[q + 2] && (b[q + 2] <= 0x8A
        || b[q + 2] == 0xA8 || b[q + 2] == 0xA9 || b[q + 2] == 0xAF)
    ||| q + 2 < e && b[q] == 0xE2 && b[q + 1] == 0x81 && b[q + 2] == 0x9F
    ||| q + 2 < e && b[q] == 0xE3 && b[q + 1] == 0x80 && b[q + 2] == 0x80
}

/// Where the line starting at `i` ends: the first newline at or after `i`, or the end.
pub open spec fn next_newline(b: Seq<u8>, i: nat) -> nat
    decreases b.len() - i,
{
    if i >= b.len() {
        b.len()
    } else if b[i as int] == 10 {
        i
    } else {
        next_newline(b, i + 1)
    }
}

/// Moves to the next line: a line ends before `\n`, or before `\r\n`.
pub open spec fn load_line(b: Seq<u8>, s: LexV) -> LexV {
    let q = next_newline(b, s.rest);
    LexV {
        rest: if q < b.len() {
            q + 1
        } else {
            b.len()
        },
        end: if q < b.len() && q > s.rest && b[q - 1] == 13 {
            (q - 1) as nat
        } else {
            q
        },
        pos: s.rest,
        line: s.line + 1,
        col: 1,
    }
}

pub open spec fn consume_spec(s: LexV, n: nat) -> LexV {
    LexV { pos: s.pos + n, col: s.col + n, ..s }
}

pub proof fn lemma_next_newline(b: Seq<u8>, i: nat)
    ensures
        i <= b.len() ==> i <= next_newline(b, i) <= b.len(),
        next_newline(b, i) < b.len() ==> b[next_newline(b, i) as int] == 10,
        forall|j: int| i <= j < next_newline(b, i) ==> b[j] != 10,
    decreases b.len() - i,
{
    if i < b.len() && b[i as int] != 10 {
        lemma_next_newline(b, i + 1);
    }
}

pub proof fn lemma_load_line(b: Seq<u8>, s: LexV)
    requires
        lex_wf(b, s),
        s.rest < b.len(),
    ensures
        lex_wf(b, load_line(b, s)),
        load_line(b, s).rest > s.rest,
        load_line(b, s).pos >= s.pos,
{
    lemma_next_newline(b, s.rest);
}

/// Skips whitespace, comments (`//` to the end of the line) and empty lines.
/// When no line is left, what remains of the current one stays. `None` when a
/// whitespace character of more than one byte is met.
pub open spec fn skip_ws(b: Seq<u8>, s: LexV) -> Option<LexV>
    decreases b.len() - s.rest, s.end - s.pos,
{
    if !lex_wf(b, s) {
        None
    } else if s.pos >= s.end || starts_with(b, s.pos, s.end, seq![47u8, 47u8]) {
        if s.rest >= b.len() {
            Some(s)
        } else {
            proof {
                lemma_load_line(b, s);
            }
            skip_ws(b, load_line(b, s))
        }
    } else if is_space(b[s.pos as int]) {
        skip_ws(b, consume_spec(s, 1))
    } else if wide_space_at(b, s.pos, s.end) {
        None
    } else {
        Some(s)
    }
}

/// The number of bytes satisfying `is_digit` from `p` on, before `end`.
pub open spec fn digit_run(b: Seq<u8>, p: nat, end: nat) -> nat
    decreases end - p,
{
    if p >= end || p >= b.len() || !is_digit(b[p as int]) {
        0
    } else {
        1 + digit_run(b, p + 1, end)
    }
}

/// The number of bytes satisfying `is_word` from `p` on, before `end`.
pub open spec fn word_run(b: Seq<u8>, p: nat, end: nat) -> nat
    decreases end - p,
{
    if p >= end || p >= b.len() || !is_word(b[p as int]) {
        0
    } else {
        1 + word_run(b, p + 1, end)
    }
}

/// The value of the `n` decimal digits of `b` from `p`.
pub open spec fn digit_value(b: Seq<u8>, p: nat, n: nat) -> nat
    decreases n,
{
    if n == 0 {
        0
    } else {
        digit_value(b, p, (n - 1) as nat) * 10 + (b[p + n - 1] - 48) as nat
    }
}

/// The view of a lexing outcome.
pub enum LexOut {
    Tok(TokenV),
    Unknown(nat, nat),
}

/// The next token after `s` and the position after it: `None` inside means the
/// text is exhausted. The outer `None` means that lexing fails (a whitespace
/// character of more than one byte, or an integer literal beyond `i32`).
/// Fixed tokens are tried first, in the order of `lexeme`, then integer
/// literals, then names of letters, digits and underscores starting with a
/// letter or an underscore; anything else is an unknown character.
pub open spec fn next_spec(b: Seq<u8>, st: LexV) -> Option<(LexV, Option<LexOut>)> {
    match skip_ws(b, st) {
        None => None,
        Some(s) => if s.pos >= s.end {
            Some((s, None))
        } else {
            match lexeme_from(b, s, 0) {
                Some((tok, n)) => Some((consume_spec(s, n), Some(LexOut::Tok(tok)))),
                None => {
                    let c = b[s.pos as int];
                    if is_digit(c) {
                        let n = digit_run(b, s.pos, s.end);
                        let v = digit_value(b, s.pos, n);
                        if v > i32::MAX {
                            None
                        } else {
                            Some((consume_spec(s, n), Some(LexOut::Tok(TokenV::Int(v as i32)))))
                        }
                    } else if is_alpha(c) || c == 95 {
                        let n = word_run(b, s.pos, s.end);
                        Some(
                            (
                                consume_spec(s, n),
                                Some(
                                    LexOut::Tok(
                                        TokenV::Var(ascii_chars(b.subrange(s.pos as int, (s.pos + n) as int))),
                                    ),
                                ),
                            ),
                        )
                    } else {
                        Some((s, Some(LexOut::Unknown(s.line, s.col))))
                    }
                },
            }
        },
    }
}

/// How a token stream ends.
pub enum End {
    /// The text is exhausted.
    Eof,
    /// An unknown character at a line and column.
    Unknown(nat, nat),
    /// Lexing fails.
    Crash,
}

/// The tokens of a text, and how they end.
pub struct Stream {
    pub toks: Seq<TokenV>,
    pub end: End,
}

pub proof fn lemma_skip_ws(b: Seq<u8>, s: LexV)
    ensures
        skip_ws(b, s) matches Some(s2) ==> lex_wf(b, s2) && (s2.rest > s.rest || (s2.rest
            == s.rest && s2.pos >= s.pos && s2.end == s.end)) && s2.pos >= s.pos,
    decreases b.len() - s.rest, s.end - s.pos,
{
    if !lex_wf(b, s) {
    } else if s.pos >= s.end || starts_with(b, s.pos, s.end, seq![47u8, 47u8]) {
        if s.rest < b.len() {
            lemma_load_line(b, s);
            lemma_skip_ws(b, load_line(b, s));
        }
    } else if is_space(b[s.pos as int]) {
        lemma_skip_ws(b, consume_spec(s, 1));
    }
}

pub proof fn lemma_runs(b: Seq<u8>, p: nat, end: nat)
    requires
        end <= b.len(),
        p <= end,
    ensures
        p + digit_run(b, p, end) <= end,
        p + word_run(b, p, end) <= end,
    decreases end - p,
{
    if p < end {
        lemma_runs(b, p + 1, end);
    }
}

pub proof fn lemma_lexeme_from(b: Seq<u8>, s: LexV, k: int)
    ensures
        lexeme_from(b, s, k) matches Some((_, n)) ==> 1 <= n && s.pos + n <= s.end,
    decreases 13 - k,
{
    if 0 <= k < 13 && !starts_with(b, s.pos, s.end, lexeme(k).0) {
        lemma_lexeme_from(b, s, k + 1);
    }
}

/// Lexing a token moves forward, and keeps the position well formed.
pub proof fn lemma_next_progress(b: Seq<u8>, st: LexV)
    ensures
        next_spec(b, st) matches Some((s2, _)) ==> lex_wf(b, s2),
        next_spec(b, st) matches Some((s2, Some(LexOut::Tok(_)))) ==> (s2.rest > st.rest || (
        s2.rest == st.rest && s2.pos > st.pos && s2.end == st.end)) && s2.pos > st.pos,
{
    lemma_skip_ws(b, st);
    if let Some(s) = skip_ws(b, st) {
        if s.pos < s.end {
            lemma_lexeme_from(b, s, 0);
            lemma_runs(b, s.pos, s.end);
        }
    }
}

/// The tokens lexed from `st` on.
pub open spec fn stream(b: Seq<u8>, st: LexV) -> Stream
    decreases b.len() - st.rest, st.end - st.pos,
{
    if !lex_wf(b, st) {
        Stream { toks: Seq::empty(), end: End::Crash }
    } else {
        match next_spec(b, st) {
            None => Stream { toks: Seq::empty(), end: End::Crash },
            Some((_, None)) => Stream { toks: Seq::empty(), end: End::Eof },
            Some((_, Some(LexOut::Unknown(l, c)))) => Stream {
                toks: Seq::empty(),
                end: End::Unknown(l, c),
            },
            Some((s2, Some(LexOut::Tok(t)))) => {
                proof {
                    lemma_next_progress(b, st);
                }
                let r = stream(b, s2);
                Stream { toks: seq![t] + r.toks, end: r.end }
            },
        }
    }
}

/// The tokens of `text`.
pub open spec fn lex_spec(text: Seq<u8>) -> Stream {
    stream(text, LexV { rest: 0, end: 0, pos: 0, line: 0, col: 0 })
}

/// A lexer over a text.
pub struct Lexer<'a> {
    contents: &'a [u8],
    rest: usize,
    curr_end: usize,
    curr_pos: usize,
    curr_line_num: usize,
    curr_col_num: usize,
}

impl<'a> View for Lexer<'a> {
    type V = LexV;

    closed spec fn view(&self) -> LexV {
        LexV {
            rest: self.rest as nat,
            end: self.curr_end as nat,
            pos: self.curr_pos as nat,
            line: self.curr_line_num as nat,
            col: self.curr_col_num as nat,
        }
    }
}

/// The fixed tokens and their lexemes, in the order they are tried.
fn lexeme_exec(k: usize) -> (r: (Vec<u8>, Token))
    requires
        k < 13,
    ensures
        r.0@ == lexeme(k as int).0,
        r.1@ == lexeme(k as int).1,
{
    let r = if k == 0 {
        (vec![40u8], Token::Lparen)
    } else if k == 1 {
        (vec![41u8], Token::Rparen)
    } else if k == 2 {
        (vec![123u8], Token::Lbracket)
    } else if k == 3 {
        (vec![125u8], Token::Rbracket)
    } else if k == 4 {
        (vec![61u8], Token::Eq)
    } else if k == 5 {
        (vec![38u8], Token::Ampersand)
    } else if k == 6 {
        (vec![42u8], Token::Star)
    } else if k == 7 {
        (vec![44u8], Token::Comma)
    } else if k == 8 {
        (vec![59u8], Token::Semicolon)
    } else if k == 9 {
        (vec![102u8, 110u8], Token::Fn)
    } else if k == 10 {
        (vec![108u8, 101u8, 116u8], Token::Let)
    } else if k == 11 {
        (vec![109u8, 117u8, 116u8], Token::Mut)
    } else {
        (vec![66u8, 111u8, 120u8, 58u8, 58u8, 110u8, 101u8, 119u8], Token::Box)
    };
    assert(r.0@ =~= lexeme(k as int).0);
    r
}

impl<'a> Lexer<'a> {
    /// The bytes of the text being lexed.
    pub closed spec fn text(&self) -> Seq<u8> {
        self.contents@
    }

    /// A lexer at the start of `contents`.
    pub fn new(contents: &'a str) -> (lx: Lexer<'a>)
        requires
            contents.spec_bytes().len() < usize::MAX,
        ensures
            lx.text() == contents.spec_bytes(),
            lx@ == (LexV { rest: 0, end: 0, pos: 0, line: 0, col: 0 }),
            lex_wf(lx.text(), lx@),
            lx.text().len() < usize::MAX,
    {
        Lexer {
            contents: contents.as_bytes(),
            rest: 0,
            curr_end: 0,
            curr_pos: 0,
            curr_line_num: 0,
            curr_col_num: 0,
        }
    }

    /// The error for an unknown character at the current position.
    fn unknown(&self) -> (e: Error)
        ensures
            e == Error::Unknown(self.curr_line_num, self.curr_col_num),
    {
        Error::Unknown(self.curr_line_num, self.curr_col_num)
    }

    /// Moves `i` bytes forward in the current line.
    fn consume(&mut self, i: usize)
        requires
            lex_wf(old(self).text(), old(self)@),
            old(self).text().len() < usize::MAX,
            old(self)@.pos + i <= old(self)@.end,
        ensures
            final(self)@ == consume_spec(old(self)@, i as nat),
            final(self).text() == old(self).text(),
            lex_wf(final(self).text(), final(self)@),
    {
        self.curr_pos = self.curr_pos + i;
        self.curr_col_num = self.curr_col_num + i;
    }

    /// Whether the rest of the current line starts with `pat`.
    fn starts_with(&self, pat: &Vec<u8>) -> (b: bool)
        requires
            lex_wf(self.text(), self@),
        ensures
            b == starts_with(self.text(), self@.pos, self@.end, pat@),
    {
        if pat.len() > self.curr_end - self.curr_pos {
            return false;
        }
        let mut i: usize = 0;
        while i < pat.len()
            invariant
                i <= pat.len(),
                self.curr_pos + pat.len() <= self.curr_end,
                lex_wf(self.text(), self@),
                forall|j: int| 0 <= j < i ==> self.text()[self.curr_pos + j] == pat@[j],
            decreases pat.len() - i,
        {
            if self.contents[self.curr_pos + i] != pat[i] {
                assert(self.text().subrange(self@.pos as int, (self@.pos + pat@.len()) as int)[i as int]
                    != pat@[i as int]);
                return false;
            }
            i = i + 1;
        }
        assert(self.text().subrange(self@.pos as int, (self@.pos + pat@.len()) as int) =~= pat@);
        true
    }

    /// The first fixed token whose lexeme starts the rest of the line, with its length.
    fn match_lexeme(&self) -> (r: Option<(Token, usize)>)
        requires
            lex_wf(self.text(), self@),
        ensures
            match lexeme_from(self.text(), self@, 0) {
                Some((t, n)) => r matches Some((rt, rn)) && rt@ == t && rn == n,
                None => r is None,
            },
    {
        let mut k: usize = 0;
        while k < 13
            invariant
                k <= 13,
                lex_wf(self.text(), self@),
                lexeme_from(self.text(), self@, 0) == lexeme_from(self.text(), self@, k as int),
            decreases 13 - k,
        {
            let (pat, tok) = lexeme_exec(k);
            if self.starts_with(&pat) {
                return Some((tok, pat.len()));
            }
            k = k + 1;
        }
        None
    }

    /// Lexes a fixed token at the current position, or reports an unknown character.
    fn symbol_or_keyword(&mut self) -> (r: LexResult)
        requires
            lex_wf(old(self).text(), old(self)@),
            old(self).text().len() < usize::MAX,
        ensures
            lex_wf(final(self).text(), final(self)@),
            final(self).text() == old(self).text(),
            match lexeme_from(old(self).text(), old(self)@, 0) {
                Some((t, n)) => r matches Ok(rt) && rt@ == t && final(self)@ == consume_spec(
                    old(self)@,
                    n,
                ),
                None => r == Err::<Token, Error>(
                    Error::Unknown(old(self).curr_line_num, old(self).curr_col_num),
                ) && final(self)@ == old(self)@,
            },
    {
        match self.match_lexeme() {
            Some((tok, n)) => {
                proof {
                    lemma_lexeme_from(self.text(), self@, 0);
                }
                self.consume(n);
                Ok(tok)
            },
            None => Err(self.unknown()),
        }
    }

    /// The number of bytes of the current line, from the current position on,
    /// that satisfy `is_word` (or `is_digit`, when `digits_only`).
    fn run(&self, digits_only: bool) -> (n: usize)
        requires
            lex_wf(self.text(), self@),
        ensures
            n == (if digits_only {
                digit_run(self.text(), self@.pos, self@.end)
            } else {
                word_run(self.text(), self@.pos, self@.end)
            }),
            self@.pos + n <= self@.end,
    {
        let mut p: usize = self.curr_pos;
        while p < self.curr_end
            invariant
                self.curr_pos <= p <= self.curr_end,
                lex_wf(self.text(), self@),
                (if digits_only {
                    digit_run(self.text(), self@.pos, self@.end) == (p - self.curr_pos)
                        + digit_run(self.text(), p as nat, self@.end)
                } else {
                    word_run(self.text(), self@.pos, self@.end) == (p - self.curr_pos) + word_run(
                        self.text(),
                        p as nat,
                        self@.end,
                    )
                }),
            ensures
                self.curr_pos <= p <= self.curr_end,
                (if digits_only {
                    digit_run(self.text(), self@.pos, self@.end) == (p - self.curr_pos)
                } else {
                    word_run(self.text(), self@.pos, self@.end) == (p - self.curr_pos)
                }),
            decreases self.curr_end - p,
        {
            let c = self.contents[p];
            let ok = if digits_only {
                48 <= c && c <= 57
            } else {
                (48 <= c && c <= 57) || (65 <= c && c <= 90) || (97 <= c && c <= 122) || c == 95
            };
            if !ok {
                assert(digits_only ==> digit_run(self.text(), p as nat, self@.end) == 0);
                assert(!digits_only ==> word_run(self.text(), p as nat, self@.end) == 0);
                break;
            }
            p = p + 1;
        }
        p - self.curr_pos
    }

    /// Lexes a name at the current position.
    fn variable(&mut self) -> (r: LexResult)
        requires
            lex_wf(old(self).text(), old(self)@),
            old(self).text().len() < usize::MAX,
        ensures
            lex_wf(final(self).text(), final(self)@),
            final(self).text() == old(self).text(),
            ({
                let n = word_run(old(self).text(), old(self)@.pos, old(self)@.end);
                if n == 0 {
                    r == Err::<Token, Error>(
                        Error::Unknown(old(self).curr_line_num, old(self).curr_col_num),
                    ) && final(self)@ == old(self)@
                } else {
                    r matches Ok(t) && t@ == TokenV::Var(
                        ascii_chars(old(self).text().subrange(old(self)@.pos as int, (old(self)@.pos + n) as int)),
                    ) && final(self)@ == consume_spec(old(self)@, n)
                }
            }),
    {
        let len = self.run(false);
        if len == 0 {
            return Err(self.unknown());
        }
        let mut bytes: Vec<u8> = Vec::new();
        let mut i: usize = 0;
        while i < len
            invariant
                i <= len,
                self.curr_pos + len <= self.curr_end,
                lex_wf(self.text(), self@),
                len == word_run(self.text(), self@.pos, self@.end),
                bytes@ =~= self.text().subrange(self@.pos as int, self@.pos + i),
                is_ascii_bytes(bytes@),
            decreases len - i,
        {
            proof {
                lemma_word_run_bytes(self.text(), self@.pos, self@.end, i as nat);
            }
            bytes.push(self.contents[self.curr_pos + i]);
            i = i + 1;
        }
        let s = string_from_ascii(bytes);
        self.consume(len);
        Ok(Token::Var(s))
    }

    /// Lexes an integer literal at the current position.
    fn integer(&mut self) -> (r: LexResult)
        requires
            lex_wf(old(self).text(), old(self)@),
            old(self).text().len() < usize::MAX,
            digit_value(
                old(self).text(),
                old(self)@.pos,
                digit_run(old(self).text(), old(self)@.pos, old(self)@.end),
            ) <= i32::MAX,
        ensures
            lex_wf(final(self).text(), final(self)@),
            final(self).text() == old(self).text(),
            ({
                let n = digit_run(old(self).text(), old(self)@.pos, old(self)@.end);
                if n == 0 {
                    r == Err::<Token, Error>(
                        Error::Unknown(old(self).curr_line_num, old(self).curr_col_num),
                    ) && final(self)@ == old(self)@
                } else {
                    r matches Ok(t) && t@ == TokenV::Int(digit_value(old(self).text(), old(self)@.pos, n) as i32)
                        && final(self)@ == consume_spec(old(self)@, n)
                }
            }),
    {
        let len = self.run(true);
        if len == 0 {
            return Err(self.unknown());
        }
        proof {
            assert forall|j: int| 0 <= j < len implies is_digit(#[trigger] self.text()[self@.pos + j]) by {
                lemma_digit_run_bytes(self.text(), self@.pos, self@.end, j as nat);
            }
        }
        let mut v: u64 = 0;
        let mut i: usize = 0;
        while i < len
            invariant
                i <= len,
                self.curr_pos + len <= self.curr_end,
                lex_wf(self.text(), self@),
                len == digit_run(self.text(), self@.pos, self@.end),
                v == digit_value(self.text(), self@.pos, i as nat),
                digit_value(self.text(), self@.pos, len as nat) <= i32::MAX,
                forall|j: int| 0 <= j < len ==> is_digit(#[trigger] self.text()[self@.pos + j]),
            decreases len - i,
        {
            proof {
                lemma_digit_run_bytes(self.text(), self@.pos, self@.end, i as nat);
                lemma_digit_value_mono(self.text(), self@.pos, (i + 1) as nat, len as nat);
            }
            let d = self.contents[self.curr_pos + i];
            v = v * 10 + ((d - 48) as u64);
            i = i + 1;
        }
        self.consume(len);
        Ok(Token::Int(v as i32))
    }

    /// Moves to the next line, if any.
    fn next_line(&mut self) -> (loaded: bool)
        requires
            lex_wf(old(self).text(), old(self)@),
            old(self).text().len() < usize::MAX,
        ensures
            final(self).text() == old(self).text(),
            loaded == (old(self)@.rest < old(self).text().len()),
            loaded ==> final(self)@ == load_line(old(self).text(), old(self)@),
            !loaded ==> final(self)@ == old(self)@,
            lex_wf(final(self).text(), final(self)@),
    {
        let len = self.contents.len();
        if self.rest >= len {
            return false;
        }
        proof {
            lemma_next_newline(self.text(), self@.rest);
            lemma_load_line(self.text(), self@);
        }
        let mut q = self.rest;
        while q < len
            invariant
                self.rest <= q <= len,
                len == self.text().len(),
                next_newline(self.text(), self@.rest) == next_newline(self.text(), q as nat),
            ensures
                self.rest <= q <= len,
                next_newline(self.text(), self@.rest) == q,
            decreases len - q,
        {
            if self.contents[q] == 10 {
                break;
            }
            q = q + 1;
        }
        let end = if q < len && q > self.rest && self.contents[q - 1] == 13 {
            q - 1
        } else {
            q
        };
        self.curr_pos = self.rest;
        self.curr_end = end;
        self.rest = if q < len {
            q + 1
        } else {
            len
        };
        self.curr_line_num = self.curr_line_num + 1;
        self.curr_col_num = 1;
        true
    }

    /// Whether a whitespace character of more than one byte starts at the current position.
    fn wide_space(&self) -> (b: bool)
        requires
            lex_wf(self.text(), self@),
            self.text().len() < usize::MAX,
        ensures
            b == wide_space_at(self.text(), self@.pos, self@.end),
    {
        let p = self.curr_pos;
        let end = self.curr_end;
        let c = self.contents;
        if end - p > 1 && c[p] == 0xC2 && (c[p + 1] == 0x85 || c[p + 1] == 0xA0) {
            return true;
        }
        if end - p > 2 {
            let (b0, b1, b2) = (c[p], c[p + 1], c[p + 2]);
            if b0 == 0xE1 && b1 == 0x9A && b2 == 0x80 {
                return true;
            }
            if b0 == 0xE2 && b1 == 0x80 && 0x80 <= b2 && (b2 <= 0x8A || b2 == 0xA8 || b2 == 0xA9
                || b2 == 0xAF) {
                return true;
            }
            if b0 == 0xE2 && b1 == 0x81 && b2 == 0x9F {
                return true;
            }
            if b0 == 0xE3 && b1 == 0x80 && b2 == 0x80 {
                return true;
            }
        }
        false
    }

    /// Skips whitespace, comments and empty lines.
    fn skip_whitespace(&mut self)
        requires
            lex_wf(old(self).text(), old(self)@),
            old(self).text().len() < usize::MAX,
            skip_ws(old(self).text(), old(self)@) is Some,
        ensures
            final(self).text() == old(self).text(),
            final(self)@ == skip_ws(old(self).text(), old(self)@)->0,
            lex_wf(final(self).text(), final(self)@),
    {
        let ghost b = self.text();
        let ghost target = skip_ws(b, self@);
        let comment: Vec<u8> = vec![47u8, 47u8];
        assert(comment@ =~= seq![47u8, 47u8]);
        loop
            invariant
                self.text() == b,
                b.len() < usize::MAX,
                lex_wf(b, self@),
                skip_ws(b, self@) == target,
                target is Some,
                b == old(self).text(),
                target == skip_ws(old(self).text(), old(self)@),
                comment@ == seq![47u8, 47u8],
            decreases b.len() - self@.rest, self@.end - self@.pos,
        {
            if self.curr_pos >= self.curr_end || self.starts_with(&comment) {
                if !self.next_line() {
                    return;
                }
            } else {
                let c = self.contents[self.curr_pos];
                if c == 9 || c == 10 || c == 11 || c == 12 || c == 13 || c == 32 {
                    self.consume(1);
                } else {
                    if self.wide_space() {
                        assert(false);
                    }
                    return;
                }
            }
        }
    }

    /// The next token, `None` when the text is exhausted.
    pub fn next(&mut self) -> (r: Option<LexResult>)
        requires
            lex_wf(old(self).text(), old(self)@),
            old(self).text().len() < usize::MAX,
            next_spec(old(self).text(), old(self)@) is Some,
        ensures
            final(self).text() == old(self).text(),
            lex_wf(final(self).text(), final(self)@),
            final(self)@ == next_spec(old(self).text(), old(self)@).unwrap().0,
            lex_out_view(r) == next_spec(old(self).text(), old(self)@).unwrap().1,
    {
        self.skip_whitespace();
        if self.curr_pos >= self.curr_end {
            return None;
        }
        if let Some((tok, n)) = self.match_lexeme() {
            proof {
                lemma_lexeme_from(self.text(), self@, 0);
            }
            self.consume(n);
            return Some(Ok(tok));
        }
        let ch = self.contents[self.curr_pos];
        let tok = if 48 <= ch && ch <= 57 {
            self.integer()
        } else if (65 <= ch && ch <= 90) || (97 <= ch && ch <= 122) || ch == 95 {
            self.variable()
        } else {
            self.symbol_or_keyword()
        };
        Some(tok)
    }
}

impl<'a> Lexer<'a> {
    /// Skips whitespace, comments and empty lines, unless a whitespace character
    /// of more than one byte is met: then returns `false`.
    fn try_skip_whitespace(&mut self) -> (ok: bool)
        requires
            lex_wf(old(self).text(), old(self)@),
            old(self).text().len() < usize::MAX,
        ensures
            final(self).text() == old(self).text(),
            lex_wf(final(self).text(), final(self)@),
            ok == skip_ws(old(self).text(), old(self)@) is Some,
            ok ==> final(self)@ == skip_ws(old(self).text(), old(self)@)->0,
    {
        let ghost b = self.text();
        let ghost target = skip_ws(b, self@);
        let comment: Vec<u8> = vec![47u8, 47u8];
        assert(comment@ =~= seq![47u8, 47u8]);
        loop
            invariant
                self.text() == b,
                b.len() < usize::MAX,
                lex_wf(b, self@),
                skip_ws(b, self@) == target,
                b == old(self).text(),
                target == skip_ws(old(self).text(), old(self)@),
                comment@ == seq![47u8, 47u8],
            decreases b.len() - self@.rest, self@.end - self@.pos,
        {
            if self.curr_pos >= self.curr_end || self.starts_with(&comment) {
                if !self.next_line() {
                    return true;
                }
            } else {
                let c = self.contents[self.curr_pos];
                if c == 9 || c == 10 || c == 11 || c == 12 || c == 13 || c == 32 {
                    self.consume(1);
                } else {
                    return !self.wide_space();
                }
            }
        }
    }

    /// Whether lexing the next token succeeds: no whitespace character of more
    /// than one byte is met, and no integer literal beyond `i32`.
    pub fn next_defined(&self) -> (ok: bool)
        requires
            lex_wf(self.text(), self@),
            self.text().len() < usize::MAX,
        ensures
            ok == next_spec(self.text(), self@) is Some,
    {
        let mut c = Lexer {
            contents: self.contents,
            rest: self.rest,
            curr_end: self.curr_end,
            curr_pos: self.curr_pos,
            curr_line_num: self.curr_line_num,
            curr_col_num: self.curr_col_num,
        };
        assert(c@ == self@ && c.text() == self.text());
        if !c.try_skip_whitespace() {
            return false;
        }
        if c.curr_pos < c.curr_end && c.match_lexeme().is_none() {
            let ch = c.contents[c.curr_pos];
            if 48 <= ch && ch <= 57 && !c.digits_fit() {
                return false;
            }
        }
        true
    }

    /// Whether the digits at the current position make a number that fits in `i32`.
    fn digits_fit(&self) -> (ok: bool)
        requires
            lex_wf(self.text(), self@),
            self.text().len() < usize::MAX,
        ensures
            ok == (digit_value(self.text(), self@.pos, digit_run(self.text(), self@.pos, self@.end))
                <= i32::MAX),
    {
        let len = self.run(true);
        proof {
            assert forall|j: int| 0 <= j < len implies is_digit(#[trigger] self.text()[self@.pos + j]) by {
                lemma_digit_run_bytes(self.text(), self@.pos, self@.end, j as nat);
            }
        }
        let mut v: u64 = 0;
        let mut i: usize = 0;
        while i < len
            invariant
                i <= len,
                self.curr_pos + len <= self.curr_end,
                lex_wf(self.text(), self@),
                len == digit_run(self.text(), self@.pos, self@.end),
                v == digit_value(self.text(), self@.pos, i as nat),
                v <= i32::MAX,
                forall|j: int| 0 <= j < len ==> is_digit(#[trigger] self.text()[self@.pos + j]),
            decreases len - i,
        {
            proof {
                lemma_digit_run_bytes(self.text(), self@.pos, self@.end, i as nat);
            }
            let d = self.contents[self.curr_pos + i];
            v = v * 10 + ((d - 48) as u64);
            i = i + 1;
            if v > 0x7fff_ffff {
                proof {
                    lemma_digit_value_mono(self.text(), self@.pos, i as nat, len as nat);
                }
                return false;
            }
        }
        true
    }
}

/// Whether lexing `contents` gets through the whole text: that it meets no
/// whitespace character of more than one byte and no integer literal beyond
/// `i32`, the two failures of lexing.
pub fn lexes_fully(contents: &str) -> (ok: bool)
    requires
        contents.spec_bytes().len() < usize::MAX,
    ensures
        ok == (lex_spec(contents.spec_bytes()).end != End::Crash),
{
    let mut lx = Lexer::new(contents);
    let ghost b = lx.text();
    loop
        invariant
            lx.text() == b,
            b == contents.spec_bytes(),
            b.len() < usize::MAX,
            lex_wf(b, lx@),
            stream(b, lx@).end == lex_spec(b).end,
        decreases b.len() - lx@.rest, lx@.end - lx@.pos,
    {
        let ghost st = lx@;
        proof {
            lemma_skip_ws(b, st);
        }
        if !lx.try_skip_whitespace() {
            return false;
        }
        let ghost s = lx@;
        proof {
            lemma_skip_ws_idem(b, st);
            assert(next_spec(b, s) == next_spec(b, st));
            assert(stream(b, s) == stream(b, st));
        }
        if lx.curr_pos < lx.curr_end && lx.match_lexeme().is_none() {
            let c = lx.contents[lx.curr_pos];
            if 48 <= c && c <= 57 && !lx.digits_fit() {
                return false;
            }
        }
        proof {
            lemma_next_progress(b, s);
        }
        match lx.next() {
            Some(Ok(_)) => {},
            _ => {
                return true;
            },
        }
    }
}

/// The view of what `Lexer::next` returns.
pub open spec fn lex_out_view(r: Option<LexResult>) -> Option<LexOut> {
    match r {
        None => None,
        Some(Ok(t)) => Some(LexOut::Tok(t@)),
        Some(Err(Error::Unknown(l, c))) => Some(LexOut::Unknown(l as nat, c as nat)),
    }
}

pub proof fn lemma_word_run_bytes(b: Seq<u8>, p: nat, end: nat, i: nat)
    requires
        i < word_run(b, p, end),
    ensures
        p + i < end,
        p + i < b.len(),
        is_word(b[(p + i) as int]),
        b[(p + i) as int] < 128,
    decreases i,
{
    if i > 0 {
        lemma_word_run_bytes(b, p + 1, end, (i - 1) as nat);
    }
}

pub proof fn lemma_digit_run_bytes(b: Seq<u8>, p: nat, end: nat, i: nat)
    requires
        i < digit_run(b, p, end),
    ensures
        p + i < end,
        p + i < b.len(),
        is_digit(b[(p + i) as int]),
    decreases i,
{
    if i > 0 {
        lemma_digit_run_bytes(b, p + 1, end, (i - 1) as nat);
    }
}

pub proof fn lemma_digit_value_mono(b: Seq<u8>, p: nat, i: nat, n: nat)
    requires
        i <= n,
        forall|j: int| 0 <= j < n ==> is_digit(#[trigger] b[p + j]),
    ensures
        digit_value(b, p, i) <= digit_value(b, p, n),
    decreases n - i,
{
    if i < n {
        lemma_digit_value_mono(b, p, i, (n - 1) as nat);
        assert(is_digit(b[p + (n - 1)]));
    }
}


/// Skipping whitespace twice is skipping it once.
pub proof fn lemma_skip_ws_idem(b: Seq<u8>, s: LexV)
    ensures
        skip_ws(b, s) matches Some(s2) ==> skip_ws(b, s2) == Some(s2),
    decreases b.len() - s.rest, s.end - s.pos,
{
    if !lex_wf(b, s) {
    } else if s.pos >= s.end || starts_with(b, s.pos, s.end, seq![47u8, 47u8]) {
        if s.rest < b.len() {
            lemma_load_line(b, s);
            lemma_skip_ws_idem(b, load_line(b, s));
        }
    } else if is_space(b[s.pos as int]) {
        lemma_skip_ws_idem(b, consume_spec(s, 1));
    }
}

/// When no token is lexed, lexing again from the new position gives the same outcome.
pub proof fn lemma_next_stuck(b: Seq<u8>, st: LexV)
    requires
        lex_wf(b, st),
        next_spec(b, st) matches Some((s2, o)) && !(o matches Some(LexOut::Tok(_))),
    ensures
        lex_wf(b, next_spec(b, st).unwrap().0),
        stream(b, next_spec(b, st).unwrap().0) == stream(b, st),
{
    lemma_skip_ws_idem(b, st);
    lemma_next_progress(b, st);
}

/// Each token takes at least one byte of the text.
pub proof fn lemma_stream_len(b: Seq<u8>, st: LexV)
    requires
        lex_wf(b, st),
    ensures
        stream(b, st).toks.len() + st.pos <= b.len(),
    decreases b.len() - st.rest, st.end - st.pos,
{
    lemma_next_progress(b, st);
    if let Some((s2, Some(LexOut::Tok(_)))) = next_spec(b, st) {
        lemma_stream_len(b, s2);
    }
}

} // verus!
