//! The parser: builds the expression of a program from its tokens.
use vstd::prelude::*;
use vstd::string::StringSliceAdditionalSpecFns;
use vstd::string::StringExecFns;
use crate::lexer;
use crate::lexer::{
    Lexer, LexResult, Token, TokenV, Stream, End, stream, lex_spec, lex_wf, next_spec,
    lemma_next_progress, lemma_next_stuck, lemma_stream_len,
};
use crate::utils::{Lval, LvalV, Expr, ExprV, Stmt, StmtV, Copyable, Mutable, Lifetime, stmts_view, lemma_stmts_view_push};

verus! {

/// Parse errors.
#[derive(Debug, PartialEq)]
pub enum Error {
    EndOfFile,
    Lexer(lexer::Error),
    Unexpected(Token),
}

/// The mathematical view of a parse error.
pub enum ErrorV {
    EndOfFile,
    Lexer(nat, nat),
    Unexpected(TokenV),
}

impl View for Error {
    type V = ErrorV;

    open spec fn view(&self) -> ErrorV {
        match self {
            Error::EndOfFile => ErrorV::EndOfFile,
            Error::Lexer(lexer::Error::Unknown(l, c)) => ErrorV::Lexer(*l as nat, *c as nat),
            Error::Unexpected(t) => ErrorV::Unexpected(t@),
        }
    }
}

pub type ParseResult<T> = Result<T, Error>;

pub open spec fn res_view<T: View>(r: ParseResult<T>) -> Result<T::V, ErrorV> {
    match r {
        Ok(x) => Ok(x@),
        Err(e) => Err(e@),
    }
}

/// The parser's position: the number of tokens taken, and the last block lifetime given.
pub struct PS {
    pub pos: nat,
    pub lt: nat,
}

/// What the token stream holds at index `i`.
pub enum Item {
    Tok(TokenV),
    Eof,
    Unknown(nat, nat),
    Crash,
}

pub open spec fn item(st: Stream, i: nat) -> Item {
    if i < st.toks.len() {
        Item::Tok(st.toks[i as int])
    } else {
        match st.end {
            End::Eof => Item::Eof,
            End::Unknown(l, c) => Item::Unknown(l, c),
            End::Crash => Item::Crash,
        }
    }
}

/// Takes the next token. `None` when lexing it fails.
pub open spec fn next_tok(st: Stream, s: PS) -> Option<(PS, Result<TokenV, ErrorV>)> {
    match item(st, s.pos) {
        Item::Tok(t) => Some((PS { pos: s.pos + 1, lt: s.lt }, Ok(t))),
        Item::Eof => Some((s, Err(ErrorV::EndOfFile))),
        Item::Unknown(l, c) => Some((s, Err(ErrorV::Lexer(l, c)))),
        Item::Crash => None,
    }
}

/// Looks at the next token; the end of the text and a lexing error both read as
/// the end of the file.
pub open spec fn peek(st: Stream, s: PS) -> Option<Result<TokenV, ErrorV>> {
    match item(st, s.pos) {
        Item::Tok(t) => Some(Ok(t)),
        Item::Eof => Some(Err(ErrorV::EndOfFile)),
        Item::Unknown(_, _) => Some(Err(ErrorV::EndOfFile)),
        Item::Crash => None,
    }
}

/// Takes the next token, which must be `t`.
pub open spec fn next_match(st: Stream, s: PS, t: TokenV) -> Option<(PS, Result<TokenV, ErrorV>)> {
    match next_tok(st, s) {
        Some((s2, Ok(tok))) => if tok != t {
            Some((s2, Err(ErrorV::Unexpected(tok))))
        } else {
            Some((s2, Ok(tok)))
        },
        other => other,
    }
}

/// Takes the next token, which must be a name.
pub open spec fn next_var(st: Stream, s: PS) -> Option<(PS, Result<Seq<char>, ErrorV>)> {
    match next_tok(st, s) {
        None => None,
        Some((s2, Err(e))) => Some((s2, Err(e))),
        Some((s2, Ok(TokenV::Var(x)))) => Some((s2, Ok(x))),
        Some((s2, Ok(tok))) => Some((s2, Err(ErrorV::Unexpected(tok)))),
    }
}

/// Takes stars, counting them from `k`.
pub open spec fn p_stars(st: Stream, s: PS, k: nat) -> Option<(PS, Result<nat, ErrorV>)>
    decreases st.toks.len() - s.pos,
{
    if s.pos > st.toks.len() {
        None
    } else {
        match peek(st, s) {
            None => None,
            Some(Err(e)) => Some((s, Err(e))),
            Some(Ok(t)) => if t == TokenV::Star {
                p_stars(st, PS { pos: s.pos + 1, lt: s.lt }, k + 1)
            } else {
                Some((s, Ok(k)))
            },
        }
    }
}

/// Parses an lvalue: stars, then a name.
pub open spec fn p_lval(st: Stream, s: PS) -> Option<(PS, Result<LvalV, ErrorV>)> {
    match p_stars(st, s, 0) {
        None => None,
        Some((s2, Err(e))) => Some((s2, Err(e))),
        Some((s2, Ok(k))) => match next_tok(st, s2) {
            None => None,
            Some((s3, Err(e))) => Some((s3, Err(e))),
            Some((s3, Ok(TokenV::Var(x)))) => Some((s3, Ok(LvalV { ident: x, derefs: k }))),
            Some((s3, Ok(t))) => Some((s3, Err(ErrorV::Unexpected(t)))),
        },
    }
}

pub proof fn lemma_p_stars(st: Stream, s: PS, k: nat)
    requires
        s.pos <= st.toks.len(),
    ensures
        p_stars(st, s, k) matches Some((s2, r)) ==> s.pos <= s2.pos <= st.toks.len() && s2.lt
            == s.lt && (r matches Ok(n) ==> n == k + (s2.pos - s.pos)),
    decreases st.toks.len() - s.pos,
{
    if let Some(Ok(t)) = peek(st, s) {
        if t == TokenV::Star {
            lemma_p_stars(st, PS { pos: s.pos + 1, lt: s.lt }, k + 1);
        }
    }
}

pub proof fn lemma_p_lval(st: Stream, s: PS)
    requires
        s.pos <= st.toks.len(),
    ensures
        p_lval(st, s) matches Some((s2, r)) ==> s.pos <= s2.pos <= st.toks.len() && s2.lt == s.lt
            && (r is Ok ==> s2.pos > s.pos),
{
    lemma_p_stars(st, s, 0);
}

/// The end of a block whose statements are `stmts`: `}`. A final expression
/// statement becomes the block's result, which is unit otherwise (an empty
/// block included); the block gets the next lifetime.
pub open spec fn p_block_end(st: Stream, s: PS, stmts: Seq<StmtV>) -> Option<(PS, Result<ExprV, ErrorV>)> {
    match next_match(st, s, TokenV::Rbracket) {
        None => None,
        Some((s3, Err(e))) => Some((s3, Err(e))),
        Some((s3, Ok(_))) => {
            let s4 = PS { pos: s3.pos, lt: s3.lt + 1 };
            if stmts.len() > 0 && stmts.last() is Expr {
                Some((s4, Ok(ExprV::Block(stmts.drop_last(), Box::new(stmts.last()->Expr_0), s4.lt))))
            } else {
                Some((s4, Ok(ExprV::Block(stmts, Box::new(ExprV::Unit), s4.lt))))
            }
        },
    }
}

/// What a block is, given what parsing its statements gave.
pub open spec fn block_from(st: Stream, r: Option<(PS, Result<Seq<StmtV>, ErrorV>)>) -> Option<(PS, Result<ExprV, ErrorV>)> {
    match r {
        None => None,
        Some((s2, Err(e))) => Some((s2, Err(e))),
        Some((s2, Ok(stmts))) => p_block_end(st, s2, stmts),
    }
}

/// Parses a block: `{`, statements up to `}`, and `}`.
pub open spec fn p_block(st: Stream, s: PS) -> Option<(PS, Result<ExprV, ErrorV>)>
    decreases st.toks.len() - s.pos, 1int,
{
    if s.pos > st.toks.len() {
        None
    } else {
        match next_match(st, s, TokenV::Lbracket) {
            None => None,
            Some((s1, Err(e))) => Some((s1, Err(e))),
            Some((s1, Ok(_))) => match p_stmts(st, s1, Seq::empty()) {
                None => None,
                Some((s2, Err(e))) => Some((s2, Err(e))),
                Some((s2, Ok(stmts))) => p_block_end(st, s2, stmts),
            },
        }
    }
}

/// Parses statements up to a `}`, appending them to `acc`.
pub open spec fn p_stmts(st: Stream, s: PS, acc: Seq<StmtV>) -> Option<(PS, Result<Seq<StmtV>, ErrorV>)>
    decreases st.toks.len() - s.pos, 5int,
{
    if s.pos > st.toks.len() {
        None
    } else {
        match peek(st, s) {
            None => None,
            Some(Err(e)) => Some((s, Err(e))),
            Some(Ok(t)) => if t == TokenV::Rbracket {
                Some((s, Ok(acc)))
            } else {
                match p_stmt(st, s) {
                    None => None,
                    Some((s2, Err(e))) => Some((s2, Err(e))),
                    Some((s2, Ok(stmt))) => if s.pos < s2.pos <= st.toks.len() {
                        p_stmts(st, s2, acc.push(stmt))
                    } else {
                        None
                    },
                }
            },
        }
    }
}

/// Parses a statement starting with an lvalue: an assignment `w = e;`, or a
/// move `w;`.
pub open spec fn p_stmt_lval(st: Stream, s: PS) -> Option<(PS, Result<StmtV, ErrorV>)>
    decreases st.toks.len() - s.pos, 3int,
{
    if s.pos > st.toks.len() {
        None
    } else {
        proof {
            lemma_p_lval(st, s);
        }
        match p_lval(st, s) {
            None => None,
            Some((s1, Err(e))) => Some((s1, Err(e))),
            Some((s1, Ok(lv))) => match peek(st, s1) {
                None => None,
                Some(Err(e)) => Some((s1, Err(e))),
                Some(Ok(t1)) => if t1 == TokenV::Eq {
                    let s2 = PS { pos: s1.pos + 1, lt: s1.lt };
                    match p_expr(st, s2) {
                        None => None,
                        Some((s3, Err(e))) => Some((s3, Err(e))),
                        Some((s3, Ok(e))) => match next_match(st, s3, TokenV::Semicolon) {
                            None => None,
                            Some((s4, Err(er))) => Some((s4, Err(er))),
                            Some((s4, Ok(_))) => Some((s4, Ok(StmtV::Assign(lv, e)))),
                        },
                    }
                } else {
                    match next_match(st, s1, TokenV::Semicolon) {
                        None => None,
                        Some((s2, Err(e))) => Some((s2, Err(e))),
                        Some((s2, Ok(_))) => Some((s2, Ok(StmtV::Expr(ExprV::Lv(lv, Copyable::No))))),
                    }
                },
            },
        }
    }
}

/// Parses a declaration `let mut x = e;`.
pub open spec fn p_stmt_let(st: Stream, s: PS) -> Option<(PS, Result<StmtV, ErrorV>)>
    decreases st.toks.len() - s.pos, 3int,
{
    if s.pos >= st.toks.len() {
        None
    } else {
        let s1 = PS { pos: s.pos + 1, lt: s.lt };
        match next_match(st, s1, TokenV::Mut) {
            None => None,
            Some((s2, Err(e))) => Some((s2, Err(e))),
            Some((s2, Ok(_))) => match next_var(st, s2) {
                None => None,
                Some((s3, Err(e))) => Some((s3, Err(e))),
                Some((s3, Ok(x))) => match next_match(st, s3, TokenV::Eq) {
                    None => None,
                    Some((s4, Err(e))) => Some((s4, Err(e))),
                    Some((s4, Ok(_))) => p_stmt_let_rest(st, s4, x),
                },
            },
        }
    }
}

/// Parses `e;`, the rest of a declaration of `x`.
pub open spec fn p_stmt_let_rest(st: Stream, s: PS, x: Seq<char>) -> Option<(PS, Result<StmtV, ErrorV>)>
    decreases st.toks.len() - s.pos, 3int,
{
    if s.pos > st.toks.len() {
        None
    } else {
        match p_expr(st, s) {
            None => None,
            Some((s5, Err(e))) => Some((s5, Err(e))),
            Some((s5, Ok(e))) => match next_match(st, s5, TokenV::Semicolon) {
                None => None,
                Some((s6, Err(er))) => Some((s6, Err(er))),
                Some((s6, Ok(_))) => Some((s6, Ok(StmtV::LetMut(x, e)))),
            },
        }
    }
}

/// Parses an expression statement `e;`.
pub open spec fn p_stmt_expr(st: Stream, s: PS) -> Option<(PS, Result<StmtV, ErrorV>)>
    decreases st.toks.len() - s.pos, 3int,
{
    if s.pos > st.toks.len() {
        None
    } else {
        match p_expr(st, s) {
            None => None,
            Some((s1, Err(e))) => Some((s1, Err(e))),
            Some((s1, Ok(e))) => match next_match(st, s1, TokenV::Semicolon) {
                None => None,
                Some((s2, Err(er))) => Some((s2, Err(er))),
                Some((s2, Ok(_))) => Some((s2, Ok(StmtV::Expr(e)))),
            },
        }
    }
}

/// Parses a statement: an assignment `w = e;`, a declaration `let mut x = e;`,
/// or an expression statement `e;` (an lvalue alone is a move).
pub open spec fn p_stmt(st: Stream, s: PS) -> Option<(PS, Result<StmtV, ErrorV>)>
    decreases st.toks.len() - s.pos, 4int,
{
    if s.pos > st.toks.len() {
        None
    } else {
        match peek(st, s) {
            None => None,
            Some(Err(e)) => Some((s, Err(e))),
            Some(Ok(t)) => match t {
                TokenV::Star | TokenV::Var(_) => p_stmt_lval(st, s),
                TokenV::Semicolon => Some((PS { pos: s.pos + 1, lt: s.lt }, Ok(StmtV::Expr(ExprV::Unit)))),
                TokenV::Let => p_stmt_let(st, s),
                _ => p_stmt_expr(st, s),
            },
        }
    }
}

/// Parses `Box::new(e)`.
pub open spec fn p_box(st: Stream, s: PS) -> Option<(PS, Result<ExprV, ErrorV>)>
    decreases st.toks.len() - s.pos, 1int,
{
    if s.pos > st.toks.len() {
        None
    } else {
        match next_match(st, s, TokenV::Box) {
            None => None,
            Some((s1, Err(e))) => Some((s1, Err(e))),
            Some((s1, Ok(_))) => match next_match(st, s1, TokenV::Lparen) {
                None => None,
                Some((s2, Err(e))) => Some((s2, Err(e))),
                Some((s2, Ok(_))) => match p_expr(st, s2) {
                    None => None,
                    Some((s3, Err(e))) => Some((s3, Err(e))),
                    Some((s3, Ok(e))) => match next_match(st, s3, TokenV::Rparen) {
                        None => None,
                        Some((s4, Err(er))) => Some((s4, Err(er))),
                        Some((s4, Ok(_))) => Some((s4, Ok(ExprV::OBox(Box::new(e))))),
                    },
                },
            },
        }
    }
}

/// Parses an expression: an integer, an lvalue (a move), a box, a borrow
/// `&w` or `&mut w`, or a block. Before a `;`, the expression is unit.
pub open spec fn p_expr(st: Stream, s: PS) -> Option<(PS, Result<ExprV, ErrorV>)>
    decreases st.toks.len() - s.pos, 2int,
{
    if s.pos > st.toks.len() {
        None
    } else {
        match peek(st, s) {
            None => None,
            Some(Err(e)) => Some((s, Err(e))),
            Some(Ok(t)) => match t {
                TokenV::Int(v) => Some((PS { pos: s.pos + 1, lt: s.lt }, Ok(ExprV::Int(v)))),
                TokenV::Var(_) | TokenV::Star => match p_lval(st, s) {
                    None => None,
                    Some((s1, Err(e))) => Some((s1, Err(e))),
                    Some((s1, Ok(lv))) => Some((s1, Ok(ExprV::Lv(lv, Copyable::No)))),
                },
                TokenV::Box => p_box(st, s),
                TokenV::Ampersand => {
                    let s1 = PS { pos: s.pos + 1, lt: s.lt };
                    match peek(st, s1) {
                        None => None,
                        Some(Err(e)) => Some((s1, Err(e))),
                        Some(Ok(t1)) => {
                            let (s2, m) = if t1 == TokenV::Mut {
                                (PS { pos: s1.pos + 1, lt: s1.lt }, Mutable::Yes)
                            } else {
                                (s1, Mutable::No)
                            };
                            match p_lval(st, s2) {
                                None => None,
                                Some((s3, Err(e))) => Some((s3, Err(e))),
                                Some((s3, Ok(lv))) => Some((s3, Ok(ExprV::Borrow(lv, m)))),
                            }
                        },
                    }
                },
                TokenV::Lbracket => p_block(st, s),
                TokenV::Semicolon => Some((s, Ok(ExprV::Unit))),
                _ => Some((s, Err(ErrorV::Unexpected(t)))),
            },
        }
    }
}

/// Parses `() { ... }` after `fn main`, with nothing after it.
pub open spec fn p_main(st: Stream, s: PS) -> Option<(PS, Result<ExprV, ErrorV>)> {
    match next_match(st, s, TokenV::Lparen) {
        None => None,
        Some((s3, Err(e))) => Some((s3, Err(e))),
        Some((s3, Ok(_))) => match next_match(st, s3, TokenV::Rparen) {
            None => None,
            Some((s4, Err(e))) => Some((s4, Err(e))),
            Some((s4, Ok(_))) => match p_block(st, s4) {
                None => None,
                Some((s5, out)) => match peek(st, s5) {
                    None => None,
                    Some(Err(_)) => Some((s5, out)),
                    Some(Ok(_)) => match next_tok(st, s5) {
                        None => None,
                        Some((s6, Err(e))) => Some((s6, Err(e))),
                        Some((s6, Ok(t))) => Some((s6, Err(ErrorV::Unexpected(t)))),
                    },
                },
            },
        },
    }
}

/// Parses a program: `fn main() { ... }` and nothing after it. After `fn` and a
/// name other than `main`, a block alone is parsed.
pub open spec fn p_program(st: Stream, s: PS) -> Option<(PS, Result<ExprV, ErrorV>)> {
    match next_match(st, s, TokenV::Fn) {
        None => None,
        Some((s1, Err(e))) => Some((s1, Err(e))),
        Some((s1, Ok(_))) => match next_tok(st, s1) {
            None => None,
            Some((s2, Err(e))) => Some((s2, Err(e))),
            Some((s2, Ok(TokenV::Var(x)))) => if x == seq!['m', 'a', 'i', 'n'] {
                p_main(st, s2)
            } else {
                p_block(st, s2)
            },
            Some((s2, Ok(_))) => p_block(st, s2),
        },
    }
}

/// A parser reading tokens from a lexer, with one token of lookahead.
pub struct Parser<'a> {
    lexer: Lexer<'a>,
    peeked: Option<Option<LexResult>>,
    lifetime: usize,
    stop_at_failure: bool,
    toks: Ghost<Stream>,
    raw: Ghost<Stream>,
    pos: Ghost<nat>,
}

/// The tokens a parser reads: those of the text, where a failure of lexing
/// reads as the end of the text when `stop_at_failure` is set.
pub open spec fn seen(stop_at_failure: bool, st: Stream) -> Stream {
    if stop_at_failure && st.end == End::Crash {
        Stream { toks: st.toks, end: End::Eof }
    } else {
        st
    }
}

impl<'a> Parser<'a> {
    /// The tokens of the whole text.
    pub closed spec fn tokens(&self) -> Stream {
        self.toks@
    }

    /// The position: tokens taken, and the last block lifetime given.
    pub closed spec fn state(&self) -> PS {
        PS { pos: self.pos@, lt: self.lifetime as nat }
    }

    /// The lexer and the lookahead agree with the tokens of the text.
    #[verifier::opaque]
    pub closed spec fn wf(&self) -> bool {
        let b = self.lexer.text();
        let st = self.toks@;
        let raw = self.raw@;
        let p = self.pos@;
        &&& lex_wf(b, self.lexer@)
        &&& b.len() < usize::MAX
        &&& raw == lex_spec(b)
        &&& st == seen(self.stop_at_failure, raw)
        &&& p <= st.toks.len()
        &&& st.toks.len() < usize::MAX
        &&& match self.peeked {
            None => stream(b, self.lexer@) == Stream { toks: st.toks.skip(p as int), end: raw.end },
            Some(Some(Ok(t))) => p < st.toks.len() && st.toks[p as int] == t@ && stream(
                b,
                self.lexer@,
            ) == Stream { toks: st.toks.skip((p + 1) as int), end: raw.end },
            Some(Some(Err(lexer::Error::Unknown(l, c)))) => p == st.toks.len() && st.end
                == End::Unknown(l as nat, c as nat) && stream(b, self.lexer@) == Stream {
                toks: Seq::empty(),
                end: raw.end,
            },
            Some(None) => p == st.toks.len() && st.end == End::Eof && stream(b, self.lexer@)
                == Stream { toks: Seq::empty(), end: raw.end },
        }
    }

    /// A well-formed parser stands within its tokens, which fit in memory.
    pub proof fn lemma_wf_bounds(&self)
        requires
            self.wf(),
        ensures
            self.state().pos <= self.tokens().toks.len() < usize::MAX,
    {
        reveal(Parser::wf);
    }

    /// The lifetime counter cannot overflow while the remaining tokens are
    /// parsed: each block given a lifetime takes at least one token.
    pub closed spec fn lt_ok(&self) -> bool {
        self.lifetime + (self.toks@.toks.len() - self.pos@) < usize::MAX
    }

    /// A parser at the start of `contents`.
    pub fn new(contents: &'a str) -> (p: Parser<'a>)
        requires
            contents.spec_bytes().len() < usize::MAX,
        ensures
            p.wf(),
            p.lt_ok(),
            p.tokens() == lex_spec(contents.spec_bytes()),
            p.state() == (PS { pos: 0, lt: 0 }),
    {
        reveal(Parser::wf);
        let lexer = Lexer::new(contents);
        proof {
            lemma_stream_len(lexer.text(), lexer@);
        }
        let p = Parser {
            lexer,
            peeked: None,
            lifetime: 0,
            stop_at_failure: false,
            toks: Ghost(lex_spec(contents.spec_bytes())),
            raw: Ghost(lex_spec(contents.spec_bytes())),
            pos: Ghost(0),
        };
        assert(p.toks@.toks.skip(0) =~= p.toks@.toks);
        p
    }

    /// A parser at the start of `contents` that reads a failure of lexing as the
    /// end of the text.
    fn new_stopping(contents: &'a str) -> (p: Parser<'a>)
        requires
            contents.spec_bytes().len() < usize::MAX,
        ensures
            p.wf(),
            p.lt_ok(),
            p.tokens() == seen(true, lex_spec(contents.spec_bytes())),
            p.state() == (PS { pos: 0, lt: 0 }),
    {
        reveal(Parser::wf);
        let lexer = Lexer::new(contents);
        proof {
            lemma_stream_len(lexer.text(), lexer@);
        }
        let p = Parser {
            lexer,
            peeked: None,
            lifetime: 0,
            stop_at_failure: true,
            toks: Ghost(seen(true, lex_spec(contents.spec_bytes()))),
            raw: Ghost(lex_spec(contents.spec_bytes())),
            pos: Ghost(0),
        };
        assert(p.toks@.toks.skip(0) =~= p.toks@.toks);
        p
    }

    /// Gives the next block lifetime.
    pub fn new_lifetime(&mut self)
        requires
            old(self).state().lt < usize::MAX,
        ensures
            final(self).state() == (PS { lt: old(self).state().lt + 1, ..old(self).state() }),
            final(self).tokens() == old(self).tokens(),
            old(self).wf() ==> final(self).wf(),
    {
        reveal(Parser::wf);
        self.lifetime = self.lifetime + 1;
    }

    /// Fills the lookahead.
    fn fill(&mut self)
        requires
            old(self).wf(),
            item(old(self).tokens(), old(self).state().pos) != Item::Crash,
        ensures
            final(self).wf(),
            final(self).peeked is Some,
            final(self).tokens() == old(self).tokens(),
            final(self).state() == old(self).state(),
    {
        reveal(Parser::wf);
        if self.peeked.is_none() {
            let ghost b = self.lexer.text();
            let ghost st = self.toks@;
            let ghost p = self.pos@;
            let ghost ls = self.lexer@;
            proof {
                lemma_next_progress(b, ls);
                assert(st.toks.skip(p as int).len() == st.toks.len() - p);
                if p < st.toks.len() {
                    assert(st.toks.skip(p as int)[0] == st.toks[p as int]);
                }
            }
            if self.stop_at_failure && !self.lexer.next_defined() {
                assert(stream(b, ls).toks =~= Seq::<TokenV>::empty());
                assert(stream(b, ls).end == End::Crash);
                self.peeked = Some(None);
                return;
            }
            let ghost raw = self.raw@;
            let r = self.lexer.next();
            proof {
                let s2 = next_spec(b, ls).unwrap().0;
                assert(self.lexer@ == s2);
                match &r {
                    Some(Ok(t)) => {
                        assert(stream(b, ls).toks == seq![t@] + stream(b, s2).toks);
                        assert(stream(b, ls).toks =~= st.toks.skip(p as int));
                        assert(st.toks.skip(p as int)[0] == t@);
                        assert(st.toks.skip(p as int).drop_first() =~= st.toks.skip((p + 1) as int));
                        assert(stream(b, s2).toks =~= st.toks.skip((p + 1) as int));
                        assert(stream(b, s2).end == raw.end);
                    },
                    Some(Err(lexer::Error::Unknown(l, c))) => {
                        lemma_next_stuck(b, ls);
                        assert(stream(b, ls).toks =~= Seq::<TokenV>::empty());
                        assert(stream(b, ls).end == End::Unknown(l as nat, c as nat));
                    },
                    None => {
                        lemma_next_stuck(b, ls);
                        assert(stream(b, ls).toks =~= Seq::<TokenV>::empty());
                        assert(stream(b, ls).end == End::Eof);
                    },
                }
            }
            self.peeked = Some(r);
        }
    }

    /// Takes the next token.
    pub fn next_token(&mut self) -> (r: ParseResult<Token>)
        requires
            old(self).wf(),
            next_tok(old(self).tokens(), old(self).state()) is Some,
        ensures
            old(self).lt_ok() ==> final(self).lt_ok(),
            final(self).state().lt == old(self).state().lt,
            final(self).wf(),
            final(self).tokens() == old(self).tokens(),
            (final(self).state(), res_view(r)) == next_tok(old(self).tokens(), old(self).state())->0,
    {
        reveal(Parser::wf);
        self.fill();
        let ghost b = self.lexer.text();
        let ghost st = self.toks@;
        let ghost p = self.pos@;
        let mut taken: Option<Option<LexResult>> = None;
        std::mem::swap(&mut taken, &mut self.peeked);
        match taken {
            Some(Some(Ok(token))) => {
                assert(stream(b, self.lexer@) == Stream { toks: st.toks.skip((p + 1) as int), end: self.raw@.end });
                proof {
                    self.pos@ = self.pos@ + 1;
                }
                assert(self.pos@ == p + 1);
                assert(self.peeked is None);
                Ok(token)
            },
            Some(Some(Err(err))) => {
                assert(st.toks.skip(p as int) =~= Seq::<TokenV>::empty());
                Err(Error::Lexer(err))
            },
            _ => {
                assert(st.toks.skip(p as int) =~= Seq::<TokenV>::empty());
                Err(Error::EndOfFile)
            },
        }
    }

    /// Takes the next token, which must be `t`.
    pub fn next_token_match(&mut self, t: Token) -> (r: ParseResult<Token>)
        requires
            old(self).wf(),
            next_match(old(self).tokens(), old(self).state(), t@) is Some,
        ensures
            old(self).lt_ok() ==> final(self).lt_ok(),
            final(self).state().lt == old(self).state().lt,
            final(self).wf(),
            final(self).tokens() == old(self).tokens(),
            (final(self).state(), res_view(r)) == next_match(old(self).tokens(), old(self).state(), t@)->0,
    {
        let token = self.next_token()?;
        if !token.same(&t) {
            Err(Error::Unexpected(token))
        } else {
            Ok(token)
        }
    }

    /// Takes the next token, which must be a name.
    pub fn next_token_var(&mut self) -> (r: ParseResult<String>)
        requires
            old(self).wf(),
            next_var(old(self).tokens(), old(self).state()) is Some,
        ensures
            old(self).lt_ok() ==> final(self).lt_ok(),
            final(self).state().lt == old(self).state().lt,
            final(self).wf(),
            final(self).tokens() == old(self).tokens(),
            (final(self).state(), res_view(r)) == next_var(old(self).tokens(), old(self).state())->0,
    {
        let token = self.next_token()?;
        match token {
            Token::Var(ident) => Ok(ident),
            _ => Err(Error::Unexpected(token)),
        }
    }

    /// Looks at the next token without taking it.
    pub fn peek_token(&mut self) -> (r: Result<&Token, Error>)
        requires
            old(self).wf(),
            peek(old(self).tokens(), old(self).state()) is Some,
        ensures
            final(self).wf(),
            final(self).tokens() == old(self).tokens(),
            final(self).state() == old(self).state(),
            match peek(old(self).tokens(), old(self).state())->0 {
                Ok(t) => r matches Ok(rt) && rt@ == t,
                Err(e) => r matches Err(re) && re@ == e,
            },
    {
        reveal(Parser::wf);
        self.fill();
        match &self.peeked {
            Some(Some(Ok(token))) => Ok(token),
            _ => Err(Error::EndOfFile),
        }
    }
}


pub proof fn lemma_stmts_view_drop_last(ss: Seq<Stmt>)
    requires
        ss.len() > 0,
    ensures
        stmts_view(ss.drop_last()) == stmts_view(ss).drop_last(),
        stmts_view(ss).last() == crate::utils::stmt_view(ss.last()),
{
    lemma_stmts_view_push(ss.drop_last(), ss.last());
    assert(ss.drop_last().push(ss.last()) =~= ss);
    assert(stmts_view(ss).drop_last() =~= stmts_view(ss.drop_last()));
}

/// One step of `p_stmts`: what the next token decides.
pub proof fn lemma_p_stmts_step(st: Stream, s: PS, acc: Seq<StmtV>)
    requires
        s.pos <= st.toks.len(),
        p_stmts(st, s, acc) is Some,
    ensures
        peek(st, s) is Some,
        peek(st, s) matches Some(Err(e)) ==> p_stmts(st, s, acc) == Some(
            (s, Err::<Seq<StmtV>, ErrorV>(e)),
        ),
        peek(st, s) == Some(Ok::<TokenV, ErrorV>(TokenV::Rbracket)) ==> p_stmts(st, s, acc) == Some(
            (s, Ok::<Seq<StmtV>, ErrorV>(acc)),
        ),
        peek(st, s) matches Some(Ok(t)) && t != TokenV::Rbracket ==> p_stmt(st, s) is Some,
        peek(st, s) matches Some(Ok(t)) && t != TokenV::Rbracket ==> (p_stmt(st, s) matches Some(
            (s2, Err(e)),
        ) ==> p_stmts(st, s, acc) == Some((s2, Err::<Seq<StmtV>, ErrorV>(e)))),
        peek(st, s) matches Some(Ok(t)) && t != TokenV::Rbracket ==> (p_stmt(st, s) matches Some(
            (s2, Ok(stmt)),
        ) ==> (s.pos < s2.pos <= st.toks.len() ==> p_stmts(st, s, acc) == p_stmts(
            st,
            s2,
            acc.push(stmt),
        ))),
{
}

impl<'a> Parser<'a> {
    /// Parses an lvalue: stars, then a name.
    pub fn parse_lval(&mut self) -> (r: ParseResult<Lval>)
        requires
            old(self).wf(),
            old(self).lt_ok(),
            p_lval(old(self).tokens(), old(self).state()) is Some,
        ensures
            final(self).wf(),
            final(self).lt_ok(),
            final(self).tokens() == old(self).tokens(),
            (final(self).state(), res_view(r)) == p_lval(old(self).tokens(), old(self).state())->0,
            final(self).state().pos >= old(self).state().pos,
    {
        let ghost st = self.tokens();
        let ghost s0 = self.state();
        proof {
            lemma_p_stars(st, s0, 0);
            self.lemma_wf_bounds();
        }
        let mut derefs: usize = 0;
        loop
            invariant
                self.wf(),
                self.lt_ok(),
                self.tokens() == st,
                st == old(self).tokens(),
                s0 == old(self).state(),
                self.state().lt == s0.lt,
                s0.pos <= self.state().pos <= st.toks.len(),
                st.toks.len() < usize::MAX,
                derefs == self.state().pos - s0.pos,
                p_stars(st, s0, 0) == p_stars(st, self.state(), derefs as nat),
                p_lval(st, s0) is Some,
            ensures
                self.wf(),
                self.lt_ok(),
                self.tokens() == st,
                s0.pos <= self.state().pos,
                p_stars(st, s0, 0) == Some((self.state(), Ok::<nat, ErrorV>(derefs as nat))),
                p_lval(st, s0) is Some,
            decreases st.toks.len() - self.state().pos,
        {
            let is_star = self.peek_token()?.same(&Token::Star);
            if !is_star {
                break;
            }
            let _ = self.next_token();
            proof {
                self.lemma_wf_bounds();
            }
            derefs = derefs + 1;
        }
        let var = self.next_token()?;
        match var {
            Token::Var(x) => Ok(Lval { ident: x, derefs }),
            _ => Err(Error::Unexpected(var)),
        }
    }

    /// Parses a block.
    pub fn parse_block(&mut self) -> (r: ParseResult<Expr>)
        requires
            old(self).wf(),
            old(self).lt_ok(),
            p_block(old(self).tokens(), old(self).state()) is Some,
        ensures
            final(self).wf(),
            final(self).lt_ok(),
            final(self).tokens() == old(self).tokens(),
            (final(self).state(), res_view(r)) == p_block(old(self).tokens(), old(self).state())->0,
            final(self).state().pos >= old(self).state().pos,
        decreases old(self).tokens().toks.len() - old(self).state().pos, 1int,
    {
        let ghost st = self.tokens();
        let ghost s0 = self.state();
        self.next_token_match(Token::Lbracket)?;
        let ghost s1 = self.state();
        let mut statements: Vec<Stmt> = Vec::new();
        assert(stmts_view(statements@) =~= Seq::<StmtV>::empty());
        proof {
            self.lemma_wf_bounds();
            assert(next_match(st, s0, TokenV::Lbracket) == Some((s1, Ok::<TokenV, ErrorV>(TokenV::Lbracket))));
            assert(p_block(st, s0) == block_from(st, p_stmts(st, s1, Seq::empty())));
        }
        loop
            invariant
                self.wf(),
                self.lt_ok(),
                self.tokens() == st,
                st == old(self).tokens(),
                s0 == old(self).state(),
                s0.pos < self.state().pos <= st.toks.len(),
                st.toks.len() < usize::MAX,
                p_block(st, s0) is Some,
                p_stmts(st, self.state(), stmts_view(statements@)) is Some,
                p_block(st, s0) == block_from(st, p_stmts(st, self.state(), stmts_view(statements@))),
            ensures
                self.wf(),
                self.lt_ok(),
                self.tokens() == st,
                s0.pos < self.state().pos <= st.toks.len(),
                p_block(st, s0) == p_block_end(st, self.state(), stmts_view(statements@)),
                p_block(st, s0) is Some,
            decreases st.toks.len() - self.state().pos,
        {
            let ghost cur = self.state();
            let ghost acc = stmts_view(statements@);
            proof {
                lemma_p_stmts_step(st, cur, acc);
            }
            let at_end = match self.peek_token() {
                Ok(t) => t.same(&Token::Rbracket),
                Err(e) => {
                    return Err(e);
                },
            };
            if at_end {
                break;
            }
            let ghost before = statements@;
            let stmt = match self.parse_stmt() {
                Ok(x) => x,
                Err(e) => {
                    return Err(e);
                },
            };
            proof {
                lemma_stmts_view_push(before, stmt);
                self.lemma_wf_bounds();
            }
            statements.push(stmt);
        }
        let last_is_expr = statements.len() > 0 && match &statements[statements.len() - 1] {
            Stmt::Expr(_) => true,
            _ => false,
        };
        proof {
            if statements.len() > 0 {
                lemma_stmts_view_drop_last(statements@);
            }
            lemma_stmts_view_push(statements@, Stmt::Expr(Expr::Unit));
        }
        let ghost s2 = self.state();
        let ghost stmts = stmts_view(statements@);
        self.next_token_match(Token::Rbracket)?;
        let ghost s3 = self.state();
        proof {
            self.lemma_wf_bounds();
        }
        self.new_lifetime();
        let ghost s4 = self.state();
        assert(s4 == PS { pos: s3.pos, lt: s3.lt + 1 });
        if last_is_expr {
            let ghost all = statements@;
            let last = match statements.pop() {
                Some(Stmt::Expr(e)) => e,
                _ => {
                    assert(false);
                    Expr::Unit
                },
            };
            assert(statements@ == all.drop_last());
            assert(stmts.last() == StmtV::Expr(last@));
            let r = Expr::Block(statements, Box::new(last), Lifetime(self.lifetime));
            assert(r@ == ExprV::Block(stmts.drop_last(), Box::new(last@), s4.lt));
            Ok(r)
        } else {
            assert(!(stmts.len() > 0 && stmts.last() is Expr));
            let r = Expr::Block(statements, Box::new(Expr::Unit), Lifetime(self.lifetime));
            assert(r@ == ExprV::Block(stmts, Box::new(ExprV::Unit), s4.lt));
            Ok(r)
        }
    }

    /// Parses `Box::new(e)`.
    fn parse_box(&mut self) -> (r: ParseResult<Expr>)
        requires
            old(self).wf(),
            old(self).lt_ok(),
            p_box(old(self).tokens(), old(self).state()) is Some,
        ensures
            final(self).wf(),
            final(self).lt_ok(),
            final(self).tokens() == old(self).tokens(),
            (final(self).state(), res_view(r)) == p_box(old(self).tokens(), old(self).state())->0,
            final(self).state().pos >= old(self).state().pos,
        decreases old(self).tokens().toks.len() - old(self).state().pos, 1int,
    {
        self.next_token_match(Token::Box)?;
        self.next_token_match(Token::Lparen)?;
        let e = self.parse_expr()?;
        self.next_token_match(Token::Rparen)?;
        Ok(Expr::OBox(Box::new(e)))
    }

    /// Parses a statement that starts with an lvalue.
    fn parse_stmt_lval(&mut self) -> (r: ParseResult<Stmt>)
        requires
            old(self).wf(),
            old(self).lt_ok(),
            p_stmt_lval(old(self).tokens(), old(self).state()) is Some,
        ensures
            final(self).wf(),
            final(self).lt_ok(),
            final(self).tokens() == old(self).tokens(),
            (final(self).state(), res_view(r)) == p_stmt_lval(old(self).tokens(), old(self).state())->0,
            final(self).state().pos >= old(self).state().pos,
            r is Ok ==> final(self).state().pos > old(self).state().pos,
        decreases old(self).tokens().toks.len() - old(self).state().pos, 3int,
    {
        proof {
            lemma_p_lval(self.tokens(), self.state());
        }
        let lv = self.parse_lval()?;
        let is_eq = self.peek_token()?.same(&Token::Eq);
        if is_eq {
            let _ = self.next_token();
            let next_expr = self.parse_expr()?;
            self.next_token_match(Token::Semicolon)?;
            Ok(Stmt::Assign(lv, next_expr))
        } else {
            self.next_token_match(Token::Semicolon)?;
            Ok(Stmt::Expr(Expr::Lv(lv, Copyable::No)))
        }
    }

    /// Parses a declaration.
    fn parse_stmt_let(&mut self) -> (r: ParseResult<Stmt>)
        requires
            old(self).wf(),
            old(self).lt_ok(),
            p_stmt_let(old(self).tokens(), old(self).state()) is Some,
            peek(old(self).tokens(), old(self).state()) == Some(Ok::<TokenV, ErrorV>(TokenV::Let)),
        ensures
            final(self).wf(),
            final(self).lt_ok(),
            final(self).tokens() == old(self).tokens(),
            (final(self).state(), res_view(r)) == p_stmt_let(old(self).tokens(), old(self).state())->0,
            final(self).state().pos > old(self).state().pos,
        decreases old(self).tokens().toks.len() - old(self).state().pos, 3int,
    {
        let _ = self.next_token();
        self.next_token_match(Token::Mut)?;
        let var = self.next_token_var()?;
        self.next_token_match(Token::Eq)?;
        let next_expr = self.parse_expr()?;
        self.next_token_match(Token::Semicolon)?;
        Ok(Stmt::LetMut(var, next_expr))
    }

    /// Parses an expression statement.
    fn parse_stmt_expr(&mut self) -> (r: ParseResult<Stmt>)
        requires
            old(self).wf(),
            old(self).lt_ok(),
            p_stmt_expr(old(self).tokens(), old(self).state()) is Some,
        ensures
            final(self).wf(),
            final(self).lt_ok(),
            final(self).tokens() == old(self).tokens(),
            (final(self).state(), res_view(r)) == p_stmt_expr(old(self).tokens(), old(self).state())->0,
            final(self).state().pos >= old(self).state().pos,
            r is Ok ==> final(self).state().pos > old(self).state().pos,
        decreases old(self).tokens().toks.len() - old(self).state().pos, 3int,
    {
        let next_expr = self.parse_expr()?;
        self.next_token_match(Token::Semicolon)?;
        Ok(Stmt::Expr(next_expr))
    }

    /// Parses a statement.
    pub fn parse_stmt(&mut self) -> (r: ParseResult<Stmt>)
        requires
            old(self).wf(),
            old(self).lt_ok(),
            p_stmt(old(self).tokens(), old(self).state()) is Some,
        ensures
            final(self).wf(),
            final(self).lt_ok(),
            final(self).tokens() == old(self).tokens(),
            (final(self).state(), res_view(r)) == p_stmt(old(self).tokens(), old(self).state())->0,
            final(self).state().pos >= old(self).state().pos,
            r is Ok ==> final(self).state().pos > old(self).state().pos,
        decreases old(self).tokens().toks.len() - old(self).state().pos, 4int,
    {
        let t = self.peek_token()?.duplicate();
        match t {
            Token::Star | Token::Var(_) => self.parse_stmt_lval(),
            Token::Semicolon => {
                let _ = self.next_token();
                Ok(Stmt::Expr(Expr::Unit))
            },
            Token::Let => self.parse_stmt_let(),
            _ => self.parse_stmt_expr(),
        }
    }

    /// Parses an expression.
    pub fn parse_expr(&mut self) -> (r: ParseResult<Expr>)
        requires
            old(self).wf(),
            old(self).lt_ok(),
            p_expr(old(self).tokens(), old(self).state()) is Some,
        ensures
            final(self).wf(),
            final(self).lt_ok(),
            final(self).tokens() == old(self).tokens(),
            (final(self).state(), res_view(r)) == p_expr(old(self).tokens(), old(self).state())->0,
            final(self).state().pos >= old(self).state().pos,
        decreases old(self).tokens().toks.len() - old(self).state().pos, 2int,
    {
        let t = self.peek_token()?.duplicate();
        match t {
            Token::Int(_) => {
                let tok = self.next_token()?;
                match tok {
                    Token::Int(v) => Ok(Expr::Int(v)),
                    _ => {
                        assert(false);
                        Err(Error::EndOfFile)
                    },
                }
            },
            Token::Var(_) | Token::Star => {
                let lv = self.parse_lval()?;
                Ok(Expr::Lv(lv, Copyable::No))
            },
            Token::Box => self.parse_box(),
            Token::Ampersand => {
                self.next_token()?;
                let mut muta = Mutable::No;
                if self.peek_token()?.same(&Token::Mut) {
                    self.next_token()?;
                    muta = Mutable::Yes;
                }
                let inner = self.parse_lval()?;
                Ok(Expr::Borrow(inner, muta))
            },
            Token::Lbracket => self.parse_block(),
            Token::Semicolon => Ok(Expr::Unit),
            x => Err(Error::Unexpected(x)),
        }
    }

    /// Parses `() { ... }` after `fn main`, with nothing after it.
    fn parse_main(&mut self) -> (r: ParseResult<Expr>)
        requires
            old(self).wf(),
            old(self).lt_ok(),
            p_main(old(self).tokens(), old(self).state()) is Some,
        ensures
            final(self).wf(),
            final(self).lt_ok(),
            final(self).tokens() == old(self).tokens(),
            (final(self).state(), res_view(r)) == p_main(old(self).tokens(), old(self).state())->0,
    {
        self.next_token_match(Token::Lparen)?;
        self.next_token_match(Token::Rparen)?;
        let out = self.parse_block();
        if self.peek_token().is_err() {
            return out;
        }
        Err(Error::Unexpected(self.next_token()?))
    }

    /// Parses a program: `fn main() { ... }`, with nothing after it.
    pub fn parse(&mut self) -> (r: ParseResult<Expr>)
        requires
            old(self).wf(),
            old(self).lt_ok(),
            p_program(old(self).tokens(), old(self).state()) is Some,
        ensures
            final(self).wf(),
            final(self).lt_ok(),
            final(self).tokens() == old(self).tokens(),
            (final(self).state(), res_view(r)) == p_program(old(self).tokens(), old(self).state())->0,
    {
        self.next_token_match(Token::Fn)?;
        let main = self.next_token()?;
        let main_name = String::from_str("main");
        proof {
            reveal_strlit("main");
        }
        assert(main_name@ =~= seq!['m', 'a', 'i', 'n']);
        match main {
            Token::Var(ident) => {
                if ident == main_name {
                    assert(ident@ == seq!['m', 'a', 'i', 'n']);
                    self.parse_main()
                } else {
                    self.parse_block()
                }
            },
            _ => self.parse_block(),
        }
    }
}

/// Parses the program `contents`: `None` when the parse meets a failure of
/// lexing (a whitespace character of more than one byte, or an integer literal
/// beyond `i32`) before it ends.
pub fn parse_program(contents: &str) -> (r: Option<ParseResult<Expr>>)
    requires
        contents.spec_bytes().len() < usize::MAX,
    ensures
        r is None <==> p_program(lex_spec(contents.spec_bytes()), PS { pos: 0, lt: 0 }) is None,
        r matches Some(x) ==> res_view(x) == p_program(lex_spec(contents.spec_bytes()), PS { pos: 0, lt: 0 }).unwrap().1,
{
    let ghost raw = lex_spec(contents.spec_bytes());
    let ghost s0 = PS { pos: 0, lt: 0 };
    if lexer::lexes_fully(contents) {
        proof {
            crate::properties::law_parse_defined(raw, s0);
        }
        let mut p = Parser::new(contents);
        return Some(p.parse());
    }
    let ghost st = seen(true, raw);
    let mut p = Parser::new_stopping(contents);
    proof {
        p.lemma_wf_bounds();
    }
    match p.next_token_match(Token::Fn) {
        Err(Error::EndOfFile) => {
            return None;
        },
        Err(e) => {
            return Some(Err(e));
        },
        Ok(_) => {},
    }
    let ghost s1 = p.state();
    proof {
        p.lemma_wf_bounds();
    }
    let name = match p.next_token() {
        Err(Error::EndOfFile) => {
            return None;
        },
        Err(e) => {
            return Some(Err(e));
        },
        Ok(t) => t,
    };
    let ghost s2 = p.state();
    proof {
        p.lemma_wf_bounds();
    }
    let main_name = String::from_str("main");
    proof {
        reveal_strlit("main");
    }
    assert(main_name@ =~= seq!['m', 'a', 'i', 'n']);
    let is_main = match &name {
        Token::Var(ident) => *ident == main_name,
        _ => false,
    };
    if !is_main {
        proof {
            crate::properties::lemma_total_block(st, s2);
            crate::properties::lemma_fail_block(raw, s2);
        }
        return match p.parse_block() {
            Err(Error::EndOfFile) => None,
            other => Some(other),
        };
    }
    assert(name@ == TokenV::Var(seq!['m', 'a', 'i', 'n']));
    match p.next_token_match(Token::Lparen) {
        Err(Error::EndOfFile) => {
            return None;
        },
        Err(e) => {
            return Some(Err(e));
        },
        Ok(_) => {},
    }
    proof {
        p.lemma_wf_bounds();
    }
    match p.next_token_match(Token::Rparen) {
        Err(Error::EndOfFile) => {
            return None;
        },
        Err(e) => {
            return Some(Err(e));
        },
        Ok(_) => {},
    }
    let ghost s4 = p.state();
    proof {
        p.lemma_wf_bounds();
        crate::properties::lemma_total_block(st, s4);
        crate::properties::lemma_fail_block(raw, s4);
    }
    let out = p.parse_block();
    if let Err(Error::EndOfFile) = out {
        return None;
    }
    proof {
        p.lemma_wf_bounds();
    }
    if p.peek_token().is_err() {
        return None;
    }
    match p.next_token() {
        Ok(t) => Some(Err(Error::Unexpected(t))),
        Err(e) => Some(Err(e)),
    }
}

} // verus!
