//! The parser: recursive descent over a two-token lookahead window.

use vstd::prelude::*;

use crate::ast::{Expression, Ident, LetStatement, Program, SpecExpression, SpecStatement, Statement};
use crate::lexer::{
    int_literals_fit, int_token_fits, lemma_eof_idempotent, lemma_next_pos_bounds, spec_next_pos,
    spec_token_at, spec_tokens_from, Lexer, SpecToken, Token,
};

verus! {

/// A parse error. An expected-token mismatch at a known grammar point
/// carries the expectation and the token actually observed; a token that
/// starts a statement form the grammar does not implement is unsupported.
#[derive(Debug, PartialEq, Clone)]
pub enum ParserError {
    UnexpectedToken { expected: Token, got: Token },
    UnsupportedStatement { got: Token },
}

/// Model of a parse error.
pub enum SpecParserError {
    UnexpectedToken { expected: SpecToken, got: SpecToken },
    UnsupportedStatement { got: SpecToken },
}

impl View for ParserError {
    type V = SpecParserError;

    open spec fn view(&self) -> SpecParserError {
        match self {
            ParserError::UnexpectedToken { expected, got } => SpecParserError::UnexpectedToken {
                expected: expected@,
                got: got@,
            },
            ParserError::UnsupportedStatement { got } => SpecParserError::UnsupportedStatement {
                got: got@,
            },
        }
    }
}

/// The model of a list of parse errors.
pub open spec fn errors_view(es: Seq<ParserError>) -> Seq<SpecParserError> {
    es.map_values(|e: ParserError| e@)
}

/// Two tokens carry the same tag, payloads disregarded; the test the
/// expect-and-advance helper applies.
pub open spec fn kind_eq(a: SpecToken, b: SpecToken) -> bool {
    match (a, b) {
        (SpecToken::Illegal, SpecToken::Illegal) => true,
        (SpecToken::EOF, SpecToken::EOF) => true,
        (SpecToken::Ident(_), SpecToken::Ident(_)) => true,
        (SpecToken::Int(_), SpecToken::Int(_)) => true,
        (SpecToken::Assign, SpecToken::Assign) => true,
        (SpecToken::Plus, SpecToken::Plus) => true,
        (SpecToken::Minus, SpecToken::Minus) => true,
        (SpecToken::Bang, SpecToken::Bang) => true,
        (SpecToken::Asterisk, SpecToken::Asterisk) => true,
        (SpecToken::Slash, SpecToken::Slash) => true,
        (SpecToken::LessThan, SpecToken::LessThan) => true,
        (SpecToken::GreaterThan, SpecToken::GreaterThan) => true,
        (SpecToken::Equal, SpecToken::Equal) => true,
        (SpecToken::NotEqual, SpecToken::NotEqual) => true,
        (SpecToken::Comma, SpecToken::Comma) => true,
        (SpecToken::Semicolon, SpecToken::Semicolon) => true,
        (SpecToken::LParen, SpecToken::LParen) => true,
        (SpecToken::RParen, SpecToken::RParen) => true,
        (SpecToken::LBrace, SpecToken::LBrace) => true,
        (SpecToken::RBrace, SpecToken::RBrace) => true,
        (SpecToken::Function, SpecToken::Function) => true,
        (SpecToken::Let, SpecToken::Let) => true,
        (SpecToken::True, SpecToken::True) => true,
        (SpecToken::False, SpecToken::False) => true,
        (SpecToken::If, SpecToken::If) => true,
        (SpecToken::Else, SpecToken::Else) => true,
        (SpecToken::Return, SpecToken::Return) => true,
        _ => false,
    }
}

/// The token at index `k` of the remaining stream; past its end the
/// scanner yields the end-of-input token forever.
pub open spec fn tok_at(u: Seq<SpecToken>, k: int) -> SpecToken {
    if 0 <= k < u.len() {
        u[k]
    } else {
        SpecToken::EOF
    }
}

/// Index of the first semicolon at or after `j`, or the stream's end.
pub open spec fn semi_end(u: Seq<SpecToken>, j: int) -> int
    decreases u.len() - j,
        when 0 <= j
{
    if j >= u.len() {
        j
    } else if u[j] is Semicolon {
        j
    } else {
        semi_end(u, j + 1)
    }
}

/// The stop position holds the first semicolon at or after `j`, if the
/// stream holds one there at all.
pub proof fn lemma_semi_end_bounds(u: Seq<SpecToken>, j: int)
    requires
        0 <= j,
    ensures
        j <= semi_end(u, j),
        j <= u.len() ==> semi_end(u, j) <= u.len(),
        semi_end(u, j) < u.len() ==> u[semi_end(u, j)] is Semicolon,
        forall|k: int| j <= k < semi_end(u, j) && k < u.len() ==> !((#[trigger] u[k]) is Semicolon),
    decreases u.len() - j,
{
    if j < u.len() && !(u[j] is Semicolon) {
        lemma_semi_end_bounds(u, j + 1);
    }
}

/// One binding-statement parse over the remaining tokens `u`, whose head
/// is the `let` keyword: the statement together with the index where the
/// window's current token stands afterwards (the terminating semicolon,
/// or the stream's end), or the error recorded on a mismatch.
pub open spec fn spec_parse_let(u: Seq<SpecToken>) -> Result<(SpecStatement, int), SpecParserError> {
    if !(tok_at(u, 1) is Ident) {
        Err(
            SpecParserError::UnexpectedToken {
                expected: SpecToken::Ident(Seq::empty()),
                got: tok_at(u, 1),
            },
        )
    } else if !(tok_at(u, 2) is Assign) {
        Err(SpecParserError::UnexpectedToken { expected: SpecToken::Assign, got: tok_at(u, 2) })
    } else {
        let name = match tok_at(u, 1) {
            SpecToken::Ident(text) => text,
            _ => Seq::empty(),
        };
        let stop = semi_end(u, 2);
        let m = if stop < u.len() {
            stop
        } else {
            u.len() as int
        };
        Ok((SpecStatement::Let { name, value: SpecExpression::Empty }, m))
    }
}

/// The whole parse over the remaining tokens: the statements in source
/// order, or the first error recorded, the rest of the input abandoned.
pub open spec fn spec_parse(u: Seq<SpecToken>) -> Result<Seq<SpecStatement>, SpecParserError>
    decreases u.len(),
        via spec_parse_decreases
{
    if tok_at(u, 0) is EOF {
        Ok(Seq::empty())
    } else if tok_at(u, 0) is Let {
        match spec_parse_let(u) {
            Err(e) => Err(e),
            Ok(parsed) => {
                let rest = if parsed.1 < u.len() {
                    u.skip(parsed.1 + 1)
                } else {
                    Seq::empty()
                };
                match spec_parse(rest) {
                    Err(e) => Err(e),
                    Ok(stmts) => Ok(seq![parsed.0] + stmts),
                }
            },
        }
    } else {
        Err(SpecParserError::UnsupportedStatement { got: tok_at(u, 0) })
    }
}

#[via_fn]
proof fn spec_parse_decreases(u: Seq<SpecToken>) {
    lemma_semi_end_bounds(u, 2);
}

/// Prefix already-parsed statements onto a parse outcome.
pub open spec fn prepend_parsed(
    pre: Seq<SpecStatement>,
    r: Result<Seq<SpecStatement>, SpecParserError>,
) -> Result<Seq<SpecStatement>, SpecParserError> {
    match r {
        Ok(stmts) => Ok(pre + stmts),
        Err(e) => Err(e),
    }
}

/// An equal copy of a token; string payloads are cloned.
fn dup_token(t: &Token) -> (r: Token)
    ensures
        r == *t,
{
    match t {
        Token::Illegal => Token::Illegal,
        Token::EOF => Token::EOF,
        Token::Ident(name) => Token::Ident(name.clone()),
        Token::Int(value) => Token::Int(*value),
        Token::Assign => Token::Assign,
        Token::Plus => Token::Plus,
        Token::Minus => Token::Minus,
        Token::Bang => Token::Bang,
        Token::Asterisk => Token::Asterisk,
        Token::Slash => Token::Slash,
        Token::LessThan => Token::LessThan,
        Token::GreaterThan => Token::GreaterThan,
        Token::Equal => Token::Equal,
        Token::NotEqual => Token::NotEqual,
        Token::Comma => Token::Comma,
        Token::Semicolon => Token::Semicolon,
        Token::LParen => Token::LParen,
        Token::RParen => Token::RParen,
        Token::LBrace => Token::LBrace,
        Token::RBrace => Token::RBrace,
        Token::Function => Token::Function,
        Token::Let => Token::Let,
        Token::True => Token::True,
        Token::False => Token::False,
        Token::If => Token::If,
        Token::Else => Token::Else,
        Token::Return => Token::Return,
    }
}

/// Whether two tokens carry the same tag, payloads disregarded.
fn token_kind_eq(a: &Token, b: &Token) -> (r: bool)
    ensures
        r == kind_eq(a@, b@),
{
    match (a, b) {
        (Token::Illegal, Token::Illegal) => true,
        (Token::EOF, Token::EOF) => true,
        (Token::Ident(_), Token::Ident(_)) => true,
        (Token::Int(_), Token::Int(_)) => true,
        (Token::Assign, Token::Assign) => true,
        (Token::Plus, Token::Plus) => true,
        (Token::Minus, Token::Minus) => true,
        (Token::Bang, Token::Bang) => true,
        (Token::Asterisk, Token::Asterisk) => true,
        (Token::Slash, Token::Slash) => true,
        (Token::LessThan, Token::LessThan) => true,
        (Token::GreaterThan, Token::GreaterThan) => true,
        (Token::Equal, Token::Equal) => true,
        (Token::NotEqual, Token::NotEqual) => true,
        (Token::Comma, Token::Comma) => true,
        (Token::Semicolon, Token::Semicolon) => true,
        (Token::LParen, Token::LParen) => true,
        (Token::RParen, Token::RParen) => true,
        (Token::LBrace, Token::LBrace) => true,
        (Token::RBrace, Token::RBrace) => true,
        (Token::Function, Token::Function) => true,
        (Token::Let, Token::Let) => true,
        (Token::True, Token::True) => true,
        (Token::False, Token::False) => true,
        (Token::If, Token::If) => true,
        (Token::Else, Token::Else) => true,
        (Token::Return, Token::Return) => true,
        _ => false,
    }
}

/// Whether a token is the end-of-input marker.
fn token_is_eof(t: &Token) -> (r: bool)
    ensures
        r == (t@ is EOF),
{
    match t {
        Token::EOF => true,
        _ => false,
    }
}

/// The parser: a scanner it drains, the two-token lookahead window, and
/// the parse errors accumulated so far.
pub struct Parser {
    lexer: Lexer,
    curr_token: Token,
    peek_token: Token,
    errors: Vec<ParserError>,
}

impl Parser {
    /// The tokens still to be consumed: the window's current and lookahead
    /// tokens, then whatever the scanner has not yet produced; empty from
    /// the end-of-input marker on.
    pub closed spec fn upcoming(self) -> Seq<SpecToken> {
        if self.curr_token@ is EOF {
            Seq::empty()
        } else if self.peek_token@ is EOF {
            seq![self.curr_token@]
        } else {
            seq![self.curr_token@, self.peek_token@] + spec_tokens_from(
                self.lexer.src(),
                self.lexer.cursor(),
            )
        }
    }

    /// The errors recorded so far, in order.
    pub closed spec fn error_log(self) -> Seq<SpecParserError> {
        errors_view(self.errors@)
    }

    /// The parser state is coherent: the scanner is coherent over a text
    /// whose integer literals the token type can carry, and the window
    /// only shows the end-of-input marker once the stream is exhausted.
    pub closed spec fn wf(self) -> bool {
        &&& self.lexer.wf()
        &&& int_literals_fit(self.lexer.src())
        &&& (self.curr_token@ is EOF ==> self.peek_token@ is EOF)
        &&& (self.peek_token@ is EOF ==> spec_token_at(self.lexer.src(), self.lexer.cursor())
            is EOF)
    }

    /// Slide the lookahead window: the current token takes the lookahead,
    /// and the scanner supplies a fresh lookahead.
    fn next_token(&mut self)
        requires
            old(self).lexer.wf(),
            int_literals_fit(old(self).lexer.src()),
        ensures
            final(self).lexer.wf(),
            final(self).lexer.src() == old(self).lexer.src(),
            final(self).curr_token == old(self).peek_token,
            final(self).peek_token@ == spec_token_at(
                old(self).lexer.src(),
                old(self).lexer.cursor(),
            ),
            final(self).lexer.cursor() == spec_next_pos(
                old(self).lexer.src(),
                old(self).lexer.cursor(),
            ),
            final(self).errors == old(self).errors,
            old(self).wf() ==> final(self).wf(),
            old(self).wf() ==> final(self).upcoming() == (if old(self).upcoming().len() == 0 {
                Seq::<SpecToken>::empty()
            } else {
                old(self).upcoming().drop_first()
            }),
    {
        proof {
            self.lexer.lemma_cursor_bounds();
            assert(int_token_fits(self.lexer.src(), self.lexer.cursor()));
        }
        core::mem::swap(&mut self.curr_token, &mut self.peek_token);
        let fresh = self.lexer.next_token();
        self.peek_token = fresh;
        proof {
            let s = old(self).lexer.src();
            let c0 = old(self).lexer.cursor();
            let t0 = old(self).curr_token@;
            let t1 = old(self).peek_token@;
            let tn = spec_token_at(s, c0);
            old(self).lexer.lemma_cursor_bounds();
            if old(self).wf() {
                lemma_next_pos_bounds(s, c0);
                if tn is EOF {
                    lemma_eof_idempotent(s, c0);
                } else {
                    assert(spec_tokens_from(s, c0) == seq![tn] + spec_tokens_from(
                        s,
                        spec_next_pos(s, c0),
                    ));
                }
                if t0 is EOF {
                    assert(self.upcoming() =~= Seq::<SpecToken>::empty());
                } else if t1 is EOF {
                    assert(self.upcoming() =~= old(self).upcoming().drop_first());
                } else if tn is EOF {
                    assert(old(self).upcoming() =~= seq![t0, t1]);
                    assert(self.upcoming() =~= old(self).upcoming().drop_first());
                } else {
                    assert(self.upcoming() =~= old(self).upcoming().drop_first());
                }
            }
        }
    }
}

impl Parser {
    /// Construct a parser over a scanner, priming the two-token window.
    pub fn new(lexer: Lexer) -> (p: Parser)
        requires
            lexer.wf(),
            int_literals_fit(lexer.src()),
        ensures
            p.wf(),
            p.upcoming() == spec_tokens_from(lexer.src(), lexer.cursor()),
            p.error_log() == Seq::<SpecParserError>::empty(),
    {
        let ghost s = lexer.src();
        let ghost c0 = lexer.cursor();
        let mut p = Parser {
            lexer,
            curr_token: Token::Illegal,
            peek_token: Token::Illegal,
            errors: Vec::new(),
        };
        p.next_token();
        p.next_token();
        proof {
            let t0 = spec_token_at(s, c0);
            let n1 = spec_next_pos(s, c0);
            let t1 = spec_token_at(s, n1);
            lexer.lemma_cursor_bounds();
            lemma_next_pos_bounds(s, c0);
            lemma_next_pos_bounds(s, n1);
            if t0 is EOF {
                lemma_eof_idempotent(s, c0);
                lemma_eof_idempotent(s, n1);
                assert(p.upcoming() =~= spec_tokens_from(s, c0));
            } else {
                assert(spec_tokens_from(s, c0) == seq![t0] + spec_tokens_from(s, n1));
                if t1 is EOF {
                    lemma_eof_idempotent(s, n1);
                    assert(p.upcoming() =~= spec_tokens_from(s, c0));
                } else {
                    lemma_next_pos_bounds(s, spec_next_pos(s, n1));
                    assert(spec_tokens_from(s, n1) == seq![t1] + spec_tokens_from(
                        s,
                        spec_next_pos(s, n1),
                    ));
                    assert(p.upcoming() =~= spec_tokens_from(s, c0));
                }
            }
            assert(p.error_log() =~= Seq::<SpecParserError>::empty());
        }
        p
    }

    /// In the model, the window's two tokens stand at the head of the
    /// remaining stream.
    proof fn lemma_window(self)
        requires
            self.wf(),
        ensures
            tok_at(self.upcoming(), 0) == self.curr_token@,
            tok_at(self.upcoming(), 1) == self.peek_token@,
    {
    }

    /// Compare the lookahead against an expected token by tag alone; on a
    /// match advance the window, on a mismatch record the diagnostic and
    /// leave the window in place.
    fn expect_peek(&mut self, tok: Token) -> (r: bool)
        requires
            old(self).wf(),
        ensures
            final(self).wf(),
            r == kind_eq(old(self).peek_token@, tok@),
            r ==> final(self).curr_token == old(self).peek_token && final(self).upcoming() == (
            if old(self).upcoming().len() == 0 {
                Seq::<SpecToken>::empty()
            } else {
                old(self).upcoming().drop_first()
            }) && final(self).error_log() == old(self).error_log(),
            !r ==> final(self).curr_token == old(self).curr_token
                && final(self).peek_token == old(self).peek_token
                && final(self).upcoming() == old(self).upcoming()
                && final(self).error_log() == old(self).error_log().push(
                SpecParserError::UnexpectedToken { expected: tok@, got: old(self).peek_token@ },
            ),
    {
        if token_kind_eq(&self.peek_token, &tok) {
            self.next_token();
            true
        } else {
            let got = dup_token(&self.peek_token);
            let ghost expected_view = tok@;
            self.errors.push(ParserError::UnexpectedToken { expected: tok, got });
            proof {
                assert(self.error_log() =~= old(self).error_log().push(
                    SpecParserError::UnexpectedToken {
                        expected: expected_view,
                        got: old(self).peek_token@,
                    },
                ));
            }
            false
        }
    }

    /// Parse one binding statement, the window's current token being the
    /// `let` keyword: require the bound name and the assignment sign, then
    /// skip the not-yet-parsed value up to the terminating semicolon (or
    /// the end of the input) and record the placeholder expression.
    fn parse_let(&mut self) -> (r: Option<LetStatement>)
        requires
            old(self).wf(),
            old(self).curr_token@ is Let,
        ensures
            final(self).wf(),
            match r {
                Some(binding) => spec_parse_let(old(self).upcoming()) matches Ok(parsed)
                    && binding@ == parsed.0 && final(self).upcoming() == old(self).upcoming().skip(
                    parsed.1,
                ) && final(self).error_log() == old(self).error_log(),
                None => spec_parse_let(old(self).upcoming()) matches Err(e)
                    && final(self).error_log() == old(self).error_log().push(e),
            },
    {
        let ghost u = self.upcoming();
        let ghost log0 = self.error_log();
        proof {
            self.lemma_window();
        }
        if !self.expect_peek(Token::Ident(String::new())) {
            return None;
        }
        proof {
            assert(u.len() >= 2);
            assert(self.upcoming() =~= u.drop_first());
            self.lemma_window();
            assert(tok_at(self.upcoming(), 1) == tok_at(u, 2));
        }
        let name = match &self.curr_token {
            Token::Ident(text) => Ident(text.clone()),
            _ => {
                proof {
                    assert(false);
                }
                Ident(String::new())
            },
        };
        if !self.expect_peek(Token::Assign) {
            return None;
        }
        proof {
            assert(tok_at(u, 2) is Assign);
            assert(u.len() >= 3);
            assert(self.upcoming() =~= u.skip(2));
        }
        let ghost mut k: int = 2;
        while !token_ends_skip(&self.curr_token)
            invariant
                self.wf(),
                2 <= k <= u.len(),
                u.len() >= 3,
                self.upcoming() == u.skip(k),
                self.error_log() == log0,
                semi_end(u, k) == semi_end(u, 2),
            decreases u.len() - k,
        {
            proof {
                self.lemma_window();
                assert(self.upcoming().len() > 0);
                assert(k < u.len());
                assert(self.curr_token@ == u[k]);
                assert(semi_end(u, k) == semi_end(u, k + 1));
            }
            self.next_token();
            proof {
                k = k + 1;
                assert(self.upcoming() =~= u.skip(k));
            }
        }
        proof {
            self.lemma_window();
            if self.curr_token@ is EOF {
                assert(self.upcoming().len() == 0);
                assert(k == u.len());
                assert(semi_end(u, 2) == u.len());
            } else {
                assert(self.curr_token@ is Semicolon);
                assert(self.upcoming().len() > 0);
                assert(k < u.len());
                assert(self.curr_token@ == u[k]);
                assert(semi_end(u, k) == k);
            }
            lemma_semi_end_bounds(u, 2);
        }
        Some(LetStatement { name, value: Expression::Empty })
    }

    /// Dispatch on the current token to the matching statement rule; a
    /// token starting a statement form the grammar does not implement
    /// records an error and fails the parse.
    fn parse_statement(&mut self) -> (r: Option<Statement>)
        requires
            old(self).wf(),
            !(old(self).curr_token@ is EOF),
        ensures
            final(self).wf(),
            match r {
                Some(stmt) => {
                    &&& old(self).curr_token@ is Let
                    &&& spec_parse_let(old(self).upcoming()) matches Ok(parsed) && stmt@
                        == parsed.0 && final(self).upcoming() == old(self).upcoming().skip(
                        parsed.1,
                    ) && final(self).error_log() == old(self).error_log()
                },
                None => {
                    &&& (old(self).curr_token@ is Let ==> (spec_parse_let(old(self).upcoming())
                        matches Err(e) && final(self).error_log() == old(self).error_log().push(
                        e,
                    )))
                    &&& (!(old(self).curr_token@ is Let) ==> final(self).error_log() == old(
                        self,
                    ).error_log().push(
                        SpecParserError::UnsupportedStatement { got: old(self).curr_token@ },
                    ))
                },
            },
    {
        if token_is_let(&self.curr_token) {
            match self.parse_let() {
                Some(binding) => Some(Statement::Let(binding)),
                None => None,
            }
        } else {
            let got = dup_token(&self.curr_token);
            self.errors.push(ParserError::UnsupportedStatement { got });
            proof {
                assert(self.error_log() =~= old(self).error_log().push(
                    SpecParserError::UnsupportedStatement { got: old(self).curr_token@ },
                ));
            }
            None
        }
    }

    /// Drain the scanner: parse statements until the end of input and
    /// return the completed program, or abandon the parse at the first
    /// failed rule and surrender every accumulated error.
    #[verifier::loop_isolation(false)]
    pub fn parse_program(&mut self) -> (r: Result<Program, Vec<ParserError>>)
        requires
            old(self).wf(),
        ensures
            final(self).wf(),
            match r {
                Ok(program) => spec_parse(old(self).upcoming()) == Ok::<
                    Seq<SpecStatement>,
                    SpecParserError,
                >(program@),
                Err(errs) => spec_parse(old(self).upcoming()) matches Err(e)
                    && errors_view(errs@) == old(self).error_log().push(e),
            },
    {
        let ghost u0 = self.upcoming();
        let ghost log0 = self.error_log();
        let mut statements: Vec<Statement> = Vec::new();
        proof {
            match spec_parse(u0) {
                Ok(stmts) => {
                    assert(statements@.map_values(|s: Statement| s@) + stmts =~= stmts);
                },
                Err(_) => {},
            }
        }
        while !token_is_eof(&self.curr_token)
            invariant
                self.wf(),
                self.error_log() == log0,
                prepend_parsed(
                    statements@.map_values(|s: Statement| s@),
                    spec_parse(self.upcoming()),
                ) == spec_parse(u0),
            decreases self.upcoming().len(),
        {
            let ghost cur = self.upcoming();
            let ghost pre = statements@.map_values(|s: Statement| s@);
            proof {
                self.lemma_window();
                assert(tok_at(cur, 0) == self.curr_token@);
                lemma_semi_end_bounds(cur, 2);
            }
            match self.parse_statement() {
                Some(stmt) => {
                    let ghost parsed = match spec_parse_let(cur) {
                        Ok(p) => p,
                        Err(_) => arbitrary(),
                    };
                    let ghost rest = if parsed.1 < cur.len() {
                        cur.skip(parsed.1 + 1)
                    } else {
                        Seq::<SpecToken>::empty()
                    };
                    proof {
                        assert(spec_parse(cur) == prepend_parsed(seq![parsed.0], spec_parse(rest)));
                        assert(2 <= parsed.1 <= cur.len());
                    }
                    statements.push(stmt);
                    self.next_token();
                    proof {
                        if parsed.1 < cur.len() {
                            assert(cur.skip(parsed.1).len() > 0);
                            assert(self.upcoming() =~= rest);
                        } else {
                            assert(self.upcoming() =~= rest);
                        }
                        assert(statements@.map_values(|s: Statement| s@) =~= pre.push(stmt@));
                        if spec_parse(rest) is Ok {
                            let tail = match spec_parse(rest) {
                                Ok(stmts) => stmts,
                                Err(_) => Seq::empty(),
                            };
                            assert(pre.push(stmt@) + tail =~= pre + (seq![parsed.0] + tail));
                        }
                    }
                },
                None => {
                    proof {
                        assert(spec_parse(cur) is Err);
                        assert(prepend_parsed(pre, spec_parse(cur)) == spec_parse(u0));
                    }
                    let errs = dup_errors(&self.errors);
                    proof {
                        assert(errors_view(errs@) == self.error_log());
                    }
                    return Err(errs);
                },
            }
        }
        proof {
            assert(self.upcoming() =~= Seq::<SpecToken>::empty());
            assert(spec_parse(self.upcoming()) == Ok::<Seq<SpecStatement>, SpecParserError>(
                Seq::empty(),
            ));
            assert(statements@.map_values(|s: Statement| s@) + Seq::<SpecStatement>::empty()
                =~= statements@.map_values(|s: Statement| s@));
        }
        let program = Program { statements };
        proof {
            assert(program@ =~= program.statements@.map_values(|s: Statement| s@));
        }
        Ok(program)
    }
}

/// An equal copy of a parse error.
fn dup_error(e: &ParserError) -> (r: ParserError)
    ensures
        r == *e,
{
    match e {
        ParserError::UnexpectedToken { expected, got } => ParserError::UnexpectedToken {
            expected: dup_token(expected),
            got: dup_token(got),
        },
        ParserError::UnsupportedStatement { got } => ParserError::UnsupportedStatement {
            got: dup_token(got),
        },
    }
}

/// An equal copy of the error list, surrendered to the caller while the
/// parser keeps its own.
fn dup_errors(es: &Vec<ParserError>) -> (r: Vec<ParserError>)
    ensures
        r@ == es@,
{
    let mut r: Vec<ParserError> = Vec::new();
    let mut i: usize = 0;
    while i < es.len()
        invariant
            i <= es.len(),
            r@ == es@.subrange(0, i as int),
        decreases es.len() - i,
    {
        r.push(dup_error(&es[i]));
        proof {
            assert(r@ =~= es@.subrange(0, i as int + 1));
        }
        i = i + 1;
    }
    proof {
        assert(es@.subrange(0, es.len() as int) =~= es@);
    }
    r
}

/// Whether a token is the `let` keyword.
fn token_is_let(t: &Token) -> (r: bool)
    ensures
        r == (t@ is Let),
{
    match t {
        Token::Let => true,
        _ => false,
    }
}

/// Whether the statement rule's skip to the terminating semicolon stops
/// at this token: the semicolon itself, or the end of the input.
fn token_ends_skip(t: &Token) -> (r: bool)
    ensures
        r == (t@ is Semicolon || t@ is EOF),
{
    match t {
        Token::Semicolon => true,
        Token::EOF => true,
        _ => false,
    }
}

/// An empty source parses to the program with zero statements, not an
/// error.
pub proof fn lemma_empty_source()
    ensures
        spec_parse(spec_tokens_from(Seq::empty(), 0)) == Ok::<
            Seq<SpecStatement>,
            SpecParserError,
        >(Seq::empty()),
{
    lemma_eof_idempotent(Seq::empty(), 0);
}

} // verus!
