//! The parser of JordanCalculus: tokens to expressions.
//!
//! The grammar, with application binding to the left and a binder's body
//! reaching as far right as it can:
//!
//! ```text
//! expression  ::= atom (足す atom)*
//! atom        ::= variable | J variable ッ expression | 「 expression 」
//! ```

use vstd::prelude::*;
use crate::syntax::{Expr, Term};
use crate::lexer::{lex, spec_lex, toks_view, Tok, Token};
use crate::error::{error_message, push_opt_token_debug, push_token_debug, SyntaxError};
use crate::text::{push_decimal, push_str, string_from};

verus! {

/// An expression that begins at token `pos`: its value and the index just past it.
pub open spec fn expr_at(ts: Seq<Token>, pos: int) -> Result<(Term, int), SyntaxError>
    decreases ts.len() - pos, 4nat,
{
    app_at(ts, pos)
}

/// A chain of applications `atom 足す atom 足す ...` that begins at token `pos`,
/// grouped to the left.
pub open spec fn app_at(ts: Seq<Token>, pos: int) -> Result<(Term, int), SyntaxError>
    decreases ts.len() - pos, 3nat,
{
    match atom_at(ts, pos) {
        Ok((lhs, p)) => if pos < p <= ts.len() {
            app_rest(ts, lhs, p)
        } else {
            Ok((lhs, p))
        },
        Err(e) => Err(e),
    }
}

/// The rest `足す atom 足す atom ...` of a chain of applications whose
/// left part `lhs` ends before token `pos`.
pub open spec fn app_rest(ts: Seq<Token>, lhs: Term, pos: int) -> Result<(Term, int), SyntaxError>
    decreases ts.len() - pos, 0nat,
{
    if 0 <= pos < ts.len() && ts[pos] is Plus {
        match atom_at(ts, pos + 1) {
            Ok((rhs, p)) => {
                let app = Term::App(Box::new(lhs), Box::new(rhs));
                if pos + 1 < p <= ts.len() {
                    app_rest(ts, app, p)
                } else {
                    Ok((app, p))
                }
            },
            Err(e) => Err(e),
        }
    } else {
        Ok((lhs, pos))
    }
}

/// The token at `pos`, where there is one.
pub open spec fn token_at(ts: Seq<Token>, pos: int) -> Option<Token> {
    if 0 <= pos < ts.len() {
        Some(ts[pos])
    } else {
        None
    }
}

/// A variable, a binder or a bracketed expression that begins at token `pos`.
pub open spec fn atom_at(ts: Seq<Token>, pos: int) -> Result<(Term, int), SyntaxError>
    decreases ts.len() - pos, 2nat,
{
    if 0 <= pos < ts.len() {
        match ts[pos] {
            Token::Var(v) => Ok((Term::Var(v), pos + 1)),
            Token::Lambda => abs_at(ts, pos),
            Token::LParen => match expr_at(ts, pos + 1) {
                Ok((e, p)) => if 0 <= p < ts.len() && ts[p] is RParen {
                    Ok((e, p + 1))
                } else {
                    Err(SyntaxError::MissingClose)
                },
                Err(er) => Err(er),
            },
            t => Err(SyntaxError::ExpectedExpr { at: pos as nat, got: Some(t) }),
        }
    } else {
        Err(SyntaxError::ExpectedExpr { at: pos as nat, got: None })
    }
}

/// A binder `J variable ッ expression` that begins at token `pos`.
pub open spec fn abs_at(ts: Seq<Token>, pos: int) -> Result<(Term, int), SyntaxError>
    decreases ts.len() - pos, 1nat,
{
    if !(0 <= pos < ts.len() && ts[pos] is Lambda) {
        Err(SyntaxError::Expected { token: Token::Lambda, at: pos as nat })
    } else if !(pos + 1 < ts.len() && ts[pos + 1] is Var) {
        Err(SyntaxError::ExpectedName { got: token_at(ts, pos + 1) })
    } else if !(pos + 2 < ts.len() && ts[pos + 2] is Dot) {
        Err(SyntaxError::Expected { token: Token::Dot, at: (pos + 2) as nat })
    } else {
        match expr_at(ts, pos + 3) {
            Ok((body, p)) => Ok((Term::Abs(ts[pos + 1]->Var_0, Box::new(body)), p)),
            Err(e) => Err(e),
        }
    }
}

/// The expression that the text `s` holds, or why it holds none: the whole of its
/// tokens must make one expression.
pub open spec fn spec_parse(s: Seq<char>) -> Result<Term, SyntaxError> {
    match spec_lex(s) {
        Ok(ts) => match expr_at(ts, 0) {
            Ok((e, p)) => if p >= ts.len() {
                Ok(e)
            } else {
                Err(SyntaxError::UnexpectedToken { token: ts[p], at: p as nat })
            },
            Err(er) => Err(er),
        },
        Err(er) => Err(er),
    }
}

/// The executable outcome `r`, with the parser left at `end`, is the outcome `s`
/// of the grammar.
pub open spec fn parsed_as(r: Result<Expr, String>, end: usize, s: Result<(Term, int), SyntaxError>) -> bool {
    match s {
        Ok((e, p)) => r is Ok && r->Ok_0@ == e && end == p,
        Err(er) => r is Err && r->Err_0@ == error_message(er),
    }
}

pub(crate) fn same_token(a: &Tok, b: &Tok) -> (r: bool)
    ensures
        r == (a@ == b@),
{
    match (a, b) {
        (Tok::Var(x), Tok::Var(y)) => x.eq(y),
        (Tok::Lambda, Tok::Lambda) => true,
        (Tok::Dot, Tok::Dot) => true,
        (Tok::Plus, Tok::Plus) => true,
        (Tok::LParen, Tok::LParen) => true,
        (Tok::RParen, Tok::RParen) => true,
        _ => false,
    }
}

/// A recursive-descent parser over a token sequence.
pub(crate) struct Parser {
    pub(crate) tokens: Vec<Tok>,
    pub(crate) pos: usize,
}

impl Parser {
    pub(crate) open spec fn ts(&self) -> Seq<Token> {
        toks_view(self.tokens@)
    }

    fn parse_expr(&mut self) -> (r: Result<Expr, String>)
        requires
            old(self).pos <= old(self).tokens.len(),
        ensures
            final(self).tokens@ == old(self).tokens@,
            parsed_as(r, final(self).pos, expr_at(old(self).ts(), old(self).pos as int)),
            r is Ok ==> old(self).pos < final(self).pos <= final(self).tokens.len(),
            old(self).pos <= final(self).pos <= final(self).tokens.len(),
        decreases old(self).tokens.len() - old(self).pos, 4nat,
    {
        self.parse_application()
    }

    fn parse_application(&mut self) -> (r: Result<Expr, String>)
        requires
            old(self).pos <= old(self).tokens.len(),
        ensures
            final(self).tokens@ == old(self).tokens@,
            parsed_as(r, final(self).pos, app_at(old(self).ts(), old(self).pos as int)),
            r is Ok ==> old(self).pos < final(self).pos <= final(self).tokens.len(),
            old(self).pos <= final(self).pos <= final(self).tokens.len(),
        decreases old(self).tokens.len() - old(self).pos, 3nat,
    {
        let ghost ts = self.ts();
        let ghost start = self.pos as int;
        let mut lhs = match self.parse_atom() {
            Ok(e) => e,
            Err(m) => return Err(m),
        };
        loop
            invariant
                ts == old(self).ts(),
                start == old(self).pos,
                self.tokens@ == old(self).tokens@,
                start < self.pos <= self.tokens.len(),
                app_at(ts, start) == app_rest(ts, lhs@, self.pos as int),
            decreases self.tokens.len() - self.pos,
        {
            let ghost before = self.pos as int;
            if !self.eat(&Tok::Plus) {
                return Ok(lhs);
            }
            let rhs = match self.parse_atom() {
                Ok(e) => e,
                Err(m) => return Err(m),
            };
            lhs = Expr::App(Box::new(lhs), Box::new(rhs));
        }
    }

    fn parse_atom(&mut self) -> (r: Result<Expr, String>)
        requires
            old(self).pos <= old(self).tokens.len(),
        ensures
            final(self).tokens@ == old(self).tokens@,
            parsed_as(r, final(self).pos, atom_at(old(self).ts(), old(self).pos as int)),
            r is Ok ==> old(self).pos < final(self).pos <= final(self).tokens.len(),
            old(self).pos <= final(self).pos <= final(self).tokens.len(),
            !(old(self).pos < old(self).tokens.len() && (old(self).ts()[old(self).pos as int] is Var
                || old(self).ts()[old(self).pos as int] is Lambda || old(self).ts()[old(
                self).pos as int] is LParen)) ==> r is Err && final(self).pos == old(self).pos,
        decreases old(self).tokens.len() - old(self).pos, 2nat,
    {
        let ghost ts = self.ts();
        match self.peek() {
            Some(Tok::Var(v)) => {
                let v = v.clone();
                self.pos += 1;
                Ok(Expr::Var(v))
            },
            Some(Tok::Lambda) => self.parse_abs(),
            Some(Tok::LParen) => {
                self.pos += 1;
                let e = match self.parse_expr() {
                    Ok(e) => e,
                    Err(m) => return Err(m),
                };
                if !self.eat(&Tok::RParen) {
                    return Err(string_from("expected closing 」"));
                }
                Ok(e)
            },
            other => {
                let mut msg = string_from("expected expression at token ");
                push_decimal(&mut msg, self.pos);
                push_str(&mut msg, ", got ");
                push_opt_token_debug(&mut msg, other);
                Err(msg)
            },
        }
    }

    fn parse_abs(&mut self) -> (r: Result<Expr, String>)
        requires
            old(self).pos <= old(self).tokens.len(),
        ensures
            final(self).tokens@ == old(self).tokens@,
            parsed_as(r, final(self).pos, abs_at(old(self).ts(), old(self).pos as int)),
            r is Ok ==> old(self).pos < final(self).pos <= final(self).tokens.len(),
            old(self).pos <= final(self).pos <= final(self).tokens.len(),
        decreases old(self).tokens.len() - old(self).pos, 1nat,
    {
        match self.expect(&Tok::Lambda) {
            Ok(()) => {},
            Err(m) => return Err(m),
        }
        let param = match self.peek() {
            Some(Tok::Var(v)) => {
                let v = v.clone();
                self.pos += 1;
                v
            },
            other => {
                let mut msg = string_from("expected Katakana variable after J, got ");
                push_opt_token_debug(&mut msg, other);
                return Err(msg);
            },
        };
        match self.expect(&Tok::Dot) {
            Ok(()) => {},
            Err(m) => return Err(m),
        }
        let body = match self.parse_expr() {
            Ok(e) => e,
            Err(m) => return Err(m),
        };
        Ok(Expr::Abs { param, body: Box::new(body) })
    }

    fn peek(&self) -> (r: Option<&Tok>)
        ensures
            self.pos < self.tokens.len() ==> r is Some && *r->Some_0 == self.tokens@[self.pos as int],
            self.pos >= self.tokens.len() ==> r is None,
    {
        if self.pos < self.tokens.len() {
            Some(&self.tokens[self.pos])
        } else {
            None
        }
    }

    fn eat(&mut self, tok: &Tok) -> (r: bool)
        ensures
            final(self).tokens@ == old(self).tokens@,
            r == (old(self).pos < old(self).tokens.len() && old(self).ts()[old(self).pos as int]
                == tok@),
            final(self).pos == if r {
                old(self).pos + 1
            } else {
                old(self).pos as int
            },
    {
        let hit = match self.peek() {
            Some(t) => same_token(t, tok),
            None => false,
        };
        if hit {
            self.pos += 1;
        }
        hit
    }

    fn expect(&mut self, tok: &Tok) -> (r: Result<(), String>)
        ensures
            final(self).tokens@ == old(self).tokens@,
            r is Ok == (old(self).pos < old(self).tokens.len() && old(self).ts()[old(self).pos as int]
                == tok@),
            r is Ok ==> final(self).pos == old(self).pos + 1,
            r is Err ==> final(self).pos == old(self).pos,
            r is Err ==> r->Err_0@ == error_message(
                SyntaxError::Expected { token: tok@, at: old(self).pos as nat },
            ),
    {
        let at = self.pos;
        if self.eat(tok) {
            Ok(())
        } else {
            let mut msg = string_from("expected ");
            push_token_debug(&mut msg, tok);
            push_str(&mut msg, " at token ");
            push_decimal(&mut msg, at);
            Err(msg)
        }
    }
}

/// Parses a JordanCalculus expression.
pub fn parse(input: &str) -> (r: Result<Expr, String>)
    ensures
        match spec_parse(input@) {
            Ok(e) => r is Ok && r->Ok_0@ == e,
            Err(er) => r is Err && r->Err_0@ == error_message(er),
        },
{
    let tokens = match lex(input) {
        Ok(t) => t,
        Err(m) => return Err(m),
    };
    let mut p = Parser { tokens, pos: 0 };
    let expr = match p.parse_expr() {
        Ok(e) => e,
        Err(m) => return Err(m),
    };
    if p.pos != p.tokens.len() {
        let mut msg = string_from("unexpected token ");
        push_token_debug(&mut msg, &p.tokens[p.pos]);
        push_str(&mut msg, " at token ");
        push_decimal(&mut msg, p.pos);
        return Err(msg);
    }
    Ok(expr)
}

} // verus!
