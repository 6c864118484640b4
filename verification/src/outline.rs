//! The lexer and parser of the language server, which keep where each token and
//! each expression stands in the text.
//!
//! Unlike [`crate::lexer`], this lexer skips comment lines (those whose first
//! character other than white space is `え`), and the parser reads the longest
//! expression at the start and ignores what follows it.

use vstd::prelude::*;
use crate::syntax::{is_katakana, is_whitespace, spec_is_katakana, spec_is_whitespace, spec_starts_with, starts_with};
use crate::lexer::{lex_from, name_end, lemma_name_end, spec_lex, string_of, Token};
use crate::syntax::{is_name_char, Term};
use crate::parser::{abs_at, app_at, app_rest, atom_at, expr_at};
use crate::error::SyntaxError;
use crate::position::{Pos, Span};
use crate::text::{char_debug, char_debug_string, chars_of, push_str, string_from};

verus! {

/// A token with the span that it covers.
pub struct SrcToken {
    pub kind: Token,
    pub span: Span,
}

/// A token kind of the notation.
pub enum TokKind {
    Var(String),
    Lambda,
    Dot,
    Plus,
    LParen,
    RParen,
}

impl View for TokKind {
    type V = Token;

    open spec fn view(&self) -> Token {
        match self {
            TokKind::Var(v) => Token::Var(v@),
            TokKind::Lambda => Token::Lambda,
            TokKind::Dot => Token::Dot,
            TokKind::Plus => Token::Plus,
            TokKind::LParen => Token::LParen,
            TokKind::RParen => Token::RParen,
        }
    }
}

/// A token of the text and its span.
pub struct Tok {
    pub kind: TokKind,
    pub span: Span,
}

impl View for Tok {
    type V = SrcToken;

    open spec fn view(&self) -> SrcToken {
        SrcToken { kind: self.kind@, span: self.span }
    }
}

pub open spec fn src_toks_view(ts: Seq<Tok>) -> Seq<SrcToken> {
    ts.map_values(|t: Tok| t@)
}

/// Why a text has no tokens.
pub enum LexFailure {
    /// `え` after a token on its line.
    InlineComment,
    /// A character that begins no token.
    Unexpected(char),
}

pub open spec fn lex_failure_message(e: LexFailure) -> Seq<char> {
    match e {
        LexFailure::InlineComment => "inline comment"@,
        LexFailure::Unexpected(c) => "unexpected character "@ + char_debug(c),
    }
}

/// The index of the first line break at or after `j`, or the length of `cs`.
pub open spec fn comment_end(cs: Seq<char>, j: int) -> int
    decreases cs.len() - j,
{
    if 0 <= j < cs.len() && cs[j] != '\n' && cs[j] != '\r' {
        comment_end(cs, j + 1)
    } else {
        j
    }
}

pub proof fn lemma_comment_end(cs: Seq<char>, j: int)
    requires
        0 <= j <= cs.len(),
    ensures
        j <= comment_end(cs, j) <= cs.len(),
        forall|k: int| j <= k < comment_end(cs, j) ==> cs[k] != '\n' && cs[k] != '\r',
    decreases cs.len() - j,
{
    if j < cs.len() && cs[j] != '\n' && cs[j] != '\r' {
        lemma_comment_end(cs, j + 1);
    }
}

/// A token of kind `kind` from line `line`, column `col`, `width` columns wide.
pub open spec fn src_token(kind: Token, line: nat, col: nat, width: nat) -> SrcToken {
    SrcToken {
        kind,
        span: Span {
            start: Pos { line: line as usize, character: col as usize },
            end: Pos { line: line as usize, character: (col + width) as usize },
        },
    }
}

pub open spec fn cons_src(t: SrcToken, r: Result<Seq<SrcToken>, LexFailure>) -> Result<
    Seq<SrcToken>,
    LexFailure,
> {
    match r {
        Ok(ts) => Ok(seq![t] + ts),
        Err(e) => Err(e),
    }
}

pub open spec fn prefix_src(p: Seq<SrcToken>, r: Result<Seq<SrcToken>, LexFailure>) -> Result<
    Seq<SrcToken>,
    LexFailure,
> {
    match r {
        Ok(ts) => Ok(p + ts),
        Err(e) => Err(e),
    }
}

/// The tokens of `cs` from index `i` on, where index `i` stands at `line`, `col`,
/// and `bol` says whether only white space precedes it on its line. A line feed
/// starts a new line; every other character takes one column.
pub open spec fn src_lex_from(cs: Seq<char>, i: int, line: nat, col: nat, bol: bool) -> Result<
    Seq<SrcToken>,
    LexFailure,
>
    decreases cs.len() - i,
{
    if i < 0 || i >= cs.len() {
        Ok(seq![])
    } else {
        let c = cs[i];
        if c == 'え' && bol {
            let j = comment_end(cs, i);
            if i < j <= cs.len() {
                src_lex_from(cs, j, line, (col + (j - i)) as nat, bol)
            } else {
                Ok(seq![])
            }
        } else if spec_is_whitespace(c) {
            let bol2 = if c == '\n' || c == '\r' {
                true
            } else {
                bol
            };
            if c == '\n' {
                src_lex_from(cs, i + 1, line + 1, 0, bol2)
            } else {
                src_lex_from(cs, i + 1, line, col + 1, bol2)
            }
        } else if c == 'え' {
            Err(LexFailure::InlineComment)
        } else if c == 'J' {
            cons_src(src_token(Token::Lambda, line, col, 1), src_lex_from(cs, i + 1, line, col + 1, false))
        } else if c == 'ッ' {
            cons_src(src_token(Token::Dot, line, col, 1), src_lex_from(cs, i + 1, line, col + 1, false))
        } else if c == '「' {
            cons_src(src_token(Token::LParen, line, col, 1), src_lex_from(cs, i + 1, line, col + 1, false))
        } else if c == '」' {
            cons_src(src_token(Token::RParen, line, col, 1), src_lex_from(cs, i + 1, line, col + 1, false))
        } else if spec_starts_with(cs, i, seq!['足', 'す']) {
            cons_src(src_token(Token::Plus, line, col, 2), src_lex_from(cs, i + 2, line, col + 2, false))
        } else if spec_is_katakana(c) {
            let j = name_end(cs, i);
            if i < j <= cs.len() {
                let w = (j - i) as nat;
                cons_src(
                    src_token(Token::Var(cs.subrange(i, j)), line, col, w),
                    src_lex_from(cs, j, line, col + w, false),
                )
            } else {
                Ok(seq![])
            }
        } else {
            Err(LexFailure::Unexpected(c))
        }
    }
}

/// The tokens of the text `s`, with their spans.
pub open spec fn spec_src_lex(s: Seq<char>) -> Result<Seq<SrcToken>, LexFailure> {
    src_lex_from(s, 0, 0, 0, true)
}

/// Steps past the character `c` at index `i`: a line feed starts a new line,
/// any other character moves one column on.
fn bump(c: char, i: &mut usize, line: &mut usize, col: &mut usize)
    requires
        *old(i) < usize::MAX,
        *old(line) <= *old(i),
        *old(col) <= *old(i),
    ensures
        *final(i) == *old(i) + 1,
        c == '\n' ==> *final(line) == *old(line) + 1 && *final(col) == 0,
        c != '\n' ==> *final(line) == *old(line) && *final(col) == *old(col) + 1,
{
    *i += 1;
    if c == '\n' {
        *line += 1;
        *col = 0;
    } else {
        *col += 1;
    }
}

fn push_src_token(out: &mut Vec<Tok>, kind: TokKind, line: usize, col: usize, width: usize)
    requires
        col + width <= usize::MAX,
    ensures
        final(out)@.len() == old(out)@.len() + 1,
        src_toks_view(final(out)@) == src_toks_view(old(out)@).push(
            src_token(kind@, line as nat, col as nat, width as nat),
        ),
{
    let ghost k = kind@;
    out.push(
        Tok {
            kind,
            span: Span {
                start: Pos { line, character: col },
                end: Pos { line, character: col + width },
            },
        },
    );
    assert(src_toks_view(out@) =~= src_toks_view(old(out)@).push(
        src_token(k, line as nat, col as nat, width as nat),
    ));
}

/// Splits `input` into tokens with their spans.
#[verifier::rlimit(40)]
pub fn src_lex(input: &str) -> (r: Result<Vec<Tok>, String>)
    ensures
        match spec_src_lex(input@) {
            Ok(ts) => r is Ok && src_toks_view(r->Ok_0@) == ts,
            Err(e) => r is Err && r->Err_0@ == lex_failure_message(e),
        },
{
    let chars = chars_of(input);
    let mut out: Vec<Tok> = Vec::new();
    let mut i: usize = 0;
    let mut line: usize = 0;
    let mut col: usize = 0;
    let mut at_line_start = true;
    proof {
        assert(src_toks_view(out@) =~= Seq::<SrcToken>::empty());
        match spec_src_lex(input@) {
            Ok(ts) => assert(Seq::<SrcToken>::empty() + ts =~= ts),
            Err(_) => {},
        }
    }
    while i < chars.len()
        invariant
            chars@ == input@,
            i <= chars.len(),
            line <= i,
            col <= i,
            spec_src_lex(input@) == prefix_src(
                src_toks_view(out@),
                src_lex_from(chars@, i as int, line as nat, col as nat, at_line_start),
            ),
        decreases chars.len() - i,
    {
        let ghost before = src_toks_view(out@);
        let ghost rest = src_lex_from(chars@, i as int, line as nat, col as nat, at_line_start);
        let c = chars[i];
        if c == 'え' && at_line_start {
            let start = i;
            let col0 = col;
            let line0 = line;
            proof {
                lemma_comment_end(chars@, i as int);
            }
            while i < chars.len() && chars[i] != '\n' && chars[i] != '\r'
                invariant
                    start <= i <= chars.len(),
                    col0 <= start,
                    line <= start,
                    line == line0,
                    col == col0 + (i - start),
                    comment_end(chars@, start as int) == comment_end(chars@, i as int),
                decreases chars.len() - i,
            {
                bump(chars[i], &mut i, &mut line, &mut col);
            }
            assert(rest == src_lex_from(chars@, i as int, line as nat, col as nat, at_line_start));
        } else if is_whitespace(c) {
            if c == '\n' || c == '\r' {
                at_line_start = true;
            }
            bump(c, &mut i, &mut line, &mut col);
            assert(rest == src_lex_from(chars@, i as int, line as nat, col as nat, at_line_start));
        } else if c == 'え' {
            return Err(string_from("inline comment"));
        } else if c == 'J' || c == 'ッ' || c == '「' || c == '」' {
            let kind = if c == 'J' {
                TokKind::Lambda
            } else if c == 'ッ' {
                TokKind::Dot
            } else if c == '「' {
                TokKind::LParen
            } else {
                TokKind::RParen
            };
            let ghost t = src_token(kind@, line as nat, col as nat, 1);
            push_src_token(&mut out, kind, line, col, 1);
            bump(c, &mut i, &mut line, &mut col);
            at_line_start = false;
            proof {
                let tail = src_lex_from(chars@, i as int, line as nat, col as nat, at_line_start);
                assert(rest == cons_src(t, tail));
                match tail {
                    Ok(ts) => assert(before + (seq![t] + ts) =~= before.push(t) + ts),
                    Err(_) => {},
                }
            }
        } else if starts_with(&chars, i, "足す") {
            proof {
                reveal_strlit("足す");
                assert("足す"@ =~= seq!['足', 'す']);
            }
            let ghost t = src_token(Token::Plus, line as nat, col as nat, 2);
            push_src_token(&mut out, TokKind::Plus, line, col, 2);
            bump('足', &mut i, &mut line, &mut col);
            bump('す', &mut i, &mut line, &mut col);
            at_line_start = false;
            proof {
                let tail = src_lex_from(chars@, i as int, line as nat, col as nat, at_line_start);
                assert(rest == cons_src(t, tail));
                match tail {
                    Ok(ts) => assert(before + (seq![t] + ts) =~= before.push(t) + ts),
                    Err(_) => {},
                }
            }
        } else if is_katakana(c) {
            let start = i;
            proof {
                lemma_name_end(chars@, start as int);
            }
            while i < chars.len() && is_katakana(chars[i]) && chars[i] != 'ッ'
                invariant
                    start <= i <= chars.len(),
                    name_end(chars@, start as int) == name_end(chars@, i as int),
                decreases chars.len() - i,
            {
                i += 1;
            }
            let name = string_of(&chars, start, i);
            let ghost t = src_token(
                Token::Var(chars@.subrange(start as int, i as int)),
                line as nat,
                col as nat,
                (i - start) as nat,
            );
            push_src_token(&mut out, TokKind::Var(name), line, col, i - start);
            col += i - start;
            at_line_start = false;
            proof {
                let tail = src_lex_from(chars@, i as int, line as nat, col as nat, at_line_start);
                assert(rest == cons_src(t, tail));
                match tail {
                    Ok(ts) => assert(before + (seq![t] + ts) =~= before.push(t) + ts),
                    Err(_) => {},
                }
            }
        } else {
            let mut msg = string_from("unexpected character ");
            let shown = char_debug_string(c);
            push_str(&mut msg, shown.as_str());
            proof {
                reveal_strlit("足す");
                assert("足す"@ =~= seq!['足', 'す']);
                assert(rest == Err::<Seq<SrcToken>, LexFailure>(LexFailure::Unexpected(c)));
            }
            return Err(msg);
        }
    }
    proof {
        match src_lex_from(chars@, i as int, line as nat, col as nat, at_line_start) {
            Ok(ts) => assert(src_toks_view(out@) + ts =~= src_toks_view(out@)),
            Err(_) => {},
        }
    }
    Ok(out)
}


/// An expression of the text, as a mathematical value, with the spans of its parts.
pub enum Outline {
    Var { name: Seq<char>, span: Span },
    Abs { param: Seq<char>, param_span: Span, body: Box<Outline>, span: Span },
    App { left: Box<Outline>, right: Box<Outline>, span: Span },
}

/// The span of a whole expression.
pub open spec fn outline_span(o: Outline) -> Span {
    match o {
        Outline::Var { span, .. } => span,
        Outline::Abs { span, .. } => span,
        Outline::App { span, .. } => span,
    }
}

/// An expression of the text with the spans of its parts: a variable's span is
/// its name's; a binder's runs from its `J` to the end of its body; an
/// application's runs from the start of its left part to the end of its right part.
pub enum SrcExpr {
    Var { name: String, span: Span },
    Abs { param: String, param_span: Span, body: Box<SrcExpr>, span: Span },
    App { left: Box<SrcExpr>, right: Box<SrcExpr>, span: Span },
}

impl View for SrcExpr {
    type V = Outline;

    open spec fn view(&self) -> Outline
        decreases self,
    {
        match self {
            SrcExpr::Var { name, span } => Outline::Var { name: name@, span: *span },
            SrcExpr::Abs { param, param_span, body, span } => Outline::Abs {
                param: param@,
                param_span: *param_span,
                body: Box::new((**body).view()),
                span: *span,
            },
            SrcExpr::App { left, right, span } => Outline::App {
                left: Box::new((**left).view()),
                right: Box::new((**right).view()),
                span: *span,
            },
        }
    }
}

/// Why the tokens do not begin with an expression.
pub enum OutlineError {
    MissingClose,
    ExpectedExpr,
    ExpectedVar,
    ExpectedDot,
}

pub open spec fn outline_error_message(e: OutlineError) -> Seq<char> {
    match e {
        OutlineError::MissingClose => "expected closing 」"@,
        OutlineError::ExpectedExpr => "expected expression"@,
        OutlineError::ExpectedVar => "expected variable after J"@,
        OutlineError::ExpectedDot => "expected ッ"@,
    }
}

/// The expression that begins at token `pos`, and the index just past it.
pub open spec fn src_expr_at(ts: Seq<SrcToken>, pos: int) -> Result<(Outline, int), OutlineError>
    decreases ts.len() - pos, 4nat,
{
    src_app_at(ts, pos)
}

pub open spec fn src_app_at(ts: Seq<SrcToken>, pos: int) -> Result<(Outline, int), OutlineError>
    decreases ts.len() - pos, 3nat,
{
    match src_atom_at(ts, pos) {
        Ok((lhs, p)) => if pos < p <= ts.len() {
            src_app_rest(ts, lhs, p)
        } else {
            Ok((lhs, p))
        },
        Err(e) => Err(e),
    }
}

/// The application of `lhs` to `rhs`, spanning both.
pub open spec fn outline_app(lhs: Outline, rhs: Outline) -> Outline {
    Outline::App {
        left: Box::new(lhs),
        right: Box::new(rhs),
        span: Span { start: outline_span(lhs).start, end: outline_span(rhs).end },
    }
}

pub open spec fn src_app_rest(ts: Seq<SrcToken>, lhs: Outline, pos: int) -> Result<(Outline, int), OutlineError>
    decreases ts.len() - pos, 0nat,
{
    if 0 <= pos < ts.len() && ts[pos].kind is Plus {
        match src_atom_at(ts, pos + 1) {
            Ok((rhs, p)) => if pos + 1 < p <= ts.len() {
                src_app_rest(ts, outline_app(lhs, rhs), p)
            } else {
                Ok((outline_app(lhs, rhs), p))
            },
            Err(e) => Err(e),
        }
    } else {
        Ok((lhs, pos))
    }
}

pub open spec fn src_atom_at(ts: Seq<SrcToken>, pos: int) -> Result<(Outline, int), OutlineError>
    decreases ts.len() - pos, 2nat,
{
    if 0 <= pos < ts.len() {
        match ts[pos].kind {
            Token::Var(v) => Ok((Outline::Var { name: v, span: ts[pos].span }, pos + 1)),
            Token::Lambda => src_abs_at(ts, pos),
            Token::LParen => match src_expr_at(ts, pos + 1) {
                Ok((e, p)) => if 0 <= p < ts.len() && ts[p].kind is RParen {
                    Ok((e, p + 1))
                } else {
                    Err(OutlineError::MissingClose)
                },
                Err(er) => Err(er),
            },
            _ => Err(OutlineError::ExpectedExpr),
        }
    } else {
        Err(OutlineError::ExpectedExpr)
    }
}

/// The binder whose `J` is token `pos`.
pub open spec fn src_abs_at(ts: Seq<SrcToken>, pos: int) -> Result<(Outline, int), OutlineError>
    decreases ts.len() - pos, 1nat,
{
    if !(0 <= pos && pos + 1 < ts.len() && ts[pos + 1].kind is Var) {
        Err(OutlineError::ExpectedVar)
    } else if !(pos + 2 < ts.len() && ts[pos + 2].kind is Dot) {
        Err(OutlineError::ExpectedDot)
    } else {
        match src_expr_at(ts, pos + 3) {
            Ok((body, p)) => Ok(
                (
                    Outline::Abs {
                        param: ts[pos + 1].kind->Var_0,
                        param_span: ts[pos + 1].span,
                        body: Box::new(body),
                        span: Span { start: ts[pos].span.start, end: outline_span(body).end },
                    },
                    p,
                ),
            ),
            Err(e) => Err(e),
        }
    }
}

pub open spec fn src_parsed_as(
    r: Result<SrcExpr, String>,
    end: usize,
    s: Result<(Outline, int), OutlineError>,
) -> bool {
    match s {
        Ok((e, p)) => r is Ok && r->Ok_0@ == e && end == p,
        Err(er) => r is Err && r->Err_0@ == outline_error_message(er),
    }
}

/// Where `expr` begins.
pub fn expr_start(expr: &SrcExpr) -> (p: Pos)
    ensures
        p == outline_span(expr@).start,
{
    match expr {
        SrcExpr::Var { span, .. } | SrcExpr::Abs { span, .. } | SrcExpr::App { span, .. } => span.start,
    }
}

/// Where `expr` ends.
pub fn expr_end(expr: &SrcExpr) -> (p: Pos)
    ensures
        p == outline_span(expr@).end,
{
    match expr {
        SrcExpr::Var { span, .. } | SrcExpr::Abs { span, .. } | SrcExpr::App { span, .. } => span.end,
    }
}

/// A recursive-descent parser over tokens with spans.
pub struct SrcParser {
    pub tokens: Vec<Tok>,
    pub pos: usize,
}

impl SrcParser {
    pub open spec fn ts(&self) -> Seq<SrcToken> {
        src_toks_view(self.tokens@)
    }

    /// Parses the expression that begins at the current token.
    pub fn parse_expr(&mut self) -> (r: Result<SrcExpr, String>)
        requires
            old(self).pos <= old(self).tokens.len(),
        ensures
            final(self).tokens@ == old(self).tokens@,
            src_parsed_as(r, final(self).pos, src_expr_at(old(self).ts(), old(self).pos as int)),
            r is Ok ==> old(self).pos < final(self).pos <= final(self).tokens.len(),
            old(self).pos <= final(self).pos <= final(self).tokens.len(),
        decreases old(self).tokens.len() - old(self).pos, 4nat,
    {
        self.parse_application()
    }

    fn parse_application(&mut self) -> (r: Result<SrcExpr, String>)
        requires
            old(self).pos <= old(self).tokens.len(),
        ensures
            final(self).tokens@ == old(self).tokens@,
            src_parsed_as(r, final(self).pos, src_app_at(old(self).ts(), old(self).pos as int)),
            r is Ok ==> old(self).pos < final(self).pos <= final(self).tokens.len(),
            old(self).pos <= final(self).pos <= final(self).tokens.len(),
        decreases old(self).tokens.len() - old(self).pos, 3nat,
    {
        let ghost ts = self.ts();
        let ghost start = self.pos as int;
        let mut lhs = match self.parse_atom() {
            Ok(e) => e,
            Err(m) => return Err(m),
        };
        loop
            invariant
                ts == old(self).ts(),
                start == old(self).pos,
                self.tokens@ == old(self).tokens@,
                start < self.pos <= self.tokens.len(),
                src_app_at(ts, start) == src_app_rest(ts, lhs@, self.pos as int),
            decreases self.tokens.len() - self.pos,
        {
            let is_plus = match self.peek() {
                Some(t) => match t.kind {
                    TokKind::Plus => true,
                    _ => false,
                },
                None => false,
            };
            if !is_plus {
                return Ok(lhs);
            }
            self.pos += 1;
            let rhs = match self.parse_atom() {
                Ok(e) => e,
                Err(m) => return Err(m),
            };
            let span = Span { start: expr_start(&lhs), end: expr_end(&rhs) };
            lhs = SrcExpr::App { left: Box::new(lhs), right: Box::new(rhs), span };
        }
    }

    fn parse_atom(&mut self) -> (r: Result<SrcExpr, String>)
        requires
            old(self).pos <= old(self).tokens.len(),
        ensures
            final(self).tokens@ == old(self).tokens@,
            src_parsed_as(r, final(self).pos, src_atom_at(old(self).ts(), old(self).pos as int)),
            r is Ok ==> old(self).pos < final(self).pos <= final(self).tokens.len(),
            old(self).pos <= final(self).pos <= final(self).tokens.len(),
            !(old(self).pos < old(self).tokens.len() && (old(self).ts()[old(self).pos as int].kind is Var
                || old(self).ts()[old(self).pos as int].kind is Lambda || old(self).ts()[old(
                self).pos as int].kind is LParen)) ==> r is Err && final(self).pos == old(self).pos,
        decreases old(self).tokens.len() - old(self).pos, 2nat,
    {
        match self.peek() {
            Some(Tok { kind: TokKind::Var(name), span }) => {
                let name = name.clone();
                let span = *span;
                self.pos += 1;
                Ok(SrcExpr::Var { name, span })
            },
            Some(Tok { kind: TokKind::Lambda, .. }) => self.parse_abs(),
            Some(Tok { kind: TokKind::LParen, .. }) => {
                self.pos += 1;
                let e = match self.parse_expr() {
                    Ok(e) => e,
                    Err(m) => return Err(m),
                };
                let closed = match self.peek() {
                    Some(t) => match t.kind {
                        TokKind::RParen => true,
                        _ => false,
                    },
                    None => false,
                };
                if closed {
                    self.pos += 1;
                    Ok(e)
                } else {
                    Err(string_from("expected closing 」"))
                }
            },
            _ => Err(string_from("expected expression")),
        }
    }

    fn parse_abs(&mut self) -> (r: Result<SrcExpr, String>)
        requires
            old(self).pos < old(self).tokens.len(),
            old(self).ts()[old(self).pos as int].kind is Lambda,
        ensures
            final(self).tokens@ == old(self).tokens@,
            src_parsed_as(r, final(self).pos, src_abs_at(old(self).ts(), old(self).pos as int)),
            r is Ok ==> old(self).pos < final(self).pos <= final(self).tokens.len(),
            old(self).pos <= final(self).pos <= final(self).tokens.len(),
        decreases old(self).tokens.len() - old(self).pos, 1nat,
    {
        let start = self.tokens[self.pos].span.start;
        self.pos += 1;
        let (param, param_span) = match self.peek() {
            Some(Tok { kind: TokKind::Var(name), span }) => {
                let name = name.clone();
                let span = *span;
                self.pos += 1;
                (name, span)
            },
            _ => return Err(string_from("expected variable after J")),
        };
        let dot = match self.peek() {
            Some(t) => match t.kind {
                TokKind::Dot => true,
                _ => false,
            },
            None => false,
        };
        if !dot {
            return Err(string_from("expected ッ"));
        }
        self.pos += 1;
        let body = match self.parse_expr() {
            Ok(e) => e,
            Err(m) => return Err(m),
        };
        let end = expr_end(&body);
        Ok(SrcExpr::Abs { param, param_span, body: Box::new(body), span: Span { start, end } })
    }

    /// The current token, if any is left.
    pub fn peek(&self) -> (r: Option<&Tok>)
        ensures
            self.pos < self.tokens.len() ==> r is Some && *r->Some_0 == self.tokens@[self.pos as int],
            self.pos >= self.tokens.len() ==> r is None,
    {
        if self.pos < self.tokens.len() {
            Some(&self.tokens[self.pos])
        } else {
            None
        }
    }
}


/// The kinds of tokens with spans.
pub open spec fn kinds(ts: Seq<SrcToken>) -> Seq<Token> {
    ts.map_values(|t: SrcToken| t.kind)
}

proof fn lemma_kinds_cons(t: SrcToken, ts: Seq<SrcToken>)
    ensures
        kinds(seq![t] + ts) == seq![t.kind] + kinds(ts),
{
    assert(kinds(seq![t] + ts) =~= seq![t.kind] + kinds(ts));
}

proof fn lemma_lexers_agree_from(cs: Seq<char>, i: int, line: nat, col: nat, bol: bool)
    requires
        forall|k: int| 0 <= k < cs.len() ==> cs[k] != 'え',
    ensures
        (src_lex_from(cs, i, line, col, bol) is Ok) == (lex_from(cs, i) is Ok),
        src_lex_from(cs, i, line, col, bol) is Ok ==> kinds(src_lex_from(cs, i, line, col, bol)->Ok_0)
            == lex_from(cs, i)->Ok_0,
    decreases cs.len() - i,
{
    if 0 <= i < cs.len() {
        let c = cs[i];
        assert(c != 'え');
        if spec_is_whitespace(c) {
            let bol2 = if c == '\n' || c == '\r' { true } else { bol };
            if c == '\n' {
                lemma_lexers_agree_from(cs, i + 1, line + 1, 0, bol2);
            } else {
                lemma_lexers_agree_from(cs, i + 1, line, col + 1, bol2);
            }
        } else if c == 'J' || c == 'ッ' || c == '「' || c == '」' {
            lemma_lexers_agree_from(cs, i + 1, line, col + 1, false);
            if let Ok(ts) = src_lex_from(cs, i + 1, line, col + 1, false) {
                let k = if c == 'J' { Token::Lambda } else if c == 'ッ' { Token::Dot } else if c
                    == '「' { Token::LParen } else { Token::RParen };
                lemma_kinds_cons(src_token(k, line, col, 1), ts);
            }
        } else if spec_starts_with(cs, i, seq!['足', 'す']) {
            lemma_lexers_agree_from(cs, i + 2, line, col + 2, false);
            if let Ok(ts) = src_lex_from(cs, i + 2, line, col + 2, false) {
                lemma_kinds_cons(src_token(Token::Plus, line, col, 2), ts);
            }
        } else if spec_is_katakana(c) {
            assert(is_name_char(c));
            assert(name_end(cs, i) == name_end(cs, i + 1));
            lemma_name_end(cs, i + 1);
            let j = name_end(cs, i);
            let w = (j - i) as nat;
            lemma_lexers_agree_from(cs, j, line, col + w, false);
            if let Ok(ts) = src_lex_from(cs, j, line, col + w, false) {
                lemma_kinds_cons(src_token(Token::Var(cs.subrange(i, j)), line, col, w), ts);
            }
        }
    }
}

/// The language server's lexer and the compiler's lexer agree on a text without
/// comments: one succeeds exactly when the other does, with the same tokens in the
/// same order.
pub proof fn law_lexers_agree(s: Seq<char>)
    requires
        forall|k: int| 0 <= k < s.len() ==> s[k] != 'え',
    ensures
        (spec_src_lex(s) is Ok) == (spec_lex(s) is Ok),
        spec_src_lex(s) is Ok ==> kinds(spec_src_lex(s)->Ok_0) == spec_lex(s)->Ok_0,
{
    lemma_lexers_agree_from(s, 0, 0, 0, true);
}


/// The number of line feeds before index `i` of `cs`.
pub open spec fn newlines_before(cs: Seq<char>, i: int) -> nat
    decreases i,
{
    if i <= 0 {
        0
    } else {
        newlines_before(cs, i - 1) + if cs[i - 1] == '\n' {
            1nat
        } else {
            0nat
        }
    }
}

/// The index just past the last line feed before index `i` of `cs`, or 0.
pub open spec fn line_start(cs: Seq<char>, i: int) -> int
    decreases i,
{
    if i <= 0 {
        0
    } else if cs[i - 1] == '\n' {
        i
    } else {
        line_start(cs, i - 1)
    }
}

/// The position of index `i` of `cs`: the line feeds before it, and the characters
/// since the last of them.
pub open spec fn pos_at(cs: Seq<char>, i: int) -> Pos {
    Pos { line: newlines_before(cs, i) as usize, character: (i - line_start(cs, i)) as usize }
}

/// The text of a token.
pub open spec fn token_text(t: Token) -> Seq<char> {
    match t {
        Token::Var(n) => n,
        Token::Lambda => seq!['J'],
        Token::Dot => seq!['ッ'],
        Token::Plus => seq!['足', 'す'],
        Token::LParen => seq!['「'],
        Token::RParen => seq!['」'],
    }
}

/// The token `t` is the text of `cs` at index `p`, and its span runs on one line
/// from the position of `p` over as many columns as it has characters.
pub open spec fn located(cs: Seq<char>, t: SrcToken, p: int) -> bool {
    let w = token_text(t.kind).len();
    &&& 0 <= p
    &&& p + w <= cs.len()
    &&& cs.subrange(p, p + w) == token_text(t.kind)
    &&& t.span.start == pos_at(cs, p)
    &&& t.span.end == Pos { line: pos_at(cs, p).line, character: (pos_at(cs, p).character + w) as usize }
}

/// The tokens `ts` stand in `cs` at the indices `ps`, from index `i` on, in order and
/// apart: each where its span says, and each ending at or before the next begins.
pub open spec fn placed(cs: Seq<char>, ts: Seq<SrcToken>, ps: Seq<int>, i: int) -> bool {
    &&& ps.len() == ts.len()
    &&& forall|k: int| 0 <= k < ts.len() ==> i <= #[trigger] ps[k] && located(cs, ts[k], ps[k])
    &&& forall|k: int|
        0 <= k < ts.len() - 1 ==> #[trigger] ps[k] + token_text(ts[k].kind).len() <= ps[k + 1]
}

/// The tokens `ts` stand in `cs`, from index `i` on, in order and where their spans say.
pub open spec fn all_located(cs: Seq<char>, ts: Seq<SrcToken>, i: int) -> bool {
    exists|ps: Seq<int>| #[trigger] placed(cs, ts, ps, i)
}

proof fn lemma_all_located_from(cs: Seq<char>, ts: Seq<SrcToken>, i: int, j: int)
    requires
        i <= j,
        all_located(cs, ts, j),
    ensures
        all_located(cs, ts, i),
{
    let ps = choose|ps: Seq<int>| #[trigger] placed(cs, ts, ps, j);
    assert(placed(cs, ts, ps, i));
}

proof fn lemma_all_located_cons(cs: Seq<char>, t: SrcToken, ts: Seq<SrcToken>, i: int, j: int)
    requires
        i + token_text(t.kind).len() <= j,
        located(cs, t, i),
        all_located(cs, ts, j),
    ensures
        all_located(cs, seq![t] + ts, i),
{
    let ps = choose|ps: Seq<int>| #[trigger] placed(cs, ts, ps, j);
    let all = seq![t] + ts;
    let qs = seq![i] + ps;
    assert forall|k: int| 0 <= k < all.len() implies i <= #[trigger] qs[k] && located(
        cs,
        all[k],
        qs[k],
    ) by {
        if k > 0 {
            assert(qs[k] == ps[k - 1]);
            assert(all[k] == ts[k - 1]);
        }
    }
    assert forall|k: int| 0 <= k < all.len() - 1 implies #[trigger] qs[k] + token_text(
        all[k].kind,
    ).len() <= qs[k + 1] by {
        if k == 0 {
            assert(qs[1] == ps[0]);
            assert(j <= ps[0]);
        } else {
            assert(qs[k] == ps[k - 1]);
            assert(qs[k + 1] == ps[k]);
            assert(all[k] == ts[k - 1]);
            assert(ps[k - 1] + token_text(ts[k - 1].kind).len() <= ps[k]);
        }
    }
    assert(placed(cs, all, qs, i));
}

proof fn lemma_pos_bounds(cs: Seq<char>, i: int)
    requires
        0 <= i,
    ensures
        newlines_before(cs, i) <= i,
        0 <= line_start(cs, i) <= i,
    decreases i,
{
    if i > 0 {
        lemma_pos_bounds(cs, i - 1);
    }
}

proof fn lemma_pos_same_line(cs: Seq<char>, p: int, q: int)
    requires
        0 <= p <= q <= cs.len(),
        forall|k: int| p <= k < q ==> cs[k] != '\n',
    ensures
        newlines_before(cs, q) == newlines_before(cs, p),
        line_start(cs, q) == line_start(cs, p),
    decreases q - p,
{
    if p < q {
        lemma_pos_same_line(cs, p, q - 1);
    }
}

proof fn lemma_spans_from(cs: Seq<char>, i: int, line: nat, col: nat, bol: bool)
    requires
        0 <= i <= cs.len(),
        cs.len() < usize::MAX,
        line == newlines_before(cs, i),
        col == i - line_start(cs, i),
    ensures
        src_lex_from(cs, i, line, col, bol) is Ok ==> all_located(
            cs,
            src_lex_from(cs, i, line, col, bol)->Ok_0,
            i,
        ),
    decreases cs.len() - i,
{
    assert(placed(cs, Seq::<SrcToken>::empty(), Seq::<int>::empty(), i));
    lemma_pos_bounds(cs, i);
    if i < cs.len() {
        let c = cs[i];
        lemma_pos_same_line(cs, i, i);
        if c == 'え' && bol {
            let j = comment_end(cs, i);
            lemma_comment_end(cs, i);
            if i < j {
                lemma_pos_same_line(cs, i, j);
                lemma_spans_from(cs, j, line, (col + (j - i)) as nat, bol);
                if let Ok(ts) = src_lex_from(cs, j, line, (col + (j - i)) as nat, bol) {
                    lemma_all_located_from(cs, ts, i, j);
                }
            }
        } else if spec_is_whitespace(c) {
            let bol2 = if c == '\n' || c == '\r' { true } else { bol };
            if c == '\n' {
                lemma_spans_from(cs, i + 1, line + 1, 0, bol2);
                if let Ok(ts) = src_lex_from(cs, i + 1, line + 1, 0, bol2) {
                    lemma_all_located_from(cs, ts, i, i + 1);
                }
            } else {
                lemma_spans_from(cs, i + 1, line, col + 1, bol2);
                if let Ok(ts) = src_lex_from(cs, i + 1, line, col + 1, bol2) {
                    lemma_all_located_from(cs, ts, i, i + 1);
                }
            }
        } else if c == 'え' {
        } else {
            let step: int = if c == 'J' || c == 'ッ' || c == '「' || c == '」' {
                1
            } else if spec_starts_with(cs, i, seq!['足', 'す']) {
                2
            } else if spec_is_katakana(c) {
                name_end(cs, i) - i
            } else {
                0
            };
            if step > 0 {
                let kind = if c == 'J' {
                    Token::Lambda
                } else if c == 'ッ' {
                    Token::Dot
                } else if c == '「' {
                    Token::LParen
                } else if c == '」' {
                    Token::RParen
                } else if spec_starts_with(cs, i, seq!['足', 'す']) {
                    Token::Plus
                } else {
                    Token::Var(cs.subrange(i, name_end(cs, i)))
                };
                if spec_is_katakana(c) && !(c == 'J' || c == 'ッ' || c == '「' || c == '」')
                    && !spec_starts_with(cs, i, seq!['足', 'す']) {
                    lemma_name_end(cs, i);
                    assert(is_name_char(c));
                    assert(name_end(cs, i) == name_end(cs, i + 1));
                    lemma_name_end(cs, i + 1);
                }
                if spec_starts_with(cs, i, seq!['足', 'す']) {
                    assert(cs.subrange(i, i + 2)[1] == cs[i + 1]);
                }
                let j = i + step;
                assert(token_text(kind).len() == step);
                assert(cs.subrange(i, j) =~= token_text(kind));
                assert forall|k: int| i <= k < j implies cs[k] != '\n' by {
                    if k > i {
                        assert(cs.subrange(i, j)[k - i] == cs[k]);
                        assert(token_text(kind)[k - i] != '\n');
                    }
                }
                lemma_pos_same_line(cs, i, j);
                let t = src_token(kind, line, col, step as nat);
                assert(located(cs, t, i));
                lemma_spans_from(cs, j, line, (col + step) as nat, false);
                if let Ok(rest) = src_lex_from(cs, j, line, (col + step) as nat, false) {
                    lemma_all_located_cons(cs, t, rest, i, j);
                }
            }
        }
    }
}

/// The tokens that the language server's lexer finds come in the order of the text,
/// each ending before the next begins, and each stands where its span says: it
/// starts after as many line feeds as its line number and as many characters after
/// the last of them as its column, its text is there, and its span runs on that line
/// over as many columns as the token has characters.
pub proof fn law_token_spans(s: Seq<char>)
    requires
        s.len() < usize::MAX,
    ensures
        spec_src_lex(s) is Ok ==> all_located(s, spec_src_lex(s)->Ok_0, 0),
{
    assert(newlines_before(s, 0) == 0 && line_start(s, 0) == 0);
    lemma_spans_from(s, 0, 0, 0, true);
}


/// `o` without its spans.
pub open spec fn erase(o: Outline) -> Term
    decreases o,
{
    match o {
        Outline::Var { name, .. } => Term::Var(name),
        Outline::Abs { param, body, .. } => Term::Abs(param, Box::new(erase(*body))),
        Outline::App { left, right, .. } => Term::App(Box::new(erase(*left)), Box::new(erase(*right))),
    }
}

/// The spanned parse `r1` and the plain parse `r2` agree: the same expression but
/// for spans, ending at the same token, or both no expression.
pub open spec fn parses_agree(
    r1: Result<(Outline, int), OutlineError>,
    r2: Result<(Term, int), SyntaxError>,
) -> bool {
    match r1 {
        Ok((o, p)) => r2 == Ok::<(Term, int), SyntaxError>((erase(o), p)),
        Err(_) => r2 is Err,
    }
}

proof fn lemma_kinds_index(ts: Seq<SrcToken>)
    ensures
        kinds(ts).len() == ts.len(),
        forall|i: int| 0 <= i < ts.len() ==> #[trigger] kinds(ts)[i] == ts[i].kind,
{
}

proof fn lemma_agree_expr(ts: Seq<SrcToken>, pos: int)
    ensures
        parses_agree(src_expr_at(ts, pos), expr_at(kinds(ts), pos)),
    decreases ts.len() - pos, 4nat,
{
    lemma_agree_app(ts, pos);
}

proof fn lemma_agree_app(ts: Seq<SrcToken>, pos: int)
    ensures
        parses_agree(src_app_at(ts, pos), app_at(kinds(ts), pos)),
    decreases ts.len() - pos, 3nat,
{
    lemma_kinds_index(ts);
    lemma_agree_atom(ts, pos);
    if let Ok((lhs, p)) = src_atom_at(ts, pos) {
        if pos < p <= ts.len() {
            lemma_agree_rest(ts, lhs, p);
        }
    }
}

proof fn lemma_agree_rest(ts: Seq<SrcToken>, lhs: Outline, pos: int)
    ensures
        parses_agree(src_app_rest(ts, lhs, pos), app_rest(kinds(ts), erase(lhs), pos)),
    decreases ts.len() - pos, 0nat,
{
    lemma_kinds_index(ts);
    if 0 <= pos < ts.len() && ts[pos].kind is Plus {
        lemma_agree_atom(ts, pos + 1);
        if let Ok((rhs, p)) = src_atom_at(ts, pos + 1) {
            assert(erase(outline_app(lhs, rhs)) == Term::App(Box::new(erase(lhs)), Box::new(erase(rhs))));
            if pos + 1 < p <= ts.len() {
                lemma_agree_rest(ts, outline_app(lhs, rhs), p);
            }
        }
    }
}

proof fn lemma_agree_atom(ts: Seq<SrcToken>, pos: int)
    ensures
        parses_agree(src_atom_at(ts, pos), atom_at(kinds(ts), pos)),
    decreases ts.len() - pos, 2nat,
{
    lemma_kinds_index(ts);
    if 0 <= pos < ts.len() {
        match ts[pos].kind {
            Token::Lambda => lemma_agree_abs(ts, pos),
            Token::LParen => lemma_agree_expr(ts, pos + 1),
            _ => {},
        }
    }
}

proof fn lemma_agree_abs(ts: Seq<SrcToken>, pos: int)
    requires
        0 <= pos < ts.len(),
        ts[pos].kind is Lambda,
    ensures
        parses_agree(src_abs_at(ts, pos), abs_at(kinds(ts), pos)),
    decreases ts.len() - pos, 1nat,
{
    lemma_kinds_index(ts);
    if pos + 1 < ts.len() && ts[pos + 1].kind is Var && pos + 2 < ts.len() && ts[pos + 2].kind is Dot {
        lemma_agree_expr(ts, pos + 3);
    }
}

/// The language server reads a text without comments as the compiler does: its
/// spanned parse, with the spans left out, is the compiler's parse of the same text,
/// ending at the same token, and where one finds no expression neither does the
/// other. So a binder's body reaches as far right as it can in both.
pub proof fn law_server_parses_as_compiler(s: Seq<char>)
    requires
        forall|k: int| 0 <= k < s.len() ==> s[k] != 'え',
    ensures
        (spec_src_lex(s) is Ok) == (spec_lex(s) is Ok),
        spec_src_lex(s) is Ok ==> parses_agree(
            src_expr_at(spec_src_lex(s)->Ok_0, 0),
            expr_at(spec_lex(s)->Ok_0, 0),
        ),
{
    law_lexers_agree(s);
    if let Ok(ts) = spec_src_lex(s) {
        lemma_agree_expr(ts, 0);
    }
}

} // verus!
