//! What goes wrong in reading a program, and the messages that say so.

use vstd::prelude::*;
use crate::lexer::{Tok, Token};
use crate::text::{char_debug, decimal, push_str};

verus! {

/// A reason why a text is not an expression.
pub enum SyntaxError {
    /// A character that begins no token, at a character index.
    UnexpectedChar { ch: char, at: nat },
    /// A token left over after a whole expression, at a token index.
    UnexpectedToken { token: Token, at: nat },
    /// A `「` without its `」`.
    MissingClose,
    /// No expression where one must begin, at a token index.
    ExpectedExpr { at: nat, got: Option<Token> },
    /// No variable after `J`.
    ExpectedName { got: Option<Token> },
    /// Not the token that must come here, at a token index.
    Expected { token: Token, at: nat },
}

/// The `Debug` rendering of a token.
pub open spec fn token_debug(t: Token) -> Seq<char> {
    match t {
        Token::Var(n) => "Var(\""@ + n + "\")"@,
        Token::Lambda => "Lambda"@,
        Token::Dot => "Dot"@,
        Token::Plus => "Plus"@,
        Token::LParen => "LParen"@,
        Token::RParen => "RParen"@,
    }
}

/// The `Debug` rendering of a token that may be missing.
pub open spec fn opt_token_debug(t: Option<Token>) -> Seq<char> {
    match t {
        Some(t) => "Some("@ + token_debug(t) + ")"@,
        None => "None"@,
    }
}

/// The message that reports `e`.
pub open spec fn error_message(e: SyntaxError) -> Seq<char> {
    match e {
        SyntaxError::UnexpectedChar { ch, at } => "unexpected character "@ + char_debug(ch)
            + " at character "@ + decimal(at),
        SyntaxError::UnexpectedToken { token, at } => "unexpected token "@ + token_debug(token)
            + " at token "@ + decimal(at),
        SyntaxError::MissingClose => "expected closing 」"@,
        SyntaxError::ExpectedExpr { at, got } => "expected expression at token "@ + decimal(at)
            + ", got "@ + opt_token_debug(got),
        SyntaxError::ExpectedName { got } => "expected Katakana variable after J, got "@
            + opt_token_debug(got),
        SyntaxError::Expected { token, at } => "expected "@ + token_debug(token) + " at token "@
            + decimal(at),
    }
}

/// Appends the `Debug` rendering of `t` to `out`.
pub(crate) fn push_token_debug(out: &mut String, t: &Tok)
    ensures
        final(out)@ == old(out)@ + token_debug(t@),
{
    match t {
        Tok::Var(n) => {
            push_str(out, "Var(\"");
            push_str(out, n.as_str());
            push_str(out, "\")");
            assert(final(out)@ =~= old(out)@ + token_debug(t@));
        },
        Tok::Lambda => push_str(out, "Lambda"),
        Tok::Dot => push_str(out, "Dot"),
        Tok::Plus => push_str(out, "Plus"),
        Tok::LParen => push_str(out, "LParen"),
        Tok::RParen => push_str(out, "RParen"),
    }
}

/// Appends the `Debug` rendering of `t` to `out`.
pub(crate) fn push_opt_token_debug(out: &mut String, t: Option<&Tok>)
    ensures
        final(out)@ == old(out)@ + opt_token_debug(
            match t {
                Some(t) => Some(t@),
                None => None,
            },
        ),
{
    match t {
        Some(t) => {
            push_str(out, "Some(");
            push_token_debug(out, t);
            push_str(out, ")");
            assert(final(out)@ =~= old(out)@ + opt_token_debug(Some(t@)));
        },
        None => push_str(out, "None"),
    }
}

} // verus!
