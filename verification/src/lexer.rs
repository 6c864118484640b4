//! The lexer of JordanCalculus: characters to tokens.

use vstd::prelude::*;
use crate::syntax::{is_katakana, is_name_char, is_whitespace, spec_is_katakana, spec_is_whitespace, spec_starts_with, starts_with};
use crate::text::{char_debug_string, chars_of, push_char, push_decimal, push_str};
use crate::error::{error_message, SyntaxError};

verus! {

/// A token, as a mathematical value.
pub enum Token {
    Var(Seq<char>),
    Lambda,
    Dot,
    Plus,
    LParen,
    RParen,
}

/// A token of the notation: a variable name, `J`, `ッ`, `足す`, `「` or `」`.
pub enum Tok {
    Var(String),
    Lambda,
    Dot,
    Plus,
    LParen,
    RParen,
}

impl View for Tok {
    type V = Token;

    open spec fn view(&self) -> Token {
        match self {
            Tok::Var(v) => Token::Var(v@),
            Tok::Lambda => Token::Lambda,
            Tok::Dot => Token::Dot,
            Tok::Plus => Token::Plus,
            Tok::LParen => Token::LParen,
            Tok::RParen => Token::RParen,
        }
    }
}

pub open spec fn toks_view(ts: Seq<Tok>) -> Seq<Token> {
    ts.map_values(|t: Tok| t@)
}

/// The index just past the run of name characters that starts at `j`.
pub open spec fn name_end(cs: Seq<char>, j: int) -> int
    decreases cs.len() - j,
{
    if 0 <= j < cs.len() && is_name_char(cs[j]) {
        name_end(cs, j + 1)
    } else {
        j
    }
}

/// `t` put in front of the tokens of `r`, or the error of `r`.
pub open spec fn cons_token(t: Token, r: Result<Seq<Token>, SyntaxError>) -> Result<
    Seq<Token>,
    SyntaxError,
> {
    match r {
        Ok(ts) => Ok(seq![t] + ts),
        Err(e) => Err(e),
    }
}

/// `prefix` put in front of the tokens of `r`, or the error of `r`.
pub open spec fn prefix_tokens(prefix: Seq<Token>, r: Result<Seq<Token>, SyntaxError>) -> Result<
    Seq<Token>,
    SyntaxError,
> {
    match r {
        Ok(ts) => Ok(prefix + ts),
        Err(e) => Err(e),
    }
}

/// The tokens of `cs` from index `i` on. White space separates tokens; a name is
/// a maximal run of Katakana other than `ッ`; any other character is an error.
pub open spec fn lex_from(cs: Seq<char>, i: int) -> Result<Seq<Token>, SyntaxError>
    decreases cs.len() - i,
{
    if i < 0 || i >= cs.len() {
        Ok(seq![])
    } else {
        let c = cs[i];
        if spec_is_whitespace(c) {
            lex_from(cs, i + 1)
        } else if c == 'J' {
            cons_token(Token::Lambda, lex_from(cs, i + 1))
        } else if c == 'ッ' {
            cons_token(Token::Dot, lex_from(cs, i + 1))
        } else if c == '「' {
            cons_token(Token::LParen, lex_from(cs, i + 1))
        } else if c == '」' {
            cons_token(Token::RParen, lex_from(cs, i + 1))
        } else if spec_starts_with(cs, i, seq!['足', 'す']) {
            cons_token(Token::Plus, lex_from(cs, i + 2))
        } else if spec_is_katakana(c) {
            let j = name_end(cs, i + 1);
            if i < j <= cs.len() {
                cons_token(Token::Var(cs.subrange(i, j)), lex_from(cs, j))
            } else {
                Ok(seq![])
            }
        } else {
            Err(SyntaxError::UnexpectedChar { ch: c, at: i as nat })
        }
    }
}

/// The tokens of the text `s`.
pub open spec fn spec_lex(s: Seq<char>) -> Result<Seq<Token>, SyntaxError> {
    lex_from(s, 0)
}

pub proof fn lemma_name_end(cs: Seq<char>, j: int)
    requires
        0 <= j <= cs.len(),
    ensures
        j <= name_end(cs, j) <= cs.len(),
        forall|k: int| j <= k < name_end(cs, j) ==> is_name_char(#[trigger] cs[k]),
        name_end(cs, j) < cs.len() ==> !is_name_char(cs[name_end(cs, j)]),
    decreases cs.len() - j,
{
    if j < cs.len() && is_name_char(cs[j]) {
        lemma_name_end(cs, j + 1);
    }
}

/// The characters `chars[start..end]` as a string.
pub(crate) fn string_of(chars: &Vec<char>, start: usize, end: usize) -> (r: String)
    requires
        start <= end <= chars.len(),
    ensures
        r@ == chars@.subrange(start as int, end as int),
{
    let mut s = String::new();
    let mut k = start;
    while k < end
        invariant
            start <= k <= end <= chars.len(),
            s@ == chars@.subrange(start as int, k as int),
        decreases end - k,
    {
        push_char(&mut s, chars[k]);
        k += 1;
        assert(s@ =~= chars@.subrange(start as int, k as int));
    }
    s
}

/// Splits `input` into tokens.
pub(crate) fn lex(input: &str) -> (r: Result<Vec<Tok>, String>)
    ensures
        match spec_lex(input@) {
            Ok(ts) => r is Ok && toks_view(r->Ok_0@) == ts,
            Err(e) => r is Err && r->Err_0@ == error_message(e),
        },
{
    let chars = chars_of(input);
    let mut out: Vec<Tok> = Vec::new();
    let mut i: usize = 0;
    proof {
        assert(prefix_tokens(toks_view(out@), lex_from(chars@, 0)) =~= spec_lex(input@)) by {
            assert(toks_view(out@) =~= Seq::<Token>::empty());
            match lex_from(chars@, 0) {
                Ok(ts) => assert(Seq::<Token>::empty() + ts =~= ts),
                Err(_) => {},
            }
        }
    }
    while i < chars.len()
        invariant
            chars@ == input@,
            i <= chars.len(),
            spec_lex(input@) == prefix_tokens(toks_view(out@), lex_from(chars@, i as int)),
        decreases chars.len() - i,
    {
        let ghost before = toks_view(out@);
        let c = chars[i];
        if is_whitespace(c) {
            i += 1;
        } else if c == 'J' || c == 'ッ' || c == '「' || c == '」' {
            let t = if c == 'J' {
                Tok::Lambda
            } else if c == 'ッ' {
                Tok::Dot
            } else if c == '「' {
                Tok::LParen
            } else {
                Tok::RParen
            };
            out.push(t);
            i += 1;
            proof {
                assert(toks_view(out@) =~= before.push(t@));
                match lex_from(chars@, i as int) {
                    Ok(ts) => assert(before + (seq![t@] + ts) =~= before.push(t@) + ts),
                    Err(_) => {},
                }
            }
        } else if starts_with(&chars, i, "足す") {
            proof {
                reveal_strlit("足す");
                assert("足す"@ =~= seq!['足', 'す']);
            }
            out.push(Tok::Plus);
            i += 2;
            proof {
                assert(toks_view(out@) =~= before.push(Token::Plus));
                match lex_from(chars@, i as int) {
                    Ok(ts) => assert(before + (seq![Token::Plus] + ts) =~= before.push(
                        Token::Plus,
                    ) + ts),
                    Err(_) => {},
                }
            }
        } else if is_katakana(c) {
            let start = i;
            i += 1;
            proof {
                lemma_name_end(chars@, start + 1);
            }
            while i < chars.len() && is_katakana(chars[i]) && chars[i] != 'ッ'
                invariant
                    start < i <= chars.len(),
                    name_end(chars@, start + 1) == name_end(chars@, i as int),
                decreases chars.len() - i,
            {
                i += 1;
            }
            let name = string_of(&chars, start, i);
            let ghost t = Token::Var(chars@.subrange(start as int, i as int));
            out.push(Tok::Var(name));
            proof {
                assert(toks_view(out@) =~= before.push(t));
                match lex_from(chars@, i as int) {
                    Ok(ts) => assert(before + (seq![t] + ts) =~= before.push(t) + ts),
                    Err(_) => {},
                }
            }
        } else {
            let mut msg = String::new();
            push_str(&mut msg, "unexpected character ");
            let shown = char_debug_string(c);
            push_str(&mut msg, shown.as_str());
            push_str(&mut msg, " at character ");
            push_decimal(&mut msg, i);
            proof {
                reveal_strlit("足す");
                assert("足す"@ =~= seq!['足', 'す']);
                let e = SyntaxError::UnexpectedChar { ch: c, at: i as nat };
                assert(lex_from(chars@, i as int) == Err::<Seq<Token>, SyntaxError>(e));
                assert(msg@ =~= error_message(e));
            }
            return Err(msg);
        }
    }
    proof {
        match lex_from(chars@, i as int) {
            Ok(ts) => assert(toks_view(out@) + ts =~= toks_view(out@)),
            Err(_) => {},
        }
    }
    Ok(out)
}


/// A character that can stand in some token or separate tokens: white space, `J`,
/// `「`, `」`, Katakana (with `ッ`), and the two characters of `足す`.
pub open spec fn token_char(c: char) -> bool {
    spec_is_whitespace(c) || c == 'J' || c == '「' || c == '」' || spec_is_katakana(c) || c == '足'
        || c == 'す'
}

/// A token, or white space, begins at index `i` of `cs`.
pub open spec fn begins_token(cs: Seq<char>, i: int) -> bool {
    let c = cs[i];
    spec_is_whitespace(c) || c == 'J' || c == '「' || c == '」' || spec_is_katakana(c)
        || spec_starts_with(cs, i, seq!['足', 'す'])
}

proof fn lemma_lex_error_from(cs: Seq<char>, i: int)
    requires
        0 <= i,
    ensures
        lex_from(cs, i) is Err ==> (lex_from(cs, i)->Err_0 matches SyntaxError::UnexpectedChar {
            ch,
            at,
        } && i <= at < cs.len() && cs[at as int] == ch && !begins_token(cs, at as int) && forall|
            j: int,
        | i <= j < at ==> token_char(#[trigger] cs[j])),
        (exists|j: int| i <= j < cs.len() && !token_char(#[trigger] cs[j])) ==> lex_from(cs, i) is Err,
    decreases cs.len() - i,
{
    if i < cs.len() {
        let c = cs[i];
        if spec_is_whitespace(c) || c == 'J' || c == 'ッ' || c == '「' || c == '」' {
            lemma_lex_error_from(cs, i + 1);
            if exists|j: int| i <= j < cs.len() && !token_char(#[trigger] cs[j]) {
                let j = choose|j: int| i <= j < cs.len() && !token_char(#[trigger] cs[j]);
                assert(j != i);
            }
        } else if spec_starts_with(cs, i, seq!['足', 'す']) {
            assert(cs.subrange(i, i + 2)[0] == cs[i]);
            assert(cs.subrange(i, i + 2)[1] == cs[i + 1]);
            lemma_lex_error_from(cs, i + 2);
            if exists|j: int| i <= j < cs.len() && !token_char(#[trigger] cs[j]) {
                let j = choose|j: int| i <= j < cs.len() && !token_char(#[trigger] cs[j]);
                assert(j != i && j != i + 1);
            }
        } else if spec_is_katakana(c) {
            lemma_name_end(cs, i + 1);
            let ne = name_end(cs, i + 1);
            lemma_lex_error_from(cs, ne);
            if lex_from(cs, i) is Err {
                assert forall|j: int| i <= j < ne implies token_char(#[trigger] cs[j]) by {
                    if j > i {
                        assert(is_name_char(cs[j]));
                    }
                }
            }
            if exists|j: int| i <= j < cs.len() && !token_char(#[trigger] cs[j]) {
                let j = choose|j: int| i <= j < cs.len() && !token_char(#[trigger] cs[j]);
                if j < ne {
                    if j > i {
                        assert(is_name_char(cs[j]));
                    }
                }
                assert(ne <= j);
            }
        } else {
            assert(!spec_starts_with(cs, i, seq!['足', 'す']));
        }
    }
}

/// The lexer reports the first character that begins no token, with its index:
/// every character before it can stand in a token, and a text with a character
/// that can stand in none is refused.
pub proof fn law_lex_error_is_first_rejected(s: Seq<char>)
    ensures
        spec_lex(s) is Err ==> (spec_lex(s)->Err_0 matches SyntaxError::UnexpectedChar { ch, at }
            && at < s.len() && s[at as int] == ch && !begins_token(s, at as int) && forall|j: int|
            0 <= j < at ==> token_char(#[trigger] s[j])),
        (exists|j: int| 0 <= j < s.len() && !token_char(#[trigger] s[j])) ==> spec_lex(s) is Err,
{
    lemma_lex_error_from(s, 0);
}

} // verus!
