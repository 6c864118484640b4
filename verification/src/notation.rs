//! The notation of expressions: how an expression is written, and the law that
//! parsing what is written gives the expression back.

use vstd::prelude::*;
use crate::syntax::{is_name_char, spec_is_katakana, spec_is_whitespace, spec_starts_with, Term};
use crate::lexer::{lex_from, name_end, prefix_tokens, spec_lex, Token};
use crate::parser::{abs_at, app_at, app_rest, atom_at, expr_at, spec_parse};
use crate::error::SyntaxError;

verus! {

/// `v` is a variable name: one or more Katakana other than `ッ`.
pub open spec fn is_name(v: Seq<char>) -> bool {
    v.len() > 0 && forall|k: int| 0 <= k < v.len() ==> is_name_char(#[trigger] v[k])
}

/// Every name in `e` is a variable name.
pub open spec fn well_named(e: Term) -> bool
    decreases e,
{
    match e {
        Term::Var(v) => is_name(v),
        Term::Abs(p, b) => is_name(p) && well_named(*b),
        Term::App(a, b) => well_named(*a) && well_named(*b),
    }
}

/// How `e` is written: `J variable ッ body` for a binder, `operand 足す operand`
/// for an application.
pub open spec fn show(e: Term) -> Seq<char>
    decreases e, 0nat,
{
    match e {
        Term::Var(v) => v,
        Term::Abs(p, b) => seq!['J'] + p + seq!['ッ'] + show(*b),
        Term::App(a, b) => show_operand(*a) + seq!['足', 'す'] + show_operand(*b),
    }
}

/// How `e` is written as a side of an application: a variable as it is, anything
/// else between `「` and `」`.
pub open spec fn show_operand(e: Term) -> Seq<char>
    decreases e, 1nat,
{
    match e {
        Term::Var(v) => v,
        _ => seq!['「'] + show(e) + seq!['」'],
    }
}

/// The tokens of what [`show`] writes.
pub open spec fn show_tokens(e: Term) -> Seq<Token>
    decreases e, 0nat,
{
    match e {
        Term::Var(v) => seq![Token::Var(v)],
        Term::Abs(p, b) => seq![Token::Lambda, Token::Var(p), Token::Dot] + show_tokens(*b),
        Term::App(a, b) => operand_tokens(*a) + seq![Token::Plus] + operand_tokens(*b),
    }
}

/// The tokens of what [`show_operand`] writes.
pub open spec fn operand_tokens(e: Term) -> Seq<Token>
    decreases e, 1nat,
{
    match e {
        Term::Var(v) => seq![Token::Var(v)],
        _ => seq![Token::LParen] + show_tokens(e) + seq![Token::RParen],
    }
}

/// The token at `k` does not continue an expression.
pub open spec fn ends_expr(s: Seq<Token>, k: int) -> bool {
    k == s.len() || !(s[k] is Plus)
}

proof fn lemma_parse_expr(e: Term, s: Seq<Token>, pos: int)
    requires
        0 <= pos,
        pos + show_tokens(e).len() <= s.len(),
        s.subrange(pos, pos + show_tokens(e).len()) == show_tokens(e),
        ends_expr(s, pos + show_tokens(e).len()),
    ensures
        expr_at(s, pos) == Ok::<(Term, int), crate::error::SyntaxError>((e, pos + show_tokens(e).len())),
    decreases e, 0nat,
{
    let n = show_tokens(e).len();
    let w = s.subrange(pos, pos + n);
    match e {
        Term::Var(v) => {
            assert(w[0] == s[pos]);
            assert(atom_at(s, pos) == Ok::<(Term, int), crate::error::SyntaxError>((e, pos + 1)));
        },
        Term::Abs(p, b) => {
            let tb = show_tokens(*b);
            assert(w[0] == s[pos]);
            assert(w[1] == s[pos + 1]);
            assert(w[2] == s[pos + 2]);
            assert(s.subrange(pos + 3, pos + 3 + tb.len()) =~= w.subrange(3, n as int));
            assert(w.subrange(3, n as int) =~= tb);
            lemma_parse_expr(*b, s, pos + 3);
            assert(abs_at(s, pos) == Ok::<(Term, int), crate::error::SyntaxError>((e, pos + n)));
            assert(atom_at(s, pos) == Ok::<(Term, int), crate::error::SyntaxError>((e, pos + n)));
        },
        Term::App(a, b) => {
            let ta = operand_tokens(*a);
            let tb = operand_tokens(*b);
            let p1 = pos + ta.len();
            assert(s.subrange(pos, p1) =~= w.subrange(0, ta.len() as int));
            assert(w.subrange(0, ta.len() as int) =~= ta);
            assert(w[ta.len() as int] == s[p1]);
            assert(s.subrange(p1 + 1, p1 + 1 + tb.len()) =~= w.subrange(ta.len() + 1int, n as int));
            assert(w.subrange(ta.len() + 1int, n as int) =~= tb);
            lemma_parse_operand(*a, s, pos);
            lemma_parse_operand(*b, s, p1 + 1);
            let ab = Term::App(Box::new(*a), Box::new(*b));
            assert(app_rest(s, ab, pos + n) == Ok::<(Term, int), crate::error::SyntaxError>((ab, pos + n)));
            assert(app_rest(s, *a, p1) == app_rest(s, ab, pos + n));
        },
    }
}

proof fn lemma_parse_operand(e: Term, s: Seq<Token>, pos: int)
    requires
        0 <= pos,
        pos + operand_tokens(e).len() <= s.len(),
        s.subrange(pos, pos + operand_tokens(e).len()) == operand_tokens(e),
    ensures
        atom_at(s, pos) == Ok::<(Term, int), crate::error::SyntaxError>((e, pos + operand_tokens(e).len())),
    decreases e, 1nat,
{
    let n = operand_tokens(e).len();
    let w = s.subrange(pos, pos + n);
    assert(w[0] == s[pos]);
    match e {
        Term::Var(v) => {},
        _ => {
            let te = show_tokens(e);
            assert(s.subrange(pos + 1, pos + 1 + te.len()) =~= w.subrange(1, n - 1));
            assert(w.subrange(1, n - 1) =~= te);
            assert(w[n - 1] == s[pos + n - 1]);
            lemma_parse_expr(e, s, pos + 1);
        },
    }
}


proof fn lemma_prefix_concat(a: Seq<Token>, b: Seq<Token>, r: Result<Seq<Token>, crate::error::SyntaxError>)
    ensures
        prefix_tokens(a + b, r) == prefix_tokens(a, prefix_tokens(b, r)),
{
    match r {
        Ok(ts) => assert(a + b + ts =~= a + (b + ts)),
        Err(_) => {},
    }
}

/// A name character is none of the other characters of the notation.
proof fn lemma_name_char_is_plain(c: char)
    requires
        is_name_char(c),
    ensures
        !spec_is_whitespace(c),
        c != 'J',
        c != 'ッ',
        c != '「',
        c != '」',
        c != '足',
        spec_is_katakana(c),
{
}

proof fn lemma_name_end_at(cs: Seq<char>, j: int, end: int)
    requires
        0 <= j <= end <= cs.len(),
        forall|k: int| j <= k < end ==> is_name_char(#[trigger] cs[k]),
        end == cs.len() || !is_name_char(cs[end]),
    ensures
        name_end(cs, j) == end,
    decreases end - j,
{
    if j < end {
        lemma_name_end_at(cs, j + 1, end);
    }
}

/// The follow condition: what comes after index `k` does not continue a name.
pub open spec fn ends_name(cs: Seq<char>, k: int) -> bool {
    k == cs.len() || !is_name_char(cs[k])
}

proof fn lemma_lex_name(v: Seq<char>, cs: Seq<char>, i: int)
    requires
        is_name(v),
        0 <= i,
        i + v.len() <= cs.len(),
        cs.subrange(i, i + v.len()) == v,
        ends_name(cs, i + v.len()),
    ensures
        lex_from(cs, i) == prefix_tokens(seq![Token::Var(v)], lex_from(cs, i + v.len())),
{
    assert(cs.subrange(i, i + v.len())[0] == cs[i]);
    lemma_name_char_is_plain(cs[i]);
    assert forall|k: int| i + 1 <= k < i + v.len() implies is_name_char(#[trigger] cs[k]) by {
        assert(cs.subrange(i, i + v.len())[k - i] == cs[k]);
    }
    lemma_name_end_at(cs, i + 1, i + v.len());
    assert(!spec_starts_with(cs, i, seq!['足', 'す'])) by {
        if spec_starts_with(cs, i, seq!['足', 'す']) {
            assert(cs.subrange(i, i + 2)[0] == cs[i]);
        }
    }
    match lex_from(cs, i + v.len()) {
        Ok(ts) => assert(seq![Token::Var(v)] + ts =~= seq![Token::Var(v)] + ts),
        Err(_) => {},
    }
}

/// The character `c` stands at index `k`, and it lexes as the token `t`.
proof fn lemma_lex_mark(cs: Seq<char>, k: int, c: char, t: Token)
    requires
        0 <= k < cs.len(),
        cs[k] == c,
        (c == 'J' && t == Token::Lambda) || (c == 'ッ' && t == Token::Dot) || (c == '「' && t
            == Token::LParen) || (c == '」' && t == Token::RParen),
    ensures
        lex_from(cs, k) == prefix_tokens(seq![t], lex_from(cs, k + 1)),
{
    match lex_from(cs, k + 1) {
        Ok(ts) => {},
        Err(_) => {},
    }
}

proof fn lemma_lex_plus(cs: Seq<char>, k: int)
    requires
        0 <= k,
        k + 2 <= cs.len(),
        cs[k] == '足',
        cs[k + 1] == 'す',
    ensures
        lex_from(cs, k) == prefix_tokens(seq![Token::Plus], lex_from(cs, k + 2)),
{
    assert(cs.subrange(k, k + 2) =~= seq!['足', 'す']);
    match lex_from(cs, k + 2) {
        Ok(ts) => {},
        Err(_) => {},
    }
}

proof fn lemma_lex_show(e: Term, cs: Seq<char>, i: int)
    requires
        well_named(e),
        0 <= i,
        i + show(e).len() <= cs.len(),
        cs.subrange(i, i + show(e).len()) == show(e),
        ends_name(cs, i + show(e).len()),
    ensures
        lex_from(cs, i) == prefix_tokens(show_tokens(e), lex_from(cs, i + show(e).len())),
    decreases e, 0nat,
{
    let n = show(e).len();
    let w = cs.subrange(i, i + n);
    match e {
        Term::Var(v) => {
            lemma_lex_name(v, cs, i);
        },
        Term::Abs(p, b) => {
            let sb = show(*b);
            let q = i + 1int + p.len();
            assert(w[0] == cs[i]);
            assert(cs.subrange(i + 1, q) =~= w.subrange(1, 1int + p.len()));
            assert(w.subrange(1, 1int + p.len()) =~= p);
            assert(w[1int + p.len()] == cs[q]);
            assert(cs.subrange(q + 1, q + 1 + sb.len()) =~= w.subrange(2int + p.len(), n as int));
            assert(w.subrange(2int + p.len(), n as int) =~= sb);
            lemma_lex_mark(cs, i, 'J', Token::Lambda);
            lemma_lex_name(p, cs, i + 1);
            lemma_lex_mark(cs, q, 'ッ', Token::Dot);
            lemma_lex_show(*b, cs, q + 1);
            let rest = lex_from(cs, i + n);
            lemma_prefix_concat(seq![Token::Lambda, Token::Var(p), Token::Dot], show_tokens(*b), rest);
            lemma_prefix_concat(seq![Token::Lambda], seq![Token::Var(p), Token::Dot], prefix_tokens(show_tokens(*b), rest));
            lemma_prefix_concat(seq![Token::Var(p)], seq![Token::Dot], prefix_tokens(show_tokens(*b), rest));
            assert(seq![Token::Lambda] + seq![Token::Var(p), Token::Dot] =~= seq![Token::Lambda, Token::Var(p), Token::Dot]);
            assert(seq![Token::Var(p)] + seq![Token::Dot] =~= seq![Token::Var(p), Token::Dot]);
        },
        Term::App(a, b) => {
            let sa = show_operand(*a);
            let sb = show_operand(*b);
            let k = i + sa.len();
            assert(cs.subrange(i, k) =~= w.subrange(0, sa.len() as int));
            assert(w.subrange(0, sa.len() as int) =~= sa);
            assert(w[sa.len() as int] == cs[k]);
            assert(w[sa.len() + 1int] == cs[k + 1]);
            assert(cs.subrange(k + 2, k + 2 + sb.len()) =~= w.subrange(sa.len() + 2int, n as int));
            assert(w.subrange(sa.len() + 2int, n as int) =~= sb);
            assert(!is_name_char(cs[k]));
            lemma_lex_operand(*a, cs, i);
            lemma_lex_plus(cs, k);
            lemma_lex_operand(*b, cs, k + 2);
            let rest = lex_from(cs, i + n);
            let ta = operand_tokens(*a);
            let tb = operand_tokens(*b);
            lemma_prefix_concat(ta + seq![Token::Plus], tb, rest);
            lemma_prefix_concat(ta, seq![Token::Plus], prefix_tokens(tb, rest));
        },
    }
}

proof fn lemma_lex_operand(e: Term, cs: Seq<char>, i: int)
    requires
        well_named(e),
        0 <= i,
        i + show_operand(e).len() <= cs.len(),
        cs.subrange(i, i + show_operand(e).len()) == show_operand(e),
        ends_name(cs, i + show_operand(e).len()),
    ensures
        lex_from(cs, i) == prefix_tokens(operand_tokens(e), lex_from(cs, i + show_operand(e).len())),
    decreases e, 1nat,
{
    match e {
        Term::Var(v) => {
            lemma_lex_name(v, cs, i);
        },
        _ => {
            let n = show_operand(e).len();
            let w = cs.subrange(i, i + n);
            let se = show(e);
            assert(w[0] == cs[i]);
            assert(cs.subrange(i + 1, i + 1 + se.len()) =~= w.subrange(1, n - 1));
            assert(w.subrange(1, n - 1) =~= se);
            assert(w[n - 1] == cs[i + n - 1]);
            lemma_lex_mark(cs, i, '「', Token::LParen);
            lemma_lex_show(e, cs, i + 1);
            lemma_lex_mark(cs, i + n - 1, '」', Token::RParen);
            let rest = lex_from(cs, i + n);
            let te = show_tokens(e);
            lemma_prefix_concat(seq![Token::LParen] + te, seq![Token::RParen], rest);
            lemma_prefix_concat(seq![Token::LParen], te, prefix_tokens(seq![Token::RParen], rest));
        },
    }
}

/// Parsing what [`show`] writes gives back the expression: every expression whose
/// names are Katakana has a notation, and the parser reads it as meant.
pub proof fn law_parse_show(e: Term)
    requires
        well_named(e),
    ensures
        spec_parse(show(e)) == Ok::<Term, crate::error::SyntaxError>(e),
{
    let cs = show(e);
    assert(cs.subrange(0, cs.len() as int) =~= cs);
    lemma_lex_show(e, cs, 0);
    let ts = show_tokens(e);
    assert(lex_from(cs, cs.len() as int) == Ok::<Seq<Token>, crate::error::SyntaxError>(seq![]));
    assert(ts + Seq::<Token>::empty() =~= ts);
    assert(spec_lex(cs) == Ok::<Seq<Token>, crate::error::SyntaxError>(ts));
    assert(ts.subrange(0, ts.len() as int) =~= ts);
    lemma_parse_expr(e, ts, 0);
}


proof fn lemma_name_end_same(a: Seq<char>, b: Seq<char>, j: int)
    requires
        a.len() == b.len(),
        0 <= j,
        forall|k: int| j <= k < a.len() ==> a[k] == b[k] || (!is_name_char(a[k]) && !is_name_char(b[k])),
    ensures
        name_end(a, j) == name_end(b, j),
    decreases a.len() - j,
{
    if j < a.len() && is_name_char(a[j]) {
        lemma_name_end_same(a, b, j + 1);
    }
}

proof fn lemma_lex_ws_swap(cs: Seq<char>, i: int, w: char, j: int)
    requires
        0 <= i < cs.len(),
        spec_is_whitespace(cs[i]),
        spec_is_whitespace(w),
        0 <= j,
    ensures
        lex_from(cs.update(i, w), j) == lex_from(cs, j),
    decreases cs.len() - j,
{
    let d = cs.update(i, w);
    if j < cs.len() {
        let c = cs[j];
        if j == i {
            lemma_lex_ws_swap(cs, i, w, j + 1);
        } else {
            assert(d[j] == c);
            assert(!is_name_char(cs[i]) && !is_name_char(w));
            if spec_is_whitespace(c) || c == 'J' || c == 'ッ' || c == '「' || c == '」' {
                lemma_lex_ws_swap(cs, i, w, j + 1);
            } else {
                let plus = seq!['足', 'す'];
                assert(spec_starts_with(d, j, plus) == spec_starts_with(cs, j, plus)) by {
                    if j + 2 <= cs.len() {
                        assert(d.subrange(j, j + 2)[0] == d[j]);
                        assert(cs.subrange(j, j + 2)[0] == cs[j]);
                        assert(d.subrange(j, j + 2)[1] == d[j + 1]);
                        assert(cs.subrange(j, j + 2)[1] == cs[j + 1]);
                        if j + 1 == i {
                            assert(!spec_starts_with(d, j, plus));
                            assert(!spec_starts_with(cs, j, plus));
                        } else {
                            assert(d.subrange(j, j + 2) =~= cs.subrange(j, j + 2));
                        }
                    }
                }
                if spec_starts_with(cs, j, plus) {
                    lemma_lex_ws_swap(cs, i, w, j + 2);
                } else if spec_is_katakana(c) {
                    lemma_name_end_same(d, cs, j + 1);
                    let e = name_end(cs, j + 1);
                    crate::lexer::lemma_name_end(cs, j + 1);
                    if j < e <= cs.len() {
                        assert(!(j <= i < e)) by {
                            if j < i < e {
                                assert(is_name_char(cs[i]));
                            }
                        }
                        assert(d.subrange(j, e) =~= cs.subrange(j, e));
                        lemma_lex_ws_swap(cs, i, w, e);
                    }
                }
            }
        }
    }
}

/// White space characters are interchangeable: replacing one by another, a line
/// feed by a space say, changes no token and no error, so line breaks are white
/// space like any other.
pub proof fn law_whitespace_interchangeable(cs: Seq<char>, i: int, w: char)
    requires
        0 <= i < cs.len(),
        spec_is_whitespace(cs[i]),
        spec_is_whitespace(w),
    ensures
        spec_lex(cs.update(i, w)) == spec_lex(cs),
        spec_parse(cs.update(i, w)) == spec_parse(cs),
{
    lemma_lex_ws_swap(cs, i, w, 0);
}


/// `r` with its end index moved on by `p`.
pub open spec fn shifted(r: Result<(Term, int), SyntaxError>, p: int) -> Result<(Term, int), SyntaxError> {
    match r {
        Ok((v, k)) => Ok((v, k + p)),
        Err(e) => Err(e),
    }
}

proof fn lemma_expr_bounds(t: Seq<Token>, j: int)
    requires
        0 <= j <= t.len(),
    ensures
        expr_at(t, j) matches Ok((_, k)) ==> j < k <= t.len(),
    decreases t.len() - j, 4nat,
{
    lemma_app_bounds(t, j);
}

proof fn lemma_app_bounds(t: Seq<Token>, j: int)
    requires
        0 <= j <= t.len(),
    ensures
        app_at(t, j) matches Ok((_, k)) ==> j < k <= t.len(),
    decreases t.len() - j, 3nat,
{
    lemma_atom_bounds(t, j);
    if let Ok((lhs, k)) = atom_at(t, j) {
        lemma_rest_bounds(t, lhs, k);
    }
}

proof fn lemma_rest_bounds(t: Seq<Token>, lhs: Term, j: int)
    requires
        0 <= j <= t.len(),
    ensures
        app_rest(t, lhs, j) matches Ok((_, k)) ==> j <= k <= t.len(),
    decreases t.len() - j, 0nat,
{
    if j < t.len() && t[j] is Plus {
        lemma_atom_bounds(t, j + 1);
        if let Ok((rhs, k)) = atom_at(t, j + 1) {
            lemma_rest_bounds(t, Term::App(Box::new(lhs), Box::new(rhs)), k);
        }
    }
}

proof fn lemma_atom_bounds(t: Seq<Token>, j: int)
    requires
        0 <= j <= t.len(),
    ensures
        atom_at(t, j) matches Ok((_, k)) ==> j < k <= t.len(),
    decreases t.len() - j, 2nat,
{
    if j < t.len() {
        match t[j] {
            Token::Lambda => lemma_abs_bounds(t, j),
            Token::LParen => lemma_expr_bounds(t, j + 1),
            _ => {},
        }
    }
}

proof fn lemma_abs_bounds(t: Seq<Token>, j: int)
    requires
        0 <= j <= t.len(),
    ensures
        abs_at(t, j) matches Ok((_, k)) ==> j < k <= t.len(),
    decreases t.len() - j, 1nat,
{
    if j + 3 <= t.len() {
        lemma_expr_bounds(t, j + 3);
    }
}

/// `t` stands in `s` from index `p`, and what follows it there does not continue
/// an expression.
pub open spec fn embedded(t: Seq<Token>, s: Seq<Token>, p: int) -> bool {
    &&& 0 <= p
    &&& p + t.len() <= s.len()
    &&& s.subrange(p, p + t.len()) == t
    &&& ends_expr(s, p + t.len())
}

proof fn lemma_token_at(t: Seq<Token>, s: Seq<Token>, p: int, j: int)
    requires
        embedded(t, s, p),
        0 <= j < t.len(),
    ensures
        s[p + j] == t[j],
{
    assert(s.subrange(p, p + t.len())[j] == s[p + j]);
}

proof fn lemma_expr_local(t: Seq<Token>, s: Seq<Token>, p: int, j: int)
    requires
        embedded(t, s, p),
        0 <= j <= t.len(),
        expr_at(t, j) is Ok,
    ensures
        expr_at(s, p + j) == shifted(expr_at(t, j), p),
    decreases t.len() - j, 4nat,
{
    lemma_app_local(t, s, p, j);
}

proof fn lemma_app_local(t: Seq<Token>, s: Seq<Token>, p: int, j: int)
    requires
        embedded(t, s, p),
        0 <= j <= t.len(),
        app_at(t, j) is Ok,
    ensures
        app_at(s, p + j) == shifted(app_at(t, j), p),
    decreases t.len() - j, 3nat,
{
    lemma_atom_bounds(t, j);
    lemma_atom_local(t, s, p, j);
    if let Ok((lhs, k)) = atom_at(t, j) {
        lemma_rest_local(t, s, p, lhs, k);
    }
}

proof fn lemma_rest_local(t: Seq<Token>, s: Seq<Token>, p: int, lhs: Term, j: int)
    requires
        embedded(t, s, p),
        0 <= j <= t.len(),
        app_rest(t, lhs, j) is Ok,
    ensures
        app_rest(s, lhs, p + j) == shifted(app_rest(t, lhs, j), p),
    decreases t.len() - j, 0nat,
{
    if j < t.len() {
        lemma_token_at(t, s, p, j);
        if t[j] is Plus {
            lemma_atom_bounds(t, j + 1);
            lemma_atom_local(t, s, p, j + 1);
            if let Ok((rhs, k)) = atom_at(t, j + 1) {
                lemma_rest_local(t, s, p, Term::App(Box::new(lhs), Box::new(rhs)), k);
            }
        }
    }
}

proof fn lemma_atom_local(t: Seq<Token>, s: Seq<Token>, p: int, j: int)
    requires
        embedded(t, s, p),
        0 <= j <= t.len(),
        atom_at(t, j) is Ok,
    ensures
        atom_at(s, p + j) == shifted(atom_at(t, j), p),
    decreases t.len() - j, 2nat,
{
    lemma_token_at(t, s, p, j);
    match t[j] {
        Token::Lambda => lemma_abs_local(t, s, p, j),
        Token::LParen => {
            lemma_expr_bounds(t, j + 1);
            lemma_expr_local(t, s, p, j + 1);
            if let Ok((e, q)) = expr_at(t, j + 1) {
                lemma_token_at(t, s, p, q);
            }
        },
        _ => {},
    }
}

proof fn lemma_abs_local(t: Seq<Token>, s: Seq<Token>, p: int, j: int)
    requires
        embedded(t, s, p),
        0 <= j <= t.len(),
        abs_at(t, j) is Ok,
    ensures
        abs_at(s, p + j) == shifted(abs_at(t, j), p),
    decreases t.len() - j, 1nat,
{
    lemma_token_at(t, s, p, j);
    lemma_token_at(t, s, p, j + 1);
    lemma_token_at(t, s, p, j + 2);
    lemma_expr_local(t, s, p, j + 3);
}


proof fn lemma_name_end_shift(b: Seq<char>, cs: Seq<char>, i: int, m: int)
    requires
        0 <= i,
        i + b.len() <= cs.len(),
        cs.subrange(i, i + b.len()) == b,
        ends_name(cs, i + b.len()),
        0 <= m <= b.len(),
    ensures
        name_end(cs, i + m) == i + name_end(b, m),
    decreases b.len() - m,
{
    if m < b.len() {
        assert(cs.subrange(i, i + b.len())[m] == cs[i + m]);
        lemma_name_end_shift(b, cs, i, m + 1);
    }
}

proof fn lemma_prefix_empty(r: Result<Seq<Token>, SyntaxError>)
    ensures
        prefix_tokens(seq![], r) == r,
{
    match r {
        Ok(ts) => assert(Seq::<Token>::empty() + ts =~= ts),
        Err(_) => {},
    }
}

/// Lexing a text `b` that stands inside `cs` gives, there, the tokens of `b`
/// followed by those of what comes after it, where no name runs on across its end.
proof fn lemma_lex_local(b: Seq<char>, cs: Seq<char>, i: int, j: int)
    requires
        0 <= i,
        i + b.len() <= cs.len(),
        cs.subrange(i, i + b.len()) == b,
        ends_name(cs, i + b.len()),
        0 <= j <= b.len(),
        lex_from(b, j) is Ok,
    ensures
        lex_from(cs, i + j) == prefix_tokens(lex_from(b, j)->Ok_0, lex_from(cs, i + b.len())),
    decreases b.len() - j,
{
    let rest = lex_from(cs, i + b.len());
    if j == b.len() {
        lemma_prefix_empty(rest);
    } else {
        let c = b[j];
        assert(cs.subrange(i, i + b.len())[j] == cs[i + j]);
        let plus = seq!['足', 'す'];
        if spec_is_whitespace(c) {
            lemma_lex_local(b, cs, i, j + 1);
        } else if c == 'J' || c == 'ッ' || c == '「' || c == '」' {
            lemma_lex_local(b, cs, i, j + 1);
            let ts = lex_from(b, j + 1)->Ok_0;
            let tok = lex_from(b, j)->Ok_0[0];
            lemma_prefix_concat(seq![tok], ts, rest);
        } else if spec_starts_with(b, j, plus) {
            assert(b.subrange(j, j + 2)[0] == b[j]);
            assert(b.subrange(j, j + 2)[1] == b[j + 1]);
            assert(cs.subrange(i, i + b.len())[j + 1] == cs[i + j + 1]);
            assert(cs.subrange(i + j, i + j + 2) =~= plus);
            lemma_lex_local(b, cs, i, j + 2);
            let ts = lex_from(b, j + 2)->Ok_0;
            lemma_prefix_concat(seq![Token::Plus], ts, rest);
        } else {
            assert(!spec_starts_with(cs, i + j, plus)) by {
                if spec_starts_with(cs, i + j, plus) {
                    assert(cs.subrange(i + j, i + j + 2)[0] == cs[i + j]);
                    assert(cs.subrange(i + j, i + j + 2)[1] == cs[i + j + 1]);
                    if j + 1 < b.len() {
                        assert(cs.subrange(i, i + b.len())[j + 1] == cs[i + j + 1]);
                        assert(b.subrange(j, j + 2) =~= plus);
                    }
                }
            }
            if spec_is_katakana(c) {
                crate::lexer::lemma_name_end(b, j + 1);
                lemma_name_end_shift(b, cs, i, j + 1);
                let e = name_end(b, j + 1);
                assert(cs.subrange(i + j, i + e) =~= b.subrange(j, e)) by {
                    assert forall|k: int| 0 <= k < e - j implies #[trigger] cs.subrange(i + j, i + e)[k]
                        == b.subrange(j, e)[k] by {
                        assert(cs.subrange(i, i + b.len())[j + k] == cs[i + j + k]);
                    }
                }
                lemma_lex_local(b, cs, i, e);
                let ts = lex_from(b, e)->Ok_0;
                lemma_prefix_concat(seq![Token::Var(b.subrange(j, e))], ts, rest);
            }
        }
    }
}


/// A binding of `name` to the expression written `e`, around the body written `core`:
/// `「J name ッ core 」足す「 e 」`.
pub open spec fn binding_text(name: Seq<char>, core: Seq<char>, e: Seq<char>) -> Seq<char> {
    seq!['「', 'J'] + name + seq!['ッ'] + core + seq!['」', '足', 'す', '「'] + e + seq!['」']
}

/// The tokens of a text that parses, and what they parse to.
proof fn lemma_parsed(src: Seq<char>, v: Term)
    requires
        spec_parse(src) == Ok::<Term, SyntaxError>(v),
    ensures
        spec_lex(src) is Ok,
        expr_at(spec_lex(src)->Ok_0, 0) == Ok::<(Term, int), SyntaxError>(
            (v, spec_lex(src)->Ok_0.len() as int),
        ),
{
    let ts = spec_lex(src)->Ok_0;
    lemma_expr_bounds(ts, 0);
}

/// A text that parses, standing in `cs` at `i` with no name running on across its
/// end, lexes there into its own tokens.
proof fn lemma_lex_parsed(src: Seq<char>, v: Term, cs: Seq<char>, i: int)
    requires
        spec_parse(src) == Ok::<Term, SyntaxError>(v),
        0 <= i,
        i + src.len() <= cs.len(),
        cs.subrange(i, i + src.len()) == src,
        ends_name(cs, i + src.len()),
    ensures
        lex_from(cs, i) == prefix_tokens(spec_lex(src)->Ok_0, lex_from(cs, i + src.len())),
{
    lemma_parsed(src, v);
    lemma_lex_local(src, cs, i, 0);
}

/// The tokens of a binding's text, from the tokens of its body and of its expression.
pub open spec fn binding_tokens(name: Seq<char>, tc: Seq<Token>, te: Seq<Token>) -> Seq<Token> {
    seq![Token::LParen, Token::Lambda, Token::Var(name), Token::Dot] + tc + seq![
        Token::RParen,
        Token::Plus,
        Token::LParen,
    ] + te + seq![Token::RParen]
}

proof fn lemma_binding_lexes(name: Seq<char>, core: Seq<char>, e: Seq<char>, c: Term, x: Term)
    requires
        is_name(name),
        spec_parse(core) == Ok::<Term, SyntaxError>(c),
        spec_parse(e) == Ok::<Term, SyntaxError>(x),
    ensures
        spec_lex(binding_text(name, core, e)) == Ok::<Seq<Token>, SyntaxError>(
            binding_tokens(name, spec_lex(core)->Ok_0, spec_lex(e)->Ok_0),
        ),
{
    let cs = binding_text(name, core, e);
    let q: int = 2int + name.len();
    let r: int = q + 1 + core.len();
    let z: int = r + 4 + e.len();
    assert(cs.len() == z + 1);
    assert(cs[0] == '「');
    assert(cs[1] == 'J');
    assert(cs.subrange(2, q) =~= name);
    assert(cs[q] == 'ッ');
    assert(cs.subrange(q + 1, r) =~= core);
    assert(cs[r] == '」');
    assert(cs[r + 1] == '足');
    assert(cs[r + 2] == 'す');
    assert(cs[r + 3] == '「');
    assert(cs.subrange(r + 4, z) =~= e);
    assert(cs[z] == '」');
    assert(!is_name_char('ッ'));
    assert(!is_name_char('」'));
    let tc = spec_lex(core)->Ok_0;
    let te = spec_lex(e)->Ok_0;
    lemma_parsed(core, c);
    lemma_parsed(e, x);
    let end = lex_from(cs, z + 1);
    assert(end == Ok::<Seq<Token>, SyntaxError>(seq![]));
    lemma_lex_mark(cs, z, '」', Token::RParen);
    lemma_lex_parsed(e, x, cs, r + 4);
    lemma_lex_mark(cs, r + 3, '「', Token::LParen);
    lemma_lex_plus(cs, r + 1);
    lemma_lex_mark(cs, r, '」', Token::RParen);
    lemma_lex_parsed(core, c, cs, q + 1);
    lemma_lex_mark(cs, q, 'ッ', Token::Dot);
    lemma_lex_name(name, cs, 2);
    lemma_lex_mark(cs, 1, 'J', Token::Lambda);
    lemma_lex_mark(cs, 0, '「', Token::LParen);
    let t1 = seq![Token::RParen];
    let t2 = te + t1;
    let t3 = seq![Token::LParen] + t2;
    let t4 = seq![Token::Plus] + t3;
    let t5 = seq![Token::RParen] + t4;
    let t6 = tc + t5;
    let t7 = seq![Token::Dot] + t6;
    let t8 = seq![Token::Var(name)] + t7;
    let t9 = seq![Token::Lambda] + t8;
    let t10 = seq![Token::LParen] + t9;
    assert(lex_from(cs, z) == Ok::<Seq<Token>, SyntaxError>(t1));
    assert(lex_from(cs, r + 4) == Ok::<Seq<Token>, SyntaxError>(t2));
    assert(lex_from(cs, r + 3) == Ok::<Seq<Token>, SyntaxError>(t3));
    assert(lex_from(cs, r + 1) == Ok::<Seq<Token>, SyntaxError>(t4));
    assert(lex_from(cs, r) == Ok::<Seq<Token>, SyntaxError>(t5));
    assert(lex_from(cs, q + 1) == Ok::<Seq<Token>, SyntaxError>(t6));
    assert(lex_from(cs, q) == Ok::<Seq<Token>, SyntaxError>(t7));
    assert(lex_from(cs, 2) == Ok::<Seq<Token>, SyntaxError>(t8));
    assert(lex_from(cs, 1) == Ok::<Seq<Token>, SyntaxError>(t9));
    assert(lex_from(cs, 0) == Ok::<Seq<Token>, SyntaxError>(t10));
    assert(t10 =~= binding_tokens(name, tc, te));
}

proof fn lemma_binding_tokens_parse(name: Seq<char>, tc: Seq<Token>, te: Seq<Token>, c: Term, x: Term)
    requires
        expr_at(tc, 0) == Ok::<(Term, int), SyntaxError>((c, tc.len() as int)),
        expr_at(te, 0) == Ok::<(Term, int), SyntaxError>((x, te.len() as int)),
    ensures
        expr_at(binding_tokens(name, tc, te), 0) == Ok::<(Term, int), SyntaxError>(
            (
                Term::App(Box::new(Term::Abs(name, Box::new(c))), Box::new(x)),
                binding_tokens(name, tc, te).len() as int,
            ),
        ),
{
    let ts = binding_tokens(name, tc, te);
    let a: int = 4int + tc.len();
    let b0: int = a + 3;
    let n: int = b0 + te.len();
    assert(ts.len() == n + 1);
    assert(ts[0] == Token::LParen);
    assert(ts[1] == Token::Lambda);
    assert(ts[2] == Token::Var(name));
    assert(ts[3] == Token::Dot);
    assert(ts.subrange(4, a) =~= tc);
    assert(ts[a] == Token::RParen);
    assert(ts[a + 1] == Token::Plus);
    assert(ts[a + 2] == Token::LParen);
    assert(ts.subrange(b0, n) =~= te);
    assert(ts[n] == Token::RParen);
    assert(embedded(tc, ts, 4));
    assert(embedded(te, ts, b0));
    lemma_expr_local(tc, ts, 4, 0);
    lemma_expr_local(te, ts, b0, 0);
    let abs = Term::Abs(name, Box::new(c));
    assert(abs_at(ts, 1) == Ok::<(Term, int), SyntaxError>((abs, a)));
    assert(atom_at(ts, 1) == Ok::<(Term, int), SyntaxError>((abs, a)));
    assert(app_rest(ts, abs, a) == Ok::<(Term, int), SyntaxError>((abs, a)));
    assert(expr_at(ts, 1) == Ok::<(Term, int), SyntaxError>((abs, a)));
    assert(atom_at(ts, 0) == Ok::<(Term, int), SyntaxError>((abs, a + 1)));
    assert(atom_at(ts, b0 - 1) == Ok::<(Term, int), SyntaxError>((x, n + 1)));
    let whole = Term::App(Box::new(abs), Box::new(x));
    assert(app_rest(ts, whole, n + 1) == Ok::<(Term, int), SyntaxError>((whole, n + 1)));
    assert(app_rest(ts, abs, a + 1) == Ok::<(Term, int), SyntaxError>((whole, n + 1)));
}

/// A binding's text parses to the binder of the name over the body, applied to the
/// bound expression.
pub proof fn lemma_binding_parses(name: Seq<char>, core: Seq<char>, e: Seq<char>, c: Term, x: Term)
    requires
        is_name(name),
        spec_parse(core) == Ok::<Term, SyntaxError>(c),
        spec_parse(e) == Ok::<Term, SyntaxError>(x),
    ensures
        spec_parse(binding_text(name, core, e)) == Ok::<Term, SyntaxError>(
            Term::App(Box::new(Term::Abs(name, Box::new(c))), Box::new(x)),
        ),
{
    lemma_binding_lexes(name, core, e, c, x);
    lemma_parsed(core, c);
    lemma_parsed(e, x);
    lemma_binding_tokens_parse(name, spec_lex(core)->Ok_0, spec_lex(e)->Ok_0, c, x);
}


/// The fully bracketed notation of `e`: a variable as it is,
/// `「J variable ッ body 」` for a binder and `「 function 」足す「 argument 」` for an
/// application.
pub open spec fn bracketed(e: Term) -> Seq<char>
    decreases e,
{
    match e {
        Term::Var(v) => v,
        Term::Abs(p, b) => seq!['「', 'J'] + p + seq!['ッ'] + bracketed(*b) + seq!['」'],
        Term::App(a, b) => seq!['「'] + bracketed(*a) + seq!['」', '足', 'す', '「'] + bracketed(*b)
            + seq!['」'],
    }
}

proof fn lemma_bracketed_var(v: Seq<char>)
    requires
        is_name(v),
    ensures
        spec_parse(v) == Ok::<Term, SyntaxError>(Term::Var(v)),
{
    lemma_lex_name(v, v, 0);
    assert(v.subrange(0, v.len() as int) =~= v);
    assert(lex_from(v, v.len() as int) == Ok::<Seq<Token>, SyntaxError>(seq![]));
    let ts = seq![Token::Var(v)];
    assert(seq![Token::Var(v)] + Seq::<Token>::empty() =~= ts);
    assert(spec_lex(v) == Ok::<Seq<Token>, SyntaxError>(ts));
    let t = Term::Var(v);
    assert(atom_at(ts, 0) == Ok::<(Term, int), SyntaxError>((t, 1)));
    assert(app_rest(ts, t, 1) == Ok::<(Term, int), SyntaxError>((t, 1)));
    assert(expr_at(ts, 0) == Ok::<(Term, int), SyntaxError>((t, 1)));
}

proof fn lemma_bracketed_abs(p: Seq<char>, core: Seq<char>, c: Term)
    requires
        is_name(p),
        spec_parse(core) == Ok::<Term, SyntaxError>(c),
    ensures
        spec_parse(seq!['「', 'J'] + p + seq!['ッ'] + core + seq!['」']) == Ok::<Term, SyntaxError>(
            Term::Abs(p, Box::new(c)),
        ),
{
    let cs = seq!['「', 'J'] + p + seq!['ッ'] + core + seq!['」'];
    let q: int = 2int + p.len();
    let r: int = q + 1 + core.len();
    assert(cs.len() == r + 1);
    assert(cs[0] == '「');
    assert(cs[1] == 'J');
    assert(cs.subrange(2, q) =~= p);
    assert(cs[q] == 'ッ');
    assert(cs.subrange(q + 1, r) =~= core);
    assert(cs[r] == '」');
    assert(!is_name_char('ッ'));
    assert(!is_name_char('」'));
    let tc = spec_lex(core)->Ok_0;
    lemma_parsed(core, c);
    assert(lex_from(cs, r + 1) == Ok::<Seq<Token>, SyntaxError>(seq![]));
    lemma_lex_mark(cs, r, '」', Token::RParen);
    lemma_lex_parsed(core, c, cs, q + 1);
    lemma_lex_mark(cs, q, 'ッ', Token::Dot);
    lemma_lex_name(p, cs, 2);
    lemma_lex_mark(cs, 1, 'J', Token::Lambda);
    lemma_lex_mark(cs, 0, '「', Token::LParen);
    let t1 = seq![Token::RParen];
    let t2 = tc + t1;
    let t3 = seq![Token::Dot] + t2;
    let t4 = seq![Token::Var(p)] + t3;
    let t5 = seq![Token::Lambda] + t4;
    let t6 = seq![Token::LParen] + t5;
    assert(seq![Token::RParen] + Seq::<Token>::empty() =~= t1);
    assert(lex_from(cs, r) == Ok::<Seq<Token>, SyntaxError>(t1));
    assert(lex_from(cs, q + 1) == Ok::<Seq<Token>, SyntaxError>(t2));
    assert(lex_from(cs, q) == Ok::<Seq<Token>, SyntaxError>(t3));
    assert(lex_from(cs, 2) == Ok::<Seq<Token>, SyntaxError>(t4));
    assert(lex_from(cs, 1) == Ok::<Seq<Token>, SyntaxError>(t5));
    assert(lex_from(cs, 0) == Ok::<Seq<Token>, SyntaxError>(t6));
    let ts = t6;
    let a: int = 4int + tc.len();
    assert(ts.len() == a + 1);
    assert(ts[0] == Token::LParen);
    assert(ts[1] == Token::Lambda);
    assert(ts[2] == Token::Var(p));
    assert(ts[3] == Token::Dot);
    assert(ts.subrange(4, a) =~= tc);
    assert(ts[a] == Token::RParen);
    assert(embedded(tc, ts, 4));
    lemma_expr_local(tc, ts, 4, 0);
    let abs = Term::Abs(p, Box::new(c));
    assert(abs_at(ts, 1) == Ok::<(Term, int), SyntaxError>((abs, a)));
    assert(atom_at(ts, 1) == Ok::<(Term, int), SyntaxError>((abs, a)));
    assert(app_rest(ts, abs, a) == Ok::<(Term, int), SyntaxError>((abs, a)));
    assert(expr_at(ts, 1) == Ok::<(Term, int), SyntaxError>((abs, a)));
    assert(atom_at(ts, 0) == Ok::<(Term, int), SyntaxError>((abs, a + 1)));
    assert(app_rest(ts, abs, a + 1) == Ok::<(Term, int), SyntaxError>((abs, a + 1)));
    assert(expr_at(ts, 0) == Ok::<(Term, int), SyntaxError>((abs, a + 1)));
}

proof fn lemma_bracketed_app(fa: Seq<char>, fb: Seq<char>, x: Term, y: Term)
    requires
        spec_parse(fa) == Ok::<Term, SyntaxError>(x),
        spec_parse(fb) == Ok::<Term, SyntaxError>(y),
    ensures
        spec_parse(seq!['「'] + fa + seq!['」', '足', 'す', '「'] + fb + seq!['」'])
            == Ok::<Term, SyntaxError>(Term::App(Box::new(x), Box::new(y))),
{
    let cs = seq!['「'] + fa + seq!['」', '足', 'す', '「'] + fb + seq!['」'];
    let r: int = 1int + fa.len();
    let z: int = r + 4 + fb.len();
    assert(cs.len() == z + 1);
    assert(cs[0] == '「');
    assert(cs.subrange(1, r) =~= fa);
    assert(cs[r] == '」');
    assert(cs[r + 1] == '足');
    assert(cs[r + 2] == 'す');
    assert(cs[r + 3] == '「');
    assert(cs.subrange(r + 4, z) =~= fb);
    assert(cs[z] == '」');
    assert(!is_name_char('」'));
    let ta = spec_lex(fa)->Ok_0;
    let tb = spec_lex(fb)->Ok_0;
    lemma_parsed(fa, x);
    lemma_parsed(fb, y);
    assert(lex_from(cs, z + 1) == Ok::<Seq<Token>, SyntaxError>(seq![]));
    lemma_lex_mark(cs, z, '」', Token::RParen);
    lemma_lex_parsed(fb, y, cs, r + 4);
    lemma_lex_mark(cs, r + 3, '「', Token::LParen);
    lemma_lex_plus(cs, r + 1);
    lemma_lex_mark(cs, r, '」', Token::RParen);
    lemma_lex_parsed(fa, x, cs, 1);
    lemma_lex_mark(cs, 0, '「', Token::LParen);
    let t1 = seq![Token::RParen];
    let t2 = tb + t1;
    let t3 = seq![Token::LParen] + t2;
    let t4 = seq![Token::Plus] + t3;
    let t5 = seq![Token::RParen] + t4;
    let t6 = ta + t5;
    let t7 = seq![Token::LParen] + t6;
    assert(seq![Token::RParen] + Seq::<Token>::empty() =~= t1);
    assert(lex_from(cs, z) == Ok::<Seq<Token>, SyntaxError>(t1));
    assert(lex_from(cs, r + 4) == Ok::<Seq<Token>, SyntaxError>(t2));
    assert(lex_from(cs, r + 3) == Ok::<Seq<Token>, SyntaxError>(t3));
    assert(lex_from(cs, r + 1) == Ok::<Seq<Token>, SyntaxError>(t4));
    assert(lex_from(cs, r) == Ok::<Seq<Token>, SyntaxError>(t5));
    assert(lex_from(cs, 1) == Ok::<Seq<Token>, SyntaxError>(t6));
    assert(lex_from(cs, 0) == Ok::<Seq<Token>, SyntaxError>(t7));
    let ts = t7;
    let a: int = 1int + ta.len();
    let b0: int = a + 3;
    let n: int = b0 + tb.len();
    assert(ts.len() == n + 1);
    assert(ts[0] == Token::LParen);
    assert(ts.subrange(1, a) =~= ta);
    assert(ts[a] == Token::RParen);
    assert(ts[a + 1] == Token::Plus);
    assert(ts[a + 2] == Token::LParen);
    assert(ts.subrange(b0, n) =~= tb);
    assert(ts[n] == Token::RParen);
    assert(embedded(ta, ts, 1));
    assert(embedded(tb, ts, b0));
    lemma_expr_local(ta, ts, 1, 0);
    lemma_expr_local(tb, ts, b0, 0);
    assert(atom_at(ts, 0) == Ok::<(Term, int), SyntaxError>((x, a + 1)));
    assert(atom_at(ts, b0 - 1) == Ok::<(Term, int), SyntaxError>((y, n + 1)));
    let whole = Term::App(Box::new(x), Box::new(y));
    assert(app_rest(ts, whole, n + 1) == Ok::<(Term, int), SyntaxError>((whole, n + 1)));
    assert(app_rest(ts, x, a + 1) == Ok::<(Term, int), SyntaxError>((whole, n + 1)));
    assert(expr_at(ts, 0) == Ok::<(Term, int), SyntaxError>((whole, n + 1)));
}

/// Parsing the fully bracketed notation of an expression gives the expression
/// back: every binder and every application between `「` and `」`.
pub proof fn law_parse_bracketed(e: Term)
    requires
        well_named(e),
    ensures
        spec_parse(bracketed(e)) == Ok::<Term, SyntaxError>(e),
    decreases e,
{
    match e {
        Term::Var(v) => lemma_bracketed_var(v),
        Term::Abs(p, b) => {
            law_parse_bracketed(*b);
            lemma_bracketed_abs(p, bracketed(*b), *b);
        },
        Term::App(a, b) => {
            law_parse_bracketed(*a);
            law_parse_bracketed(*b);
            lemma_bracketed_app(bracketed(*a), bracketed(*b), *a, *b);
        },
    }
}


/// Both succeed with the same tokens, or both fail.
pub open spec fn same_lex(r1: Result<Seq<Token>, SyntaxError>, r2: Result<Seq<Token>, SyntaxError>) -> bool {
    &&& (r1 is Ok) == (r2 is Ok)
    &&& r1 is Ok ==> r1 == r2
}

proof fn lemma_name_end_suffix(x: Seq<char>, i: int, y: Seq<char>, j: int)
    requires
        0 <= i <= x.len(),
        0 <= j <= y.len(),
        x.subrange(i, x.len() as int) == y.subrange(j, y.len() as int),
    ensures
        name_end(x, i) - i == name_end(y, j) - j,
    decreases x.len() - i,
{
    if i < x.len() {
        assert(x.subrange(i, x.len() as int).len() == y.len() - j);
        assert(x.subrange(i, x.len() as int)[0] == x[i]);
        assert(y.subrange(j, y.len() as int)[0] == y[j]);
        assert(x.subrange(i + 1, x.len() as int) =~= x.subrange(i, x.len() as int).drop_first());
        assert(y.subrange(j + 1, y.len() as int) =~= y.subrange(j, y.len() as int).drop_first());
        lemma_name_end_suffix(x, i + 1, y, j + 1);
    } else {
        assert(y.subrange(j, y.len() as int).len() == 0);
    }
}

/// Lexing depends only on what lies from the starting index on, but for the index
/// that an error names.
proof fn lemma_lex_suffix(x: Seq<char>, i: int, y: Seq<char>, j: int)
    requires
        0 <= i <= x.len(),
        0 <= j <= y.len(),
        x.subrange(i, x.len() as int) == y.subrange(j, y.len() as int),
    ensures
        same_lex(lex_from(x, i), lex_from(y, j)),
    decreases x.len() - i,
{
    let xs = x.subrange(i, x.len() as int);
    if i < x.len() {
        assert(xs.len() == y.len() - j);
        assert(xs[0] == x[i]);
        assert(y.subrange(j, y.len() as int)[0] == y[j]);
        let c = x[i];
        let plus = seq!['足', 'す'];
        assert(spec_starts_with(x, i, plus) == spec_starts_with(y, j, plus)) by {
            if i + 2 <= x.len() {
                assert(xs[1] == x[i + 1]);
                assert(y.subrange(j, y.len() as int)[1] == y[j + 1]);
                assert(x.subrange(i, i + 2) =~= seq![x[i], x[i + 1]]);
                assert(y.subrange(j, j + 2) =~= seq![y[j], y[j + 1]]);
            }
        }
        if spec_starts_with(x, i, plus) {
            assert(x.subrange(i + 2, x.len() as int) =~= xs.subrange(2, xs.len() as int));
            assert(y.subrange(j + 2, y.len() as int) =~= xs.subrange(2, xs.len() as int));
        }
        assert(x.subrange(i + 1, x.len() as int) =~= xs.drop_first());
        assert(y.subrange(j + 1, y.len() as int) =~= xs.drop_first());
        if spec_is_whitespace(c) || c == 'J' || c == 'ッ' || c == '「' || c == '」' {
            lemma_lex_suffix(x, i + 1, y, j + 1);
        } else if spec_starts_with(x, i, plus) {
            lemma_lex_suffix(x, i + 2, y, j + 2);
        } else if spec_is_katakana(c) {
            lemma_name_end_suffix(x, i + 1, y, j + 1);
            crate::lexer::lemma_name_end(x, i + 1);
            crate::lexer::lemma_name_end(y, j + 1);
            let e = name_end(x, i + 1);
            let f = name_end(y, j + 1);
            assert(x.subrange(i, e) =~= xs.subrange(0, e - i));
            assert(y.subrange(j, f) =~= xs.subrange(0, e - i));
            assert(x.subrange(e, x.len() as int) =~= xs.subrange(e - i, xs.len() as int));
            assert(y.subrange(f, y.len() as int) =~= xs.subrange(e - i, xs.len() as int));
            lemma_lex_suffix(x, e, y, f);
        }
    } else {
        assert(y.subrange(j, y.len() as int).len() == 0);
    }
}

proof fn lemma_lex_skip_ws(x: Seq<char>, p: int, q: int)
    requires
        0 <= p <= q <= x.len(),
        forall|k: int| p <= k < q ==> spec_is_whitespace(#[trigger] x[k]),
    ensures
        lex_from(x, p) == lex_from(x, q),
    decreases q - p,
{
    if p < q {
        lemma_lex_skip_ws(x, p + 1, q);
    }
}

/// A name run from `m` ends at the same index in `x` and `y`, at or before `p`,
/// where they agree before `p` and the run stops by `p` in both.
proof fn lemma_name_end_upto(x: Seq<char>, y: Seq<char>, m: int, p: int)
    requires
        0 <= m <= p,
        p <= x.len(),
        p <= y.len(),
        forall|k: int| m <= k < p ==> x[k] == y[k],
        (ends_name(x, p) && ends_name(y, p)) || exists|q: int| m <= q < p && !is_name_char(#[trigger] x[q]),
    ensures
        name_end(x, m) == name_end(y, m) <= p,
    decreases p - m,
{
    if m < p && is_name_char(x[m]) {
        lemma_name_end_upto(x, y, m + 1, p);
    }
}

/// Lexing `a + w + b` and `a + b` from an index inside `a`.
proof fn lemma_lex_insert_ws(a: Seq<char>, w: Seq<char>, b: Seq<char>, k: int)
    requires
        0 <= k <= a.len(),
        w.len() > 0,
        forall|i: int| 0 <= i < w.len() ==> spec_is_whitespace(#[trigger] w[i]),
        !(a.len() > 0 && b.len() > 0 && is_name_char(a.last()) && is_name_char(b[0])),
        !(a.len() > 0 && b.len() > 0 && a.last() == '足' && b[0] == 'す'),
    ensures
        same_lex(lex_from(a + w + b, k), lex_from(a + b, k)),
    decreases a.len() - k,
{
    let x = a + w + b;
    let y = a + b;
    let n = a.len() as int;
    if k == n {
        assert forall|i: int| n <= i < n + w.len() implies spec_is_whitespace(#[trigger] x[i]) by {
            assert(x[i] == w[i - n]);
        }
        lemma_lex_skip_ws(x, n, n + w.len());
        assert(x.subrange(n + w.len(), x.len() as int) =~= b);
        assert(y.subrange(n, y.len() as int) =~= b);
        lemma_lex_suffix(x, n + w.len(), y, n);
    } else {
        let c = a[k];
        assert(x[k] == c && y[k] == c);
        assert(spec_is_whitespace(x[n]));
        assert(!is_name_char(x[n]));
        let plus = seq!['足', 'す'];
        if spec_is_whitespace(c) || c == 'J' || c == 'ッ' || c == '「' || c == '」' {
            lemma_lex_insert_ws(a, w, b, k + 1);
        } else {
            assert(spec_starts_with(x, k, plus) == spec_starts_with(y, k, plus)) by {
                if k + 1 < n {
                    assert(x[k + 1] == y[k + 1]);
                    assert(x.subrange(k, k + 2) =~= seq![x[k], x[k + 1]]);
                    assert(y.subrange(k, k + 2) =~= seq![y[k], y[k + 1]]);
                } else {
                    if spec_starts_with(x, k, plus) {
                        assert(x.subrange(k, k + 2)[1] == x[k + 1]);
                    }
                    if spec_starts_with(y, k, plus) {
                        assert(y.subrange(k, k + 2)[1] == y[k + 1]);
                        assert(y.subrange(k, k + 2)[0] == y[k]);
                        assert(y[k + 1] == b[0]);
                    }
                }
            }
            if spec_starts_with(x, k, plus) {
                assert(x.subrange(k, k + 2)[1] == x[k + 1]);
                lemma_lex_insert_ws(a, w, b, k + 2);
            } else if spec_is_katakana(c) {
                assert forall|i: int| k + 1 <= i < n implies x[i] == y[i] by {
                    assert(x[i] == a[i]);
                    assert(y[i] == a[i]);
                }
                if !exists|q: int| k + 1 <= q < n && !is_name_char(#[trigger] x[q]) {
                    assert(is_name_char(a.last())) by {
                        if k + 1 < n {
                            assert(is_name_char(x[n - 1]));
                        }
                    }
                    assert(ends_name(y, n)) by {
                        if n < y.len() {
                            assert(y[n] == b[0]);
                        }
                    }
                }
                lemma_name_end_upto(x, y, k + 1, n);
                crate::lexer::lemma_name_end(x, k + 1);
                let e = name_end(x, k + 1);
                assert(x.subrange(k, e) =~= y.subrange(k, e));
                lemma_lex_insert_ws(a, w, b, e);
            }
        }
    }
}

/// White space only separates tokens: putting white space between two parts of a
/// text, where it splits neither a name nor `足す`, leaves its tokens and its
/// parse as they were, and a text that does not lex still does not.
pub proof fn law_whitespace_separates(a: Seq<char>, w: Seq<char>, b: Seq<char>)
    requires
        w.len() > 0,
        forall|i: int| 0 <= i < w.len() ==> spec_is_whitespace(#[trigger] w[i]),
        !(a.len() > 0 && b.len() > 0 && is_name_char(a.last()) && is_name_char(b[0])),
        !(a.len() > 0 && b.len() > 0 && a.last() == '足' && b[0] == 'す'),
    ensures
        (spec_lex(a + w + b) is Ok) == (spec_lex(a + b) is Ok),
        spec_lex(a + b) is Ok ==> spec_lex(a + w + b) == spec_lex(a + b) && spec_parse(a + w + b)
            == spec_parse(a + b),
{
    lemma_lex_insert_ws(a, w, b, 0);
}


/// The characters of variable names are those of the Unicode Katakana block
/// (U+30A0 to U+30FF) and of the Katakana Phonetic Extensions (U+31F0 to U+31FF),
/// but for the small tsu `ッ`, which marks a binder's body.
pub proof fn law_name_characters(c: char)
    ensures
        is_name_char(c) <==> ((0x30A0 <= c as u32 <= 0x30FF || 0x31F0 <= c as u32 <= 0x31FF) && c
            != 'ッ'),
{
}

/// Every name made of characters of those two Unicode blocks other than `ッ` (the
/// long-vowel mark `ー` among them) can be bound and used: `J name ッ name` parses to
/// the binder of that name over the variable itself.
pub proof fn law_katakana_names_bind(v: Seq<char>)
    requires
        v.len() > 0,
        forall|k: int|
            0 <= k < v.len() ==> (0x30A0 <= #[trigger] v[k] as u32 <= 0x30FF || 0x31F0 <= v[k] as u32
                <= 0x31FF) && v[k] != 'ッ',
    ensures
        spec_parse(seq!['J'] + v + seq!['ッ'] + v) == Ok::<Term, SyntaxError>(
            Term::Abs(v, Box::new(Term::Var(v))),
        ),
{
    assert forall|k: int| 0 <= k < v.len() implies is_name_char(#[trigger] v[k]) by {
        law_name_characters(v[k]);
    }
    let e = Term::Abs(v, Box::new(Term::Var(v)));
    assert(is_name(v));
    assert(well_named(Term::Var(v)));
    assert(well_named(e));
    law_parse_show(e);
    assert(show(Term::Var(v)) == v);
    assert(show(e) =~= seq!['J'] + v + seq!['ッ'] + v);
}

} // verus!
