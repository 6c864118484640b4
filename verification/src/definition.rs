//! Go to definition: from a position in a program to the span of the name that
//! binds the variable there, either the nearest enclosing `J variable ッ` binder or
//! a top-level `上げる variable は expression` definition.

use vstd::prelude::*;
use crate::syntax::{is_katakana, is_name_char, is_whitespace, spec_is_whitespace, spec_starts_with, starts_with};
use crate::lexer::{lemma_name_end, name_end, string_of};
use crate::outline::{spec_src_lex, src_expr_at, src_lex, Outline, SrcExpr, SrcParser};
use crate::position::{contains_fuzzy, lemma_line_ranges_bounds, lemma_next_newline, line_ranges, line_ranges_from, lines_of, next_newline, spec_contains_fuzzy, spec_lines, Pos, Span};
use crate::text::{chars_of, push_str};

verus! {

/// Names with the spans where they are bound.
pub open spec fn defs_view(d: Seq<(String, Span)>) -> Seq<(Seq<char>, Span)> {
    d.map_values(|p: (String, Span)| (p.0@, p.1))
}

/// The span of the last binding of `name` in `d`.
pub open spec fn last_binding(d: Seq<(Seq<char>, Span)>, name: Seq<char>) -> Option<Span>
    decreases d.len(),
{
    if d.len() == 0 {
        None
    } else if d.last().0 == name {
        Some(d.last().1)
    } else {
        last_binding(d.drop_last(), name)
    }
}

/// The binding of the variable at `pos` in `e`, where binders `env` enclose `e` and
/// `top` are the top-level definitions; a binder's own name is its definition.
pub open spec fn spec_find_definition(
    e: Outline,
    pos: Pos,
    env: Seq<(Seq<char>, Span)>,
    top: Seq<(Seq<char>, Span)>,
) -> Option<Span>
    decreases e,
{
    match e {
        Outline::Var { name, span } => if spec_contains_fuzzy(span, pos) {
            match last_binding(env, name) {
                Some(s) => Some(s),
                None => last_binding(top, name),
            }
        } else {
            None
        },
        Outline::Abs { param, param_span, body, .. } => if spec_contains_fuzzy(param_span, pos) {
            Some(param_span)
        } else {
            spec_find_definition(*body, pos, env.push((param, param_span)), top)
        },
        Outline::App { left, right, .. } => match spec_find_definition(*left, pos, env, top) {
            Some(s) => Some(s),
            None => spec_find_definition(*right, pos, env, top),
        },
    }
}

/// The span of the last binding of `name` in `defs`.
pub fn last_binding_of(defs: &Vec<(String, Span)>, name: &String) -> (r: Option<Span>)
    ensures
        r == last_binding(defs_view(defs@), name@),
{
    let ghost d = defs_view(defs@);
    let mut k = defs.len();
    assert(d.subrange(0, k as int) =~= d);
    while k > 0
        invariant
            k <= defs.len(),
            d == defs_view(defs@),
            last_binding(d, name@) == last_binding(d.subrange(0, k as int), name@),
        decreases k,
    {
        let ghost dk = d.subrange(0, k as int);
        assert(dk.drop_last() =~= d.subrange(0, k - 1));
        if defs[k - 1].0.eq(name) {
            return Some(defs[k - 1].1);
        }
        k -= 1;
    }
    assert(d.subrange(0, 0).len() == 0);
    None
}

/// Finds the binding of the variable at `pos`, with binders `env` around `expr`.
pub fn find_definition(
    expr: &SrcExpr,
    pos: Pos,
    env: &mut Vec<(String, Span)>,
    top_defs: &Vec<(String, Span)>,
) -> (r: Option<Span>)
    requires
        pos.character < usize::MAX,
    ensures
        final(env)@ == old(env)@,
        r == spec_find_definition(expr@, pos, defs_view(old(env)@), defs_view(top_defs@)),
    decreases expr,
{
    match expr {
        SrcExpr::Var { name, span } => {
            if contains_fuzzy(*span, pos) {
                match last_binding_of(env, name) {
                    Some(s) => Some(s),
                    None => last_binding_of(top_defs, name),
                }
            } else {
                None
            }
        },
        SrcExpr::Abs { param, param_span, body, .. } => {
            if contains_fuzzy(*param_span, pos) {
                return Some(*param_span);
            }
            let ghost e0 = env@;
            env.push((param.clone(), *param_span));
            assert(defs_view(env@) =~= defs_view(e0).push((param@, *param_span)));
            let found = find_definition(body, pos, env, top_defs);
            env.pop();
            assert(env@ =~= e0);
            found
        },
        SrcExpr::App { left, right, .. } => {
            match find_definition(left, pos, env, top_defs) {
                Some(s) => Some(s),
                None => find_definition(right, pos, env, top_defs),
            }
        },
    }
}

/// A character of a variable name.
pub fn is_variable_char(c: char) -> (r: bool)
    ensures
        r == is_name_char(c),
{
    is_katakana(c) && c != 'ッ'
}

/// The first name run of `cs`, starting at an index from `start` on, whose span on
/// line `pos.line` holds `pos` in the loose sense of [`spec_contains_fuzzy`].
pub open spec fn name_near(cs: Seq<char>, pos: Pos, start: int) -> Option<Seq<char>>
    decreases cs.len() - start,
{
    if start < 0 || start >= cs.len() {
        None
    } else if !is_name_char(cs[start]) {
        name_near(cs, pos, start + 1)
    } else {
        let end = name_end(cs, start + 1);
        let span = Span {
            start: Pos { line: pos.line, character: start as usize },
            end: Pos { line: pos.line, character: end as usize },
        };
        if spec_contains_fuzzy(span, pos) {
            Some(cs.subrange(start, end))
        } else {
            name_near(cs, pos, start + 1)
        }
    }
}

/// The variable name under `pos` in the text `text`.
pub open spec fn spec_variable_at(text: Seq<char>, pos: Pos) -> Option<Seq<char>> {
    let lines = spec_lines(text);
    if pos.line >= lines.len() {
        None
    } else {
        name_near(lines[pos.line as int], pos, 0)
    }
}

/// The characters `chars[start..end]`.
pub(crate) fn sub_chars(chars: &Vec<char>, start: usize, end: usize) -> (r: Vec<char>)
    requires
        start <= end <= chars.len(),
    ensures
        r@ == chars@.subrange(start as int, end as int),
{
    let mut r: Vec<char> = Vec::new();
    let mut k = start;
    while k < end
        invariant
            start <= k <= end <= chars.len(),
            r@ == chars@.subrange(start as int, k as int),
        decreases end - k,
    {
        r.push(chars[k]);
        k += 1;
        assert(r@ =~= chars@.subrange(start as int, k as int));
    }
    r
}

/// The variable name under `pos`, read from the text alone.
pub fn variable_at_position(input: &str, pos: Pos) -> (r: Option<String>)
    requires
        pos.character < usize::MAX,
    ensures
        match spec_variable_at(input@, pos) {
            Some(n) => r is Some && r->Some_0@ == n,
            None => r is None,
        },
{
    let all = chars_of(input);
    let ranges = lines_of(&all);
    if pos.line >= ranges.len() {
        return None;
    }
    proof {
        crate::position::lemma_line_ranges_bounds(all@, 0);
    }
    let (s, e) = ranges[pos.line];
    assert(line_ranges(all@)[pos.line as int].0 <= line_ranges(all@)[pos.line as int].1 <= all@.len());
    let chars = sub_chars(&all, s, e);
    assert(spec_lines(input@)[pos.line as int] == chars@);
    let mut start: usize = 0;
    while start < chars.len()
        invariant
            start <= chars.len(),
            pos.character < usize::MAX,
            spec_variable_at(input@, pos) == name_near(chars@, pos, 0),
            name_near(chars@, pos, 0) == name_near(chars@, pos, start as int),
        decreases chars.len() - start,
    {
        if is_variable_char(chars[start]) {
            proof {
                lemma_name_end(chars@, start + 1);
            }
            let mut end = start + 1;
            while end < chars.len() && is_variable_char(chars[end])
                invariant
                    start < end <= chars.len(),
                    name_end(chars@, start + 1) == name_end(chars@, end as int),
                decreases chars.len() - end,
            {
                end += 1;
            }
            let span = Span {
                start: Pos { line: pos.line, character: start },
                end: Pos { line: pos.line, character: end },
            };
            if contains_fuzzy(span, pos) {
                return Some(string_of(&chars, start, end));
            }
        }
        start += 1;
    }
    None
}


/// The index of the first character at or after `i` that is not white space.
pub open spec fn skip_space(cs: Seq<char>, i: int) -> int
    decreases cs.len() - i,
{
    if 0 <= i < cs.len() && spec_is_whitespace(cs[i]) {
        skip_space(cs, i + 1)
    } else {
        i
    }
}

/// The index of the first `は` at or after `i`, or the length of `cs`.
pub open spec fn find_ha(cs: Seq<char>, i: int) -> int
    decreases cs.len() - i,
{
    if 0 <= i < cs.len() && cs[i] != 'は' {
        find_ha(cs, i + 1)
    } else {
        i
    }
}

/// `end` moved back over white space, but not before `start`.
pub open spec fn trim_back(cs: Seq<char>, start: int, end: int) -> int
    decreases end - start,
{
    if start < end && spec_is_whitespace(cs[end - 1]) {
        trim_back(cs, start, end - 1)
    } else {
        end
    }
}

/// The keyword `上げる` that opens a definition.
pub open spec fn define_keyword() -> Seq<char> {
    seq!['上', 'げ', 'る']
}

/// The name that a line `cs` (line `line_no` of its text) binds with the keyword
/// `kw`, and the name's span: the line reads, after white space, the keyword, white
/// space, the name, white space and `は`; the name is one or
/// more Katakana other than `ッ`.
pub open spec fn named_line(line_no: nat, cs: Seq<char>, kw: Seq<char>) -> Option<(Seq<char>, Span)> {
    let i0 = skip_space(cs, 0);
    if !spec_starts_with(cs, i0, kw) {
        None
    } else {
        let start = skip_space(cs, i0 + kw.len());
        let end = trim_back(cs, start, find_ha(cs, start));
        let name = cs.subrange(start, end);
        if find_ha(cs, start) >= cs.len() || start == end || !(forall|k: int|
            0 <= k < name.len() ==> is_name_char(#[trigger] name[k])) {
            None
        } else {
            Some(
                (
                    name,
                    Span {
                        start: Pos { line: line_no as usize, character: start as usize },
                        end: Pos { line: line_no as usize, character: end as usize },
                    },
                ),
            )
        }
    }
}

/// The name that line `line_no`, of text `cs`, defines with `上げる`, and the name's span.
pub open spec fn spec_top_level_definition(line_no: nat, cs: Seq<char>) -> Option<(Seq<char>, Span)> {
    named_line(line_no, cs, define_keyword())
}

/// The index just past the first `は` of `cs` after the name that a keyword line
/// binds, where there is one; the length of `cs` where there is none.
pub open spec fn after_name(cs: Seq<char>, kw: Seq<char>) -> int {
    let start = skip_space(cs, skip_space(cs, 0) + kw.len());
    let h = find_ha(cs, start);
    if h < cs.len() {
        h + 1
    } else {
        h
    }
}

pub proof fn lemma_skip_space(cs: Seq<char>, i: int)
    requires
        0 <= i <= cs.len(),
    ensures
        i <= skip_space(cs, i) <= cs.len(),
    decreases cs.len() - i,
{
    if i < cs.len() && spec_is_whitespace(cs[i]) {
        lemma_skip_space(cs, i + 1);
    }
}

/// The name that line `line_no`, whose characters are `chars`, binds with the
/// keyword `kw`, and its span.
pub fn named_line_at(line_no: usize, chars: &Vec<char>, kw: &str) -> (r: Option<(String, Span)>)
    ensures
        match named_line(line_no as nat, chars@, kw@) {
            Some((n, s)) => r is Some && r->Some_0.0@ == n && r->Some_0.1 == s,
            None => r is None,
        },
{
    let ghost cs = chars@;
    let mut i: usize = 0;
    while i < chars.len() && is_whitespace(chars[i])
        invariant
            i <= chars.len(),
            skip_space(cs, 0) == skip_space(cs, i as int),
            cs == chars@,
        decreases chars.len() - i,
    {
        i += 1;
    }
    if !starts_with(chars.as_slice(), i, kw) {
        return None;
    }
    let kl = kw.unicode_len();
    i += kl;
    let ghost i0 = skip_space(cs, 0);
    while i < chars.len() && is_whitespace(chars[i])
        invariant
            i <= chars.len(),
            i0 + kw@.len() <= i,
            skip_space(cs, i0 + kw@.len()) == skip_space(cs, i as int),
            cs == chars@,
        decreases chars.len() - i,
    {
        i += 1;
    }
    let start = i;
    while i < chars.len() && chars[i] != 'は'
        invariant
            start <= i <= chars.len(),
            find_ha(cs, start as int) == find_ha(cs, i as int),
            cs == chars@,
        decreases chars.len() - i,
    {
        i += 1;
    }
    if i >= chars.len() {
        return None;
    }
    let mut end = i;
    while end > start && is_whitespace(chars[end - 1])
        invariant
            start <= end <= chars.len(),
            trim_back(cs, start as int, i as int) == trim_back(cs, start as int, end as int),
            cs == chars@,
        decreases end,
    {
        end -= 1;
    }
    if start == end {
        return None;
    }
    assert(spec_starts_with(cs, i0, kw@));
    assert(start == skip_space(cs, i0 + kw@.len()));
    assert(end == trim_back(cs, start as int, find_ha(cs, start as int)));
    let mut k = start;
    while k < end
        invariant
            start <= k <= end <= chars.len(),
            i0 == skip_space(cs, 0),
            spec_starts_with(cs, i0, kw@),
            start == skip_space(cs, i0 + kw@.len()),
            end == trim_back(cs, start as int, find_ha(cs, start as int)),
            forall|j: int| start <= j < k ==> is_name_char(#[trigger] cs[j]),
            cs == chars@,
        decreases end - k,
    {
        if !is_variable_char(chars[k]) {
            proof {
                let name = cs.subrange(start as int, end as int);
                assert(name[k - start] == cs[k as int]);
            }
            return None;
        }
        k += 1;
    }
    proof {
        let name = cs.subrange(start as int, end as int);
        assert forall|j: int| 0 <= j < name.len() implies is_name_char(#[trigger] name[j]) by {
            assert(name[j] == cs[start + j]);
        }
    }
    let name = string_of(chars, start, end);
    Some(
        (
            name,
            Span {
                start: Pos { line: line_no, character: start },
                end: Pos { line: line_no, character: end },
            },
        ),
    )
}

/// The name that line `line_no` defines at top level, and its span.
pub fn top_level_definition_name(line_no: usize, line: &str) -> (r: Option<(String, Span)>)
    ensures
        match spec_top_level_definition(line_no as nat, line@) {
            Some((n, s)) => r is Some && r->Some_0.0@ == n && r->Some_0.1 == s,
            None => r is None,
        },
{
    let chars = chars_of(line);
    proof {
        reveal_strlit("上げる");
        assert("上げる"@ =~= define_keyword());
    }
    named_line_at(line_no, &chars, "上げる")
}

/// Line `k` of the program as the parser sees it: a definition line is blanked out.
pub open spec fn body_line(k: nat, line: Seq<char>) -> Seq<char> {
    if spec_top_level_definition(k, line) is Some {
        seq![]
    } else {
        line
    }
}

/// The top-level definitions of the first `n` lines, in order.
pub open spec fn top_defs_upto(lines: Seq<Seq<char>>, n: nat) -> Seq<(Seq<char>, Span)>
    decreases n,
{
    if n == 0 {
        seq![]
    } else {
        let k = (n - 1) as nat;
        match spec_top_level_definition(k, lines[k as int]) {
            Some(d) => top_defs_upto(lines, k).push(d),
            None => top_defs_upto(lines, k),
        }
    }
}

/// The first `n` lines as the parser sees them, joined by line feeds.
pub open spec fn body_upto(lines: Seq<Seq<char>>, n: nat) -> Seq<char>
    decreases n,
{
    if n == 0 {
        seq![]
    } else if n == 1 {
        body_line(0, lines[0])
    } else {
        let k = (n - 1) as nat;
        body_upto(lines, k) + seq!['\n'] + body_line(k, lines[k as int])
    }
}

/// The top-level definitions of the text.
pub open spec fn program_definitions(text: Seq<char>) -> Seq<(Seq<char>, Span)> {
    top_defs_upto(spec_lines(text), spec_lines(text).len())
}

/// The text with its definition lines blanked out, and its lines joined by line feeds.
pub open spec fn source_body(text: Seq<char>) -> Seq<char> {
    body_upto(spec_lines(text), spec_lines(text).len())
}

/// The program text without its definition lines, and the definitions' names with
/// their spans.
pub fn lsp_source_body_and_top_defs(input: &str) -> (r: (String, Vec<(String, Span)>))
    ensures
        r.0@ == source_body(input@),
        defs_view(r.1@) == program_definitions(input@),
{
    let chars = chars_of(input);
    let ranges = lines_of(&chars);
    let ghost lines = spec_lines(input@);
    proof {
        crate::position::lemma_line_ranges_bounds(chars@, 0);
    }
    let mut body = String::new();
    let mut defs: Vec<(String, Span)> = Vec::new();
    let mut k: usize = 0;
    proof {
        assert(defs_view(defs@) =~= Seq::<(Seq<char>, Span)>::empty());
    }
    while k < ranges.len()
        invariant
            chars@ == input@,
            lines == spec_lines(input@),
            lines.len() == ranges@.len(),
            ranges@.len() == line_ranges(chars@).len(),
            forall|j: int|
                0 <= j < ranges@.len() ==> ranges@[j].0 == line_ranges(chars@)[j].0
                    && ranges@[j].1 == line_ranges(chars@)[j].1,
            forall|j: int|
                0 <= j < line_ranges(chars@).len() ==> 0 <= #[trigger] line_ranges(chars@)[j].0
                    <= line_ranges(chars@)[j].1 <= chars@.len(),
            k <= ranges.len(),
            body@ == body_upto(lines, k as nat),
            defs_view(defs@) == top_defs_upto(lines, k as nat),
        decreases ranges.len() - k,
    {
        let (s, e) = ranges[k];
        let line = string_of(&chars, s, e);
        assert(line@ == lines[k as int]);
        let ghost b0 = body@;
        let ghost d0 = defs@;
        if k > 0 {
            push_str(&mut body, "\n");
            proof {
                reveal_strlit("\n");
            }
        }
        match top_level_definition_name(k, line.as_str()) {
            Some(d) => {
                defs.push(d);
                assert(defs_view(defs@) =~= defs_view(d0).push((d.0@, d.1)));
            },
            None => {
                push_str(&mut body, line.as_str());
            },
        }
        proof {
            if k > 0 {
                assert(body@ =~= b0 + seq!['\n'] + body_line(k as nat, lines[k as int]));
            } else {
                assert(body@ =~= body_line(0, lines[0]));
            }
        }
        k += 1;
    }
    (body, defs)
}

/// The first definition whose name's span holds `pos`, loosely.
pub open spec fn first_containing(defs: Seq<(Seq<char>, Span)>, pos: Pos) -> Option<Span>
    decreases defs.len(),
{
    if defs.len() == 0 {
        None
    } else if spec_contains_fuzzy(defs[0].1, pos) {
        Some(defs[0].1)
    } else {
        first_containing(defs.drop_first(), pos)
    }
}

/// Where the name at `pos` in the program `text` is bound:
/// on a definition's own name, that name; else, in the program without its
/// definition lines, the nearest enclosing `J` binder of the variable there, or the
/// last top-level definition of its name; else (on a definition line, or where the
/// program does not parse) the last top-level definition of the name at `pos`.
pub open spec fn spec_definition_span(text: Seq<char>, pos: Pos) -> Option<Span> {
    let defs = program_definitions(text);
    match first_containing(defs, pos) {
        Some(s) => Some(s),
        None => {
            let in_body = match spec_src_lex(source_body(text)) {
                Ok(ts) => match src_expr_at(ts, 0) {
                    Ok((e, _)) => spec_find_definition(e, pos, seq![], defs),
                    Err(_) => None,
                },
                Err(_) => None,
            };
            match in_body {
                Some(s) => Some(s),
                None => match spec_variable_at(text, pos) {
                    Some(n) => last_binding(defs, n),
                    None => None,
                },
            }
        },
    }
}

/// The span of the definition of the name at `pos` in the program `text`.
pub fn definition_span(text: &str, pos: Pos) -> (r: Option<Span>)
    requires
        pos.character < usize::MAX,
    ensures
        r == spec_definition_span(text@, pos),
{
    let (body, top_defs) = lsp_source_body_and_top_defs(text);
    let ghost d = defs_view(top_defs@);
    let mut k: usize = 0;
    assert(d.subrange(0, d.len() as int) =~= d);
    while k < top_defs.len()
        invariant
            k <= top_defs.len(),
            pos.character < usize::MAX,
            d == defs_view(top_defs@),
            d == program_definitions(text@),
            first_containing(d, pos) == first_containing(d.subrange(k as int, d.len() as int), pos),
        decreases top_defs.len() - k,
    {
        let ghost dk = d.subrange(k as int, d.len() as int);
        assert(dk.drop_first() =~= d.subrange(k + 1, d.len() as int));
        assert(dk[0] == d[k as int]);
        if contains_fuzzy(top_defs[k].1, pos) {
            return Some(top_defs[k].1);
        }
        k += 1;
    }
    assert(d.subrange(k as int, d.len() as int).len() == 0);
    let in_body = match src_lex(body.as_str()) {
        Ok(tokens) => {
            let mut parser = SrcParser { tokens, pos: 0 };
            match parser.parse_expr() {
                Ok(expr) => {
                    let mut env: Vec<(String, Span)> = Vec::new();
                    assert(defs_view(env@) =~= Seq::<(Seq<char>, Span)>::empty());
                    find_definition(&expr, pos, &mut env, &top_defs)
                },
                Err(_) => None,
            }
        },
        Err(_) => None,
    };
    match in_body {
        Some(s) => Some(s),
        None => match variable_at_position(text, pos) {
            Some(name) => last_binding_of(&top_defs, &name),
            None => None,
        },
    }
}


/// The binders of `e` in pre-order, each as its parameter's name and span.
pub open spec fn binder_spans(e: Outline) -> Seq<(Seq<char>, Span)>
    decreases e,
{
    match e {
        Outline::Var { .. } => seq![],
        Outline::Abs { param, param_span, body, .. } => seq![(param, param_span)] + binder_spans(*body),
        Outline::App { left, right, .. } => binder_spans(*left) + binder_spans(*right),
    }
}

/// Some entry of `d` has the span `s`.
pub open spec fn has_span(d: Seq<(Seq<char>, Span)>, s: Span) -> bool {
    exists|k: int| 0 <= k < d.len() && #[trigger] d[k].1 == s
}

proof fn lemma_last_binding_in(d: Seq<(Seq<char>, Span)>, name: Seq<char>)
    ensures
        last_binding(d, name) matches Some(s) ==> has_span(d, s),
    decreases d.len(),
{
    if d.len() > 0 {
        if d.last().0 == name {
            assert(d[d.len() - 1].1 == d.last().1);
        } else {
            lemma_last_binding_in(d.drop_last(), name);
            if let Some(s) = last_binding(d.drop_last(), name) {
                let k = choose|k: int| 0 <= k < d.drop_last().len() && #[trigger] d.drop_last()[k].1 == s;
                assert(d[k].1 == s);
            }
        }
    }
}

proof fn lemma_find_lands_on_binding(
    e: Outline,
    pos: Pos,
    env: Seq<(Seq<char>, Span)>,
    top: Seq<(Seq<char>, Span)>,
)
    ensures
        spec_find_definition(e, pos, env, top) matches Some(s) ==> has_span(binder_spans(e), s)
            || has_span(env, s) || has_span(top, s),
    decreases e,
{
    match e {
        Outline::Var { name, span } => {
            lemma_last_binding_in(env, name);
            lemma_last_binding_in(top, name);
        },
        Outline::Abs { param, param_span, body, .. } => {
            let env2 = env.push((param, param_span));
            lemma_find_lands_on_binding(*body, pos, env2, top);
            let bs = binder_spans(e);
            let bb = binder_spans(*body);
            assert(bs =~= seq![(param, param_span)] + bb);
            if let Some(s) = spec_find_definition(e, pos, env, top) {
                if spec_contains_fuzzy(param_span, pos) {
                    assert(bs[0].1 == s);
                } else if has_span(bb, s) {
                    let k = choose|k: int| 0 <= k < bb.len() && #[trigger] bb[k].1 == s;
                    assert(bs[k + 1].1 == s);
                } else if has_span(env2, s) {
                    let k = choose|k: int| 0 <= k < env2.len() && #[trigger] env2[k].1 == s;
                    if k == env.len() {
                        assert(bs[0].1 == s);
                    } else {
                        assert(env[k].1 == s);
                    }
                }
            }
        },
        Outline::App { left, right, .. } => {
            lemma_find_lands_on_binding(*left, pos, env, top);
            lemma_find_lands_on_binding(*right, pos, env, top);
            let bl = binder_spans(*left);
            let br = binder_spans(*right);
            let bs = binder_spans(e);
            assert(bs =~= bl + br);
            if let Some(s) = spec_find_definition(e, pos, env, top) {
                if spec_find_definition(*left, pos, env, top) is Some {
                    if has_span(bl, s) {
                        let k = choose|k: int| 0 <= k < bl.len() && #[trigger] bl[k].1 == s;
                        assert(bs[k].1 == s);
                    }
                } else {
                    if has_span(br, s) {
                        let k = choose|k: int| 0 <= k < br.len() && #[trigger] br[k].1 == s;
                        assert(bs[bl.len() + k].1 == s);
                    }
                }
            }
        },
    }
}

proof fn lemma_first_containing_in(d: Seq<(Seq<char>, Span)>, pos: Pos)
    ensures
        first_containing(d, pos) matches Some(s) ==> has_span(d, s),
    decreases d.len(),
{
    if d.len() > 0 {
        if spec_contains_fuzzy(d[0].1, pos) {
            assert(d[0].1 == d[0].1);
        } else {
            lemma_first_containing_in(d.drop_first(), pos);
            if let Some(s) = first_containing(d.drop_first(), pos) {
                let k = choose|k: int| 0 <= k < d.drop_first().len() && #[trigger] d.drop_first()[k].1 == s;
                assert(d[k + 1].1 == s);
            }
        }
    }
}

/// Go to definition lands on a binding: the span it finds is the name of a
/// top-level definition of the program, or the parameter of a binder in the
/// program's body.
pub proof fn law_definition_lands_on_binding(text: Seq<char>, pos: Pos)
    ensures
        spec_definition_span(text, pos) matches Some(s) ==> has_span(program_definitions(text), s) || (
        spec_src_lex(source_body(text)) matches Ok(ts) && src_expr_at(ts, 0) matches Ok((e, _))
            && has_span(binder_spans(e), s)),
{
    let defs = program_definitions(text);
    lemma_first_containing_in(defs, pos);
    match spec_variable_at(text, pos) {
        Some(n) => lemma_last_binding_in(defs, n),
        None => {},
    }
    match spec_src_lex(source_body(text)) {
        Ok(ts) => match src_expr_at(ts, 0) {
            Ok((e, _)) => {
                lemma_find_lands_on_binding(e, pos, seq![], defs);
            },
            Err(_) => {},
        },
        Err(_) => {},
    }
}


/// The name run read from index `t` of line `cs`, from `t` to the run's end, holds
/// `pos` in the loose sense.
pub open spec fn touches_at(cs: Seq<char>, pos: Pos, t: int) -> bool {
    &&& 0 <= t < cs.len()
    &&& is_name_char(cs[t])
    &&& spec_contains_fuzzy(
        Span {
            start: Pos { line: pos.line, character: t as usize },
            end: Pos { line: pos.line, character: name_end(cs, t + 1) as usize },
        },
        pos,
    )
}

/// A whole name run of line `cs` starts at `t` and holds `pos` in the loose sense.
pub open spec fn run_touches(cs: Seq<char>, pos: Pos, t: int) -> bool {
    &&& touches_at(cs, pos, t)
    &&& (t == 0 || !is_name_char(cs[t - 1]))
}

proof fn lemma_name_near(cs: Seq<char>, pos: Pos, start: int)
    requires
        0 <= start <= cs.len(),
    ensures
        name_near(cs, pos, start) matches Some(n) ==> exists|t: int|
            start <= t && #[trigger] touches_at(cs, pos, t) && n == cs.subrange(t, name_end(cs, t + 1))
                && forall|u: int| start <= u < t ==> !touches_at(cs, pos, u),
        name_near(cs, pos, start) is None ==> forall|u: int|
            start <= u ==> !#[trigger] touches_at(cs, pos, u),
    decreases cs.len() - start,
{
    if start < cs.len() {
        lemma_name_near(cs, pos, start + 1);
        if let Some(n) = name_near(cs, pos, start) {
            if touches_at(cs, pos, start) {
                assert(n == cs.subrange(start, name_end(cs, start + 1)));
            } else {
                let t = choose|t: int|
                    start + 1 <= t && #[trigger] touches_at(cs, pos, t) && n == cs.subrange(
                        t,
                        name_end(cs, t + 1),
                    ) && forall|u: int| start + 1 <= u < t ==> !touches_at(cs, pos, u);
                assert(forall|u: int| start <= u < t ==> !touches_at(cs, pos, u));
            }
        }
    }
}

proof fn lemma_touches_back(cs: Seq<char>, pos: Pos, t: int)
    requires
        touches_at(cs, pos, t),
        t > 0,
        is_name_char(cs[t - 1]),
        cs.len() <= usize::MAX,
    ensures
        touches_at(cs, pos, t - 1),
{
    assert(name_end(cs, t) == name_end(cs, t + 1));
    lemma_name_end(cs, t + 1);
}

/// The variable under a position is the whole name run, on the position's line,
/// with the least start whose span holds the position in the loose sense; there is
/// none where no name run holds it.
pub proof fn law_variable_is_whole_run(text: Seq<char>, pos: Pos)
    requires
        pos.line < spec_lines(text).len(),
        spec_lines(text)[pos.line as int].len() <= usize::MAX,
    ensures
        ({
            let cs = spec_lines(text)[pos.line as int];
            &&& spec_variable_at(text, pos) matches Some(n) ==> exists|t: int|
                #[trigger] run_touches(cs, pos, t) && n == cs.subrange(t, name_end(cs, t + 1))
                    && forall|u: int| 0 <= u < t ==> !run_touches(cs, pos, u)
            &&& spec_variable_at(text, pos) is None ==> forall|u: int|
                !#[trigger] run_touches(cs, pos, u)
        }),
{
    let cs = spec_lines(text)[pos.line as int];
    lemma_name_near(cs, pos, 0);
    if let Some(n) = spec_variable_at(text, pos) {
        let t = choose|t: int|
            0 <= t && #[trigger] touches_at(cs, pos, t) && n == cs.subrange(t, name_end(cs, t + 1))
                && forall|u: int| 0 <= u < t ==> !touches_at(cs, pos, u);
        if t > 0 && is_name_char(cs[t - 1]) {
            lemma_touches_back(cs, pos, t);
        }
        assert(run_touches(cs, pos, t));
    }
}


/// The pieces of `cs` between its line feeds, all of them: `n` line feeds make
/// `n + 1` pieces.
pub open spec fn split_lf(cs: Seq<char>) -> Seq<Seq<char>>
    decreases cs.len(),
{
    let nl = next_newline(cs, 0);
    if nl >= cs.len() || nl < 0 {
        seq![cs]
    } else {
        seq![cs.subrange(0, nl)] + split_lf(cs.subrange(nl + 1, cs.len() as int))
    }
}

proof fn lemma_next_newline_is(cs: Seq<char>, j: int, m: int)
    requires
        0 <= j <= m <= cs.len(),
        forall|k: int| j <= k < m ==> cs[k] != '\n',
        m < cs.len() ==> cs[m] == '\n',
    ensures
        next_newline(cs, j) == m,
    decreases m - j,
{
    if j < m {
        lemma_next_newline_is(cs, j + 1, m);
    }
}

proof fn lemma_split_join(a: Seq<char>, b: Seq<char>)
    ensures
        split_lf(a + seq!['\n'] + b) == split_lf(a) + split_lf(b),
    decreases a.len(),
{
    let c = a + seq!['\n'] + b;
    lemma_next_newline(a, 0);
    let nl = next_newline(a, 0);
    if nl >= a.len() {
        assert forall|k: int| 0 <= k < a.len() implies c[k] != '\n' by {
            assert(c[k] == a[k]);
        }
        lemma_next_newline_is(c, 0, a.len() as int);
        assert(c.subrange(0, a.len() as int) =~= a);
        assert(c.subrange(a.len() + 1int, c.len() as int) =~= b);
    } else {
        assert forall|k: int| 0 <= k < nl implies c[k] != '\n' by {
            assert(c[k] == a[k]);
        }
        assert(c[nl] == a[nl]);
        lemma_next_newline_is(c, 0, nl);
        let a2 = a.subrange(nl + 1, a.len() as int);
        assert(c.subrange(0, nl) =~= a.subrange(0, nl));
        assert(c.subrange(nl + 1, c.len() as int) =~= a2 + seq!['\n'] + b);
        lemma_split_join(a2, b);
    }
}

proof fn lemma_split_plain(cs: Seq<char>)
    requires
        forall|k: int| 0 <= k < cs.len() ==> cs[k] != '\n',
    ensures
        split_lf(cs) == seq![cs],
{
    lemma_next_newline_is(cs, 0, cs.len() as int);
}

proof fn lemma_lines_plain(cs: Seq<char>, start: int)
    requires
        0 <= start,
    ensures
        forall|k: int, i: int|
            #![trigger line_ranges_from(cs, start)[k], cs[i]]
            0 <= k < line_ranges_from(cs, start).len() && line_ranges_from(cs, start)[k].0 <= i
                < line_ranges_from(cs, start)[k].1 ==> cs[i] != '\n',
    decreases cs.len() - start,
{
    if start < cs.len() {
        lemma_next_newline(cs, start);
        let nl = next_newline(cs, start);
        if nl < cs.len() {
            lemma_lines_plain(cs, nl + 1);
            let rest = line_ranges_from(cs, nl + 1);
            let all = line_ranges_from(cs, start);
            assert forall|k: int, i: int|
                #![trigger all[k], cs[i]]
                0 <= k < all.len() && all[k].0 <= i < all[k].1 implies cs[i] != '\n' by {
                if k > 0 {
                    assert(all[k] == rest[k - 1]);
                }
            }
        }
    }
}

proof fn lemma_body_pieces(lines: Seq<Seq<char>>, n: nat)
    requires
        1 <= n <= lines.len(),
        forall|k: int, i: int|
            #![trigger lines[k][i]]
            0 <= k < lines.len() && 0 <= i < lines[k].len() ==> lines[k][i] != '\n',
    ensures
        split_lf(body_upto(lines, n)) == Seq::new(n, |k: int| body_line(k as nat, lines[k])),
    decreases n,
{
    let l = body_line((n - 1) as nat, lines[n - 1]);
    assert forall|i: int| 0 <= i < l.len() implies l[i] != '\n' by {
        assert(lines[n - 1][i] != '\n');
    }
    lemma_split_plain(l);
    if n == 1 {
        assert(seq![l] =~= Seq::new(n, |k: int| body_line(k as nat, lines[k])));
    } else {
        lemma_body_pieces(lines, (n - 1) as nat);
        lemma_split_join(body_upto(lines, (n - 1) as nat), l);
        assert(Seq::new((n - 1) as nat, |k: int| body_line(k as nat, lines[k])) + seq![l] =~= Seq::new(
            n,
            |k: int| body_line(k as nat, lines[k]),
        ));
    }
}

/// The body that the language server parses keeps every line of the program in
/// its place: between its line feeds stand the program's lines in order, each
/// definition line blanked out and every other line as it is, so a token of the
/// body stands on the line where the program has it.
pub proof fn law_body_keeps_lines(text: Seq<char>)
    requires
        spec_lines(text).len() > 0,
    ensures
        split_lf(source_body(text)) == Seq::new(
            spec_lines(text).len(),
            |k: int| body_line(k as nat, spec_lines(text)[k]),
        ),
{
    let lines = spec_lines(text);
    lemma_lines_plain(text, 0);
    lemma_line_ranges_bounds(text, 0);
    assert forall|k: int, i: int|
        #![trigger lines[k][i]]
        0 <= k < lines.len() && 0 <= i < lines[k].len() implies lines[k][i] != '\n' by {
        let r = line_ranges(text)[k];
        assert(lines[k] == text.subrange(r.0, r.1));
        assert(lines[k][i] == text[r.0 + i]);
    }
    lemma_body_pieces(lines, lines.len());
}


/// Every answer that a node of `e` gives for `pos`, in traversal order (a binder's
/// parameter before its body, the left of an application before its right): a
/// binder's parameter span that holds `pos`, and the binding of a variable whose span
/// holds `pos`, where it has one.
pub open spec fn definition_hits(
    e: Outline,
    pos: Pos,
    env: Seq<(Seq<char>, Span)>,
    top: Seq<(Seq<char>, Span)>,
) -> Seq<Span>
    decreases e,
{
    match e {
        Outline::Var { name, span } => if spec_contains_fuzzy(span, pos) {
            match last_binding(env, name) {
                Some(s) => seq![s],
                None => match last_binding(top, name) {
                    Some(s) => seq![s],
                    None => seq![],
                },
            }
        } else {
            seq![]
        },
        Outline::Abs { param, param_span, body, .. } => if spec_contains_fuzzy(param_span, pos) {
            seq![param_span] + definition_hits(*body, pos, env.push((param, param_span)), top)
        } else {
            definition_hits(*body, pos, env.push((param, param_span)), top)
        },
        Outline::App { left, right, .. } => definition_hits(*left, pos, env, top) + definition_hits(
            *right,
            pos,
            env,
            top,
        ),
    }
}

/// Go-to-definition in an expression answers with the first of the answers that
/// its nodes give, in traversal order, and with nothing where no node gives one.
pub proof fn law_first_hit(
    e: Outline,
    pos: Pos,
    env: Seq<(Seq<char>, Span)>,
    top: Seq<(Seq<char>, Span)>,
)
    ensures
        spec_find_definition(e, pos, env, top) == if definition_hits(e, pos, env, top).len() > 0 {
            Some(definition_hits(e, pos, env, top)[0])
        } else {
            None::<Span>
        },
    decreases e,
{
    match e {
        Outline::Var { .. } => {},
        Outline::Abs { param, param_span, body, .. } => {
            law_first_hit(*body, pos, env.push((param, param_span)), top);
        },
        Outline::App { left, right, .. } => {
            law_first_hit(*left, pos, env, top);
            law_first_hit(*right, pos, env, top);
            let l = definition_hits(*left, pos, env, top);
            let r = definition_hits(*right, pos, env, top);
            if l.len() > 0 {
                assert((l + r)[0] == l[0]);
            } else {
                assert(l + r =~= r);
            }
        },
    }
}

} // verus!
