//! Programs: lines of expressions, comments, definitions and imports, and their
//! expansion into one expression before parsing.
//!
//! A comment line begins, after white space, with `え`. A definition line
//! `上げる name は expression` and an import line `貰う name は path` bind a name;
//! the other lines hold the program's expression, and line breaks between them are
//! white space. Every binding scopes over the lines after it and over the whole
//! expression: `上げる N は E` around a body `B` becomes `「JNッB」足す「E」`.

use vstd::prelude::*;
use crate::definition::{sub_chars, after_name, define_keyword, find_ha, lemma_skip_space, named_line, named_line_at, skip_space, trim_back};
use crate::lexer::string_of;
use crate::position::{lemma_line_ranges_bounds, line_ranges, lines_of, spec_lines};
use crate::server::{trim_end, trim_start};
use crate::syntax::is_whitespace;
use crate::text::{chars_of, push_char, push_str};
use crate::notation::{binding_text, is_name, lemma_binding_parses};
use crate::parser::spec_parse;
use crate::syntax::{spec_is_whitespace, spec_starts_with, Term};
use crate::error::SyntaxError;

verus! {

/// The keyword `貰う` that opens an import.
pub open spec fn import_keyword() -> Seq<char> {
    seq!['貰', 'う']
}

/// A line of a program, as a mathematical value.
pub enum SourceLine {
    Blank,
    Comment,
    Definition { name: Seq<char>, expr: Seq<char> },
    Import { name: Seq<char>, path: Seq<char> },
    Code,
}

/// What line number `k` of a program, whose characters are `cs`, is.
pub open spec fn classify(k: nat, cs: Seq<char>) -> SourceLine {
    let i0 = skip_space(cs, 0);
    if i0 >= cs.len() {
        SourceLine::Blank
    } else if cs[i0] == 'え' {
        SourceLine::Comment
    } else {
        match named_line(k, cs, define_keyword()) {
            Some((name, _)) => SourceLine::Definition {
                name,
                expr: trim_end(
                    trim_start(cs.subrange(after_name(cs, define_keyword()), cs.len() as int)),
                ),
            },
            None => match named_line(k, cs, import_keyword()) {
                Some((name, _)) => SourceLine::Import {
                    name,
                    path: trim_end(
                        trim_start(cs.subrange(after_name(cs, import_keyword()), cs.len() as int)),
                    ),
                },
                None => SourceLine::Code,
            },
        }
    }
}

/// The imports of the first `n` lines, in order, as name and path.
pub open spec fn imports_upto(lines: Seq<Seq<char>>, n: nat) -> Seq<(Seq<char>, Seq<char>)>
    decreases n,
{
    if n == 0 {
        seq![]
    } else {
        let k = (n - 1) as nat;
        match classify(k, lines[k as int]) {
            SourceLine::Import { name, path } => imports_upto(lines, k).push((name, path)),
            _ => imports_upto(lines, k),
        }
    }
}

/// The bindings of the first `n` lines, in order, as name and expression; the
/// expression of import number `i` is `imported[i]`.
pub open spec fn bindings_upto(lines: Seq<Seq<char>>, n: nat, imported: Seq<Seq<char>>) -> Seq<
    (Seq<char>, Seq<char>),
>
    decreases n,
{
    if n == 0 {
        seq![]
    } else {
        let k = (n - 1) as nat;
        match classify(k, lines[k as int]) {
            SourceLine::Definition { name, expr } => bindings_upto(lines, k, imported).push(
                (name, expr),
            ),
            SourceLine::Import { name, .. } => bindings_upto(lines, k, imported).push(
                (name, imported[imports_upto(lines, k).len() as int]),
            ),
            _ => bindings_upto(lines, k, imported),
        }
    }
}

/// The expression lines among the first `n` lines, joined by line feeds.
pub open spec fn code_upto(lines: Seq<Seq<char>>, n: nat) -> Seq<char>
    decreases n,
{
    if n == 0 {
        seq![]
    } else {
        let k = (n - 1) as nat;
        let before = code_upto(lines, k);
        if classify(k, lines[k as int]) is Code {
            if has_code(lines, k) {
                before + seq!['\n'] + lines[k as int]
            } else {
                lines[k as int]
            }
        } else {
            before
        }
    }
}

/// Some line before line `n` is an expression line.
pub open spec fn has_code(lines: Seq<Seq<char>>, n: nat) -> bool {
    exists|k: int| 0 <= k < n && #[trigger] classify(k as nat, lines[k]) is Code
}

/// The openings `「J name ッ` of the first `n` bindings.
pub open spec fn opens(bs: Seq<(Seq<char>, Seq<char>)>, n: nat) -> Seq<char>
    decreases n,
{
    if n == 0 {
        seq![]
    } else {
        opens(bs, (n - 1) as nat) + seq!['「', 'J'] + bs[n - 1].0 + seq!['ッ']
    }
}

/// The closings `」足す「 expression 」` of the first `n` bindings, innermost first.
pub open spec fn closes(bs: Seq<(Seq<char>, Seq<char>)>, n: nat) -> Seq<char>
    decreases n,
{
    if n == 0 {
        seq![]
    } else {
        seq!['」', '足', 'す', '「'] + bs[n - 1].1 + seq!['」'] + closes(bs, (n - 1) as nat)
    }
}

/// The program `text` as one expression, each binding wrapped around what follows
/// it, with `imported[i]` the expression of import number `i`.
pub open spec fn spec_expand(text: Seq<char>, imported: Seq<Seq<char>>) -> Seq<char> {
    let lines = spec_lines(text);
    let bs = bindings_upto(lines, lines.len(), imported);
    opens(bs, bs.len()) + code_upto(lines, lines.len()) + closes(bs, bs.len())
}

/// The imports of the program `text`, as name and path.
pub open spec fn spec_imports(text: Seq<char>) -> Seq<(Seq<char>, Seq<char>)> {
    imports_upto(spec_lines(text), spec_lines(text).len())
}

/// A line of a program.
pub enum Line {
    Blank,
    Comment,
    Definition { name: String, expr: String },
    Import { name: String, path: String },
    Code,
}

impl View for Line {
    type V = SourceLine;

    open spec fn view(&self) -> SourceLine {
        match self {
            Line::Blank => SourceLine::Blank,
            Line::Comment => SourceLine::Comment,
            Line::Definition { name, expr } => SourceLine::Definition { name: name@, expr: expr@ },
            Line::Import { name, path } => SourceLine::Import { name: name@, path: path@ },
            Line::Code => SourceLine::Code,
        }
    }
}

/// The index just past the first `は` after the name that a keyword line binds.
fn after_name_at(chars: &Vec<char>, kw: &str) -> (r: usize)
    requires
        skip_space(chars@, 0) + kw@.len() <= chars@.len(),
    ensures
        r == after_name(chars@, kw@),
        r <= chars.len(),
{
    let ghost cs = chars@;
    let mut i: usize = 0;
    proof {
        lemma_skip_space(cs, 0);
    }
    while i < chars.len() && is_whitespace(chars[i])
        invariant
            i <= chars.len(),
            skip_space(cs, 0) == skip_space(cs, i as int),
            cs == chars@,
        decreases chars.len() - i,
    {
        i += 1;
    }
    let kl = kw.unicode_len();
    i += kl;
    let ghost s0 = i as int;
    while i < chars.len() && is_whitespace(chars[i])
        invariant
            s0 <= i <= chars.len(),
            skip_space(cs, s0) == skip_space(cs, i as int),
            cs == chars@,
        decreases chars.len() - i,
    {
        i += 1;
    }
    let start = i;
    while i < chars.len() && chars[i] != 'は'
        invariant
            start <= i <= chars.len(),
            find_ha(cs, start as int) == find_ha(cs, i as int),
            cs == chars@,
        decreases chars.len() - i,
    {
        i += 1;
    }
    if i < chars.len() {
        i + 1
    } else {
        i
    }
}

/// The characters `chars[start..end]` with white space trimmed at both ends.
fn trimmed_string(chars: &Vec<char>, start: usize, end: usize) -> (r: String)
    requires
        start <= end <= chars.len(),
    ensures
        r@ == trim_end(trim_start(chars@.subrange(start as int, end as int))),
{
    let ghost cs = chars@;
    let mut a = start;
    while a < end && is_whitespace(chars[a])
        invariant
            start <= a <= end <= chars.len(),
            cs == chars@,
            trim_start(cs.subrange(start as int, end as int)) == trim_start(
                cs.subrange(a as int, end as int),
            ),
        decreases end - a,
    {
        assert(cs.subrange(a as int, end as int).drop_first() =~= cs.subrange(a + 1, end as int));
        a += 1;
    }
    assert(trim_start(cs.subrange(a as int, end as int)) == cs.subrange(a as int, end as int));
    let mut b = end;
    while b > a && is_whitespace(chars[b - 1])
        invariant
            a <= b <= end <= chars.len(),
            cs == chars@,
            trim_end(cs.subrange(a as int, end as int)) == trim_end(cs.subrange(a as int, b as int)),
        decreases b,
    {
        assert(cs.subrange(a as int, b as int).drop_last() =~= cs.subrange(a as int, b - 1));
        b -= 1;
    }
    assert(trim_end(cs.subrange(a as int, b as int)) == cs.subrange(a as int, b as int));
    string_of(chars, a, b)
}

/// What line number `k`, whose characters are `chars`, is.
pub fn classify_line(k: usize, chars: &Vec<char>) -> (r: Line)
    ensures
        r@ == classify(k as nat, chars@),
{
    let ghost cs = chars@;
    let mut i: usize = 0;
    while i < chars.len() && is_whitespace(chars[i])
        invariant
            i <= chars.len(),
            skip_space(cs, 0) == skip_space(cs, i as int),
            cs == chars@,
        decreases chars.len() - i,
    {
        i += 1;
    }
    if i >= chars.len() {
        return Line::Blank;
    }
    if chars[i] == 'え' {
        return Line::Comment;
    }
    proof {
        reveal_strlit("上げる");
        reveal_strlit("貰う");
        assert("上げる"@ =~= define_keyword());
        assert("貰う"@ =~= import_keyword());
    }
    match named_line_at(k, chars, "上げる") {
        Some((name, _)) => {
            let from = after_name_at(chars, "上げる");
            let expr = trimmed_string(chars, from, chars.len());
            return Line::Definition { name, expr };
        },
        None => {},
    }
    match named_line_at(k, chars, "貰う") {
        Some((name, _)) => {
            let from = after_name_at(chars, "貰う");
            let path = trimmed_string(chars, from, chars.len());
            Line::Import { name, path }
        },
        None => Line::Code,
    }
}


/// The last definition of `name` among the first `n` lines: its expression.
pub open spec fn last_definition(lines: Seq<Seq<char>>, n: nat, name: Seq<char>) -> Option<Seq<char>>
    decreases n,
{
    if n == 0 {
        None
    } else {
        let k = (n - 1) as nat;
        match classify(k, lines[k as int]) {
            SourceLine::Definition { name: nm, expr } => if nm == name {
                Some(expr)
            } else {
                last_definition(lines, k, name)
            },
            _ => last_definition(lines, k, name),
        }
    }
}

pub open spec fn pairs_view(v: Seq<(String, String)>) -> Seq<(Seq<char>, Seq<char>)> {
    v.map_values(|p: (String, String)| (p.0@, p.1@))
}

pub open spec fn strings_view(v: Seq<String>) -> Seq<Seq<char>> {
    v.map_values(|s: String| s@)
}

/// The characters of line `k` of `chars`, whose line ranges are `ranges`.
fn line_chars(chars: &Vec<char>, ranges: &Vec<(usize, usize)>, k: usize) -> (r: Vec<char>)
    requires
        k < ranges.len(),
        ranges@.len() == line_ranges(chars@).len(),
        forall|j: int|
            0 <= j < ranges@.len() ==> ranges@[j].0 == line_ranges(chars@)[j].0 && ranges@[j].1
                == line_ranges(chars@)[j].1,
    ensures
        r@ == spec_lines(chars@)[k as int],
{
    proof {
        lemma_line_ranges_bounds(chars@, 0);
        assert(0 <= line_ranges(chars@)[k as int].0 <= line_ranges(chars@)[k as int].1 <= chars@.len());
    }
    let (s, e) = ranges[k];
    sub_chars(chars, s, e)
}

/// The imports of the program `source`, as name and path, in order.
pub fn program_imports(source: &str) -> (r: Vec<(String, String)>)
    ensures
        pairs_view(r@) == spec_imports(source@),
{
    let chars = chars_of(source);
    let ranges = lines_of(&chars);
    let ghost lines = spec_lines(source@);
    let mut out: Vec<(String, String)> = Vec::new();
    let mut k: usize = 0;
    assert(pairs_view(out@) =~= Seq::<(Seq<char>, Seq<char>)>::empty());
    while k < ranges.len()
        invariant
            chars@ == source@,
            lines == spec_lines(source@),
            lines.len() == ranges@.len(),
            ranges@.len() == line_ranges(chars@).len(),
            forall|j: int|
                0 <= j < ranges@.len() ==> ranges@[j].0 == line_ranges(chars@)[j].0 && ranges@[j].1
                    == line_ranges(chars@)[j].1,
            k <= ranges.len(),
            pairs_view(out@) == imports_upto(lines, k as nat),
        decreases ranges.len() - k,
    {
        let line = line_chars(&chars, &ranges, k);
        let ghost o = pairs_view(out@);
        match classify_line(k, &line) {
            Line::Import { name, path } => {
                out.push((name, path));
                assert(pairs_view(out@) =~= o.push((name@, path@)));
            },
            _ => {},
        }
        k += 1;
    }
    out
}

/// The expression of the last definition of `name` in the program `source`.
pub fn definition_in(source: &str, name: &String) -> (r: Option<String>)
    ensures
        match last_definition(spec_lines(source@), spec_lines(source@).len(), name@) {
            Some(e) => r is Some && r->Some_0@ == e,
            None => r is None,
        },
{
    let chars = chars_of(source);
    let ranges = lines_of(&chars);
    let ghost lines = spec_lines(source@);
    let mut found: Option<String> = None;
    let mut k: usize = 0;
    while k < ranges.len()
        invariant
            chars@ == source@,
            lines == spec_lines(source@),
            lines.len() == ranges@.len(),
            ranges@.len() == line_ranges(chars@).len(),
            forall|j: int|
                0 <= j < ranges@.len() ==> ranges@[j].0 == line_ranges(chars@)[j].0 && ranges@[j].1
                    == line_ranges(chars@)[j].1,
            k <= ranges.len(),
            match last_definition(lines, k as nat, name@) {
                Some(e) => found is Some && found->Some_0@ == e,
                None => found is None,
            },
        decreases ranges.len() - k,
    {
        let line = line_chars(&chars, &ranges, k);
        match classify_line(k, &line) {
            Line::Definition { name: nm, expr } => {
                if nm.eq(name) {
                    found = Some(expr);
                }
            },
            _ => {},
        }
        k += 1;
    }
    found
}

/// The program `source` as one expression: each definition, and each import with
/// `imported[i]` as the expression of import number `i`, wraps what follows it as
/// `「J name ッ ... 」足す「 expression 」`; the expression lines, joined by line feeds,
/// stand innermost.
pub fn expand_program(source: &str, imported: &Vec<String>) -> (r: String)
    requires
        imported.len() == spec_imports(source@).len(),
    ensures
        r@ == spec_expand(source@, strings_view(imported@)),
{
    let chars = chars_of(source);
    let ranges = lines_of(&chars);
    let ghost lines = spec_lines(source@);
    let ghost imp = strings_view(imported@);
    let mut bindings: Vec<(String, String)> = Vec::new();
    let mut code = String::new();
    let mut seen_code = false;
    let mut count: usize = 0;
    let mut k: usize = 0;
    assert(pairs_view(bindings@) =~= Seq::<(Seq<char>, Seq<char>)>::empty());
    assert(!has_code(lines, 0));
    while k < ranges.len()
        invariant
            chars@ == source@,
            lines == spec_lines(source@),
            imp == strings_view(imported@),
            imported.len() == imports_upto(lines, lines.len()).len(),
            lines.len() == ranges@.len(),
            ranges@.len() == line_ranges(chars@).len(),
            forall|j: int|
                0 <= j < ranges@.len() ==> ranges@[j].0 == line_ranges(chars@)[j].0 && ranges@[j].1
                    == line_ranges(chars@)[j].1,
            k <= ranges.len(),
            pairs_view(bindings@) == bindings_upto(lines, k as nat, imp),
            count == imports_upto(lines, k as nat).len(),
            code@ == code_upto(lines, k as nat),
            seen_code == has_code(lines, k as nat),
        decreases ranges.len() - k,
    {
        let line = line_chars(&chars, &ranges, k);
        let ghost b0 = pairs_view(bindings@);
        let ghost c0 = code@;
        proof {
            lemma_imports_grow(lines, (k + 1) as nat, lines.len());
        }
        match classify_line(k, &line) {
            Line::Definition { name, expr } => {
                bindings.push((name, expr));
                assert(pairs_view(bindings@) =~= b0.push((name@, expr@)));
            },
            Line::Import { name, .. } => {
                let e = imported[count].clone();
                bindings.push((name, e));
                assert(pairs_view(bindings@) =~= b0.push((name@, imp[count as int])));
                count += 1;
            },
            Line::Code => {
                proof {
                    lemma_no_code(lines, k as nat);
                }
                if seen_code {
                    push_char(&mut code, '\n');
                }
                let mut j: usize = 0;
                let ghost c1 = code@;
                while j < line.len()
                    invariant
                        j <= line.len(),
                        code@ == c1 + line@.subrange(0, j as int),
                    decreases line.len() - j,
                {
                    push_char(&mut code, line[j]);
                    j += 1;
                    assert(code@ =~= c1 + line@.subrange(0, j as int));
                }
                assert(line@.subrange(0, line.len() as int) =~= line@);
                proof {
                    if seen_code {
                        assert(code@ =~= c0 + seq!['\n'] + lines[k as int]);
                    } else {
                        assert(code@ =~= lines[k as int]);
                    }
                }
                seen_code = true;
            },
            _ => {},
        }
        proof {
            if classify(k as nat, lines[k as int]) is Code {
                assert(has_code(lines, (k + 1) as nat));
            } else {
                assert(has_code(lines, (k + 1) as nat) == has_code(lines, k as nat)) by {
                    if has_code(lines, (k + 1) as nat) {
                        let j = choose|j: int| 0 <= j < k + 1 && #[trigger] classify(j as nat, lines[j]) is Code;
                        assert(j != k);
                    }
                }
            }
        }
        k += 1;
    }
    let m = bindings.len();
    let ghost bs = pairs_view(bindings@);
    let mut out = String::new();
    let mut j: usize = 0;
    while j < m
        invariant
            j <= m,
            m == bindings@.len(),
            bs == pairs_view(bindings@),
            out@ == opens(bs, j as nat),
        decreases m - j,
    {
        let ghost o = out@;
        push_char(&mut out, '「');
        push_char(&mut out, 'J');
        push_str(&mut out, bindings[j].0.as_str());
        push_char(&mut out, 'ッ');
        assert(out@ =~= o + seq!['「', 'J'] + bs[j as int].0 + seq!['ッ']);
        j += 1;
    }
    let ghost before_code = out@;
    push_str(&mut out, code.as_str());
    let ghost start = out@;
    let mut j: usize = m;
    assert(start + closes(bs, m as nat) =~= start + closes(bs, j as nat));
    while j > 0
        invariant
            j <= m,
            m == bindings@.len(),
            bs == pairs_view(bindings@),
            start.len() <= out@.len(),
            out@.subrange(0, start.len() as int) == start,
            out@.subrange(start.len() as int, out@.len() as int) + closes(bs, j as nat) == closes(
                bs,
                m as nat,
            ),
        decreases j,
    {
        let ghost o = out@;
        push_char(&mut out, '」');
        push_char(&mut out, '足');
        push_char(&mut out, 'す');
        push_char(&mut out, '「');
        push_str(&mut out, bindings[j - 1].1.as_str());
        push_char(&mut out, '」');
        proof {
            let added = seq!['」', '足', 'す', '「'] + bs[j - 1].1 + seq!['」'];
            assert(out@ =~= o + added);
            assert(out@.subrange(0, start.len() as int) =~= o.subrange(0, start.len() as int));
            assert(out@.subrange(start.len() as int, out@.len() as int) =~= o.subrange(
                start.len() as int,
                o.len() as int,
            ) + added);
            assert(closes(bs, j as nat) == added + closes(bs, (j - 1) as nat));
            assert(o.subrange(start.len() as int, o.len() as int) + added + closes(bs, (j - 1) as nat)
                =~= o.subrange(start.len() as int, o.len() as int) + (added + closes(bs, (j - 1) as nat)));
        }
        j -= 1;
    }
    proof {
        let tail = out@.subrange(start.len() as int, out@.len() as int);
        assert(tail + closes(bs, 0) =~= tail);
        assert(out@ =~= start + tail);
    }
    out
}

proof fn lemma_no_code(lines: Seq<Seq<char>>, n: nat)
    ensures
        !has_code(lines, n) ==> code_upto(lines, n) == Seq::<char>::empty(),
    decreases n,
{
    if n > 0 && !has_code(lines, n) {
        let k = (n - 1) as nat;
        assert(!(classify(k, lines[k as int]) is Code));
        assert(!has_code(lines, k)) by {
            if has_code(lines, k) {
                let j = choose|j: int| 0 <= j < k && #[trigger] classify(j as nat, lines[j]) is Code;
                assert(0 <= j < n);
            }
        }
        lemma_no_code(lines, k);
    }
}

proof fn lemma_imports_grow(lines: Seq<Seq<char>>, a: nat, b: nat)
    requires
        a <= b,
    ensures
        imports_upto(lines, a).len() <= imports_upto(lines, b).len(),
    decreases b - a,
{
    if a < b {
        lemma_imports_grow(lines, a, (b - 1) as nat);
    }
}


/// The term that the first `n` bindings `bs` make of a body `body`: each binding
/// `(N, E)` applies the function of `N` around what follows it to what `E` parses
/// to, the last binding innermost.
pub open spec fn let_term(bs: Seq<(Seq<char>, Seq<char>)>, n: nat, body: Term) -> Term
    decreases n,
{
    if n == 0 {
        body
    } else {
        let_term(
            bs,
            (n - 1) as nat,
            Term::App(
                Box::new(Term::Abs(bs[n - 1].0, Box::new(body))),
                Box::new(spec_parse(bs[n - 1].1)->Ok_0),
            ),
        )
    }
}

proof fn lemma_find_ha(cs: Seq<char>, i: int)
    requires
        0 <= i <= cs.len(),
    ensures
        i <= find_ha(cs, i) <= cs.len(),
    decreases cs.len() - i,
{
    if i < cs.len() && cs[i] != 'は' {
        lemma_find_ha(cs, i + 1);
    }
}

proof fn lemma_trim_back(cs: Seq<char>, start: int, end: int)
    requires
        start <= end,
    ensures
        start <= trim_back(cs, start, end) <= end,
    decreases end - start,
{
    if start < end && spec_is_whitespace(cs[end - 1]) {
        lemma_trim_back(cs, start, end - 1);
    }
}

/// The name of a keyword line is a variable name.
proof fn lemma_named_line_name(k: nat, cs: Seq<char>, kw: Seq<char>)
    ensures
        named_line(k, cs, kw) matches Some((name, _)) ==> is_name(name),
{
    let i0 = skip_space(cs, 0);
    lemma_skip_space(cs, 0);
    if spec_starts_with(cs, i0, kw) {
        let start = skip_space(cs, i0 + kw.len());
        lemma_skip_space(cs, i0 + kw.len());
        lemma_find_ha(cs, start);
        lemma_trim_back(cs, start, find_ha(cs, start));
    }
}

/// Every binding of the first `n` lines binds a variable name.
proof fn lemma_binding_names(lines: Seq<Seq<char>>, n: nat, imported: Seq<Seq<char>>)
    ensures
        forall|i: int|
            0 <= i < bindings_upto(lines, n, imported).len() ==> is_name(
                #[trigger] bindings_upto(lines, n, imported)[i].0,
            ),
    decreases n,
{
    if n > 0 {
        let k = (n - 1) as nat;
        lemma_binding_names(lines, k, imported);
        let cs = lines[k as int];
        let before = bindings_upto(lines, k, imported);
        let after = bindings_upto(lines, n, imported);
        match classify(k, cs) {
            SourceLine::Definition { name, .. } => {
                lemma_named_line_name(k, cs, define_keyword());
                assert(after == before.push((name, after.last().1)));
            },
            SourceLine::Import { name, .. } => {
                lemma_named_line_name(k, cs, import_keyword());
                assert(after == before.push((name, after.last().1)));
            },
            _ => {
                assert(after == before);
            },
        }
        assert forall|i: int| 0 <= i < after.len() implies is_name(#[trigger] after[i].0) by {
            if i < before.len() {
                assert(after[i] == before[i]);
            }
        }
    }
}

/// The first `n` bindings wrapped around a body that parses give a text that
/// parses to their `let_term`.
proof fn lemma_wrapped_parses(bs: Seq<(Seq<char>, Seq<char>)>, n: nat, core: Seq<char>)
    requires
        n <= bs.len(),
        spec_parse(core) is Ok,
        forall|i: int| 0 <= i < bs.len() ==> is_name(#[trigger] bs[i].0),
        forall|i: int| 0 <= i < bs.len() ==> (#[trigger] spec_parse(bs[i].1)) is Ok,
    ensures
        spec_parse(opens(bs, n) + core + closes(bs, n)) == Ok::<Term, SyntaxError>(
            let_term(bs, n, spec_parse(core)->Ok_0),
        ),
    decreases n,
{
    if n > 0 {
        let k = (n - 1) as nat;
        let name = bs[k as int].0;
        let e = bs[k as int].1;
        assert(is_name(bs[k as int].0));
        assert(spec_parse(bs[k as int].1) is Ok);
        let c = spec_parse(core)->Ok_0;
        let x = spec_parse(e)->Ok_0;
        lemma_binding_parses(name, core, e, c, x);
        let inner = binding_text(name, core, e);
        assert(opens(bs, n) + core + closes(bs, n) =~= opens(bs, k) + inner + closes(bs, k));
        lemma_wrapped_parses(bs, k, inner);
    }
}

/// A program whose expression lines and binding expressions each parse expands
/// to a text that parses: to the expression of its lines under its bindings, each
/// binding `上げる N は E` (or import of `N`) applying the function of `N` around
/// what follows it to what `E` parses to.
pub proof fn law_program_expansion_parses(text: Seq<char>, imported: Seq<Seq<char>>)
    requires
        spec_parse(code_upto(spec_lines(text), spec_lines(text).len())) is Ok,
        forall|i: int|
            0 <= i < bindings_upto(spec_lines(text), spec_lines(text).len(), imported).len() ==> (
            #[trigger] spec_parse(
                bindings_upto(spec_lines(text), spec_lines(text).len(), imported)[i].1,
            )) is Ok,
    ensures
        spec_parse(spec_expand(text, imported)) == Ok::<Term, SyntaxError>(
            let_term(
                bindings_upto(spec_lines(text), spec_lines(text).len(), imported),
                bindings_upto(spec_lines(text), spec_lines(text).len(), imported).len(),
                spec_parse(code_upto(spec_lines(text), spec_lines(text).len()))->Ok_0,
            ),
        ),
{
    let lines = spec_lines(text);
    let bs = bindings_upto(lines, lines.len(), imported);
    lemma_binding_names(lines, lines.len(), imported);
    lemma_wrapped_parses(bs, bs.len(), code_upto(lines, lines.len()));
}


/// Line `j` of `lines` defines `name`.
pub open spec fn defines(lines: Seq<Seq<char>>, j: int, name: Seq<char>) -> bool {
    classify(j as nat, lines[j]) matches SourceLine::Definition { name: nm, .. } && nm == name
}

proof fn lemma_last_definition(lines: Seq<Seq<char>>, n: nat, k: nat, name: Seq<char>, expr: Seq<char>)
    requires
        k < n <= lines.len(),
        classify(k, lines[k as int]) == (SourceLine::Definition { name, expr }),
        forall|j: int| k < j < n ==> !defines(lines, j, name),
    ensures
        last_definition(lines, n, name) == Some(expr),
    decreases n,
{
    if n > k + 1 {
        assert(!defines(lines, n - 1, name));
        lemma_last_definition(lines, (n - 1) as nat, k, name, expr);
    }
}

proof fn lemma_no_definition(lines: Seq<Seq<char>>, n: nat, name: Seq<char>)
    requires
        n <= lines.len(),
        forall|j: int| 0 <= j < n ==> !defines(lines, j, name),
    ensures
        last_definition(lines, n, name) is None,
    decreases n,
{
    if n > 0 {
        assert(!defines(lines, n - 1, name));
        lemma_no_definition(lines, (n - 1) as nat, name);
    }
}

/// An import finds the last definition of its name in the imported file, on
/// whichever line it stands, the first included: where line `k` of `source`
/// defines `name` as `expr` and no later line defines `name`, that definition is
/// `expr`; where no line defines `name`, there is none.
pub proof fn law_definition_found(source: Seq<char>, k: nat, name: Seq<char>, expr: Seq<char>)
    ensures
        k < spec_lines(source).len() && classify(k, spec_lines(source)[k as int]) == (
        SourceLine::Definition { name, expr }) && (forall|j: int|
            k < j < spec_lines(source).len() ==> !defines(spec_lines(source), j, name))
            ==> last_definition(spec_lines(source), spec_lines(source).len(), name) == Some(expr),
        (forall|j: int| 0 <= j < spec_lines(source).len() ==> !defines(spec_lines(source), j, name))
            ==> last_definition(spec_lines(source), spec_lines(source).len(), name) is None,
{
    let lines = spec_lines(source);
    if k < lines.len() && classify(k, lines[k as int]) == (SourceLine::Definition { name, expr })
        && (forall|j: int| k < j < lines.len() ==> !defines(lines, j, name)) {
        lemma_last_definition(lines, lines.len(), k, name, expr);
    }
    if forall|j: int| 0 <= j < lines.len() ==> !defines(lines, j, name) {
        lemma_no_definition(lines, lines.len(), name);
    }
}


/// The binding of `name` to `expr` is among `bs`.
pub open spec fn has_binding(bs: Seq<(Seq<char>, Seq<char>)>, name: Seq<char>, expr: Seq<char>) -> bool {
    exists|j: int| 0 <= j < bs.len() && #[trigger] bs[j] == (name, expr)
}

proof fn lemma_imports_bound(lines: Seq<Seq<char>>, n: nat, imported: Seq<Seq<char>>)
    requires
        n <= lines.len(),
    ensures
        forall|i: int|
            0 <= i < imports_upto(lines, n).len() ==> has_binding(
                bindings_upto(lines, n, imported),
                #[trigger] imports_upto(lines, n)[i].0,
                imported[i],
            ),
    decreases n,
{
    if n > 0 {
        let k = (n - 1) as nat;
        lemma_imports_bound(lines, k, imported);
        let b0 = bindings_upto(lines, k, imported);
        let b1 = bindings_upto(lines, n, imported);
        let i0 = imports_upto(lines, k);
        let i1 = imports_upto(lines, n);
        assert(forall|j: int| 0 <= j < b0.len() ==> b1[j] == b0[j]);
        assert forall|i: int| 0 <= i < i1.len() implies has_binding(b1, #[trigger] i1[i].0, imported[i]) by {
            if i < i0.len() {
                assert(i1[i] == i0[i]);
                assert(has_binding(b0, i0[i].0, imported[i]));
                let j = choose|j: int| 0 <= j < b0.len() && #[trigger] b0[j] == (i0[i].0, imported[i]);
                assert(b1[j] == (i1[i].0, imported[i]));
            } else {
                assert(b1[b0.len() as int] == (i1[i].0, imported[i]));
            }
        }
    }
}

/// Each import is bound to its own imported definition: the import that the
/// program lists `i`-th (as [`program_imports`] gives them, in the order of the
/// lines) binds its name to `imported[i]`.
pub proof fn law_imports_bound_in_order(text: Seq<char>, imported: Seq<Seq<char>>)
    ensures
        forall|i: int|
            0 <= i < spec_imports(text).len() ==> has_binding(
                bindings_upto(spec_lines(text), spec_lines(text).len(), imported),
                #[trigger] spec_imports(text)[i].0,
                imported[i],
            ),
{
    lemma_imports_bound(spec_lines(text), spec_lines(text).len(), imported);
}

} // verus!
