//! The compiler from expressions to a WebAssembly text module.
//!
//! Values at run time are handles to cells of four `i32` words in linear memory.
//! A closure is `[0, env, code, 0]`; an environment entry is `[1, var, val, next]`.
//! Every binder of the program becomes a function `$lambda_k`, numbered in pre-order,
//! and `$apply` dispatches on a closure's code number. Variables are numbered by
//! their first occurrence in pre-order, from 1.

use vstd::prelude::*;
use crate::syntax::{Expr, Term};
use crate::text::{decimal, push_char, push_decimal, push_str};

verus! {

/// The names of `syms`, with `v` added at the end unless it is there already.
pub open spec fn intern_name(syms: Seq<Seq<char>>, v: Seq<char>) -> Seq<Seq<char>> {
    if syms.contains(v) {
        syms
    } else {
        syms.push(v)
    }
}

/// The names of `e` added to `syms` in pre-order, each once.
pub open spec fn symbols_from(e: Term, syms: Seq<Seq<char>>) -> Seq<Seq<char>>
    decreases e,
{
    match e {
        Term::Var(v) => intern_name(syms, v),
        Term::Abs(p, b) => symbols_from(*b, intern_name(syms, p)),
        Term::App(a, b) => symbols_from(*b, symbols_from(*a, syms)),
    }
}

/// The symbol table of `e`: its variable names in the order in which they first occur.
pub open spec fn symbol_table(e: Term) -> Seq<Seq<char>> {
    symbols_from(e, seq![])
}

/// The number of the name `v` in the table `syms`: its position, counted from 1.
pub open spec fn symbol_id(syms: Seq<Seq<char>>, v: Seq<char>) -> nat {
    (syms.index_of(v) + 1) as nat
}

/// Every name of `e` is in `syms`.
pub open spec fn names_in(e: Term, syms: Seq<Seq<char>>) -> bool
    decreases e,
{
    match e {
        Term::Var(v) => syms.contains(v),
        Term::Abs(p, b) => syms.contains(p) && names_in(*b, syms),
        Term::App(a, b) => names_in(*a, syms) && names_in(*b, syms),
    }
}

/// The binders of `e` in pre-order, each as its parameter and its body.
pub open spec fn binders(e: Term) -> Seq<(Seq<char>, Term)>
    decreases e,
{
    match e {
        Term::Var(_) => seq![],
        Term::Abs(p, b) => seq![(p, *b)] + binders(*b),
        Term::App(a, b) => binders(*a) + binders(*b),
    }
}

/// `n` spaces.
pub open spec fn pad(n: nat) -> Seq<char> {
    Seq::new(n, |i: int| ' ')
}

/// The instructions that push the current environment: the named local inside a
/// binder's function, the empty environment `0` in `main`.
pub open spec fn env_text(env: Option<Seq<char>>, indent: nat) -> Seq<char> {
    match env {
        Some(local) => pad(indent) + "local.get $"@ + local + "\n"@,
        None => pad(indent) + "i32.const 0\n"@,
    }
}

/// The instructions that evaluate `e`, leaving its value on the stack. Its binders
/// are numbered from `first`.
pub open spec fn emit(e: Term, syms: Seq<Seq<char>>, first: nat, env: Option<Seq<char>>, indent: nat) -> Seq<char>
    decreases e,
{
    match e {
        Term::Var(v) => env_text(env, indent) + pad(indent) + "i32.const "@ + decimal(
            symbol_id(syms, v),
        ) + "\n"@ + pad(indent) + "call $lookup\n"@,
        Term::Abs(_, _) => env_text(env, indent) + pad(indent) + "i32.const "@ + decimal(first)
            + "\n"@ + pad(indent) + "call $closure\n"@,
        Term::App(a, b) => emit(*a, syms, first, env, indent) + emit(
            *b,
            syms,
            first + binders(*a).len(),
            env,
            indent,
        ) + pad(indent) + "call $apply\n"@,
    }
}

/// The runtime that every module holds: the memory, the allocator, closures,
/// environment entries and variable lookup, which traps on a free variable.
pub const RUNTIME: &'static str = r#"  (memory (export "memory") 1)
  (global $heap (mut i32) (i32.const 16))

  (func $alloc4 (param $a i32) (param $b i32) (param $c i32) (param $d i32) (result i32)
    (local $p i32)
    global.get $heap
    local.set $p
    global.get $heap
    i32.const 16
    i32.add
    global.set $heap
    local.get $p
    local.get $a
    i32.store
    local.get $p
    i32.const 4
    i32.add
    local.get $b
    i32.store
    local.get $p
    i32.const 8
    i32.add
    local.get $c
    i32.store
    local.get $p
    i32.const 12
    i32.add
    local.get $d
    i32.store
    local.get $p)

  (func $closure (param $env i32) (param $code i32) (result i32)
    i32.const 0
    local.get $env
    local.get $code
    i32.const 0
    call $alloc4)

  (func $bind (param $env i32) (param $var i32) (param $val i32) (result i32)
    i32.const 1
    local.get $var
    local.get $val
    local.get $env
    call $alloc4)

  (func $lookup (param $env i32) (param $var i32) (result i32)
    (block $missing
      (loop $again
        local.get $env
        i32.eqz
        br_if $missing
        local.get $env
        i32.const 4
        i32.add
        i32.load
        local.get $var
        i32.eq
        if
          local.get $env
          i32.const 8
          i32.add
          i32.load
          return
        end
        local.get $env
        i32.const 12
        i32.add
        i32.load
        local.set $env
        br $again))
    unreachable)

"#;

/// The function of binder number `k`, whose parameter has symbol number `param_id`:
/// it binds the argument in a new environment entry and evaluates the body there.
pub open spec fn lambda_text(k: nat, param_id: nat, body: Term, syms: Seq<Seq<char>>) -> Seq<char> {
    "  (func $lambda_"@ + decimal(k) + " (param $env i32) (param $arg i32) (result i32)\n    (local $newenv i32)\n"@
        + "    local.get $env\n    i32.const "@ + decimal(param_id)
        + "\n    local.get $arg\n    call $bind\n    local.set $newenv\n"@ + emit(
        body,
        syms,
        k + 1,
        Some("newenv"@),
        4,
    ) + "  )\n\n"@
}

/// The functions of the first `n` binders of `ls`.
pub open spec fn lambda_texts(ls: Seq<(Seq<char>, Term)>, syms: Seq<Seq<char>>, n: nat) -> Seq<char>
    decreases n,
{
    if n == 0 {
        seq![]
    } else {
        let k = (n - 1) as nat;
        lambda_texts(ls, syms, k) + lambda_text(k, symbol_id(syms, ls[k as int].0), ls[k as int].1, syms)
    }
}

/// The case of `$apply` that calls binder function number `k`.
pub open spec fn apply_case(k: nat) -> Seq<char> {
    "    local.get $f\n    i32.const 8\n    i32.add\n    i32.load\n    i32.const "@ + decimal(k)
        + "\n    i32.eq\n    if\n      local.get $f\n      i32.const 4\n      i32.add\n      i32.load\n      local.get $arg\n      call $lambda_"@
        + decimal(k) + "\n      return\n    end\n"@
}

/// The cases of `$apply` for binders `0 .. n`.
pub open spec fn apply_cases(n: nat) -> Seq<char>
    decreases n,
{
    if n == 0 {
        seq![]
    } else {
        apply_cases((n - 1) as nat) + apply_case((n - 1) as nat)
    }
}

/// The case of `$apply` for the internal increment function, whose code number `n`
/// follows those of the binders: it adds one to its argument.
pub open spec fn increment_case(n: nat) -> Seq<char> {
    "    local.get $f\n    i32.const 8\n    i32.add\n    i32.load\n    i32.const "@ + decimal(n)
        + "\n    i32.eq\n    if\n      local.get $arg\n      i32.const 1\n      i32.add\n      return\n    end\n"@
}

/// The adapter `main_as_i32`: the program's result applied to the increment
/// function and then to zero, which reads a Church numeral as an `i32`.
pub open spec fn as_i32_text(n: nat) -> Seq<char> {
    "  (func (export \"main_as_i32\") (result i32)\n    call $main\n    i32.const 0\n    i32.const "@
        + decimal(n) + "\n    call $closure\n    call $apply\n    i32.const 0\n    call $apply)\n"@
}

/// The module that [`compile_wat`] writes for `e`.
pub open spec fn spec_compile(e: Term) -> Seq<char> {
    let syms = symbol_table(e);
    let ls = binders(e);
    let n = ls.len();
    "(module\n"@ + RUNTIME@ + lambda_texts(ls, syms, n)
        + "  (func $apply (param $f i32) (param $arg i32) (result i32)\n"@ + apply_cases(n)
        + increment_case(n) + "    unreachable)\n\n"@
        + "  (func $main (export \"main\") (result i32)\n"@ + emit(e, syms, 0, None, 2)
        + "  )\n\n"@ + as_i32_text(n) + ")"@
}


/// The names of a table of strings.
pub open spec fn names_view(v: Seq<String>) -> Seq<Seq<char>> {
    v.map_values(|s: String| s@)
}

/// A local's name, where there is one.
pub open spec fn opt_str_view(s: Option<&str>) -> Option<Seq<char>> {
    match s {
        Some(s) => Some(s@),
        None => None,
    }
}

pub proof fn lemma_names_in_extend(e: Term, s: Seq<Seq<char>>, t: Seq<Seq<char>>)
    requires
        names_in(e, s),
        s.len() <= t.len(),
        forall|i: int| 0 <= i < s.len() ==> s[i] == t[i],
    ensures
        names_in(e, t),
    decreases e,
{
    match e {
        Term::Var(v) => {
            let i = choose|i: int| 0 <= i < s.len() && s[i] == v;
            assert(t[i] == v);
        },
        Term::Abs(p, b) => {
            let i = choose|i: int| 0 <= i < s.len() && s[i] == p;
            assert(t[i] == p);
            lemma_names_in_extend(*b, s, t);
        },
        Term::App(a, b) => {
            lemma_names_in_extend(*a, s, t);
            lemma_names_in_extend(*b, s, t);
        },
    }
}

/// The symbol table grows from `s` by names it lacks, and then holds every name of `e`.
pub proof fn lemma_symbols_from(e: Term, s: Seq<Seq<char>>)
    requires
        s.no_duplicates(),
    ensures
        s.len() <= symbols_from(e, s).len(),
        forall|i: int| 0 <= i < s.len() ==> #[trigger] symbols_from(e, s)[i] == s[i],
        symbols_from(e, s).no_duplicates(),
        names_in(e, symbols_from(e, s)),
    decreases e,
{
    match e {
        Term::Var(v) => {
            if !s.contains(v) {
                assert(s.push(v)[s.len() as int] == v);
            }
        },
        Term::Abs(p, b) => {
            let s1 = intern_name(s, p);
            if !s.contains(p) {
                assert(s1[s.len() as int] == p);
            }
            assert(s1.contains(p));
            lemma_symbols_from(*b, s1);
            let r = symbols_from(*b, s1);
            let i = choose|i: int| 0 <= i < s1.len() && s1[i] == p;
            assert(r[i] == p);
        },
        Term::App(a, b) => {
            lemma_symbols_from(*a, s);
            let s1 = symbols_from(*a, s);
            lemma_symbols_from(*b, s1);
            lemma_names_in_extend(*a, s1, symbols_from(*b, s1));
        },
    }
}

/// The binders of `e` lie inside it: the binders of the body of binder `k` come
/// right after it, and their names are names of `e`.
pub proof fn lemma_lambda_bodies(e: Term, s: Seq<Seq<char>>)
    requires
        names_in(e, s),
    ensures
        forall|k: int|
            0 <= k < binders(e).len() ==> k + 1 + binders(#[trigger] binders(e)[k].1).len()
                <= binders(e).len() && names_in(binders(e)[k].1, s) && s.contains(
                binders(e)[k].0,
            ),
    decreases e,
{
    match e {
        Term::Var(_) => {},
        Term::Abs(p, b) => {
            lemma_lambda_bodies(*b, s);
            let lb = binders(*b);
            assert forall|k: int| 0 <= k < binders(e).len() implies k + 1 + binders(
                #[trigger] binders(e)[k].1,
            ).len() <= binders(e).len() && names_in(binders(e)[k].1, s) && s.contains(
                binders(e)[k].0,
            ) by {
                if k > 0 {
                    assert(binders(e)[k] == lb[k - 1]);
                }
            }
        },
        Term::App(a, b) => {
            lemma_lambda_bodies(*a, s);
            lemma_lambda_bodies(*b, s);
            let la = binders(*a);
            let lb = binders(*b);
            assert forall|k: int| 0 <= k < binders(e).len() implies k + 1 + binders(
                #[trigger] binders(e)[k].1,
            ).len() <= binders(e).len() && names_in(binders(e)[k].1, s) && s.contains(
                binders(e)[k].0,
            ) by {
                if k < la.len() {
                    assert(binders(e)[k] == la[k]);
                } else {
                    assert(binders(e)[k] == lb[k - la.len()]);
                }
            }
        },
    }
}

/// The number of `v` in the table, or `None` where it is missing. The symbol table
/// is a list of distinct names, a name's number being its position counted from 1:
/// vstd's `BTreeMap` specifications hold only for key types whose order vstd models,
/// and `String` is not among them.
fn lookup(symbols: &Vec<String>, v: &String) -> (r: Option<usize>)
    requires
        names_view(symbols@).no_duplicates(),
    ensures
        match r {
            Some(id) => names_view(symbols@).contains(v@) && id == symbol_id(
                names_view(symbols@),
                v@,
            ),
            None => !names_view(symbols@).contains(v@),
        },
{
    let ghost names = names_view(symbols@);
    let mut i: usize = 0;
    while i < symbols.len()
        invariant
            names == names_view(symbols@),
            names.no_duplicates(),
            i <= symbols.len(),
            forall|j: int| 0 <= j < i ==> names[j] != v@,
        decreases symbols.len() - i,
    {
        if symbols[i].eq(v) {
            proof {
                assert(names[i as int] == v@);
                assert(names.contains(v@));
                let j = names.index_of(v@);
                assert(names[j] == v@);
                assert(j == i);
            }
            return Some(i + 1);
        }
        i += 1;
    }
    None
}

/// The number of `v`, which is added to the table where it is missing.
fn intern(symbols: &mut Vec<String>, v: &String) -> (id: usize)
    requires
        names_view(old(symbols)@).no_duplicates(),
    ensures
        names_view(final(symbols)@) == intern_name(names_view(old(symbols)@), v@),
        names_view(final(symbols)@).no_duplicates(),
        id == symbol_id(names_view(final(symbols)@), v@),
{
    match lookup(symbols, v) {
        Some(id) => id,
        None => {
            let ghost old_names = names_view(symbols@);
            symbols.push(v.clone());
            let id = symbols.len();
            proof {
                let names = names_view(symbols@);
                assert(names =~= old_names.push(v@));
                assert(names[names.len() - 1] == v@);
                let j = names.index_of(v@);
                assert(names[j] == v@);
            }
            id
        },
    }
}

/// The number of distinct variable names in `expr`.
pub fn symbol_count(expr: &Expr) -> (n: usize)
    ensures
        n == symbol_table(expr@).len(),
{
    let mut symbols: Vec<String> = Vec::new();
    assert(names_view(symbols@) =~= Seq::<Seq<char>>::empty());
    collect_symbols(expr, &mut symbols);
    symbols.len()
}

/// Adds the names of `expr` to the table in pre-order.
fn collect_symbols(expr: &Expr, symbols: &mut Vec<String>)
    requires
        names_view(old(symbols)@).no_duplicates(),
    ensures
        names_view(final(symbols)@) == symbols_from(expr@, names_view(old(symbols)@)),
    decreases expr,
{
    match expr {
        Expr::Var(v) => {
            intern(symbols, v);
        },
        Expr::Abs { param, body } => {
            let ghost s0 = names_view(symbols@);
            proof {
                lemma_symbols_from(expr@, s0);
                lemma_symbols_from(body@, intern_name(s0, param@));
            }
            intern(symbols, param);
            collect_symbols(body, symbols);
        },
        Expr::App(a, b) => {
            let ghost s0 = names_view(symbols@);
            proof {
                lemma_symbols_from(a@, s0);
                lemma_symbols_from(b@, symbols_from(a@, s0));
            }
            collect_symbols(a, symbols);
            collect_symbols(b, symbols);
        },
    }
}

/// A binder of the program: its number, the number of its parameter's name, and its body.
pub struct Lambda<'a> {
    pub id: usize,
    pub param_id: usize,
    pub body: &'a Expr,
}

/// Entry `l` of a binder table describes binder `k`, which is `entry`, of a program
/// with symbol table `syms`.
pub open spec fn lambda_entry(l: Lambda, k: int, entry: (Seq<char>, Term), syms: Seq<Seq<char>>) -> bool {
    &&& l.id == k
    &&& l.param_id == symbol_id(syms, entry.0)
    &&& l.body@ == entry.1
}

/// Appends the binders of `expr` to `out`, numbered on from `out`'s length.
fn collect_lambdas<'a>(expr: &'a Expr, symbols: &Vec<String>, out: &mut Vec<Lambda<'a>>)
    requires
        names_in(expr@, names_view(symbols@)),
        names_view(symbols@).no_duplicates(),
    ensures
        final(out)@.len() == old(out)@.len() + binders(expr@).len(),
        forall|k: int| 0 <= k < old(out)@.len() ==> #[trigger] final(out)@[k] == old(out)@[k],
        forall|k: int|
            0 <= k < binders(expr@).len() ==> lambda_entry(
                #[trigger] final(out)@[old(out)@.len() + k],
                old(out)@.len() + k,
                binders(expr@)[k],
                names_view(symbols@),
            ),
    decreases expr,
{
    let ghost syms = names_view(symbols@);
    match expr {
        Expr::Var(_) => {},
        Expr::Abs { param, body } => {
            let ghost o = out@;
            let param_id = match lookup(symbols, param) {
                Some(id) => id,
                None => 0,
            };
            let id = out.len();
            let body_ref: &'a Expr = &**body;
            out.push(Lambda { id, param_id, body: body_ref });
            let ghost o1 = out@;
            collect_lambdas(body_ref, symbols, out);
            proof {
                let ls = binders(expr@);
                let lb = binders(body@);
                assert(ls =~= seq![(param@, body@)] + lb);
                assert forall|k: int| 0 <= k < ls.len() implies lambda_entry(
                    #[trigger] out@[o.len() + k],
                    o.len() + k,
                    ls[k],
                    syms,
                ) by {
                    if k == 0 {
                        assert(out@[o.len() as int] == o1[o.len() as int]);
                    } else {
                        assert(ls[k] == lb[k - 1]);
                        assert(out@[o1.len() + (k - 1)] == out@[o.len() + k]);
                    }
                }
                assert forall|k: int| 0 <= k < o.len() implies #[trigger] out@[k] == o[k] by {
                    assert(out@[k] == o1[k]);
                }
            }
        },
        Expr::App(a, b) => {
            let ghost o = out@;
            collect_lambdas(a, symbols, out);
            let ghost o1 = out@;
            collect_lambdas(b, symbols, out);
            proof {
                let ls = binders(expr@);
                let la = binders(a@);
                let lb = binders(b@);
                assert(ls =~= la + lb);
                assert forall|k: int| 0 <= k < ls.len() implies lambda_entry(
                    #[trigger] out@[o.len() + k],
                    o.len() + k,
                    ls[k],
                    syms,
                ) by {
                    if k < la.len() {
                        assert(ls[k] == la[k]);
                        assert(out@[o.len() + k] == o1[o.len() + k]);
                    } else {
                        assert(ls[k] == lb[k - la.len()]);
                        assert(out@[o1.len() + (k - la.len())] == out@[o.len() + k]);
                    }
                }
                assert forall|k: int| 0 <= k < o.len() implies #[trigger] out@[k] == o[k] by {
                    assert(out@[k] == o1[k]);
                }
            }
        },
    }
}

/// The number of binders in `expr`.
fn count_lambdas(expr: &Expr) -> (n: usize)
    requires
        binders(expr@).len() <= usize::MAX,
    ensures
        n == binders(expr@).len(),
    decreases expr,
{
    match expr {
        Expr::Var(_) => 0,
        Expr::Abs { body, .. } => 1 + count_lambdas(body),
        Expr::App(a, b) => count_lambdas(a) + count_lambdas(b),
    }
}

/// `n` spaces.
fn spaces(n: usize) -> (s: String)
    ensures
        s@ == pad(n as nat),
{
    let mut s = String::new();
    let mut k: usize = 0;
    while k < n
        invariant
            k <= n,
            s@ == pad(k as nat),
        decreases n - k,
    {
        push_char(&mut s, ' ');
        k += 1;
        assert(s@ =~= pad(k as nat));
    }
    s
}

/// Appends the instructions that evaluate `expr`, whose binders are numbered from
/// `first_id`, and returns the number of its binders.
fn emit_expr(
    expr: &Expr,
    symbols: &Vec<String>,
    first_id: usize,
    env: Option<&str>,
    wat: &mut String,
    indent: usize,
) -> (n: usize)
    requires
        names_in(expr@, names_view(symbols@)),
        names_view(symbols@).no_duplicates(),
        first_id + binders(expr@).len() <= usize::MAX,
    ensures
        n == binders(expr@).len(),
        final(wat)@ == old(wat)@ + emit(
            expr@,
            names_view(symbols@),
            first_id as nat,
            opt_str_view(env),
            indent as nat,
        ),
    decreases expr,
{
    let ghost w0 = wat@;
    let ghost syms = names_view(symbols@);
    let sp = spaces(indent);
    match expr {
        Expr::Var(v) => {
            push_env(&sp, env, wat);
            let id = match lookup(symbols, v) {
                Some(id) => id,
                None => 0,
            };
            push_str(wat, sp.as_str());
            push_str(wat, "i32.const ");
            push_decimal(wat, id);
            push_str(wat, "\n");
            push_str(wat, sp.as_str());
            push_str(wat, "call $lookup\n");
            assert(wat@ =~= w0 + emit(expr@, syms, first_id as nat, opt_str_view(env), indent as nat));
            0
        },
        Expr::Abs { body, .. } => {
            push_env(&sp, env, wat);
            push_str(wat, sp.as_str());
            push_str(wat, "i32.const ");
            push_decimal(wat, first_id);
            push_str(wat, "\n");
            push_str(wat, sp.as_str());
            push_str(wat, "call $closure\n");
            assert(wat@ =~= w0 + emit(expr@, syms, first_id as nat, opt_str_view(env), indent as nat));
            1 + count_lambdas(body)
        },
        Expr::App(a, b) => {
            let na = emit_expr(a, symbols, first_id, env, wat, indent);
            let ghost w1 = wat@;
            let nb = emit_expr(b, symbols, first_id + na, env, wat, indent);
            push_str(wat, sp.as_str());
            push_str(wat, "call $apply\n");
            assert(wat@ =~= w0 + emit(expr@, syms, first_id as nat, opt_str_view(env), indent as nat));
            na + nb
        },
    }
}

/// Appends the instructions that push the current environment.
fn push_env(sp: &String, env: Option<&str>, wat: &mut String)
    requires
        sp@ == pad(sp@.len()),
    ensures
        final(wat)@ == old(wat)@ + env_text(opt_str_view(env), sp@.len()),
{
    let ghost w0 = wat@;
    match env {
        Some(local) => {
            push_str(wat, sp.as_str());
            push_str(wat, "local.get $");
            push_str(wat, local);
            push_str(wat, "\n");
        },
        None => {
            push_str(wat, sp.as_str());
            push_str(wat, "i32.const 0\n");
        },
    }
    assert(wat@ =~= w0 + env_text(opt_str_view(env), sp@.len()));
}


/// Compiles an expression to a WebAssembly text module that exports `memory`,
/// `main`, which returns a handle to the program's value, and `main_as_i32`, which
/// reads that value as a Church numeral.
pub fn compile_wat(expr: &Expr) -> (wat: String)
    requires
        symbol_table(expr@).len() <= i32::MAX,
    ensures
        wat@ == spec_compile(expr@),
{
    let mut symbols: Vec<String> = Vec::new();
    proof {
        assert(names_view(symbols@) =~= Seq::<Seq<char>>::empty());
        lemma_symbols_from(expr@, seq![]);
    }
    collect_symbols(expr, &mut symbols);
    let ghost syms = names_view(symbols@);
    proof {
        lemma_lambda_bodies(expr@, syms);
    }
    let mut lambdas: Vec<Lambda> = Vec::new();
    collect_lambdas(expr, &symbols, &mut lambdas);
    let ghost ls = binders(expr@);
    assert forall|k: int| 0 <= k < ls.len() implies lambda_entry(
        #[trigger] lambdas@[k],
        k,
        ls[k],
        syms,
    ) by {
        assert(lambda_entry(lambdas@[0 + k], 0 + k, ls[k], syms));
    }
    let n = lambdas.len();
    let mut wat = String::new();
    push_str(&mut wat, "(module\n");
    push_str(&mut wat, RUNTIME);
    let ghost head = wat@;
    assert(wat@ == head + lambda_texts(ls, syms, 0));
    let mut i: usize = 0;
    while i < n
        invariant
            syms == names_view(symbols@),
            syms == symbol_table(expr@),
            syms.no_duplicates(),
            ls == binders(expr@),
            n == lambdas@.len(),
            n == ls.len(),
            i <= n,
            forall|k: int| 0 <= k < ls.len() ==> lambda_entry(#[trigger] lambdas@[k], k, ls[k], syms),
            forall|k: int|
                0 <= k < ls.len() ==> k + 1 + binders(#[trigger] ls[k].1).len() <= ls.len()
                    && names_in(ls[k].1, syms),
            wat@ == head + lambda_texts(ls, syms, i as nat),
        decreases n - i,
    {
        let lam = &lambdas[i];
        assert(lambda_entry(lambdas@[i as int], i as int, ls[i as int], syms));
        let ghost w0 = wat@;
        push_str(&mut wat, "  (func $lambda_");
        push_decimal(&mut wat, lam.id);
        push_str(&mut wat, " (param $env i32) (param $arg i32) (result i32)\n    (local $newenv i32)\n");
        push_str(&mut wat, "    local.get $env\n    i32.const ");
        push_decimal(&mut wat, lam.param_id);
        push_str(&mut wat, "\n    local.get $arg\n    call $bind\n    local.set $newenv\n");
        emit_expr(lam.body, &symbols, lam.id + 1, Some("newenv"), &mut wat, 4);
        push_str(&mut wat, "  )\n\n");
        proof {
            assert(wat@ =~= w0 + lambda_text(i as nat, symbol_id(syms, ls[i as int].0), ls[i as int].1, syms));
            assert(lambda_texts(ls, syms, (i + 1) as nat) == lambda_texts(ls, syms, i as nat)
                + lambda_text(i as nat, symbol_id(syms, ls[i as int].0), ls[i as int].1, syms));
        }
        i += 1;
    }
    push_str(&mut wat, "  (func $apply (param $f i32) (param $arg i32) (result i32)\n");
    let ghost head2 = wat@;
    assert(wat@ == head2 + apply_cases(0));
    let mut j: usize = 0;
    while j < n
        invariant
            n == lambdas@.len(),
            j <= n,
            wat@ == head2 + apply_cases(j as nat),
        decreases n - j,
    {
        let ghost w0 = wat@;
        push_str(&mut wat, "    local.get $f\n    i32.const 8\n    i32.add\n    i32.load\n    i32.const ");
        push_decimal(&mut wat, j);
        push_str(&mut wat, "\n    i32.eq\n    if\n      local.get $f\n      i32.const 4\n      i32.add\n      i32.load\n      local.get $arg\n      call $lambda_");
        push_decimal(&mut wat, j);
        push_str(&mut wat, "\n      return\n    end\n");
        proof {
            assert(wat@ =~= w0 + apply_case(j as nat));
            assert(apply_cases((j + 1) as nat) == apply_cases(j as nat) + apply_case(j as nat));
        }
        j += 1;
    }
    let ghost w1 = wat@;
    push_str(&mut wat, "    local.get $f\n    i32.const 8\n    i32.add\n    i32.load\n    i32.const ");
    push_decimal(&mut wat, n);
    push_str(&mut wat, "\n    i32.eq\n    if\n      local.get $arg\n      i32.const 1\n      i32.add\n      return\n    end\n");
    assert(wat@ =~= w1 + increment_case(n as nat));
    push_str(&mut wat, "    unreachable)\n\n");
    push_str(&mut wat, "  (func $main (export \"main\") (result i32)\n");
    let ghost w2 = wat@;
    emit_expr(expr, &symbols, 0, None, &mut wat, 2);
    assert(wat@ == w2 + emit(expr@, syms, 0, None, 2));
    push_str(&mut wat, "  )\n\n");
    let ghost w3 = wat@;
    push_str(&mut wat, "  (func (export \"main_as_i32\") (result i32)\n    call $main\n    i32.const 0\n    i32.const ");
    push_decimal(&mut wat, n);
    push_str(&mut wat, "\n    call $closure\n    call $apply\n    i32.const 0\n    call $apply)\n");
    assert(wat@ =~= w3 + as_i32_text(n as nat));
    push_str(&mut wat, ")");
    assert(wat@ =~= spec_compile(expr@));
    wat
}


/// `x` stands in `e`, as a variable or as a binder's parameter.
pub open spec fn mentions(e: Term, x: Seq<char>) -> bool
    decreases e,
{
    match e {
        Term::Var(v) => v == x,
        Term::Abs(p, b) => p == x || mentions(*b, x),
        Term::App(a, b) => mentions(*a, x) || mentions(*b, x),
    }
}

proof fn lemma_mentioned_in_table(e: Term, s: Seq<Seq<char>>, x: Seq<char>)
    requires
        names_in(e, s),
        mentions(e, x),
    ensures
        s.contains(x),
    decreases e,
{
    match e {
        Term::Var(_) => {},
        Term::Abs(p, b) => {
            if p != x {
                lemma_mentioned_in_table(*b, s, x);
            }
        },
        Term::App(a, b) => {
            if mentions(*a, x) {
                lemma_mentioned_in_table(*a, s, x);
            } else {
                lemma_mentioned_in_table(*b, s, x);
            }
        },
    }
}

/// Variables are numbered apart: every name of a program has a number from 1 to the
/// size of its symbol table, and two names have the same number exactly when they
/// are the same name. So the runtime's environment lookup by number finds the
/// binding of the right name.
pub proof fn law_symbol_numbers(e: Term, x: Seq<char>, y: Seq<char>)
    requires
        mentions(e, x),
        mentions(e, y),
    ensures
        1 <= symbol_id(symbol_table(e), x) <= symbol_table(e).len(),
        symbol_id(symbol_table(e), x) == symbol_id(symbol_table(e), y) <==> x == y,
{
    let s = symbol_table(e);
    assert(Seq::<Seq<char>>::empty().no_duplicates());
    lemma_symbols_from(e, seq![]);
    lemma_mentioned_in_table(e, s, x);
    lemma_mentioned_in_table(e, s, y);
    let i = s.index_of(x);
    let j = s.index_of(y);
    assert(s[i] == x);
    assert(s[j] == y);
}


/// Interning a name keeps every number given so far: a known name keeps its number
/// and leaves the table as it is, and a new name gets the next number, one more than
/// the size of the table.
pub proof fn law_intern_numbers(syms: Seq<Seq<char>>, v: Seq<char>, w: Seq<char>)
    requires
        syms.no_duplicates(),
        syms.contains(w),
    ensures
        syms.contains(v) ==> intern_name(syms, v) == syms,
        !syms.contains(v) ==> symbol_id(intern_name(syms, v), v) == syms.len() + 1,
        symbol_id(intern_name(syms, v), w) == symbol_id(syms, w),
        1 <= symbol_id(syms, w) <= syms.len(),
{
    let i = syms.index_of(w);
    assert(syms[i] == w);
    if !syms.contains(v) {
        let t = syms.push(v);
        assert(t[syms.len() as int] == v);
        let j = t.index_of(v);
        assert(t[j] == v);
        if j < syms.len() {
            assert(syms[j] == v);
        }
        assert(t[i] == w);
        assert(t.contains(w));
        let k = t.index_of(w);
        assert(t[k] == w);
        if k != i {
            if k < syms.len() {
                assert(syms[k] == w);
            }
        }
    }
}


/// `e` with every variable and parameter name `v` replaced by `f(v)`.
pub open spec fn rename(e: Term, f: spec_fn(Seq<char>) -> Seq<char>) -> Term
    decreases e,
{
    match e {
        Term::Var(v) => Term::Var(f(v)),
        Term::Abs(p, b) => Term::Abs(f(p), Box::new(rename(*b, f))),
        Term::App(a, b) => Term::App(Box::new(rename(*a, f)), Box::new(rename(*b, f))),
    }
}

/// `f` gives distinct names for distinct names.
pub open spec fn injective(f: spec_fn(Seq<char>) -> Seq<char>) -> bool {
    forall|a: Seq<char>, b: Seq<char>| #[trigger] f(a) == #[trigger] f(b) ==> a == b
}

proof fn lemma_rename_intern(s: Seq<Seq<char>>, v: Seq<char>, f: spec_fn(Seq<char>) -> Seq<char>)
    requires
        injective(f),
    ensures
        intern_name(s.map_values(f), f(v)) == intern_name(s, v).map_values(f),
{
    if s.contains(v) {
        let i = choose|i: int| 0 <= i < s.len() && s[i] == v;
        assert(s.map_values(f)[i] == f(v));
    } else {
        assert(!s.map_values(f).contains(f(v))) by {
            if s.map_values(f).contains(f(v)) {
                let i = choose|i: int| 0 <= i < s.len() && s.map_values(f)[i] == f(v);
                assert(f(s[i]) == f(v));
            }
        }
        assert(s.push(v).map_values(f) =~= s.map_values(f).push(f(v)));
    }
}

proof fn lemma_rename_symbols(e: Term, s: Seq<Seq<char>>, f: spec_fn(Seq<char>) -> Seq<char>)
    requires
        injective(f),
    ensures
        symbols_from(rename(e, f), s.map_values(f)) == symbols_from(e, s).map_values(f),
    decreases e,
{
    match e {
        Term::Var(v) => lemma_rename_intern(s, v, f),
        Term::Abs(p, b) => {
            lemma_rename_intern(s, p, f);
            lemma_rename_symbols(*b, intern_name(s, p), f);
        },
        Term::App(a, b) => {
            lemma_rename_symbols(*a, s, f);
            lemma_rename_symbols(*b, symbols_from(*a, s), f);
        },
    }
}

proof fn lemma_rename_id(s: Seq<Seq<char>>, v: Seq<char>, f: spec_fn(Seq<char>) -> Seq<char>)
    requires
        injective(f),
        s.no_duplicates(),
        s.contains(v),
    ensures
        symbol_id(s.map_values(f), f(v)) == symbol_id(s, v),
{
    let t = s.map_values(f);
    let i = s.index_of(v);
    assert(s[i] == v);
    assert(t[i] == f(v));
    assert(t.contains(f(v)));
    let j = t.index_of(f(v));
    assert(t[j] == f(v));
    assert(f(s[j]) == f(v));
    assert(s[j] == v);
}

proof fn lemma_rename_binders(e: Term, f: spec_fn(Seq<char>) -> Seq<char>)
    ensures
        binders(rename(e, f)).len() == binders(e).len(),
        forall|k: int|
            0 <= k < binders(e).len() ==> #[trigger] binders(rename(e, f))[k] == (
            f(binders(e)[k].0),
            rename(binders(e)[k].1, f),
        ),
    decreases e,
{
    match e {
        Term::Var(_) => {},
        Term::Abs(p, b) => {
            lemma_rename_binders(*b, f);
            let l = binders(e);
            let r = binders(rename(e, f));
            assert forall|k: int| 0 <= k < l.len() implies #[trigger] r[k] == (
                f(l[k].0),
                rename(l[k].1, f),
            ) by {
                if k > 0 {
                    assert(r[k] == binders(rename(*b, f))[k - 1]);
                    assert(l[k] == binders(*b)[k - 1]);
                }
            }
        },
        Term::App(a, b) => {
            lemma_rename_binders(*a, f);
            lemma_rename_binders(*b, f);
            let la = binders(*a);
            let l = binders(e);
            let r = binders(rename(e, f));
            assert forall|k: int| 0 <= k < l.len() implies #[trigger] r[k] == (
                f(l[k].0),
                rename(l[k].1, f),
            ) by {
                if k < la.len() {
                    assert(r[k] == binders(rename(*a, f))[k]);
                    assert(l[k] == la[k]);
                } else {
                    assert(r[k] == binders(rename(*b, f))[k - la.len()]);
                    assert(l[k] == binders(*b)[k - la.len()]);
                }
            }
        },
    }
}

proof fn lemma_rename_emit(
    e: Term,
    s: Seq<Seq<char>>,
    f: spec_fn(Seq<char>) -> Seq<char>,
    first: nat,
    env: Option<Seq<char>>,
    indent: nat,
)
    requires
        injective(f),
        s.no_duplicates(),
        names_in(e, s),
    ensures
        emit(rename(e, f), s.map_values(f), first, env, indent) == emit(e, s, first, env, indent),
    decreases e,
{
    match e {
        Term::Var(v) => lemma_rename_id(s, v, f),
        Term::Abs(_, _) => {},
        Term::App(a, b) => {
            lemma_rename_binders(*a, f);
            lemma_rename_emit(*a, s, f, first, env, indent);
            lemma_rename_emit(*b, s, f, first + binders(*a).len(), env, indent);
        },
    }
}

proof fn lemma_rename_lambdas(e: Term, s: Seq<Seq<char>>, f: spec_fn(Seq<char>) -> Seq<char>, n: nat)
    requires
        injective(f),
        s.no_duplicates(),
        names_in(e, s),
        n <= binders(e).len(),
    ensures
        lambda_texts(binders(rename(e, f)), s.map_values(f), n) == lambda_texts(binders(e), s, n),
    decreases n,
{
    if n > 0 {
        let k = (n - 1) as nat;
        lemma_rename_lambdas(e, s, f, k);
        lemma_rename_binders(e, f);
        lemma_lambda_bodies(e, s);
        let l = binders(e);
        assert(binders(rename(e, f))[k as int] == (f(l[k as int].0), rename(l[k as int].1, f)));
        assert(names_in(l[k as int].1, s) && s.contains(l[k as int].0));
        lemma_rename_id(s, l[k as int].0, f);
        lemma_rename_emit(l[k as int].1, s, f, k + 1, Some("newenv"@), 4);
    }
}

/// The module does not depend on how variables are spelled: renaming the names of
/// an expression apart, distinct names to distinct names, leaves the module as it
/// was, for only which occurrences share a name counts.
pub proof fn law_compile_ignores_spelling(e: Term, f: spec_fn(Seq<char>) -> Seq<char>)
    requires
        injective(f),
    ensures
        spec_compile(rename(e, f)) == spec_compile(e),
{
    let s = symbol_table(e);
    assert(Seq::<Seq<char>>::empty().map_values(f) =~= Seq::<Seq<char>>::empty());
    lemma_rename_symbols(e, seq![], f);
    assert(Seq::<Seq<char>>::empty().no_duplicates());
    lemma_symbols_from(e, seq![]);
    lemma_rename_binders(e, f);
    lemma_rename_lambdas(e, s, f, binders(e).len());
    lemma_rename_emit(e, s, f, 0, None, 2);
}


/// The lines, without their line feeds, that [`emit`] writes for `e`.
pub open spec fn emit_lines(e: Term, syms: Seq<Seq<char>>, first: nat, env: Option<Seq<char>>, indent: nat) -> Seq<
    Seq<char>,
>
    decreases e,
{
    let env_line = match env {
        Some(local) => pad(indent) + "local.get $"@ + local,
        None => pad(indent) + "i32.const 0"@,
    };
    match e {
        Term::Var(v) => seq![
            env_line,
            pad(indent) + "i32.const "@ + decimal(symbol_id(syms, v)),
            pad(indent) + "call $lookup"@,
        ],
        Term::Abs(_, _) => seq![
            env_line,
            pad(indent) + "i32.const "@ + decimal(first),
            pad(indent) + "call $closure"@,
        ],
        Term::App(a, b) => emit_lines(*a, syms, first, env, indent) + emit_lines(
            *b,
            syms,
            first + binders(*a).len(),
            env,
            indent,
        ) + seq![pad(indent) + "call $apply"@],
    }
}

/// The lines `ls`, each followed by a line feed.
pub open spec fn terminated(ls: Seq<Seq<char>>) -> Seq<char>
    decreases ls.len(),
{
    if ls.len() == 0 {
        seq![]
    } else {
        terminated(ls.drop_last()) + ls.last() + seq!['\n']
    }
}

/// How many of the lines `ls` are `l`.
pub open spec fn count_line(ls: Seq<Seq<char>>, l: Seq<char>) -> nat
    decreases ls.len(),
{
    if ls.len() == 0 {
        0
    } else {
        count_line(ls.drop_last(), l) + if ls.last() == l {
            1nat
        } else {
            0nat
        }
    }
}

/// The applications of `e` outside binder bodies.
pub open spec fn apply_nodes(e: Term) -> nat
    decreases e,
{
    match e {
        Term::Var(_) => 0,
        Term::Abs(_, _) => 0,
        Term::App(a, b) => apply_nodes(*a) + apply_nodes(*b) + 1,
    }
}

/// The variables of `e` outside binder bodies.
pub open spec fn var_nodes(e: Term) -> nat
    decreases e,
{
    match e {
        Term::Var(_) => 1,
        Term::Abs(_, _) => 0,
        Term::App(a, b) => var_nodes(*a) + var_nodes(*b),
    }
}

/// The binders of `e` outside binder bodies.
pub open spec fn abs_nodes(e: Term) -> nat
    decreases e,
{
    match e {
        Term::Var(_) => 0,
        Term::Abs(_, _) => 1,
        Term::App(a, b) => abs_nodes(*a) + abs_nodes(*b),
    }
}

proof fn lemma_terminated_add(x: Seq<Seq<char>>, y: Seq<Seq<char>>)
    ensures
        terminated(x + y) == terminated(x) + terminated(y),
    decreases y.len(),
{
    if y.len() == 0 {
        assert(x + y =~= x);
        assert(terminated(x) + terminated(y) =~= terminated(x));
    } else {
        lemma_terminated_add(x, y.drop_last());
        assert((x + y).drop_last() =~= x + y.drop_last());
        assert((x + y).last() == y.last());
        assert(terminated(x) + terminated(y.drop_last()) + y.last() + seq!['\n'] =~= terminated(x)
            + (terminated(y.drop_last()) + y.last() + seq!['\n']));
    }
}

proof fn lemma_count_add(x: Seq<Seq<char>>, y: Seq<Seq<char>>, l: Seq<char>)
    ensures
        count_line(x + y, l) == count_line(x, l) + count_line(y, l),
    decreases y.len(),
{
    if y.len() == 0 {
        assert(x + y =~= x);
    } else {
        lemma_count_add(x, y.drop_last(), l);
        assert((x + y).drop_last() =~= x + y.drop_last());
        assert((x + y).last() == y.last());
    }
}

proof fn lemma_three_lines(a: Seq<char>, b: Seq<char>, c: Seq<char>)
    ensures
        terminated(seq![a, b, c]) == a + seq!['\n'] + b + seq!['\n'] + c + seq!['\n'],
{
    let ls = seq![a, b, c];
    assert(ls.drop_last() =~= seq![a, b]);
    assert(seq![a, b].drop_last() =~= seq![a]);
    assert(seq![a].drop_last() =~= Seq::<Seq<char>>::empty());
    assert(terminated(Seq::<Seq<char>>::empty()) == Seq::<char>::empty());
    assert(terminated(seq![a]) =~= a + seq!['\n']);
    assert(terminated(seq![a, b]) =~= a + seq!['\n'] + b + seq!['\n']);
}

proof fn lemma_count_three(a: Seq<char>, b: Seq<char>, c: Seq<char>, l: Seq<char>)
    ensures
        count_line(seq![a, b, c], l) == (if a == l { 1nat } else { 0nat }) + (if b == l {
            1nat
        } else {
            0nat
        }) + (if c == l { 1nat } else { 0nat }),
{
    assert(seq![a, b, c].drop_last() =~= seq![a, b]);
    assert(seq![a, b].drop_last() =~= seq![a]);
    assert(seq![a].drop_last() =~= Seq::<Seq<char>>::empty());
    assert(count_line(Seq::<Seq<char>>::empty(), l) == 0);
    assert(seq![a].last() == a);
    assert(seq![a, b].last() == b);
    assert(seq![a, b, c].last() == c);
    assert(count_line(seq![a], l) == (if a == l { 1nat } else { 0nat }));
    assert(count_line(seq![a, b], l) == count_line(seq![a], l) + (if b == l { 1nat } else { 0nat }));
    assert(count_line(seq![a, b, c], l) == count_line(seq![a, b], l) + (if c == l {
        1nat
    } else {
        0nat
    }));
}

/// Two lines that differ at index `k` differ.
proof fn lemma_differ_at(x: Seq<char>, y: Seq<char>, k: int)
    requires
        0 <= k < x.len(),
        0 <= k < y.len(),
        x[k] != y[k],
    ensures
        x != y,
{
}

proof fn lemma_emit_lines(e: Term, syms: Seq<Seq<char>>, first: nat, env: Option<Seq<char>>, indent: nat)
    ensures
        emit(e, syms, first, env, indent) == terminated(emit_lines(e, syms, first, env, indent)),
        count_line(emit_lines(e, syms, first, env, indent), pad(indent) + "call $apply"@)
            == apply_nodes(e),
        count_line(emit_lines(e, syms, first, env, indent), pad(indent) + "call $lookup"@)
            == var_nodes(e),
        count_line(emit_lines(e, syms, first, env, indent), pad(indent) + "call $closure"@)
            == abs_nodes(e),
    decreases e,
{
    reveal_strlit("local.get $");
    reveal_strlit("i32.const 0");
    reveal_strlit("i32.const ");
    reveal_strlit("call $lookup");
    reveal_strlit("call $closure");
    reveal_strlit("call $apply");
    reveal_strlit("local.get $");
    reveal_strlit("i32.const 0\n");
    reveal_strlit("call $lookup\n");
    reveal_strlit("call $closure\n");
    reveal_strlit("call $apply\n");
    reveal_strlit("\n");
    let p = pad(indent);
    let n = indent as int;
    assert(p.len() == indent);
    let ap = p + "call $apply"@;
    let lk = p + "call $lookup"@;
    let cl = p + "call $closure"@;
    assert(ap[n] == 'c' && lk[n] == 'c' && cl[n] == 'c');
    assert(ap[n + 6] == 'a' && lk[n + 6] == 'l' && cl[n + 6] == 'c');
    lemma_differ_at(ap, lk, n + 6);
    lemma_differ_at(ap, cl, n + 6);
    lemma_differ_at(lk, cl, n + 6);
    let env_line = match env {
        Some(local) => p + "local.get $"@ + local,
        None => p + "i32.const 0"@,
    };
    assert(env_line[n] != 'c');
    lemma_differ_at(env_line, ap, n);
    lemma_differ_at(env_line, lk, n);
    lemma_differ_at(env_line, cl, n);
    assert(env_text(env, indent) =~= env_line + seq!['\n']);
    match e {
        Term::Var(v) => {
            let c = p + "i32.const "@ + decimal(symbol_id(syms, v));
            assert(c[n] == 'i');
            lemma_differ_at(c, ap, n);
            lemma_differ_at(c, lk, n);
            lemma_differ_at(c, cl, n);
            lemma_three_lines(env_line, c, lk);
            assert(emit(e, syms, first, env, indent) =~= env_line + seq!['\n'] + c + seq!['\n'] + lk
                + seq!['\n']);
            lemma_count_three(env_line, c, lk, ap);
            lemma_count_three(env_line, c, lk, lk);
            lemma_count_three(env_line, c, lk, cl);
        },
        Term::Abs(_, _) => {
            let c = p + "i32.const "@ + decimal(first);
            assert(c[n] == 'i');
            lemma_differ_at(c, ap, n);
            lemma_differ_at(c, lk, n);
            lemma_differ_at(c, cl, n);
            lemma_three_lines(env_line, c, cl);
            assert(emit(e, syms, first, env, indent) =~= env_line + seq!['\n'] + c + seq!['\n'] + cl
                + seq!['\n']);
            lemma_count_three(env_line, c, cl, ap);
            lemma_count_three(env_line, c, cl, lk);
            lemma_count_three(env_line, c, cl, cl);
        },
        Term::App(a, b) => {
            let f2 = first + binders(*a).len();
            lemma_emit_lines(*a, syms, first, env, indent);
            lemma_emit_lines(*b, syms, f2, env, indent);
            let la = emit_lines(*a, syms, first, env, indent);
            let lb = emit_lines(*b, syms, f2, env, indent);
            let last = seq![ap];
            lemma_terminated_add(la, lb);
            lemma_terminated_add(la + lb, last);
            assert(last.drop_last() =~= Seq::<Seq<char>>::empty());
            assert(terminated(Seq::<Seq<char>>::empty()) == Seq::<char>::empty());
            assert(count_line(Seq::<Seq<char>>::empty(), ap) == 0);
            assert(count_line(Seq::<Seq<char>>::empty(), lk) == 0);
            assert(count_line(Seq::<Seq<char>>::empty(), cl) == 0);
            assert(terminated(last) =~= ap + seq!['\n']);
            assert(emit(e, syms, first, env, indent) =~= terminated(la) + terminated(lb) + (ap + seq![
                '\n',
            ]));
            lemma_count_add(la, lb, ap);
            lemma_count_add(la + lb, last, ap);
            lemma_count_add(la, lb, lk);
            lemma_count_add(la + lb, last, lk);
            lemma_count_add(la, lb, cl);
            lemma_count_add(la + lb, last, cl);
        },
    }
}

/// The instructions of an expression, line by line: what [`emit`] writes is its
/// lines each ended by a line feed, and among them stands one `call $apply` for each
/// application, one `call $lookup` for each variable and one `call $closure` for each
/// binder, outside binder bodies, whose code goes to functions of their own.
pub proof fn law_emit_counts(e: Term, syms: Seq<Seq<char>>, first: nat, env: Option<Seq<char>>, indent: nat)
    ensures
        emit(e, syms, first, env, indent) == terminated(emit_lines(e, syms, first, env, indent)),
        count_line(emit_lines(e, syms, first, env, indent), pad(indent) + "call $apply"@)
            == apply_nodes(e),
        count_line(emit_lines(e, syms, first, env, indent), pad(indent) + "call $lookup"@)
            == var_nodes(e),
        count_line(emit_lines(e, syms, first, env, indent), pad(indent) + "call $closure"@)
            == abs_nodes(e),
{
    lemma_emit_lines(e, syms, first, env, indent);
}


/// The start of the function of binder number `k` that binds its argument under the
/// symbol number `id`.
pub open spec fn binder_head(k: nat, id: nat) -> Seq<char> {
    "  (func $lambda_"@ + decimal(k) + " (param $env i32) (param $arg i32) (result i32)\n    (local $newenv i32)\n"@
        + "    local.get $env\n    i32.const "@ + decimal(id)
        + "\n    local.get $arg\n    call $bind\n    local.set $newenv\n"@
}

proof fn lemma_lambda_texts_split(ls: Seq<(Seq<char>, Term)>, syms: Seq<Seq<char>>, n: nat, k: nat)
    requires
        k < n,
    ensures
        exists|rest: Seq<char>|
            lambda_texts(ls, syms, n) == lambda_texts(ls, syms, k) + lambda_text(
                k,
                symbol_id(syms, ls[k as int].0),
                ls[k as int].1,
                syms,
            ) + rest,
    decreases n,
{
    let lt = lambda_text(k, symbol_id(syms, ls[k as int].0), ls[k as int].1, syms);
    if k == n - 1 {
        assert(lambda_texts(ls, syms, n) == lambda_texts(ls, syms, k) + lt + Seq::<char>::empty());
    } else {
        lemma_lambda_texts_split(ls, syms, (n - 1) as nat, k);
        let rest = choose|rest: Seq<char>|
            lambda_texts(ls, syms, (n - 1) as nat) == lambda_texts(ls, syms, k) + lt + rest;
        let m = (n - 1) as nat;
        let last = lambda_text(m, symbol_id(syms, ls[m as int].0), ls[m as int].1, syms);
        assert(lambda_texts(ls, syms, n) =~= lambda_texts(ls, syms, k) + lt + (rest + last));
    }
}

proof fn lemma_sub_prefix(x: Seq<char>, y: Seq<char>, m: int)
    requires
        0 <= m <= x.len(),
    ensures
        (x + y).subrange(0, m) == x.subrange(0, m),
{
    assert((x + y).subrange(0, m) =~= x.subrange(0, m));
}

/// The function of binder number `k` binds its argument under the symbol number of
/// that binder's own parameter, the number under which the occurrences of the name
/// are looked up: the module holds, for every binder, the start of its function with
/// `i32.const` and that number before `call $bind`.
pub proof fn law_binder_binds_its_parameter(e: Term, k: nat)
    requires
        k < binders(e).len(),
    ensures
        exists|j: int|
            0 <= j && j + binder_head(k, symbol_id(symbol_table(e), binders(e)[k as int].0)).len()
                <= spec_compile(e).len() && #[trigger] spec_compile(e).subrange(
                j,
                j + binder_head(k, symbol_id(symbol_table(e), binders(e)[k as int].0)).len(),
            ) == binder_head(k, symbol_id(symbol_table(e), binders(e)[k as int].0)),
{
    let syms = symbol_table(e);
    let ls = binders(e);
    let n = ls.len();
    let id = symbol_id(syms, ls[k as int].0);
    let h = binder_head(k, id);
    lemma_lambda_texts_split(ls, syms, n, k);
    let lt = lambda_text(k, id, ls[k as int].1, syms);
    let rest = choose|rest: Seq<char>|
        lambda_texts(ls, syms, n) == lambda_texts(ls, syms, k) + lt + rest;
    let tail = emit(ls[k as int].1, syms, k + 1, Some("newenv"@), 4) + "  )\n\n"@;
    assert(lt =~= h + tail);
    let c = spec_compile(e);
    let v0 = "(module\n"@ + RUNTIME@ + lambda_texts(ls, syms, n);
    let v1 = v0 + "  (func $apply (param $f i32) (param $arg i32) (result i32)\n"@;
    let v2 = v1 + apply_cases(n);
    let v3 = v2 + increment_case(n);
    let v4 = v3 + "    unreachable)\n\n"@;
    let v5 = v4 + "  (func $main (export \"main\") (result i32)\n"@;
    let v6 = v5 + emit(e, syms, 0, None, 2);
    let v7 = v6 + "  )\n\n"@;
    let v8 = v7 + as_i32_text(n);
    assert(c == v8 + ")"@);
    let m = v0.len() as int;
    lemma_sub_prefix(v8, ")"@, m);
    lemma_sub_prefix(v7, as_i32_text(n), m);
    lemma_sub_prefix(v6, "  )\n\n"@, m);
    lemma_sub_prefix(v5, emit(e, syms, 0, None, 2), m);
    lemma_sub_prefix(v4, "  (func $main (export \"main\") (result i32)\n"@, m);
    lemma_sub_prefix(v3, "    unreachable)\n\n"@, m);
    lemma_sub_prefix(v2, increment_case(n), m);
    lemma_sub_prefix(v1, apply_cases(n), m);
    lemma_sub_prefix(v0, "  (func $apply (param $f i32) (param $arg i32) (result i32)\n"@, m);
    assert(v0.subrange(0, m) =~= v0);
    assert(c.subrange(0, m) == v0);
    let p = "(module\n"@ + RUNTIME@ + lambda_texts(ls, syms, k);
    assert(v0 =~= p + h + (tail + rest));
    let j = p.len() as int;
    assert(v0.subrange(j, j + h.len()) =~= h);
    assert(c.subrange(j, j + h.len()) =~= c.subrange(0, m).subrange(j, j + h.len()));
    assert(c.subrange(j, j + h.len()) =~= h);
}

} // verus!
