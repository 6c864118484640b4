//! The abstract syntax of JordanCalculus and the character classes of its notation.

use vstd::prelude::*;

verus! {

/// An expression of the untyped lambda calculus.
#[derive(Debug, PartialEq, Eq)]
pub enum Expr {
    Var(String),
    Abs { param: String, body: Box<Expr> },
    App(Box<Expr>, Box<Expr>),
}

/// The mathematical value of an [`Expr`]: names are sequences of characters.
pub enum Term {
    Var(Seq<char>),
    Abs(Seq<char>, Box<Term>),
    App(Box<Term>, Box<Term>),
}

impl View for Expr {
    type V = Term;

    open spec fn view(&self) -> Term
        decreases self,
    {
        match self {
            Expr::Var(v) => Term::Var(v@),
            Expr::Abs { param, body } => Term::Abs(param@, Box::new((**body).view())),
            Expr::App(a, b) => Term::App(Box::new((**a).view()), Box::new((**b).view())),
        }
    }
}

impl Clone for Expr {
    fn clone(&self) -> (r: Self)
        ensures
            r@ == self@,
        decreases self,
    {
        match self {
            Expr::Var(v) => Expr::Var(v.clone()),
            Expr::Abs { param, body } => Expr::Abs {
                param: param.clone(),
                body: Box::new((**body).clone()),
            },
            Expr::App(a, b) => Expr::App(Box::new((**a).clone()), Box::new((**b).clone())),
        }
    }
}

/// Whether `c` lies in the Katakana block (U+30A0..U+30FF) or in the
/// Katakana Phonetic Extensions block (U+31F0..U+31FF).
pub open spec fn spec_is_katakana(c: char) -> bool {
    (0x30A0 <= c as u32 <= 0x30FF) || (0x31F0 <= c as u32 <= 0x31FF)
}

/// Whether `c` may stand in a variable name: any Katakana but the small tsu `ッ`,
/// which is the binder's dot.
pub open spec fn is_name_char(c: char) -> bool {
    spec_is_katakana(c) && c != 'ッ'
}

/// The characters with the Unicode `White_Space` property, which is what
/// `char::is_whitespace` tests.
pub open spec fn spec_is_whitespace(c: char) -> bool {
    let u = c as u32;
    ||| 0x09 <= u <= 0x0D
    ||| u == 0x20
    ||| u == 0x85
    ||| u == 0xA0
    ||| u == 0x1680
    ||| 0x2000 <= u <= 0x200A
    ||| u == 0x2028
    ||| u == 0x2029
    ||| u == 0x202F
    ||| u == 0x205F
    ||| u == 0x3000
}

/// Whether `c` is a Katakana character.
pub fn is_katakana(c: char) -> (r: bool)
    ensures
        r == spec_is_katakana(c),
{
    let u = c as u32;
    (0x30A0 <= u && u <= 0x30FF) || (0x31F0 <= u && u <= 0x31FF)
}

/// Whether `c` is white space, as `char::is_whitespace` tells.
pub fn is_whitespace(c: char) -> (r: bool)
    ensures
        r == spec_is_whitespace(c),
{
    let u = c as u32;
    (0x09 <= u && u <= 0x0D) || u == 0x20 || u == 0x85 || u == 0xA0 || u == 0x1680 || (0x2000
        <= u && u <= 0x200A) || u == 0x2028 || u == 0x2029 || u == 0x202F || u == 0x205F || u
        == 0x3000
}

/// Whether the characters of `s` stand in `chars` from index `i` on.
pub open spec fn spec_starts_with(chars: Seq<char>, i: int, s: Seq<char>) -> bool {
    &&& 0 <= i
    &&& i + s.len() <= chars.len()
    &&& chars.subrange(i, i + s.len()) == s
}

/// Whether `chars` holds the text `s` from index `i` on.
pub fn starts_with(chars: &[char], i: usize, s: &str) -> (r: bool)
    ensures
        r == spec_starts_with(chars@, i as int, s@),
{
    let n = s.unicode_len();
    if i > chars.len() || n > chars.len() - i {
        return false;
    }
    let mut k: usize = 0;
    while k < n
        invariant
            n == s@.len(),
            i + n <= chars.len(),
            k <= n,
            forall|j: int| 0 <= j < k ==> chars@[i + j] == s@[j],
        decreases n - k,
    {
        if chars[i + k] != s.get_char(k) {
            assert(chars@.subrange(i as int, i + n)[k as int] != s@[k as int]);
            return false;
        }
        k += 1;
    }
    assert(chars@.subrange(i as int, i + n) =~= s@);
    true
}

} // verus!
