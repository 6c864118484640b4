//! The decisions of the language server: what each message does to the open
//! documents and what it is answered, and how a message header line is read.

use vstd::prelude::*;
use crate::definition::{definition_span, spec_definition_span};
use crate::position::{Pos, Span};
use crate::syntax::{is_whitespace, spec_is_whitespace, spec_starts_with, starts_with};
use crate::text::{chars_of, decimal, digit_char};

verus! {

/// A message from the editor, with the fields the server reads.
#[allow(inconsistent_fields)]
pub enum Message {
    /// `initialize`.
    Initialize,
    /// `shutdown`.
    Shutdown,
    /// `exit`.
    Exit,
    /// `textDocument/didOpen`, with the document's URI and text where they are given.
    DidOpen { uri: Option<String>, text: Option<String> },
    /// `textDocument/didChange`, with the URI and the text of the first change where given.
    DidChange { uri: Option<String>, text: Option<String> },
    /// `textDocument/definition` at a position of a document.
    Definition { uri: String, pos: Pos },
    /// Any other message; `has_id` says whether it is a request, which must be answered.
    Other { has_id: bool },
}

/// A message, as a mathematical value.
#[allow(inconsistent_fields)]
pub enum Msg {
    Initialize,
    Shutdown,
    Exit,
    DidOpen { uri: Option<Seq<char>>, text: Option<Seq<char>> },
    DidChange { uri: Option<Seq<char>>, text: Option<Seq<char>> },
    Definition { uri: Seq<char>, pos: Pos },
    Other { has_id: bool },
}

pub open spec fn opt_string_view(s: Option<String>) -> Option<Seq<char>> {
    match s {
        Some(s) => Some(s@),
        None => None,
    }
}

impl View for Message {
    type V = Msg;

    open spec fn view(&self) -> Msg {
        match self {
            Message::Initialize => Msg::Initialize,
            Message::Shutdown => Msg::Shutdown,
            Message::Exit => Msg::Exit,
            Message::DidOpen { uri, text } => Msg::DidOpen {
                uri: opt_string_view(*uri),
                text: opt_string_view(*text),
            },
            Message::DidChange { uri, text } => Msg::DidChange {
                uri: opt_string_view(*uri),
                text: opt_string_view(*text),
            },
            Message::Definition { uri, pos } => Msg::Definition { uri: uri@, pos: *pos },
            Message::Other { has_id } => Msg::Other { has_id: *has_id },
        }
    }
}

/// What the server does after a message.
pub enum Reply {
    /// Answer with the server's capabilities.
    Capabilities,
    /// Answer with `null`.
    Null,
    /// Answer with the location `span` in the document `uri`.
    Location { uri: String, span: Span },
    /// Stop serving.
    Stop,
    /// Answer nothing.
    Silent,
}

/// A reply, as a mathematical value.
pub enum Answer {
    Capabilities,
    Null,
    Location { uri: Seq<char>, span: Span },
    Stop,
    Silent,
}

impl View for Reply {
    type V = Answer;

    open spec fn view(&self) -> Answer {
        match self {
            Reply::Capabilities => Answer::Capabilities,
            Reply::Null => Answer::Null,
            Reply::Location { uri, span } => Answer::Location { uri: uri@, span: *span },
            Reply::Stop => Answer::Stop,
            Reply::Silent => Answer::Silent,
        }
    }
}

/// The answer to a definition request at `pos` in the document `uri`, whose text,
/// if it is open, `docs` holds.
pub open spec fn definition_answer(docs: Map<Seq<char>, Seq<char>>, uri: Seq<char>, pos: Pos) -> Answer {
    if docs.contains_key(uri) {
        match spec_definition_span(docs[uri], pos) {
            Some(span) => Answer::Location { uri, span },
            None => Answer::Null,
        }
    } else {
        Answer::Null
    }
}

/// The open documents after message `m`, from `docs` before it.
pub open spec fn next_docs(docs: Map<Seq<char>, Seq<char>>, m: Msg) -> Map<Seq<char>, Seq<char>> {
    match m {
        Msg::DidOpen { uri: Some(u), text: Some(t) } => docs.insert(u, t),
        Msg::DidChange { uri: Some(u), text: Some(t) } => docs.insert(u, t),
        _ => docs,
    }
}

/// The answer to message `m`, with the open documents `docs`.
pub open spec fn answer(docs: Map<Seq<char>, Seq<char>>, m: Msg) -> Answer {
    match m {
        Msg::Initialize => Answer::Capabilities,
        Msg::Shutdown => Answer::Null,
        Msg::Exit => Answer::Stop,
        Msg::DidOpen { .. } => Answer::Silent,
        Msg::DidChange { .. } => Answer::Silent,
        Msg::Definition { uri, pos } => definition_answer(docs, uri, pos),
        Msg::Other { has_id } => if has_id {
            Answer::Null
        } else {
            Answer::Silent
        },
    }
}

/// The keys of `s` are distinct.
pub open spec fn keys_distinct(s: Seq<(Seq<char>, Seq<char>)>) -> bool {
    forall|i: int, j: int| 0 <= i < s.len() && 0 <= j < s.len() && i != j ==> s[i].0 != s[j].0
}

/// Some entry of `s` has key `k`.
pub open spec fn has_key(s: Seq<(Seq<char>, Seq<char>)>, k: Seq<char>) -> bool {
    exists|i: int| 0 <= i < s.len() && s[i].0 == k
}

/// The map from each key of `s` to its value.
pub open spec fn entries_map(s: Seq<(Seq<char>, Seq<char>)>) -> Map<Seq<char>, Seq<char>> {
    Map::new(
        |k: Seq<char>| has_key(s, k),
        |k: Seq<char>| s[choose|i: int| 0 <= i < s.len() && s[i].0 == k].1,
    )
}

pub open spec fn docs_view(d: Seq<(String, String)>) -> Seq<(Seq<char>, Seq<char>)> {
    d.map_values(|p: (String, String)| (p.0@, p.1@))
}

/// The documents that the editor has opened, by URI. They are kept as a list of
/// pairs with distinct URIs, viewed as a map: vstd's `HashMap` and `BTreeMap`
/// specifications hold only for key types whose hashing or order vstd models, and
/// `String` is not among them.
pub struct Server {
    docs: Vec<(String, String)>,
}

impl View for Server {
    type V = Map<Seq<char>, Seq<char>>;

    closed spec fn view(&self) -> Map<Seq<char>, Seq<char>> {
        entries_map(docs_view(self.docs@))
    }
}

proof fn lemma_entry_value(s: Seq<(Seq<char>, Seq<char>)>, i: int)
    requires
        keys_distinct(s),
        0 <= i < s.len(),
    ensures
        entries_map(s).contains_key(s[i].0),
        entries_map(s)[s[i].0] == s[i].1,
{
    let k = s[i].0;
    assert(has_key(s, k));
    let j = choose|j: int| 0 <= j < s.len() && s[j].0 == k;
    assert(j == i);
}

proof fn lemma_replace(s: Seq<(Seq<char>, Seq<char>)>, i: int, v: Seq<char>)
    requires
        keys_distinct(s),
        0 <= i < s.len(),
    ensures
        keys_distinct(s.update(i, (s[i].0, v))),
        entries_map(s.update(i, (s[i].0, v))) =~= entries_map(s).insert(s[i].0, v),
{
    let k = s[i].0;
    let t = s.update(i, (k, v));
    assert forall|key: Seq<char>| #[trigger] has_key(t, key) == has_key(s, key) by {
        if has_key(s, key) {
            let j = choose|j: int| 0 <= j < s.len() && s[j].0 == key;
            assert(t[j].0 == key);
        }
        if has_key(t, key) {
            let j = choose|j: int| 0 <= j < t.len() && t[j].0 == key;
            assert(s[j].0 == key);
        }
    }
    assert forall|key: Seq<char>| entries_map(t).contains_key(key) implies entries_map(t)[key]
        == entries_map(s).insert(k, v)[key] by {
        let j = choose|j: int| 0 <= j < t.len() && t[j].0 == key;
        lemma_entry_value(t, j);
        if j != i {
            lemma_entry_value(s, j);
        }
    }
}

proof fn lemma_add(s: Seq<(Seq<char>, Seq<char>)>, k: Seq<char>, v: Seq<char>)
    requires
        keys_distinct(s),
        !has_key(s, k),
    ensures
        keys_distinct(s.push((k, v))),
        entries_map(s.push((k, v))) =~= entries_map(s).insert(k, v),
{
    let t = s.push((k, v));
    assert(t[s.len() as int].0 == k);
    assert forall|key: Seq<char>| #[trigger] has_key(t, key) == (has_key(s, key) || key == k) by {
        if has_key(s, key) {
            let j = choose|j: int| 0 <= j < s.len() && s[j].0 == key;
            assert(t[j].0 == key);
        }
    }
    assert forall|key: Seq<char>| entries_map(t).contains_key(key) implies entries_map(t)[key]
        == entries_map(s).insert(k, v)[key] by {
        let j = choose|j: int| 0 <= j < t.len() && t[j].0 == key;
        lemma_entry_value(t, j);
        if j < s.len() {
            lemma_entry_value(s, j);
        }
    }
}

impl Server {
    #[verifier::type_invariant]
    closed spec fn distinct_uris(self) -> bool {
        keys_distinct(docs_view(self.docs@))
    }

    /// A server with no open documents.
    pub fn new() -> (s: Server)
        ensures
            s@ == Map::<Seq<char>, Seq<char>>::empty(),
    {
        let s = Server { docs: Vec::new() };
        assert(s@ =~= Map::<Seq<char>, Seq<char>>::empty());
        s
    }

    /// The index of the document `uri`.
    fn find(&self, uri: &String) -> (r: Option<usize>)
        ensures
            match r {
                Some(i) => i < self.docs@.len() && docs_view(self.docs@)[i as int].0 == uri@,
                None => !has_key(docs_view(self.docs@), uri@),
            },
    {
        let ghost d = docs_view(self.docs@);
        let mut i: usize = 0;
        while i < self.docs.len()
            invariant
                i <= self.docs.len(),
                d == docs_view(self.docs@),
                forall|j: int| 0 <= j < i ==> d[j].0 != uri@,
            decreases self.docs.len() - i,
        {
            if self.docs[i].0.eq(uri) {
                return Some(i);
            }
            i += 1;
        }
        None
    }

    /// The text of the document `uri`, where it is open.
    pub fn get(&self, uri: &String) -> (r: Option<&String>)
        ensures
            match r {
                Some(t) => self@.contains_key(uri@) && self@[uri@] == t@,
                None => !self@.contains_key(uri@),
            },
    {
        proof {
            use_type_invariant(self);
        }
        match self.find(uri) {
            Some(i) => {
                proof {
                    lemma_entry_value(docs_view(self.docs@), i as int);
                }
                Some(&self.docs[i].1)
            },
            None => None,
        }
    }

    /// Opens the document `uri` with text `text`, or replaces its text.
    pub fn insert(&mut self, uri: String, text: String)
        ensures
            final(self)@ == old(self)@.insert(uri@, text@),
    {
        proof {
            use_type_invariant(&*self);
        }
        let ghost d = docs_view(self.docs@);
        match self.find(&uri) {
            Some(i) => {
                let ghost u = uri@;
                let mut docs: Vec<(String, String)> = Vec::new();
                std::mem::swap(&mut docs, &mut self.docs);
                let key = docs[i].0.clone();
                docs.set(i, (key, text));
                proof {
                    assert(docs_view(docs@) =~= d.update(i as int, (d[i as int].0, text@)));
                    lemma_replace(d, i as int, text@);
                }
                self.docs = docs;
            },
            None => {
                let ghost u = uri@;
                let ghost t = text@;
                let mut docs: Vec<(String, String)> = Vec::new();
                std::mem::swap(&mut docs, &mut self.docs);
                docs.push((uri, text));
                proof {
                    assert(docs_view(docs@) =~= d.push((u, t)));
                    lemma_add(d, u, t);
                }
                self.docs = docs;
            },
        }
    }

    /// Takes in one message: updates the open documents and says what to answer.
    pub fn handle(&mut self, msg: Message) -> (r: Reply)
        requires
            msg matches Message::Definition { uri, pos } ==> (old(self)@.contains_key(uri@)
                ==> pos.character < usize::MAX),
        ensures
            final(self)@ == next_docs(old(self)@, msg@),
            r@ == answer(old(self)@, msg@),
    {
        match msg {
            Message::Initialize => Reply::Capabilities,
            Message::Shutdown => Reply::Null,
            Message::Exit => Reply::Stop,
            Message::DidOpen { uri, text } | Message::DidChange { uri, text } => {
                match (uri, text) {
                    (Some(u), Some(t)) => self.insert(u, t),
                    _ => {},
                }
                Reply::Silent
            },
            Message::Definition { uri, pos } => {
                let found = match self.get(&uri) {
                    Some(text) => definition_span(text.as_str(), pos),
                    None => None,
                };
                match found {
                    Some(span) => Reply::Location { uri, span },
                    None => Reply::Null,
                }
            },
            Message::Other { has_id } => if has_id {
                Reply::Null
            } else {
                Reply::Silent
            },
        }
    }
}


/// A header line of a message, as the server reads it.
pub enum HeaderLine {
    /// The empty line that ends the headers.
    End,
    /// `Content-Length:` and the length it gives, if it is a number.
    ContentLength(Option<usize>),
    /// Any other header.
    Other,
}

/// A header line, as a mathematical value.
pub enum Header {
    End,
    ContentLength(Option<nat>),
    Other,
}

impl View for HeaderLine {
    type V = Header;

    open spec fn view(&self) -> Header {
        match self {
            HeaderLine::End => Header::End,
            HeaderLine::ContentLength(Some(n)) => Header::ContentLength(Some(*n as nat)),
            HeaderLine::ContentLength(None) => Header::ContentLength(None),
            HeaderLine::Other => Header::Other,
        }
    }
}

/// `cs` without the carriage returns and line feeds at its end.
pub open spec fn trim_line_end(cs: Seq<char>) -> Seq<char>
    decreases cs.len(),
{
    if cs.len() > 0 && (cs.last() == '\r' || cs.last() == '\n') {
        trim_line_end(cs.drop_last())
    } else {
        cs
    }
}

/// `cs` without the white space at its start.
pub open spec fn trim_start(cs: Seq<char>) -> Seq<char>
    decreases cs.len(),
{
    if cs.len() > 0 && spec_is_whitespace(cs[0]) {
        trim_start(cs.drop_first())
    } else {
        cs
    }
}

/// `cs` without the white space at its end.
pub open spec fn trim_end(cs: Seq<char>) -> Seq<char>
    decreases cs.len(),
{
    if cs.len() > 0 && spec_is_whitespace(cs.last()) {
        trim_end(cs.drop_last())
    } else {
        cs
    }
}

/// The value of a digit character.
pub open spec fn digit_value(c: char) -> nat {
    (c as u32 - 48) as nat
}

pub open spec fn is_digit(c: char) -> bool {
    48 <= c as u32 <= 57
}

/// The number that the decimal digits `ds` spell.
pub open spec fn digits_value(ds: Seq<char>) -> nat
    decreases ds.len(),
{
    if ds.len() == 0 {
        0
    } else {
        digits_value(ds.drop_last()) * 10 + digit_value(ds.last())
    }
}

/// `cs` without a leading `+` that some digit follows.
pub open spec fn unsigned_digits(cs: Seq<char>) -> Seq<char> {
    if cs.len() > 1 && cs[0] == '+' {
        cs.drop_first()
    } else {
        cs
    }
}

/// The number that `cs` spells as `usize::from_str` reads it: an optional `+`, then
/// one or more decimal digits, of a value that fits.
pub open spec fn spec_parse_usize(cs: Seq<char>) -> Option<nat> {
    let ds = unsigned_digits(cs);
    if ds.len() == 0 || !(forall|k: int| 0 <= k < ds.len() ==> is_digit(#[trigger] ds[k])) {
        None
    } else if digits_value(ds) > usize::MAX {
        None
    } else {
        Some(digits_value(ds))
    }
}

/// What a header line says: with its line ending taken off, an empty line ends the
/// headers, and `Content-Length:` gives the length of the body.
pub open spec fn spec_header(line: Seq<char>) -> Header {
    let t = trim_line_end(line);
    let prefix = "Content-Length:"@;
    if t.len() == 0 {
        Header::End
    } else if spec_starts_with(t, 0, prefix) {
        Header::ContentLength(spec_parse_usize(trim_end(trim_start(t.subrange(prefix.len() as int, t.len() as int)))))
    } else {
        Header::Other
    }
}

proof fn lemma_digits_grow(ds: Seq<char>, n: int)
    requires
        0 <= n <= ds.len(),
    ensures
        digits_value(ds.subrange(0, n)) <= digits_value(ds),
    decreases ds.len() - n,
{
    if n < ds.len() {
        lemma_digits_grow(ds, n + 1);
        let p = ds.subrange(0, n + 1);
        assert(p.drop_last() =~= ds.subrange(0, n));
    } else {
        assert(ds.subrange(0, n) =~= ds);
    }
}

/// Reads the number that `cs[start..end]` spells, as `usize::from_str` does.
fn parse_usize(cs: &Vec<char>, start: usize, end: usize) -> (r: Option<usize>)
    requires
        start <= end <= cs.len(),
    ensures
        match spec_parse_usize(cs@.subrange(start as int, end as int)) {
            Some(n) => r == Some(n as usize),
            None => r is None,
        },
{
    let ghost s = cs@.subrange(start as int, end as int);
    let mut i = start;
    if end - start > 1 && cs[start] == '+' {
        i = start + 1;
    }
    let ghost ds = cs@.subrange(i as int, end as int);
    assert(ds =~= unsigned_digits(s));
    if i == end {
        return None;
    }
    let mut value: usize = 0;
    let mut k = i;
    while k < end
        invariant
            i <= k <= end <= cs.len(),
            i < end,
            start <= i,
            s == cs@.subrange(start as int, end as int),
            ds == cs@.subrange(i as int, end as int),
            ds == unsigned_digits(s),
            forall|j: int| i <= j < k ==> is_digit(#[trigger] cs@[j]),
            value == digits_value(cs@.subrange(i as int, k as int)),
        decreases end - k,
    {
        let c = cs[k];
        let u = c as u32;
        if !(48 <= u && u <= 57) {
            proof {
                assert(ds[k - i] == c);
                assert(!is_digit(ds[k - i]));
                assert(!(forall|j: int| 0 <= j < ds.len() ==> is_digit(#[trigger] ds[j])));
                assert(spec_parse_usize(s) is None);
            }
            return None;
        }
        proof {
            let p = cs@.subrange(i as int, k + 1);
            assert(p.drop_last() =~= cs@.subrange(i as int, k as int));
            assert(p.last() == c);
        }
        let d = (u - 48) as usize;
        proof {
            assert(cs@.subrange(i as int, k + 1) =~= ds.subrange(0, k + 1 - i));
            lemma_digits_grow(ds, k + 1 - i);
        }
        match value.checked_mul(10) {
            Some(v) => match v.checked_add(d) {
                Some(w) => {
                    value = w;
                },
                None => {
                    return None;
                },
            },
            None => {
                return None;
            },
        }
        k += 1;
    }
    assert(cs@.subrange(i as int, end as int) =~= ds);
    Some(value)
}


/// Reads one header line of a message.
pub fn header_line(line: &str) -> (r: HeaderLine)
    ensures
        r@ == spec_header(line@),
{
    let chars = chars_of(line);
    let ghost cs = chars@;
    let mut end = chars.len();
    assert(cs.subrange(0, end as int) =~= cs);
    while end > 0 && (chars[end - 1] == '\r' || chars[end - 1] == '\n')
        invariant
            end <= chars.len(),
            cs == chars@,
            trim_line_end(cs) == trim_line_end(cs.subrange(0, end as int)),
        decreases end,
    {
        assert(cs.subrange(0, end as int).drop_last() =~= cs.subrange(0, end - 1));
        end -= 1;
    }
    let ghost t = cs.subrange(0, end as int);
    assert(trim_line_end(t) == t);
    if end == 0 {
        return HeaderLine::End;
    }
    let prefix = "Content-Length:";
    let n = prefix.unicode_len();
    if n > end || !starts_with(&chars, 0, prefix) {
        proof {
            if n <= end {
                assert(cs.subrange(0, n as int) =~= t.subrange(0, n as int));
            }
        }
        return HeaderLine::Other;
    }
    assert(cs.subrange(0, n as int) =~= t.subrange(0, n as int));
    let mut a = n;
    assert(t.subrange(n as int, end as int) =~= cs.subrange(n as int, end as int));
    while a < end && is_whitespace(chars[a])
        invariant
            n <= a <= end <= chars.len(),
            cs == chars@,
            trim_start(cs.subrange(n as int, end as int)) == trim_start(cs.subrange(a as int, end as int)),
        decreases end - a,
    {
        assert(cs.subrange(a as int, end as int).drop_first() =~= cs.subrange(a + 1, end as int));
        a += 1;
    }
    assert(trim_start(cs.subrange(a as int, end as int)) == cs.subrange(a as int, end as int));
    let mut b = end;
    assert(cs.subrange(a as int, b as int) =~= cs.subrange(a as int, end as int));
    while b > a && is_whitespace(chars[b - 1])
        invariant
            a <= b <= end <= chars.len(),
            cs == chars@,
            trim_end(cs.subrange(a as int, end as int)) == trim_end(cs.subrange(a as int, b as int)),
        decreases b,
    {
        assert(cs.subrange(a as int, b as int).drop_last() =~= cs.subrange(a as int, b - 1));
        b -= 1;
    }
    assert(trim_end(cs.subrange(a as int, b as int)) == cs.subrange(a as int, b as int));
    HeaderLine::ContentLength(parse_usize(&chars, a, b))
}


/// A definition request on a document reads the text that the last `didOpen` or
/// `didChange` of that document gave.
pub proof fn law_definition_reads_last_text(
    docs: Map<Seq<char>, Seq<char>>,
    uri: Seq<char>,
    text: Seq<char>,
    changed: bool,
    pos: Pos,
)
    ensures
        ({
            let m = if changed {
                Msg::DidChange { uri: Some(uri), text: Some(text) }
            } else {
                Msg::DidOpen { uri: Some(uri), text: Some(text) }
            };
            answer(next_docs(docs, m), Msg::Definition { uri, pos }) == match spec_definition_span(
                text,
                pos,
            ) {
                Some(span) => Answer::Location { uri, span },
                None => Answer::Null,
            }
        }),
{
}

/// Only `didOpen` and `didChange` messages that carry a URI and a text change the
/// open documents; a definition request on a document that is not open is answered
/// `null`.
pub proof fn law_documents_change_only_by_text(docs: Map<Seq<char>, Seq<char>>, m: Msg)
    ensures
        !(m matches Msg::DidOpen { uri: Some(_), text: Some(_) }) && !(m matches Msg::DidChange {
            uri: Some(_),
            text: Some(_),
        }) ==> next_docs(docs, m) == docs,
        m matches Msg::Definition { uri, .. } && !docs.contains_key(uri) ==> answer(docs, m)
            == Answer::Null,
{
}

/// A request is always answered: the server stays silent only on notifications.
pub proof fn law_requests_are_answered(docs: Map<Seq<char>, Seq<char>>, m: Msg)
    ensures
        answer(docs, m) == Answer::Silent ==> (m is DidOpen || m is DidChange || m matches Msg::Other {
            has_id: false,
        }),
{
}


proof fn lemma_decimal_digits(n: nat)
    ensures
        decimal(n).len() > 0,
        forall|k: int| 0 <= k < decimal(n).len() ==> is_digit(#[trigger] decimal(n)[k]),
        digits_value(decimal(n)) == n,
    decreases n,
{
    if n < 10 {
        assert(digit_value(digit_char(n)) == n);
        assert(decimal(n).drop_last() =~= Seq::<char>::empty());
        assert(digits_value(Seq::<char>::empty()) == 0);
        assert(decimal(n).last() == digit_char(n));
        assert(digits_value(decimal(n)) == digits_value(decimal(n).drop_last()) * 10 + digit_value(
            decimal(n).last(),
        ));
    } else {
        lemma_decimal_digits(n / 10);
        let d = decimal(n);
        assert(d.drop_last() =~= decimal(n / 10));
        assert(digit_value(digit_char(n % 10)) == n % 10);
        assert(d.last() == digit_char(n % 10));
        assert(digits_value(d) == digits_value(decimal(n / 10)) * 10 + digit_value(d.last()));
        assert((n / 10) * 10 + n % 10 == n);
        assert forall|k: int| 0 <= k < d.len() implies is_digit(#[trigger] d[k]) by {
            if k < d.len() - 1 {
                assert(d[k] == decimal(n / 10)[k]);
            }
        }
    }
}

proof fn lemma_trim_line_end_keeps(l: Seq<char>)
    requires
        l.len() > 0,
        is_digit(l.last()),
    ensures
        trim_line_end(l + seq!['\r', '\n']) == l,
{
    let a = l + seq!['\r', '\n'];
    let b = l + seq!['\r'];
    assert(a.drop_last() =~= b);
    assert(b.drop_last() =~= l);
    assert(a.last() == '\n');
    assert(b.last() == '\r');
    assert(trim_line_end(l) == l);
    assert(trim_line_end(b) == trim_line_end(l));
    assert(trim_line_end(a) == trim_line_end(b));
}

/// The header that a message's writer puts before a body of `n` characters is read
/// back as that length.
pub proof fn law_content_length_round_trip(n: nat)
    requires
        n <= usize::MAX,
    ensures
        spec_header("Content-Length:"@ + seq![' '] + decimal(n) + seq!['\r', '\n'])
            == Header::ContentLength(Some(n)),
{
    let prefix = "Content-Length:"@;
    let d = decimal(n);
    lemma_decimal_digits(n);
    let l = prefix + seq![' '] + d;
    assert(l.last() == d.last());
    lemma_trim_line_end_keeps(l);
    assert(prefix + seq![' '] + d + seq!['\r', '\n'] =~= l + seq!['\r', '\n']);
    assert(l.subrange(0, prefix.len() as int) =~= prefix);
    let rest = l.subrange(prefix.len() as int, l.len() as int);
    assert(rest =~= seq![' '] + d);
    assert(spec_is_whitespace(' '));
    assert(rest.drop_first() =~= d);
    assert(!spec_is_whitespace(d[0])) by {
        assert(is_digit(d[0]));
    }
    assert(trim_start(d) == d);
    assert(rest[0] == ' ');
    assert(trim_start(rest) == trim_start(rest.drop_first()));
    assert(trim_start(rest) == d);
    assert(!spec_is_whitespace(d.last())) by {
        assert(is_digit(d[d.len() - 1]));
    }
    assert(trim_end(d) == d);
    assert(unsigned_digits(d) == d) by {
        assert(is_digit(d[0]));
    }
}

} // verus!
