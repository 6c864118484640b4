//! Positions in a text, and the lines of a text.

use vstd::prelude::*;

verus! {

/// A zero-based line and character offset in a text.
#[derive(Debug, Clone, Copy, PartialEq, Eq, Structural)]
pub struct Pos {
    pub line: usize,
    pub character: usize,
}

/// The stretch of a text from `start` up to, not including, `end`.
#[derive(Debug, Clone, Copy, PartialEq, Eq, Structural)]
pub struct Span {
    pub start: Pos,
    pub end: Pos,
}

/// `a` comes no later than `b`: by line, then by character.
pub open spec fn pos_le(a: Pos, b: Pos) -> bool {
    a.line < b.line || (a.line == b.line && a.character <= b.character)
}

/// `a` comes before `b`.
pub open spec fn pos_lt(a: Pos, b: Pos) -> bool {
    a.line < b.line || (a.line == b.line && a.character < b.character)
}

/// `pos` lies in `span`.
pub open spec fn spec_contains(span: Span, pos: Pos) -> bool {
    pos_le(span.start, pos) && pos_lt(pos, span.end)
}

/// `pos` lies in `span`, or on its line one character before it or right after it.
/// Editors count positions in UTF-16 units and may place the cursor one unit off
/// a token while it shows on it.
pub open spec fn spec_contains_fuzzy(span: Span, pos: Pos) -> bool {
    ||| spec_contains(span, pos)
    ||| (pos.line == span.start.line && pos.line == span.end.line && pos.character + 1
        >= span.start.character && pos.character <= span.end.character)
}

/// Whether `pos` lies in `span`.
pub fn contains(span: Span, pos: Pos) -> (r: bool)
    ensures
        r == spec_contains(span, pos),
{
    let le = span.start.line < pos.line || (span.start.line == pos.line && span.start.character
        <= pos.character);
    let lt = pos.line < span.end.line || (pos.line == span.end.line && pos.character
        < span.end.character);
    le && lt
}

/// Whether `pos` lies in `span`, or next to it on its line.
pub fn contains_fuzzy(span: Span, pos: Pos) -> (r: bool)
    requires
        pos.character < usize::MAX,
    ensures
        r == spec_contains_fuzzy(span, pos),
{
    if contains(span, pos) {
        return true;
    }
    pos.line == span.start.line && pos.line == span.end.line && pos.character + 1
        >= span.start.character && pos.character <= span.end.character
}

/// The index of the first line feed at or after `j`, or the length of `cs`.
pub open spec fn next_newline(cs: Seq<char>, j: int) -> int
    decreases cs.len() - j,
{
    if 0 <= j < cs.len() && cs[j] != '\n' {
        next_newline(cs, j + 1)
    } else {
        j
    }
}

/// The lines of `cs` from index `start` on, as index ranges without their line
/// endings, as `str::lines` splits them: at a line feed, or at a carriage return
/// and line feed; a final line ending adds no empty line.
pub open spec fn line_ranges_from(cs: Seq<char>, start: int) -> Seq<(int, int)>
    decreases cs.len() - start,
{
    if start < 0 || start >= cs.len() {
        seq![]
    } else {
        let nl = next_newline(cs, start);
        let end = if start < nl < cs.len() && cs[nl - 1] == '\r' {
            nl - 1
        } else {
            nl
        };
        if nl < start {
            seq![]
        } else if nl >= cs.len() {
            seq![(start, end)]
        } else {
            seq![(start, end)] + line_ranges_from(cs, nl + 1)
        }
    }
}

/// The lines of `cs`, as index ranges.
pub open spec fn line_ranges(cs: Seq<char>) -> Seq<(int, int)> {
    line_ranges_from(cs, 0)
}

/// The lines of `cs`.
pub open spec fn spec_lines(cs: Seq<char>) -> Seq<Seq<char>> {
    line_ranges(cs).map_values(|r: (int, int)| cs.subrange(r.0, r.1))
}

pub proof fn lemma_next_newline(cs: Seq<char>, j: int)
    requires
        0 <= j <= cs.len(),
    ensures
        j <= next_newline(cs, j) <= cs.len(),
        forall|k: int| j <= k < next_newline(cs, j) ==> cs[k] != '\n',
        next_newline(cs, j) < cs.len() ==> cs[next_newline(cs, j)] == '\n',
    decreases cs.len() - j,
{
    if j < cs.len() && cs[j] != '\n' {
        lemma_next_newline(cs, j + 1);
    }
}

/// The ranges are ordered, lie within `cs` from `start` on, and each is well formed.
pub proof fn lemma_line_ranges_bounds(cs: Seq<char>, start: int)
    requires
        0 <= start,
    ensures
        forall|k: int|
            0 <= k < line_ranges_from(cs, start).len() ==> start <= #[trigger] line_ranges_from(
                cs,
                start,
            )[k].0 <= line_ranges_from(cs, start)[k].1 <= cs.len(),
    decreases cs.len() - start,
{
    if start < cs.len() {
        lemma_next_newline(cs, start);
        let nl = next_newline(cs, start);
        if nl < cs.len() {
            lemma_line_ranges_bounds(cs, nl + 1);
            let rest = line_ranges_from(cs, nl + 1);
            let all = line_ranges_from(cs, start);
            assert forall|k: int| 0 <= k < all.len() implies start <= #[trigger] all[k].0
                <= all[k].1 <= cs.len() by {
                if k > 0 {
                    assert(all[k] == rest[k - 1]);
                }
            }
        }
    }
}

/// The index ranges of the lines of `chars`.
pub fn lines_of(chars: &Vec<char>) -> (r: Vec<(usize, usize)>)
    ensures
        r@.len() == line_ranges(chars@).len(),
        forall|k: int|
            0 <= k < r@.len() ==> r@[k].0 == line_ranges(chars@)[k].0 && r@[k].1 == line_ranges(
                chars@,
            )[k].1,
{
    let mut out: Vec<(usize, usize)> = Vec::new();
    let mut start: usize = 0;
    let ghost all = line_ranges(chars@);
    while start < chars.len()
        invariant
            start <= chars.len(),
            all == line_ranges(chars@),
            all == out@.map_values(|r: (usize, usize)| (r.0 as int, r.1 as int))
                + line_ranges_from(chars@, start as int),
        decreases chars.len() - start,
    {
        let ghost before = out@.map_values(|r: (usize, usize)| (r.0 as int, r.1 as int));
        let ghost s0 = start as int;
        proof {
            lemma_next_newline(chars@, start as int);
        }
        let mut nl = start;
        while nl < chars.len() && chars[nl] != '\n'
            invariant
                start <= nl <= chars.len(),
                next_newline(chars@, start as int) == next_newline(chars@, nl as int),
            decreases chars.len() - nl,
        {
            nl += 1;
        }
        let end = if start < nl && nl < chars.len() && chars[nl - 1] == '\r' {
            nl - 1
        } else {
            nl
        };
        out.push((start, end));
        proof {
            let now = out@.map_values(|r: (usize, usize)| (r.0 as int, r.1 as int));
            assert(now =~= before.push((start as int, end as int)));
        }
        if nl >= chars.len() {
            start = chars.len();
        } else {
            start = nl + 1;
        }
        proof {
            let now = out@.map_values(|r: (usize, usize)| (r.0 as int, r.1 as int));
            let here = seq![(s0, end as int)];
            if nl >= chars.len() {
                assert(line_ranges_from(chars@, s0) == here);
                assert(now + line_ranges_from(chars@, start as int) =~= before + here);
            } else {
                assert(line_ranges_from(chars@, s0) == here + line_ranges_from(chars@, start as int));
                assert(now + line_ranges_from(chars@, start as int) =~= before + (here
                    + line_ranges_from(chars@, start as int)));
            }
        }
    }
    proof {
        let now = out@.map_values(|r: (usize, usize)| (r.0 as int, r.1 as int));
        assert(now + line_ranges_from(chars@, start as int) =~= now);
    }
    out
}

} // verus!
