//! The fragment an endpoint references, as it is shown: its text, its lines and
//! the reference of one that does not resolve.
use vstd::prelude::*;
use vstd::string::StringSliceAdditionalSpecFns;

use crate::refmsg::decimal;
use crate::state::CaptureState;
use crate::text::{append, append_str, chars_of, join, lines, lines_of, string_of, views};

verus! {

/// What `get` answers.
pub struct GetResult {
    /// The text of the fragment: its parts joined by the separator of the hash.
    pub content: String,
    /// The fragment over its lines, with numbers and gaps. Empty when there is no
    /// file to show.
    pub view: String,
    pub file: String,
    /// The stretches of lines shown, 1-based and inclusive: one per part of the
    /// fragment, since a fragment of several `@target` is not contiguous.
    pub lines: Vec<(usize, usize)>,
}

/// A stretch of lines as the output writes it: `12–14`.
pub open spec fn stretch_text(a: usize, b: usize) -> Seq<char> {
    decimal(a as nat) + "–"@ + decimal(b as nat)
}

/// The stretches as the output writes them: `12–14, 30–33`.
pub open spec fn span_text(ls: Seq<(usize, usize)>) -> Seq<char> {
    join(ls.map_values(|l: (usize, usize)| stretch_text(l.0, l.1)), ", "@)
}

impl GetResult {
    /// The stretches as the output prints them: `12–14, 30–33`.
    pub fn line_span(&self) -> (r: String)
        ensures
            r@ == span_text(self.lines@),
    {
        let ghost parts = self.lines@.map_values(|l: (usize, usize)| stretch_text(l.0, l.1));
        let mut out: Vec<char> = Vec::new();
        let mut i: usize = 0;
        while i < self.lines.len()
            invariant
                i <= self.lines.len(),
                parts == self.lines@.map_values(|l: (usize, usize)| stretch_text(l.0, l.1)),
                out@ == join(parts.take(i as int), ", "@),
            decreases self.lines.len() - i,
        {
            let ghost next = parts.take(i as int + 1);
            assert(next.drop_last() =~= parts.take(i as int));
            let (a, b) = self.lines[i];
            let ghost before = out@;
            if i > 0 {
                append_str(&mut out, ", ");
            }
            let da = crate::refmsg::decimal_of(a as u64);
            let db = crate::refmsg::decimal_of(b as u64);
            let ghost mark = out@;
            append(&mut out, da.as_slice());
            append_str(&mut out, "–");
            append(&mut out, db.as_slice());
            assert(next.last() == stretch_text(a, b));
            assert(out@ =~= mark + stretch_text(a, b));
            assert(out@ =~= join(next, ", "@));
            i = i + 1;
        }
        assert(parts.take(i as int) =~= parts);
        string_of(out.as_slice())
    }
}

/// What `get --diff` answers.
pub struct DiffResult {
    pub file: String,
    pub layer_root: String,
    pub commit: String,
    pub start_line: usize,
    pub end_line: usize,
    /// `None`: no changes.
    pub diff: Option<String>,
}

/// The reference an endpoint that does not resolve **can still show**: which
/// fragment it was, to decide where to point it again.
#[derive(Debug, Clone)]
pub struct Unresolved {
    pub file: String,
    pub capture: String,
    pub query: Option<String>,
    /// The name the query looks for, if it has one. It is what to go and look at.
    pub anchor: Option<String>,
    pub state: CaptureState,
    /// What failed, on a line.
    pub reason: String,
}

/// The number of line breaks in `b`.
pub open spec fn newlines(b: Seq<u8>) -> nat
    decreases b.len(),
{
    if b.len() == 0 {
        0
    } else {
        newlines(b.drop_last()) + if b.last() == 10u8 {
            1nat
        } else {
            0nat
        }
    }
}

/// The line (0-based) a byte offset falls on: the line breaks before it. It counts
/// **bytes**, not characters: an offset may fall inside a multibyte character, and
/// `\n` never appears inside one. An offset past the end counts them all.
pub fn byte_to_line(source: &str, byte: usize) -> (r: usize)
    ensures
        r == newlines(source.spec_bytes().take(if byte <= source.spec_bytes().len() {
            byte as int
        } else {
            source.spec_bytes().len() as int
        })),
{
    let b = source.as_bytes();
    let end = if byte <= b.len() {
        byte
    } else {
        b.len()
    };
    let mut count: usize = 0;
    let mut i: usize = 0;
    while i < end
        invariant
            i <= end <= b@.len(),
            b@ == source.spec_bytes(),
            count <= i,
            count == newlines(b@.take(i as int)),
        decreases end - i,
    {
        assert(b@.take(i as int + 1).drop_last() =~= b@.take(i as int));
        if b[i] == 10u8 {
            count = count + 1;
        }
        i = i + 1;
    }
    count
}

/// The number of lines of `source`, as `str::lines` counts them.
pub fn count_lines(source: &str) -> (r: usize)
    ensures
        r == lines(source@).len(),
{
    let v = chars_of(source);
    let ls = lines_of(v.as_slice());
    ls.len()
}

/// The lines `from` to `to` of `source`, both included and 0-based, joined by `\n`.
pub open spec fn lines_between(source: Seq<char>, from: usize, to: usize) -> Seq<char> {
    let ls = lines(source);
    let end = if to as int + 1 <= ls.len() { to as int + 1 } else { ls.len() as int };
    if (from as int) < end {
        join(ls.subrange(from as int, end), seq!['\n'])
    } else {
        seq![]
    }
}

/// The lines `from` to `to` of `source`, both included, joined by `\n`.
pub fn extract_lines(source: &str, from: usize, to: usize) -> (r: String)
    ensures
        r@ == lines_between(source@, from, to),
{
    let v = chars_of(source);
    let ls = lines_of(v.as_slice());
    let end = if to < ls.len() {
        to + 1
    } else {
        ls.len()
    };
    let mut out: Vec<char> = Vec::new();
    if from >= end {
        return string_of(out.as_slice());
    }
    let ghost parts = views(ls@).subrange(from as int, end as int);
    let mut i = from;
    while i < end
        invariant
            from <= i <= end <= ls.len(),
            parts == views(ls@).subrange(from as int, end as int),
            out@ == join(parts.take(i - from), seq!['\n']),
        decreases end - i,
    {
        let ghost next = parts.take(i - from + 1);
        assert(next.drop_last() =~= parts.take(i - from));
        assert(next.last() == ls@[i as int]@);
        if i > from {
            out.push('\n');
        }
        append(&mut out, ls[i].as_slice());
        assert(out@ =~= join(next, seq!['\n']));
        i = i + 1;
    }
    assert(parts.take(i - from) =~= parts);
    string_of(out.as_slice())
}

} // verus!
