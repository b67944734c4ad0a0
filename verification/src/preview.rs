//! What was captured, and what was not: before writing.
//!
//! A capture is opaque once written. The preview moves discovering that the query
//! took the wrong node to the moment when one can still not write. **What is shown
//! marked is what was captured, and the rest is seen unmarked.**
use vstd::prelude::*;
use vstd::string::StringSliceAdditionalSpecFns;

use crate::get::newlines;
use crate::link::ByteRange;
use crate::refmsg::{decimal, decimal_of};
use crate::text::{
    append, append_str, chars_of, join, join_of, lines, lines_of, string_of, strip_prefix, strip_prefix_of,
    trim_start, trim_start_of, views, words, words_of,
};

verus! {

/// The mark of a captured line. It goes in the view and is read back when editing.
pub const MARK: char = '▸';

/// The lines skipped.
pub const SKIP: char = '⋮';

/// How many lines of context are shown around each part.
pub const CONTEXT: usize = 2;

/// The view of a fragment over its file. The file goes **once**, as a heading.
pub struct Preview {
    /// How to name the file in the heading.
    pub label: String,
    /// The captured lines, 1-based.
    pub marked: Vec<usize>,
    /// The contiguous runs of captured lines, 1-based and inclusive. **They are not
    /// the parts**: two parts side by side fall in the same run.
    pub spans: Vec<(usize, usize)>,
    /// How many parts the fragment has: one per `@target`.
    pub parts: usize,
    /// A line at the foot: which other way of capturing there was. It is
    /// **suggested**.
    pub note: Option<String>,
}

// ─── ordered sets of lines ───────────────────────────────────────────────────

/// Strictly increasing.
pub open spec fn increasing(v: Seq<usize>) -> bool {
    forall|i: int, j: int| 0 <= i < j < v.len() ==> #[trigger] v[i] < #[trigger] v[j]
}

/// `x` put into a strictly increasing list, where it is not already.
fn insert_line(v: &mut Vec<usize>, x: usize)
    requires
        increasing(old(v)@),
    ensures
        increasing(final(v)@),
        final(v)@.to_set() == old(v)@.to_set().insert(x),
{
    let ghost vs = v@;
    let mut i: usize = 0;
    while i < v.len() && v[i] < x
        invariant
            i <= v.len(),
            vs == v@,
            increasing(vs),
            forall|k: int| 0 <= k < i ==> vs[k] < x,
        decreases v.len() - i,
    {
        i = i + 1;
    }
    if i < v.len() && v[i] == x {
        assert(vs.to_set().insert(x) =~= vs.to_set()) by {
            assert(vs.contains(x)) by {
                assert(vs[i as int] == x);
            }
        }
        return;
    }
    v.insert(i, x);
    proof {
        let w = v@;
        assert(w =~= vs.insert(i as int, x));
        assert forall|a: int, b: int| 0 <= a < b < w.len() implies #[trigger] w[a] < #[trigger] w[b] by {
            if b < i {
                assert(w[a] == vs[a] && w[b] == vs[b]);
            } else if b == i {
                assert(w[a] == vs[a]);
            } else if a == i {
                assert(w[b] == vs[b - 1]);
            } else if a < i {
                assert(w[a] == vs[a] && w[b] == vs[b - 1]);
            } else {
                assert(w[a] == vs[a - 1] && w[b] == vs[b - 1]);
            }
        }
        assert(w.to_set() =~= vs.to_set().insert(x)) by {
            assert forall|y: usize| #[trigger] w.to_set().contains(y) implies vs.to_set().insert(x).contains(y) by {
                let k = choose|k: int| 0 <= k < w.len() && w[k] == y;
                if k < i {
                    assert(vs[k] == y);
                } else if k > i {
                    assert(vs[k - 1] == y);
                }
            }
            assert forall|y: usize| vs.to_set().insert(x).contains(y) implies #[trigger] w.to_set().contains(y) by {
                if y == x {
                    assert(w[i as int] == y);
                } else {
                    let k = choose|k: int| 0 <= k < vs.len() && vs[k] == y;
                    if k < i {
                        assert(w[k] == y);
                    } else {
                        assert(w[k + 1] == y);
                    }
                }
            }
        }
    }
}

/// Every number from `from` to `to`, both included, put into the list.
fn insert_range(v: &mut Vec<usize>, from: usize, to: usize)
    requires
        increasing(old(v)@),
    ensures
        increasing(final(v)@),
        final(v)@.to_set() == old(v)@.to_set().union(Set::new(|l: usize| from <= l <= to)),
{
    let ghost start = v@.to_set();
    if from > to {
        assert(start.union(Set::new(|l: usize| from <= l <= to)) =~= start);
        return;
    }
    let mut l = from;
    loop
        invariant
            from <= l <= to,
            start == old(v)@.to_set(),
            increasing(v@),
            v@.to_set() == start.union(Set::new(|x: usize| from <= x < l)),
        decreases to - l,
    {
        insert_line(v, l);
        assert(start.union(Set::new(|x: usize| from <= x < l)).insert(l) =~= start.union(
            Set::new(|x: usize| from <= x < l + 1),
        ));
        if l == to {
            assert(start.union(Set::new(|x: usize| from <= x < l + 1)) =~= start.union(
                Set::new(|x: usize| from <= x <= to),
            ));
            return;
        }
        l = l + 1;
    }
}

// ─── which lines ─────────────────────────────────────────────────────────────

/// The 1-based line of a byte offset: it counts bytes, since an offset may fall
/// inside a multibyte character.
pub open spec fn line_at(b: Seq<u8>, byte: usize) -> nat {
    newlines(b.take(if byte <= b.len() { byte as int } else { b.len() as int })) + 1
}

proof fn lemma_newlines_bound(b: Seq<u8>)
    ensures
        newlines(b) <= b.len(),
    decreases b.len(),
{
    if b.len() > 0 {
        lemma_newlines_bound(b.drop_last());
    }
}

fn line_of(source: &str, byte: usize) -> (r: usize)
    requires
        source.spec_bytes().len() < usize::MAX,
    ensures
        r == line_at(source.spec_bytes(), byte),
{
    let b = source.as_bytes();
    let end = if byte <= b.len() {
        byte
    } else {
        b.len()
    };
    let mut n: usize = 0;
    let mut i: usize = 0;
    while i < end
        invariant
            i <= end,
            end <= b@.len(),
            b@.len() < usize::MAX,
            n <= i,
            n == newlines(b@.take(i as int)),
        decreases end - i,
    {
        assert(b@.take(i as int + 1).drop_last() =~= b@.take(i as int));
        if b[i] == 10u8 {
            n = n + 1;
        }
        i = i + 1;
    }
    n + 1
}

/// The lines a part covers: from that of its first byte to that of its last.
pub open spec fn part_lines(b: Seq<u8>, p: ByteRange) -> Set<usize> {
    Set::new(
        |l: usize| line_at(b, p.start) <= l && l <= line_at(b, if p.end >= 1 { (p.end - 1) as usize } else { 0 }),
    )
}

/// The lines the parts cover.
pub open spec fn covered(b: Seq<u8>, parts: Seq<ByteRange>) -> Set<usize> {
    Set::new(|l: usize| exists|k: int| 0 <= k < parts.len() && #[trigger] part_lines(b, parts[k]).contains(l))
}

/// The contiguous runs of a strictly increasing list of lines.
pub open spec fn spans(ls: Seq<usize>) -> Seq<(usize, usize)>
    decreases ls.len(),
{
    if ls.len() == 0 {
        seq![]
    } else {
        let s = spans(ls.drop_last());
        let l = ls.last();
        if s.len() > 0 && s.last().1 + 1 == l {
            s.update(s.len() - 1, (s.last().0, l))
        } else {
            s.push((l, l))
        }
    }
}

/// The contiguous runs of a strictly increasing list of lines.
fn spans_of(lines: &Vec<usize>) -> (r: Vec<(usize, usize)>)
    ensures
        r@ == spans(lines@),
{
    let mut out: Vec<(usize, usize)> = Vec::new();
    let mut i: usize = 0;
    while i < lines.len()
        invariant
            i <= lines.len(),
            out@ == spans(lines@.take(i as int)),
        decreases lines.len() - i,
    {
        let l = lines[i];
        assert(lines@.take(i as int + 1).drop_last() =~= lines@.take(i as int));
        let n = out.len();
        if n > 0 && out[n - 1].1 < usize::MAX && out[n - 1].1 + 1 == l {
            let first = out[n - 1].0;
            out.set(n - 1, (first, l));
        } else {
            out.push((l, l));
        }
        i = i + 1;
    }
    assert(lines@.take(i as int) =~= lines@);
    out
}

impl Preview {
    /// Which lines each part of the fragment covers.
    pub fn of(label: &str, source: &str, parts: &Vec<ByteRange>) -> (r: Preview)
        requires
            source.spec_bytes().len() < usize::MAX,
        ensures
            r.label@ == label@,
            increasing(r.marked@),
            r.marked@.to_set() == covered(source.spec_bytes(), parts@),
            r.spans@ == spans(r.marked@),
            r.parts == parts@.len(),
            r.note is None,
    {
        let ghost b = source.spec_bytes();
        let mut marked: Vec<usize> = Vec::new();
        let mut k: usize = 0;
        assert(marked@.to_set() =~= Set::new(|l: usize| exists|j: int| 0 <= j < 0 && #[trigger] part_lines(b, parts@[j]).contains(l)));
        while k < parts.len()
            invariant
                k <= parts.len(),
                b == source.spec_bytes(),
                b.len() < usize::MAX,
                increasing(marked@),
                marked@.to_set() == Set::new(|l: usize| exists|j: int| 0 <= j < k && #[trigger] part_lines(b, parts@[j]).contains(l)),
            decreases parts.len() - k,
        {
            let p = parts[k];
            let from = line_of(source, p.start);
            let last = if p.end >= 1 {
                p.end - 1
            } else {
                0
            };
            let to = line_of(source, last);
            let ghost before = marked@.to_set();
            insert_range(&mut marked, from, to);
            assert(marked@.to_set() =~= Set::new(|l: usize| exists|j: int| 0 <= j < k + 1 && #[trigger] part_lines(b, parts@[j]).contains(l))) by {
                assert(part_lines(b, parts@[k as int]) =~= Set::new(|l: usize| from <= l <= to));
                assert forall|l: usize| #[trigger] marked@.to_set().contains(l) implies exists|j: int| 0 <= j < k + 1 && #[trigger] part_lines(b, parts@[j]).contains(l) by {
                    if before.contains(l) {
                        let j = choose|j: int| 0 <= j < k && #[trigger] part_lines(b, parts@[j]).contains(l);
                        assert(part_lines(b, parts@[j]).contains(l));
                    } else {
                        assert(part_lines(b, parts@[k as int]).contains(l));
                    }
                }
                assert forall|l: usize| (exists|j: int| 0 <= j < k + 1 && #[trigger] part_lines(b, parts@[j]).contains(l)) implies #[trigger] marked@.to_set().contains(l) by {
                    let j = choose|j: int| 0 <= j < k + 1 && #[trigger] part_lines(b, parts@[j]).contains(l);
                    if j < k {
                        assert(before.contains(l));
                    }
                }
            }
            k = k + 1;
        }
        let spans = spans_of(&marked);
        Preview { label: crate::text::owned(label), marked, spans, parts: parts.len(), note: None }
    }

    /// The same view, with a line at the foot.
    pub fn with_note(self, note: Option<String>) -> (r: Preview)
        ensures
            r.label == self.label,
            r.marked == self.marked,
            r.spans == self.spans,
            r.parts == self.parts,
            r.note == note,
    {
        let mut p = self;
        p.note = note;
        p
    }
}


// ─── the view ────────────────────────────────────────────────────────────────

/// `s` right-aligned in `width` columns, as `{:>width$}` writes it.
pub open spec fn pad_left(s: Seq<char>, width: nat) -> Seq<char> {
    if s.len() >= width {
        s
    } else {
        Seq::new((width - s.len()) as nat, |i: int| ' ') + s
    }
}

/// The width of the line numbers: that of the last line, and at least two.
pub open spec fn number_width(n: nat) -> nat {
    if decimal(n).len() < 2 {
        2
    } else {
        decimal(n).len()
    }
}

/// The lines shown around a marked one: `CONTEXT` on each side, within the file.
pub open spec fn window(m: usize, n: nat) -> Set<usize> {
    Set::new(
        |l: usize| (if m >= 3 { m - 2 } else { 1 }) <= l && l <= m + 2 && l <= n,
    )
}

/// The lines shown: the marked ones and their context.
pub open spec fn shown_set(marked: Seq<usize>, n: nat) -> Set<usize> {
    Set::new(|l: usize| exists|k: int| 0 <= k < marked.len() && #[trigger] window(marked[k], n).contains(l))
}

/// The row of the `k`-th line shown, after a `⋮` where lines were skipped.
pub open spec fn row(shown: Seq<usize>, k: int, ls: Seq<Seq<char>>, marked: Seq<usize>, width: nat) -> Seq<char> {
    let l = shown[k];
    (if k > 0 && l > shown[k - 1] + 1 {
        "     ⋮\n"@
    } else {
        seq![]
    }) + "  "@ + seq![if marked.contains(l) { '▸' } else { ' ' }] + " "@ + pad_left(decimal(l as nat), width)
        + "   "@ + ls[l - 1] + "\n"@
}

/// The first `k` rows.
pub open spec fn rows(shown: Seq<usize>, k: int, ls: Seq<Seq<char>>, marked: Seq<usize>, width: nat) -> Seq<char>
    decreases k,
{
    if k <= 0 {
        seq![]
    } else {
        rows(shown, k - 1, ls, marked, width) + row(shown, k - 1, ls, marked, width)
    }
}

/// How many fragments: `1 fragmento`, `N fragmentos`.
pub open spec fn parts_text(n: usize) -> Seq<char> {
    if n == 1 {
        "1 fragmento"@
    } else {
        decimal(n as nat) + " fragmentos"@
    }
}

/// A run of lines: `a`, or `a–b`.
pub open spec fn span_text(s: (usize, usize)) -> Seq<char> {
    if s.0 == s.1 {
        decimal(s.0 as nat)
    } else {
        decimal(s.0 as nat) + "–"@ + decimal(s.1 as nat)
    }
}

/// The runs, joined by `, `.
pub open spec fn spans_text(v: Seq<(usize, usize)>) -> Seq<char> {
    join(v.map_values(|s: (usize, usize)| span_text(s)), ", "@)
}

/// The foot: how many fragments and where, what is left out, and the note.
pub open spec fn footer(p: Preview) -> Seq<char> {
    "\n"@ + parts_text(p.parts) + " · "@ + spans_text(p.spans@) + "\n"@
        + "queda afuera: todo lo que no está marcado\n"@ + match p.note {
        Some(n) => n@ + "\n"@,
        None => seq![],
    }
}

/// The whole view, over the file's lines, with the lines shown.
pub open spec fn render_text(p: Preview, ls: Seq<Seq<char>>, shown: Seq<usize>) -> Seq<char> {
    p.label@ + "\n\n"@ + rows(shown, shown.len() as int, ls, p.marked@, number_width(ls.len())) + footer(p)
}

/// A marked line does not go past the end of the numbers.
pub open spec fn marks_fit(marked: Seq<usize>) -> bool {
    forall|k: int| 0 <= k < marked.len() ==> #[trigger] marked[k] + CONTEXT <= usize::MAX
}

fn contains_line(v: &Vec<usize>, x: usize) -> (b: bool)
    ensures
        b == v@.contains(x),
{
    let mut i: usize = 0;
    while i < v.len()
        invariant
            i <= v.len(),
            forall|k: int| 0 <= k < i ==> v@[k] != x,
        decreases v.len() - i,
    {
        if v[i] == x {
            assert(v@[i as int] == x);
            return true;
        }
        i = i + 1;
    }
    false
}

fn push_pad_left(out: &mut Vec<char>, s: &[char], width: usize)
    ensures
        final(out)@ == old(out)@ + pad_left(s@, width as nat),
{
    let ghost o = out@;
    if s.len() < width {
        let mut k: usize = 0;
        while k < width - s.len()
            invariant
                s.len() < width,
                k <= width - s.len(),
                out@ == o + Seq::new(k as nat, |i: int| ' '),
            decreases width - s.len() - k,
        {
            out.push(' ');
            k = k + 1;
            assert(out@ =~= o + Seq::new(k as nat, |i: int| ' '));
        }
    }
    append(out, s);
    assert(out@ =~= o + pad_left(s@, width as nat));
}

fn span_chars(s: (usize, usize)) -> (r: Vec<char>)
    ensures
        r@ == span_text(s),
{
    let mut out = decimal_of(s.0 as u64);
    if s.0 != s.1 {
        append_str(&mut out, "–");
        let b = decimal_of(s.1 as u64);
        append(&mut out, b.as_slice());
    }
    out
}

fn push_row(out: &mut Vec<char>, shown: &Vec<usize>, i: usize, ls: &Vec<Vec<char>>, marked: &Vec<usize>, width: usize)
    requires
        i < shown.len(),
        increasing(shown@),
        forall|j: int| 0 <= j < shown@.len() ==> 1 <= #[trigger] shown@[j] && shown@[j] <= ls@.len(),
    ensures
        final(out)@ == old(out)@ + row(shown@, i as int, views(ls@), marked@, width as nat),
{
    let ghost o = out@;
    let l = shown[i];
    if i > 0 {
        assert(shown@[i - 1] < shown@[i as int]);
    }
    if i > 0 && l > shown[i - 1] + 1 {
        append_str(out, "     ⋮\n");
    }
    append_str(out, "  ");
    if contains_line(marked, l) {
        out.push('▸');
    } else {
        out.push(' ');
    }
    append_str(out, " ");
    let num = decimal_of(l as u64);
    push_pad_left(out, num.as_slice(), width);
    append_str(out, "   ");
    assert(views(ls@)[l - 1] == ls@[l - 1]@);
    append(out, ls[l - 1].as_slice());
    append_str(out, "\n");
    assert(out@ =~= o + row(shown@, i as int, views(ls@), marked@, width as nat));
}

impl Preview {
    /// The view, ready to print or to open in an editor: the heading, the marked
    /// lines with their context (a `⋮` where lines are skipped), and the foot.
    #[verifier::spinoff_prover]
    #[verifier::rlimit(40)]
    pub fn render(&self, source: &str) -> (r: String)
        requires
            marks_fit(self.marked@),
        ensures
            exists|shown: Seq<usize>|
                #![trigger increasing(shown)]
                increasing(shown) && shown.to_set() == shown_set(self.marked@, lines(source@).len())
                    && r@ == render_text(*self, lines(source@), shown),
    {
        let src = chars_of(source);
        let ls = lines_of(src.as_slice());
        let ghost lv = views(ls@);
        let n = ls.len();
        let d = decimal_of(n as u64);
        let width = if d.len() < 2 {
            2
        } else {
            d.len()
        };
        let mut shown: Vec<usize> = Vec::new();
        let mut k: usize = 0;
        assert(shown@.to_set() =~= Set::new(|l: usize| exists|j: int| 0 <= j < 0 && #[trigger] window(self.marked@[j], n as nat).contains(l)));
        while k < self.marked.len()
            invariant
                k <= self.marked.len(),
                marks_fit(self.marked@),
                increasing(shown@),
                shown@.to_set() == Set::new(|l: usize| exists|j: int| 0 <= j < k && #[trigger] window(self.marked@[j], n as nat).contains(l)),
            decreases self.marked.len() - k,
        {
            let m = self.marked[k];
            assert(m + CONTEXT <= usize::MAX);
            let from = if m >= 3 {
                m - 2
            } else {
                1
            };
            let to = if m + 2 <= n {
                m + 2
            } else {
                n
            };
            let ghost before = shown@.to_set();
            insert_range(&mut shown, from, to);
            assert(shown@.to_set() =~= Set::new(|l: usize| exists|j: int| 0 <= j < k + 1 && #[trigger] window(self.marked@[j], n as nat).contains(l))) by {
                assert(window(self.marked@[k as int], n as nat) =~= Set::new(|l: usize| from <= l <= to));
                assert forall|l: usize| #[trigger] shown@.to_set().contains(l) implies exists|j: int| 0 <= j < k + 1 && #[trigger] window(self.marked@[j], n as nat).contains(l) by {
                    if before.contains(l) {
                        let j = choose|j: int| 0 <= j < k && #[trigger] window(self.marked@[j], n as nat).contains(l);
                        assert(window(self.marked@[j], n as nat).contains(l));
                    } else {
                        assert(window(self.marked@[k as int], n as nat).contains(l));
                    }
                }
                assert forall|l: usize| (exists|j: int| 0 <= j < k + 1 && #[trigger] window(self.marked@[j], n as nat).contains(l)) implies #[trigger] shown@.to_set().contains(l) by {
                    let j = choose|j: int| 0 <= j < k + 1 && #[trigger] window(self.marked@[j], n as nat).contains(l);
                    if j < k {
                        assert(before.contains(l));
                    }
                }
            }
            k = k + 1;
        }
        let mut out: Vec<char> = chars_of(self.label.as_str());
        append_str(&mut out, "\n\n");
        let ghost head = out@;
        proof {
            assert forall|j: int| 0 <= j < shown@.len() implies 1 <= #[trigger] shown@[j] && shown@[j] <= n by {
                assert(shown@.to_set().contains(shown@[j]));
                let q = choose|q: int| 0 <= q < self.marked@.len() && #[trigger] window(self.marked@[q], n as nat).contains(shown@[j]);
                assert(window(self.marked@[q], n as nat).contains(shown@[j]));
            }
        }
        let mut i: usize = 0;
        while i < shown.len()
            invariant
                i <= shown.len(),
                lv == views(ls@),
                lv == lines(source@),
                n == lv.len(),
                width as nat == number_width(n as nat),
                increasing(shown@),
                forall|j: int| 0 <= j < shown@.len() ==> 1 <= #[trigger] shown@[j] && shown@[j] <= n,
                out@ == head + rows(shown@, i as int, lv, self.marked@, width as nat),
            decreases shown.len() - i,
        {
            push_row(&mut out, &shown, i, &ls, &self.marked, width);
            i = i + 1;
        }
        append_str(&mut out, "\n");
        let pt = if self.parts == 1 {
            chars_of("1 fragmento")
        } else {
            let mut v = decimal_of(self.parts as u64);
            append_str(&mut v, " fragmentos");
            v
        };
        append(&mut out, pt.as_slice());
        append_str(&mut out, " · ");
        let mut sp: Vec<Vec<char>> = Vec::new();
        let mut j: usize = 0;
        while j < self.spans.len()
            invariant
                j <= self.spans.len(),
                views(sp@) == self.spans@.map_values(|s: (usize, usize)| span_text(s)).take(j as int),
            decreases self.spans.len() - j,
        {
            let c = span_chars(self.spans[j]);
            proof {
                crate::text::lemma_views_push(sp@, c);
            }
            sp.push(c);
            assert(views(sp@) =~= self.spans@.map_values(|s: (usize, usize)| span_text(s)).take(j as int + 1));
            j = j + 1;
        }
        assert(self.spans@.map_values(|s: (usize, usize)| span_text(s)).take(j as int) =~= self.spans@.map_values(
            |s: (usize, usize)| span_text(s),
        ));
        let sep = chars_of(", ");
        let joined = join_of(&sp, sep.as_slice());
        append(&mut out, joined.as_slice());
        append_str(&mut out, "\n");
        append_str(&mut out, "queda afuera: todo lo que no está marcado\n");
        match &self.note {
            Some(note) => {
                append_str(&mut out, note.as_str());
                append_str(&mut out, "\n");
            },
            None => {},
        }
        assert(out@ =~= render_text(*self, lv, shown@));
        string_of(out.as_slice())
    }
}


// ─── reading the marks back ──────────────────────────────────────────────────

/// `s` as `usize::from_str` reads it: an optional `+`, then at least one digit, and
/// a value that fits.
pub open spec fn parse_usize(s: Seq<char>) -> Option<usize> {
    let d = crate::index::unsigned_part(s);
    if d.len() > 0 && crate::index::all_digits(d) && crate::index::digits_value(d) <= usize::MAX {
        Some(crate::index::digits_value(d) as usize)
    } else {
        None
    }
}

pub(crate) fn parse_usize_of(s: &[char]) -> (r: Option<usize>)
    ensures
        r == parse_usize(s@),
{
    let d = if s.len() > 0 && s[0] == '+' {
        crate::text::slice_of(s, 1, s.len())
    } else {
        crate::text::slice_of(s, 0, s.len())
    };
    assert(d@ =~= crate::index::unsigned_part(s@));
    if d.len() == 0 {
        return None;
    }
    let mut value: u128 = 0;
    let mut big = false;
    let mut i: usize = 0;
    while i < d.len()
        invariant
            i <= d.len(),
            d@ == crate::index::unsigned_part(s@),
            forall|k: int| 0 <= k < i ==> crate::index::is_digit(#[trigger] d@[k]),
            !big ==> value as nat == crate::index::digits_value(d@.take(i as int)) && value <= usize::MAX,
            big ==> crate::index::digits_value(d@.take(i as int)) > usize::MAX,
        decreases d.len() - i,
    {
        let c = d[i];
        if !('0' <= c && c <= '9') {
            assert(!crate::index::is_digit(d@[i as int]));
            assert(!crate::index::all_digits(d@));
            return None;
        }
        assert(d@.take(i as int + 1).drop_last() =~= d@.take(i as int));
        let v = (c as u32) - ('0' as u32);
        if !big {
            let next = value * 10 + v as u128;
            if next > usize::MAX as u128 {
                big = true;
            } else {
                value = next;
            }
        }
        i = i + 1;
    }
    assert(d@.take(i as int) =~= d@);
    if big {
        None
    } else {
        Some(value as usize)
    }
}

/// The number a line of the view marks: one that starts with two spaces and the
/// mark, and whose first word after it is a line number.
pub open spec fn mark_of(line: Seq<char>) -> Option<usize> {
    match strip_prefix(line, "  "@) {
        None => None,
        Some(a) => match strip_prefix(a, seq!['▸']) {
            None => None,
            Some(b) => {
                let ws = words(trim_start(b));
                if ws.len() > 0 {
                    parse_usize(ws[0])
                } else {
                    None
                }
            },
        },
    }
}

/// The numbers the lines of a buffer mark.
pub open spec fn marks(buffer: Seq<char>) -> Set<usize> {
    Set::new(|n: usize| exists|k: int| 0 <= k < lines(buffer).len() && #[trigger] mark_of(lines(buffer)[k]) == Some(n))
}

fn mark_of_line(line: &[char]) -> (r: Option<usize>)
    ensures
        r == mark_of(line@),
{
    let sp = chars_of("  ");
    let a = match strip_prefix_of(line, sp.as_slice()) {
        None => return None,
        Some(a) => a,
    };
    let m = vec!['▸'];
    assert(m@ =~= seq!['▸']);
    let b = match strip_prefix_of(a.as_slice(), m.as_slice()) {
        None => return None,
        Some(b) => b,
    };
    let t = trim_start_of(b.as_slice());
    let ws = words_of(t.as_slice());
    if ws.len() > 0 {
        assert(views(ws@)[0] == ws@[0]@);
        parse_usize_of(ws[0].as_slice())
    } else {
        None
    }
}

impl Preview {
    /// The marked lines of a view edited by hand, in order and each once. **The
    /// marks are signals, not ranges**: each marked line resolves to its node.
    pub fn marks_in(buffer: &str) -> (r: Vec<usize>)
        ensures
            increasing(r@),
            r@.to_set() == marks(buffer@),
    {
        let all = chars_of(buffer);
        let ls = lines_of(all.as_slice());
        let ghost lv = views(ls@);
        let mut out: Vec<usize> = Vec::new();
        let mut i: usize = 0;
        assert(out@.to_set() =~= Set::new(|n: usize| exists|k: int| 0 <= k < 0 && #[trigger] mark_of(lv[k]) == Some(n)));
        while i < ls.len()
            invariant
                i <= ls.len(),
                lv == views(ls@),
                lv == lines(buffer@),
                increasing(out@),
                out@.to_set() == Set::new(|n: usize| exists|k: int| 0 <= k < i && #[trigger] mark_of(lv[k]) == Some(n)),
            decreases ls.len() - i,
        {
            assert(lv[i as int] == ls@[i as int]@);
            let ghost before = out@.to_set();
            match mark_of_line(ls[i].as_slice()) {
                Some(n) => {
                    insert_line(&mut out, n);
                    assert(out@.to_set() =~= Set::new(|x: usize| exists|k: int| 0 <= k < i + 1 && #[trigger] mark_of(lv[k]) == Some(x))) by {
                        assert forall|x: usize| #[trigger] out@.to_set().contains(x) implies exists|k: int| 0 <= k < i + 1 && #[trigger] mark_of(lv[k]) == Some(x) by {
                            if before.contains(x) {
                                let k = choose|k: int| 0 <= k < i && #[trigger] mark_of(lv[k]) == Some(x);
                                assert(mark_of(lv[k]) == Some(x));
                            } else {
                                assert(mark_of(lv[i as int]) == Some(x));
                            }
                        }
                        assert forall|x: usize| (exists|k: int| 0 <= k < i + 1 && #[trigger] mark_of(lv[k]) == Some(x)) implies #[trigger] out@.to_set().contains(x) by {
                            let k = choose|k: int| 0 <= k < i + 1 && #[trigger] mark_of(lv[k]) == Some(x);
                            if k < i {
                                assert(before.contains(x));
                            }
                        }
                    }
                },
                None => {
                    assert(out@.to_set() =~= Set::new(|x: usize| exists|k: int| 0 <= k < i + 1 && #[trigger] mark_of(lv[k]) == Some(x))) by {
                        assert forall|x: usize| (exists|k: int| 0 <= k < i + 1 && #[trigger] mark_of(lv[k]) == Some(x)) implies #[trigger] out@.to_set().contains(x) by {
                            let k = choose|k: int| 0 <= k < i + 1 && #[trigger] mark_of(lv[k]) == Some(x);
                            if k < i {
                                assert(before.contains(x));
                            }
                        }
                    }
                },
            }
            i = i + 1;
        }
        assert(out@.to_set() =~= marks(buffer@));
        out
    }
}


// ─── what is printed reads back ──────────────────────────────────────────────

/// The numbers some line of `ls` marks.
pub open spec fn marks_of_lines(ls: Seq<Seq<char>>) -> Set<usize> {
    Set::new(|n: usize| exists|k: int| 0 <= k < ls.len() && #[trigger] mark_of(ls[k]) == Some(n))
}

proof fn lemma_marks_concat(a: Seq<Seq<char>>, b: Seq<Seq<char>>)
    ensures
        marks_of_lines(a + b) == marks_of_lines(a).union(marks_of_lines(b)),
{
    let ab = a + b;
    assert forall|n: usize| #[trigger] marks_of_lines(ab).contains(n) implies marks_of_lines(a).union(marks_of_lines(b)).contains(n) by {
        let k = choose|k: int| 0 <= k < ab.len() && #[trigger] mark_of(ab[k]) == Some(n);
        if k < a.len() {
            assert(ab[k] == a[k]);
            assert(marks_of_lines(a).contains(n));
        } else {
            assert(ab[k] == b[k - a.len()]);
            assert(mark_of(b[k - a.len()]) == Some(n));
            assert(marks_of_lines(b).contains(n));
        }
    }
    assert forall|n: usize| marks_of_lines(a).union(marks_of_lines(b)).contains(n) implies #[trigger] marks_of_lines(ab).contains(n) by {
        if marks_of_lines(a).contains(n) {
            let k = choose|k: int| 0 <= k < a.len() && #[trigger] mark_of(a[k]) == Some(n);
            assert(ab[k] == a[k]);
        } else {
            let k = choose|k: int| 0 <= k < b.len() && #[trigger] mark_of(b[k]) == Some(n);
            assert(ab[k + a.len()] == b[k]);
        }
    }
    assert(marks_of_lines(ab) =~= marks_of_lines(a).union(marks_of_lines(b)));
}

/// Text that ends a line splits its lines from what follows.
proof fn lemma_lines_concat(a: Seq<char>, b: Seq<char>, cur: Seq<char>)
    requires
        a.len() > 0,
        a.last() == '\n',
    ensures
        crate::text::lines_acc(a + b, cur) == crate::text::lines_acc(a, cur) + lines(b),
    decreases a.len(),
{
    let s = a + b;
    assert(s[0] == a[0]);
    assert(s.drop_first() =~= a.drop_first() + b);
    if a[0] == '\n' {
        if a.len() == 1 {
            assert(a.drop_first() + b =~= b);
            assert(crate::text::lines_acc(a.drop_first(), seq![]) =~= seq![]);
        } else {
            lemma_lines_concat(a.drop_first(), b, seq![]);
        }
    } else {
        lemma_lines_concat(a.drop_first(), b, cur.push(a[0]));
    }
}

/// A line without breaks, ended by one, is one line.
proof fn lemma_one_line(l: Seq<char>)
    requires
        crate::text::lacks(l, '\n'),
    ensures
        lines(l + seq!['\n']) == seq![crate::text::strip_cr(l)],
{
    crate::text::lemma_lines_split(l, seq![], seq![]);
    assert(l + seq!['\n'] + Seq::<char>::empty() =~= l + seq!['\n']);
    assert(seq![] + l =~= l);
    assert(crate::text::lines_acc(Seq::<char>::empty(), seq![]) =~= seq![]);
}

proof fn lemma_trim_start_spaces(k: nat, x: Seq<char>)
    ensures
        trim_start(Seq::new(k, |i: int| ' ') + x) == trim_start(x),
    decreases k,
{
    if k > 0 {
        let s = Seq::new(k, |i: int| ' ') + x;
        assert(s[0] == ' ');
        assert(s.drop_first() =~= Seq::new((k - 1) as nat, |i: int| ' ') + x);
        lemma_trim_start_spaces((k - 1) as nat, x);
    } else {
        assert(Seq::new(0, |i: int| ' ') + x =~= x);
    }
}

/// The mark of a row's line: its number where the row carries the mark, nothing
/// where it carries a space.
#[verifier::rlimit(60)]
#[verifier::spinoff_prover]
proof fn lemma_row_line(m: char, l: usize, width: nat, content: Seq<char>)
    requires
        m == '▸' || m == ' ',
    ensures
        mark_of(crate::text::strip_cr("  "@ + seq![m] + " "@ + pad_left(decimal(l as nat), width) + "   "@ + content))
            == if m == '▸' { Some(l) } else { None::<usize> },
{
    reveal_strlit("  ");
    reveal_strlit(" ");
    reveal_strlit("   ");
    let num = decimal(l as nat);
    crate::index::lemma_decimal(l as nat);
    let p = pad_left(num, width);
    let line = "  "@ + seq![m] + " "@ + p + "   "@ + content;
    let sl = crate::text::strip_cr(line);
    assert(sl.len() >= 4);
    assert(sl.take(2) =~= "  "@);
    let a = sl.skip(2);
    assert(crate::text::strip_prefix(sl, "  "@) == Some(a));
    assert(a[0] == m);
    if m == '▸' {
        assert(a.take(1) =~= seq!['▸']);
        let b = a.skip(1);
        assert(crate::text::strip_prefix(a, seq!['▸']) == Some(b));
        let sp: nat = (1 + p.len() - num.len()) as nat;
        assert(p =~= Seq::new((p.len() - num.len()) as nat, |i: int| ' ') + num);
        let cs = crate::text::strip_cr(num + "   "@ + content);
        assert(b =~= Seq::new(sp, |i: int| ' ') + cs);
        lemma_trim_start_spaces(sp, cs);
        assert(cs[0] == num[0]);
        assert(crate::index::is_digit(num[0]));
        assert(trim_start(cs) == cs);
        let after = cs.skip(num.len() as int);
        assert(cs =~= num + after);
        assert(after[0] == ' ');
        assert(crate::text::no_ws(num)) by {
            assert forall|i: int| 0 <= i < num.len() implies !crate::text::ws(#[trigger] num[i]) by {
                assert(crate::index::is_digit(num[i]));
            }
        }
        crate::text::lemma_words_run(num, after, seq![]);
        assert(seq![] + num =~= num);
        assert(after =~= seq![' '] + after.drop_first());
        crate::text::lemma_words_gap(' ', after.drop_first(), num);
        assert(words(cs)[0] == num);
        assert(crate::index::unsigned_part(num) == num);
    } else {
        assert(a.take(1)[0] == ' ');
        assert(crate::text::strip_prefix(a, seq!['▸']) is None);
    }
}

/// The line of a skip is one line, and marks nothing.
proof fn lemma_skip_line()
    ensures
        lines("     ⋮\n"@) == seq!["     ⋮"@],
        mark_of("     ⋮"@) is None,
{
    reveal_strlit("     ⋮\n");
    reveal_strlit("     ⋮");
    reveal_strlit("  ");
    let skl = "     ⋮"@;
    assert("     ⋮\n"@ =~= skl + seq!['\n']);
    lemma_one_line(skl);
    assert(crate::text::strip_cr(skl) =~= skl);
    assert(skl.take(2) =~= "  "@);
    let a = skl.skip(2);
    assert(a.take(1)[0] == ' ');
    assert(crate::text::strip_prefix(a, seq!['▸']) is None);
}

/// The row of a marked line reads back as its number; any other row, and a skip,
/// mark nothing.
#[verifier::rlimit(60)]
#[verifier::spinoff_prover]
proof fn lemma_row_marks(shown: Seq<usize>, k: int, ls: Seq<Seq<char>>, marked: Seq<usize>, width: nat)
    requires
        0 <= k < shown.len(),
        1 <= shown[k] <= ls.len(),
        crate::text::lacks(ls[shown[k] - 1], '\n'),
    ensures
        row(shown, k, ls, marked, width).len() > 0,
        row(shown, k, ls, marked, width).last() == '\n',
        marks_of_lines(lines(row(shown, k, ls, marked, width))) == if marked.contains(shown[k]) {
            set![shown[k]]
        } else {
            Set::<usize>::empty()
        },
{
    reveal_strlit("\n");
    let l = shown[k];
    let content = ls[l - 1];
    let m = if marked.contains(l) { '▸' } else { ' ' };
    let num = decimal(l as nat);
    crate::index::lemma_decimal(l as nat);
    let p = pad_left(num, width);
    let line = "  "@ + seq![m] + " "@ + p + "   "@ + content;
    assert(crate::text::lacks(line, '\n')) by {
        reveal_strlit("  ");
        reveal_strlit(" ");
        reveal_strlit("   ");
        assert forall|i: int| 0 <= i < line.len() implies #[trigger] line[i] != '\n' by {
            if i >= 4 + p.len() + 3 {
                assert(line[i] == content[i - 4 - p.len() - 3]);
            } else if i >= 4 && i < 4 + p.len() {
                if num.len() >= width {
                    assert(line[i] == num[i - 4]);
                    assert(crate::index::is_digit(num[i - 4]));
                } else {
                    let sp = (width - num.len()) as nat;
                    if i - 4 >= sp {
                        assert(p[i - 4] == num[i - 4 - sp]);
                        assert(crate::index::is_digit(num[i - 4 - sp]));
                    }
                }
            }
        }
    }
    lemma_one_line(line);
    lemma_row_line(m, l, width, content);
    let sl = crate::text::strip_cr(line);
    let r = row(shown, k, ls, marked, width);
    let skip = if k > 0 && l > shown[k - 1] + 1 { "     ⋮\n"@ } else { seq![] };
    assert(r =~= skip + (line + seq!['\n']));
    assert(marks_of_lines(seq![sl]) =~= if marked.contains(l) { set![l] } else { Set::<usize>::empty() }) by {
        if marked.contains(l) {
            assert(mark_of(seq![sl][0]) == Some(l));
        }
    }
    if skip.len() > 0 {
        lemma_skip_line();
        reveal_strlit("     ⋮\n");
        lemma_lines_concat(skip, line + seq!['\n'], seq![]);
        lemma_marks_concat(seq!["     ⋮"@], seq![sl]);
        assert(marks_of_lines(seq!["     ⋮"@]) =~= Set::<usize>::empty()) by {
            assert forall|n: usize| !#[trigger] marks_of_lines(seq!["     ⋮"@]).contains(n) by {
                assert(seq!["     ⋮"@][0] == "     ⋮"@);
            }
        }
    } else {
        assert(skip + (line + seq!['\n']) =~= line + seq!['\n']);
    }
}


/// No line of a text holds a break.
proof fn lemma_lines_lack(s: Seq<char>, cur: Seq<char>)
    requires
        crate::text::lacks(cur, '\n'),
    ensures
        forall|k: int| 0 <= k < crate::text::lines_acc(s, cur).len() ==> crate::text::lacks(
            #[trigger] crate::text::lines_acc(s, cur)[k],
            '\n',
        ),
    decreases s.len(),
{
    let ls = crate::text::lines_acc(s, cur);
    if s.len() == 0 {
        if cur.len() > 0 {
            assert(ls =~= seq![cur]);
            assert forall|k: int| 0 <= k < ls.len() implies crate::text::lacks(#[trigger] ls[k], '\n') by {
                assert(ls[k] == cur);
            }
        }
    } else if s[0] == '\n' {
        lemma_lines_lack(s.drop_first(), seq![]);
        let rest = crate::text::lines_acc(s.drop_first(), seq![]);
        assert(ls == seq![crate::text::strip_cr(cur)] + rest);
        assert forall|k: int| 0 <= k < ls.len() implies crate::text::lacks(#[trigger] ls[k], '\n') by {
            if k > 0 {
                assert(ls[k] == rest[k - 1]);
            } else {
                let c = crate::text::strip_cr(cur);
                assert forall|i: int| 0 <= i < c.len() implies #[trigger] c[i] != '\n' by {
                    assert(c[i] == cur[i]);
                }
            }
        }
    } else {
        assert forall|i: int| 0 <= i < cur.push(s[0]).len() implies #[trigger] cur.push(s[0])[i] != '\n' by {
            if i < cur.len() {
                assert(cur.push(s[0])[i] == cur[i]);
            }
        }
        lemma_lines_lack(s.drop_first(), cur.push(s[0]));
        assert(ls == crate::text::lines_acc(s.drop_first(), cur.push(s[0])));
    }
}

/// The marks of the first `k` rows: the marked lines among the first `k` shown.
proof fn lemma_rows_marks(shown: Seq<usize>, k: int, ls: Seq<Seq<char>>, marked: Seq<usize>, width: nat)
    requires
        0 <= k <= shown.len(),
        forall|j: int| 0 <= j < shown.len() ==> 1 <= #[trigger] shown[j] <= ls.len(),
        forall|j: int| 0 <= j < ls.len() ==> crate::text::lacks(#[trigger] ls[j], '\n'),
    ensures
        k > 0 ==> rows(shown, k, ls, marked, width).len() > 0 && rows(shown, k, ls, marked, width).last() == '\n',
        k == 0 ==> rows(shown, k, ls, marked, width).len() == 0,
        marks_of_lines(lines(rows(shown, k, ls, marked, width))) == Set::new(
            |l: usize| exists|j: int| 0 <= j < k && #[trigger] shown[j] == l && marked.contains(l),
        ),
    decreases k,
{
    if k == 0 {
        assert(lines(Seq::<char>::empty()) =~= Seq::<Seq<char>>::empty());
        assert(marks_of_lines(Seq::<Seq<char>>::empty()) =~= Set::<usize>::empty());
        assert(Set::new(|l: usize| exists|j: int| 0 <= j < 0 && #[trigger] shown[j] == l && marked.contains(l))
            =~= Set::<usize>::empty());
    } else {
        lemma_rows_marks(shown, k - 1, ls, marked, width);
        assert(1 <= shown[k - 1] <= ls.len());
        lemma_row_marks(shown, k - 1, ls, marked, width);
        let a = rows(shown, k - 1, ls, marked, width);
        let b = row(shown, k - 1, ls, marked, width);
        if k - 1 > 0 {
            lemma_lines_concat(a, b, seq![]);
            lemma_marks_concat(lines(a), lines(b));
        } else {
            assert(a + b =~= b);
            assert(lines(a) =~= Seq::<Seq<char>>::empty());
            lemma_marks_concat(lines(a), lines(b));
            assert(lines(a) + lines(b) =~= lines(b));
        }
        assert(rows(shown, k, ls, marked, width) == a + b);
        let want = Set::new(|l: usize| exists|j: int| 0 <= j < k && #[trigger] shown[j] == l && marked.contains(l));
        let prev = Set::new(|l: usize| exists|j: int| 0 <= j < k - 1 && #[trigger] shown[j] == l && marked.contains(l));
        let last = if marked.contains(shown[k - 1]) { set![shown[k - 1]] } else { Set::<usize>::empty() };
        assert(want =~= prev.union(last)) by {
            assert forall|l: usize| want.contains(l) implies #[trigger] prev.union(last).contains(l) by {
                let j = choose|j: int| 0 <= j < k && #[trigger] shown[j] == l && marked.contains(l);
                if j < k - 1 {
                    assert(prev.contains(l));
                }
            }
            assert forall|l: usize| prev.union(last).contains(l) implies #[trigger] want.contains(l) by {
                if prev.contains(l) {
                    let j = choose|j: int| 0 <= j < k - 1 && #[trigger] shown[j] == l && marked.contains(l);
                    assert(0 <= j < k && shown[j] == l && marked.contains(l));
                } else {
                    assert(shown[k - 1] == l && marked.contains(l));
                }
            }
        }
    }
}

/// A line that marks starts with two spaces and the mark.
proof fn lemma_mark_start(u: Seq<char>)
    requires
        mark_of(u) is Some,
    ensures
        u.len() >= 3 && u[0] == ' ' && u[1] == ' ' && u[2] == '▸',
{
    reveal_strlit("  ");
    let a = u.skip(2);
    assert(u.take(2) =~= "  "@);
    assert(u.take(2)[0] == u[0] && u.take(2)[1] == u[1]);
    assert(crate::text::strip_prefix(a, seq!['▸']) is Some);
    assert(a.take(1) =~= seq!['▸']);
    assert(a.take(1)[0] == a[0]);
}

/// A text that does not start with a space does not start like a row of a mark.
proof fn lemma_not_mark_start(t: Seq<char>)
    requires
        t.len() > 0,
        t[0] != ' ',
    ensures
        !crate::text::starts_with(t, "  ▸"@),
{
    reveal_strlit("  ▸");
    if crate::text::starts_with(t, "  ▸"@) {
        assert(t.take(3)[0] == t[0]);
        assert("  ▸"@[0] == ' ');
    }
}

/// A line that does not start like a row of a mark marks nothing, nor does what
/// `str::lines` leaves of it.
proof fn lemma_no_mark(t: Seq<char>)
    requires
        !crate::text::starts_with(t, "  ▸"@),
    ensures
        mark_of(t) is None,
        mark_of(crate::text::strip_cr(t)) is None,
{
    reveal_strlit("  ▸");
    let c = crate::text::strip_cr(t);
    if mark_of(c) is Some {
        lemma_mark_start(c);
        assert(c[0] == t[0] && c[1] == t[1] && c[2] == t[2]);
        assert(t.take(3) =~= "  ▸"@);
    }
    if mark_of(t) is Some {
        lemma_mark_start(t);
        assert(t.take(3) =~= "  ▸"@);
    }
}

/// A line, ended by a break, that does not start like a row of a mark.
proof fn lemma_plain_line(t: Seq<char>)
    requires
        crate::text::lacks(t, '\n'),
        !crate::text::starts_with(t, "  ▸"@),
    ensures
        (t + seq!['\n']).len() > 0 && (t + seq!['\n']).last() == '\n',
        marks_of_lines(lines(t + seq!['\n'])) == Set::<usize>::empty(),
{
    lemma_one_line(t);
    lemma_no_mark(t);
    assert(marks_of_lines(seq![crate::text::strip_cr(t)]) =~= Set::<usize>::empty()) by {
        assert forall|n: usize| !#[trigger] marks_of_lines(seq![crate::text::strip_cr(t)]).contains(n) by {
            assert(seq![crate::text::strip_cr(t)][0] == crate::text::strip_cr(t));
        }
    }
}

/// No line of `t` starts like a mark.
pub open spec fn plain_text(t: Seq<char>) -> bool {
    forall|k: int| 0 <= k < lines(t + seq!['\n']).len() ==> !crate::text::starts_with(
        #[trigger] lines(t + seq!['\n'])[k],
        "  ▸"@,
    )
}

/// A text none of whose lines starts like a mark carries no mark.
proof fn lemma_plain_text(t: Seq<char>)
    requires
        plain_text(t),
    ensures
        (t + seq!['\n']).len() > 0 && (t + seq!['\n']).last() == '\n',
        marks_of_lines(lines(t + seq!['\n'])) == Set::<usize>::empty(),
{
    let ls = lines(t + seq!['\n']);
    assert forall|n: usize| !#[trigger] marks_of_lines(ls).contains(n) by {
        if marks_of_lines(ls).contains(n) {
            let k = choose|k: int| 0 <= k < ls.len() && #[trigger] mark_of(ls[k]) == Some(n);
            lemma_no_mark(ls[k]);
        }
    }
    assert(marks_of_lines(ls) =~= Set::<usize>::empty());
}

/// A text none of whose lines starts like a mark, then `rest`, which ends a line.
proof fn lemma_plain_text_then(t: Seq<char>, rest: Seq<char>)
    requires
        plain_text(t),
        rest.len() > 0,
        rest.last() == '\n',
    ensures
        marks_of_lines(lines(t + seq!['\n'] + rest)) == marks_of_lines(lines(rest)),
{
    lemma_plain_text(t);
    lemma_lines_concat(t + seq!['\n'], rest, seq![]);
    lemma_marks_concat(lines(t + seq!['\n']), lines(rest));
    assert(marks_of_lines(lines(t + seq!['\n'])).union(marks_of_lines(lines(rest))) =~= marks_of_lines(lines(rest)));
}

/// A text that is a line without a mark, then `rest`, which ends a line.
proof fn lemma_plain_then(t: Seq<char>, rest: Seq<char>)
    requires
        crate::text::lacks(t, '\n'),
        !crate::text::starts_with(t, "  ▸"@),
        rest.len() > 0,
        rest.last() == '\n',
    ensures
        marks_of_lines(lines(t + seq!['\n'] + rest)) == marks_of_lines(lines(rest)),
{
    lemma_plain_line(t);
    lemma_lines_concat(t + seq!['\n'], rest, seq![]);
    lemma_marks_concat(lines(t + seq!['\n']), lines(rest));
    assert(marks_of_lines(lines(t + seq!['\n'])).union(marks_of_lines(lines(rest))) =~= marks_of_lines(lines(rest)));
}

/// The runs of lines, written, hold no break.
proof fn lemma_spans_text_lacks(v: Seq<(usize, usize)>)
    ensures
        crate::text::lacks(spans_text(v), '\n'),
{
    reveal_strlit("–");
    reveal_strlit(", ");
    let parts = v.map_values(|s: (usize, usize)| span_text(s));
    assert forall|k: int| 0 <= k < parts.len() implies crate::text::lacks(#[trigger] parts[k], '\n') by {
        let s = v[k];
        crate::index::lemma_decimal(s.0 as nat);
        crate::index::lemma_decimal(s.1 as nat);
        let t = span_text(s);
        let a = decimal(s.0 as nat);
        let b = decimal(s.1 as nat);
        assert forall|i: int| 0 <= i < t.len() implies #[trigger] t[i] != '\n' by {
            if s.0 != s.1 {
                if i < a.len() {
                    assert(t[i] == a[i]);
                } else if i > a.len() {
                    assert(t[i] == b[i - a.len() - 1]);
                }
            }
        }
    }
    lemma_join_lacks(parts, ", "@, '\n');
}

/// Parts joined by a separator hold a character only where a part or the separator
/// does.
proof fn lemma_join_lacks(parts: Seq<Seq<char>>, sep: Seq<char>, c: char)
    requires
        crate::text::lacks(sep, c),
        forall|k: int| 0 <= k < parts.len() ==> crate::text::lacks(#[trigger] parts[k], c),
    ensures
        crate::text::lacks(join(parts, sep), c),
    decreases parts.len(),
{
    if parts.len() > 1 {
        assert forall|k: int| 0 <= k < parts.drop_last().len() implies crate::text::lacks(#[trigger] parts.drop_last()[k], c) by {
            assert(parts.drop_last()[k] == parts[k]);
        }
        lemma_join_lacks(parts.drop_last(), sep, c);
        let a = join(parts.drop_last(), sep);
        let l = parts.last();
        assert(crate::text::lacks(l, c));
        let j = a + sep + l;
        assert forall|i: int| 0 <= i < j.len() implies #[trigger] j[i] != c by {
            if i < a.len() {
                assert(j[i] == a[i]);
            } else if i < a.len() + sep.len() {
                assert(j[i] == sep[i - a.len()]);
            } else {
                assert(j[i] == l[i - a.len() - sep.len()]);
            }
        }
    } else if parts.len() == 1 {
        assert(crate::text::lacks(parts[0], c));
    }
}

/// The foot of the view marks nothing.
#[verifier::rlimit(60)]
proof fn lemma_footer_marks(p: Preview)
    requires
        match p.note {
            Some(n) => plain_text(n@),
            None => true,
        },
    ensures
        footer(p).len() > 0,
        footer(p).last() == '\n',
        marks_of_lines(lines(footer(p))) == Set::<usize>::empty(),
{
    reveal_strlit("\n");
    reveal_strlit(" · ");
    reveal_strlit("queda afuera: todo lo que no está marcado\n");
    reveal_strlit("queda afuera: todo lo que no está marcado");
    reveal_strlit("  ▸");
    reveal_strlit("1 fragmento");
    reveal_strlit(" fragmentos");
    let q = "queda afuera: todo lo que no está marcado"@;
    assert(q[0] == 'q');
    lemma_not_mark_start(q);
    let tail = match p.note {
        Some(n) => n@ + "\n"@,
        None => Seq::<char>::empty(),
    };
    let qline = q + seq!['\n'] + tail;
    lemma_plain_line(q);
    assert(marks_of_lines(lines(qline)) == Set::<usize>::empty()) by {
        match p.note {
            Some(n) => {
                lemma_plain_text(n@);
                assert(n@ + "\n"@ =~= n@ + seq!['\n']);
                lemma_plain_then(q, n@ + seq!['\n']);
            },
            None => {
                assert(qline =~= q + seq!['\n']);
            },
        }
    }
    // the line of fragments and runs
    let x = parts_text(p.parts) + " · "@ + spans_text(p.spans@);
    crate::index::lemma_decimal(p.parts as nat);
    assert(!crate::text::starts_with(x, "  ▸"@)) by {
        assert(x[0] != ' ') by {
            if p.parts == 1 {
                assert(x[0] == '1');
            } else {
                assert(x[0] == decimal(p.parts as nat)[0]);
                assert(crate::index::is_digit(decimal(p.parts as nat)[0]));
            }
        }
        lemma_not_mark_start(x);
    }
    assert(crate::text::lacks(x, '\n')) by {
        lemma_spans_text_lacks(p.spans@);
        let a = parts_text(p.parts);
        let b = spans_text(p.spans@);
        assert(crate::text::lacks(a, '\n')) by {
            if p.parts != 1 {
                assert forall|i: int| 0 <= i < a.len() implies #[trigger] a[i] != '\n' by {
                    let d = decimal(p.parts as nat);
                    if i < d.len() {
                        assert(a[i] == d[i]);
                    }
                }
            }
        }
        assert forall|i: int| 0 <= i < x.len() implies #[trigger] x[i] != '\n' by {
            if i < a.len() {
                assert(x[i] == a[i]);
            } else if i >= a.len() + 3 {
                assert(x[i] == b[i - a.len() - 3]);
            }
        }
    }
    let f = footer(p);
    assert(f =~= seq!['\n'] + (x + seq!['\n'] + qline));
    assert(qline.len() > 0 && qline.last() == '\n');
    lemma_plain_then(x, qline);
    assert(!crate::text::starts_with(Seq::<char>::empty(), "  ▸"@)) by {
        reveal_strlit("  ▸");
    }
    lemma_plain_then(Seq::<char>::empty(), x + seq!['\n'] + qline);
    assert(Seq::<char>::empty() + seq!['\n'] + (x + seq!['\n'] + qline) =~= f);
}


/// **What is printed reads back: it is what makes the view editable.** The marks
/// read from a rendered view are the marked lines, given the lines marked are
/// lines of the file, and no line of the heading or of the note starts like a
/// mark.
pub proof fn lemma_marks_read_back(p: Preview, source: Seq<char>, shown: Seq<usize>)
    requires
        forall|k: int| 0 <= k < p.marked@.len() ==> 1 <= #[trigger] p.marked@[k] <= lines(source).len(),
        increasing(shown),
        shown.to_set() == shown_set(p.marked@, lines(source).len()),
        plain_text(p.label@),
        match p.note {
            Some(n) => plain_text(n@),
            None => true,
        },
    ensures
        marks(render_text(p, lines(source), shown)) == p.marked@.to_set(),
{
    reveal_strlit("\n\n");
    let ls = lines(source);
    let n = ls.len();
    let width = number_width(n);
    let marked = p.marked@;
    lemma_lines_lack(source, seq![]);
    assert forall|j: int| 0 <= j < shown.len() implies 1 <= #[trigger] shown[j] <= ls.len() by {
        assert(shown.to_set().contains(shown[j]));
        let q = choose|q: int| 0 <= q < marked.len() && #[trigger] window(marked[q], n).contains(shown[j]);
        assert(window(marked[q], n).contains(shown[j]));
    }
    lemma_rows_marks(shown, shown.len() as int, ls, marked, width);
    lemma_footer_marks(p);
    let rs = rows(shown, shown.len() as int, ls, marked, width);
    let f = footer(p);
    let body = rs + f;
    assert(marks_of_lines(lines(body)) == marks_of_lines(lines(rs))) by {
        if rs.len() > 0 {
            lemma_lines_concat(rs, f, seq![]);
            lemma_marks_concat(lines(rs), lines(f));
            assert(marks_of_lines(lines(rs)).union(marks_of_lines(lines(f))) =~= marks_of_lines(lines(rs)));
        } else {
            assert(body =~= f);
            assert(lines(rs) =~= Seq::<Seq<char>>::empty());
            assert(marks_of_lines(lines(rs)) =~= Set::<usize>::empty());
        }
    }
    assert(body.len() > 0 && body.last() == '\n');
    assert(!crate::text::starts_with(Seq::<char>::empty(), "  ▸"@)) by {
        reveal_strlit("  ▸");
    }
    lemma_plain_then(Seq::<char>::empty(), body);
    let after_label = Seq::<char>::empty() + seq!['\n'] + body;
    lemma_plain_text_then(p.label@, after_label);
    let text = render_text(p, ls, shown);
    assert(text =~= p.label@ + seq!['\n'] + after_label);
    assert(marks(text) =~= marks_of_lines(lines(text)));
    assert(marks_of_lines(lines(rs)) =~= marked.to_set()) by {
        assert forall|l: usize| #[trigger] marked.to_set().contains(l) implies marks_of_lines(lines(rs)).contains(l) by {
            let q = choose|q: int| 0 <= q < marked.len() && marked[q] == l;
            assert(window(marked[q], n).contains(l));
            assert(shown_set(marked, n).contains(l));
            assert(shown.to_set().contains(l));
            let j = choose|j: int| 0 <= j < shown.len() && shown[j] == l;
            assert(0 <= j < shown.len() && shown[j] == l && marked.contains(l));
        }
    }
}


// ─── the view of `get`: the fragment over its lines ─────────────────────────

/// What did not fit **inside** a line. The same sign for the same fact at the two
/// scales: `⋮` for the lines left out, this for what is left out within one.
pub const HOLE: &'static str = "...";

/// The parts, each cut to the bytes `from..to`, those left empty dropped.
pub open spec fn clipped(parts: Seq<(usize, usize)>, from: nat, to: nat) -> Seq<(nat, nat)>
    decreases parts.len(),
{
    if parts.len() == 0 {
        seq![]
    } else {
        let rest = clipped(parts.drop_last(), from, to);
        let p = parts.last();
        let s = if p.0 >= from { p.0 as nat } else { from };
        let e = if p.1 <= to { p.1 as nat } else { to };
        if s < e {
            rest.push((s, e))
        } else {
            rest
        }
    }
}

/// The characters of `t` between the bytes `a` and `b`.
pub open spec fn byte_slice(t: Seq<char>, a: nat, b: nat) -> Seq<char> {
    crate::text::byte_prefix(t, b).skip(crate::text::byte_prefix(t, a).len() as int)
}

/// The pieces of a line after the byte `at`: each covered stretch, with a hole before
/// it where something between was left out, and a hole at the end where the line
/// goes on past the last one. `base` is where the line starts.
pub open spec fn pieces(t: Seq<char>, base: nat, cub: Seq<(nat, nat)>, at: nat, fin: nat) -> Seq<Seq<char>>
    decreases cub.len(),
{
    if cub.len() == 0 {
        if at < fin {
            seq!["..."@]
        } else {
            seq![]
        }
    } else {
        let (s, e) = cub[0];
        (if s > at {
            seq!["..."@]
        } else {
            seq![]
        }) + seq![byte_slice(t, (s - base) as nat, (e - base) as nat)] + pieces(t, base, cub.drop_first(), e, fin)
    }
}

/// The indentation of a line: its leading whitespace.
pub open spec fn indentation(t: Seq<char>) -> Seq<char> {
    t.take(t.len() - trim_start(t).len())
}

/// A line with `...` where no part covers it. A line no part touches is context and
/// goes whole; so does one whose parts cover all of it. **The indentation always
/// goes and is never a hole.**
pub open spec fn with_holes(t: Seq<char>, base: nat, parts: Seq<(usize, usize)>) -> Seq<char> {
    let fin = base + crate::text::utf8_len(t);
    let cub = clipped(parts, base, fin);
    if cub.len() == 0 {
        t
    } else {
        let ind = indentation(t);
        let ps = pieces(t, base, cub, base + crate::text::utf8_len(ind), fin);
        if ps.len() == 1 {
            t
        } else {
            ind + join(ps, " "@)
        }
    }
}

/// The bytes a string of characters takes.
fn utf8_len_of(s: &[char]) -> (r: usize)
    requires
        crate::text::utf8_len(s@) <= usize::MAX,
    ensures
        r == crate::text::utf8_len(s@),
{
    let mut n: usize = 0;
    let mut i: usize = 0;
    while i < s.len()
        invariant
            i <= s.len(),
            crate::text::utf8_len(s@) <= usize::MAX,
            n == crate::text::utf8_len(s@.take(i as int)),
        decreases s.len() - i,
    {
        assert(s@.take(i as int + 1).drop_last() =~= s@.take(i as int));
        proof {
            crate::text::lemma_utf8_len_nonneg_prefix(s@, i as int + 1);
        }
        n = n + crate::text::utf8_width_of(s[i]);
        i = i + 1;
    }
    assert(s@.take(i as int) =~= s@);
    n
}

proof fn lemma_byte_prefix_len(s: Seq<char>, n: nat)
    ensures
        crate::text::byte_prefix(s, n).len() <= s.len(),
    decreases s.len(),
{
    if crate::text::utf8_len(s) > n {
        lemma_byte_prefix_len(s.drop_last(), n);
    }
}

proof fn lemma_byte_prefix_mono(s: Seq<char>, a: nat, b: nat)
    requires
        a <= b,
    ensures
        crate::text::byte_prefix(s, a).len() <= crate::text::byte_prefix(s, b).len(),
    decreases s.len(),
{
    if crate::text::utf8_len(s) <= a {
    } else if crate::text::utf8_len(s) <= b {
        lemma_byte_prefix_len(s.drop_last(), a);
    } else {
        lemma_byte_prefix_mono(s.drop_last(), a, b);
    }
}

pub(crate) fn byte_slice_of(t: &[char], a: usize, b: usize) -> (r: Vec<char>)
    requires
        a <= b,
    ensures
        r@ == byte_slice(t@, a as nat, b as nat),
{
    let pb = crate::text::byte_prefix_of(t, b);
    let pa = crate::text::byte_prefix_of(t, a);
    proof {
        lemma_byte_prefix_mono(t@, a as nat, b as nat);
    }
    let r = crate::text::slice_of(pb.as_slice(), pa.len(), pb.len());
    assert(r@ =~= byte_slice(t@, a as nat, b as nat));
    r
}

/// The parts cut to a line.
fn clipped_of(parts: &Vec<(usize, usize)>, from: usize, to: usize) -> (r: Vec<(usize, usize)>)
    ensures
        r@.len() == clipped(parts@, from as nat, to as nat).len(),
        forall|k: int| 0 <= k < r@.len() ==> r@[k].0 as nat == clipped(parts@, from as nat, to as nat)[k].0
            && r@[k].1 as nat == clipped(parts@, from as nat, to as nat)[k].1,
        forall|k: int| 0 <= k < r@.len() ==> from <= #[trigger] r@[k].0 < r@[k].1 <= to,
{
    let mut out: Vec<(usize, usize)> = Vec::new();
    let mut i: usize = 0;
    while i < parts.len()
        invariant
            i <= parts.len(),
            out@.len() == clipped(parts@.take(i as int), from as nat, to as nat).len(),
            forall|k: int| 0 <= k < out@.len() ==> out@[k].0 as nat == clipped(parts@.take(i as int), from as nat, to as nat)[k].0
                && out@[k].1 as nat == clipped(parts@.take(i as int), from as nat, to as nat)[k].1,
            forall|k: int| 0 <= k < out@.len() ==> from <= #[trigger] out@[k].0 < out@[k].1 <= to,
        decreases parts.len() - i,
    {
        assert(parts@.take(i as int + 1).drop_last() =~= parts@.take(i as int));
        let p = parts[i];
        let st = if p.0 >= from { p.0 } else { from };
        let en = if p.1 <= to { p.1 } else { to };
        if st < en {
            out.push((st, en));
        }
        i = i + 1;
    }
    assert(parts@.take(i as int) =~= parts@);
    out
}

/// A line with `...` where no part covers it.
fn holes_of(t: &[char], base: usize, parts: &Vec<(usize, usize)>) -> (r: Vec<char>)
    requires
        base + crate::text::utf8_len(t@) <= usize::MAX,
    ensures
        r@ == with_holes(t@, base as nat, parts@),
{
    let tl = utf8_len_of(t);
    let fin = base + tl;
    let cub = clipped_of(parts, base, fin);
    let ghost cs = clipped(parts@, base as nat, fin as nat);
    if cub.len() == 0 {
        return crate::text::to_vec(t);
    }
    let rest = trim_start_of(t);
    proof {
        lemma_trim_start_shorter(t@);
    }
    let ind = crate::text::slice_of(t, 0, t.len() - rest.len());
    assert(ind@ =~= indentation(t@));
    proof {
        crate::text::lemma_utf8_len_nonneg_prefix(t@, ind@.len() as int);
    }
    let il = utf8_len_of(ind.as_slice());
    let mut at = base + il;
    let ghost start = at;
    let mut ps: Vec<Vec<char>> = Vec::new();
    let mut i: usize = 0;
    assert(cs.skip(0) =~= cs);
    while i < cub.len()
        invariant
            i <= cub.len(),
            cub@.len() == cs.len(),
            cs == clipped(parts@, base as nat, fin as nat),
            forall|k: int| 0 <= k < cub@.len() ==> cub@[k].0 as nat == cs[k].0 && cub@[k].1 as nat == cs[k].1,
            forall|k: int| 0 <= k < cub@.len() ==> base <= #[trigger] cub@[k].0 < cub@[k].1 <= fin,
            views(ps@) + pieces(t@, base as nat, cs.skip(i as int), at as nat, fin as nat) == pieces(
                t@,
                base as nat,
                cs,
                start as nat,
                fin as nat,
            ),
        decreases cub.len() - i,
    {
        let (st, en) = cub[i];
        let ghost rest_c = cs.skip(i as int);
        assert(rest_c[0] == (st as nat, en as nat));
        assert(rest_c.drop_first() =~= cs.skip(i as int + 1));
        let ghost before = views(ps@);
        if st > at {
            ps.push(crate::text::chars_of("..."));
        }
        let piece = byte_slice_of(t, st - base, en - base);
        ps.push(piece);
        assert(views(ps@) =~= before + (if st > at {
            seq!["..."@]
        } else {
            seq![]
        }) + seq![byte_slice(t@, (st - base) as nat, (en - base) as nat)]);
        at = en;
        i = i + 1;
    }
    if at < fin {
        ps.push(crate::text::chars_of("..."));
    }
    assert(views(ps@) =~= pieces(t@, base as nat, cs, start as nat, fin as nat));
    if ps.len() == 1 {
        return crate::text::to_vec(t);
    }
    let mut out = ind;
    let sp = crate::text::chars_of(" ");
    let j = join_of(&ps, sp.as_slice());
    append(&mut out, j.as_slice());
    out
}

proof fn lemma_trim_start_shorter(s: Seq<char>)
    ensures
        trim_start(s).len() <= s.len(),
    decreases s.len(),
{
    if s.len() > 0 && crate::text::ws(s[0]) {
        lemma_trim_start_shorter(s.drop_first());
    }
}

/// Where line `k` (from 0) starts, as the view counts: each line before it, and one
/// byte for its line break.
pub open spec fn line_start(ls: Seq<Seq<char>>, k: int) -> nat
    decreases k,
{
    if k <= 0 {
        0
    } else {
        line_start(ls, k - 1) + crate::text::utf8_len(ls[k - 1]) + 1
    }
}

proof fn lemma_line_start_mono(ls: Seq<Seq<char>>, j: int, k: int)
    requires
        0 <= j <= k,
    ensures
        line_start(ls, j) <= line_start(ls, k),
    decreases k - j,
{
    if j < k {
        lemma_line_start_mono(ls, j, k - 1);
    }
}

/// The parts as pairs of offsets.
pub open spec fn pairs(parts: Seq<ByteRange>) -> Seq<(usize, usize)> {
    parts.map_values(|p: ByteRange| (p.start, p.end))
}

/// The lines a part brings into the view: those it touches, with `before` lines of
/// context above and `after` below, within the file's `n` lines.
pub open spec fn part_window(b: Seq<u8>, p: ByteRange, before: usize, after: usize, n: nat) -> Set<usize> {
    let from = line_at(b, p.start);
    let to = line_at(b, if p.end >= 1 { (p.end - 1) as usize } else { 0 });
    Set::new(
        |l: usize| (if from > before { (from - before) as nat } else { 1 }) <= l && l <= to + after && l <= n,
    )
}

/// The lines of the view.
pub open spec fn view_lines(b: Seq<u8>, parts: Seq<ByteRange>, before: usize, after: usize, n: nat) -> Set<usize> {
    Set::new(
        |l: usize| exists|k: int| 0 <= k < parts.len() && #[trigger] part_window(b, parts[k], before, after, n).contains(l),
    )
}

/// The row of the `k`-th line shown, after a `⋮` where lines were skipped: **a skip
/// is seen, or it lies**, two distant stretches reading as one.
pub open spec fn view_row(shown: Seq<usize>, k: int, ls: Seq<Seq<char>>, parts: Seq<(usize, usize)>, width: nat) -> Seq<char> {
    let l = shown[k];
    (if k > 0 && l > shown[k - 1] + 1 {
        Seq::new(width, |i: int| ' ') + " ⋮\n"@
    } else {
        seq![]
    }) + pad_left(decimal(l as nat), width) + ":   "@ + with_holes(ls[l - 1], line_start(ls, l - 1), parts)
        + "\n"@
}

/// The first `k` rows of the view.
pub open spec fn view_rows(shown: Seq<usize>, k: int, ls: Seq<Seq<char>>, parts: Seq<(usize, usize)>, width: nat) -> Seq<char>
    decreases k,
{
    if k <= 0 {
        seq![]
    } else {
        view_rows(shown, k - 1, ls, parts, width) + view_row(shown, k - 1, ls, parts, width)
    }
}

/// The width of the numbers: that of the last line shown.
pub open spec fn view_width(shown: Seq<usize>) -> nat {
    decimal((if shown.len() > 0 { shown.last() } else { 1 }) as nat).len()
}

/// Every cut the view makes inside a line shown falls between two characters.
pub open spec fn cuts_between_chars(ls: Seq<Seq<char>>, parts: Seq<(usize, usize)>, shown: Set<usize>) -> bool {
    forall|l: usize, k: int|
        #![trigger shown.contains(l), clipped(parts, line_start(ls, l - 1), line_start(ls, l - 1) + crate::text::utf8_len(ls[l - 1]))[k]]
        shown.contains(l) && 1 <= l <= ls.len() && 0 <= k < clipped(
            parts,
            line_start(ls, l - 1),
            line_start(ls, l - 1) + crate::text::utf8_len(ls[l - 1]),
        ).len() ==> {
            let c = clipped(parts, line_start(ls, l - 1), line_start(ls, l - 1) + crate::text::utf8_len(ls[l - 1]))[k];
            &&& crate::text::cut_is_clean(ls[l - 1], (c.0 - line_start(ls, l - 1)) as nat)
            &&& crate::text::cut_is_clean(ls[l - 1], (c.1 - line_start(ls, l - 1)) as nat)
        }
}

fn push_view_row(
    out: &mut Vec<char>,
    shown: &Vec<usize>,
    i: usize,
    ls: &Vec<Vec<char>>,
    starts: &Vec<usize>,
    parts: &Vec<(usize, usize)>,
    width: usize,
)
    requires
        i < shown.len(),
        increasing(shown@),
        starts@.len() == ls@.len(),
        forall|j: int| 0 <= j < shown@.len() ==> 1 <= #[trigger] shown@[j] && shown@[j] <= ls@.len(),
        forall|k: int| 0 <= k < ls@.len() ==> #[trigger] starts@[k] == line_start(views(ls@), k)
            && line_start(views(ls@), k) + crate::text::utf8_len(ls@[k]@) + 1 <= usize::MAX,
    ensures
        final(out)@ == old(out)@ + view_row(shown@, i as int, views(ls@), parts@, width as nat),
{
    let ghost o = out@;
    let l = shown[i];
    if i > 0 {
        assert(shown@[i - 1] < shown@[i as int]);
    }
    if i > 0 && l > shown[i - 1] + 1 {
        let mut k: usize = 0;
        while k < width
            invariant
                k <= width,
                out@ == o + Seq::new(k as nat, |j: int| ' '),
            decreases width - k,
        {
            out.push(' ');
            k = k + 1;
            assert(out@ =~= o + Seq::new(k as nat, |j: int| ' '));
        }
        append_str(out, " ⋮\n");
    }
    let ghost mid = out@;
    let num = decimal_of(l as u64);
    push_pad_left(out, num.as_slice(), width);
    append_str(out, ":   ");
    assert(views(ls@)[l - 1] == ls@[l - 1]@);
    let h = holes_of(ls[l - 1].as_slice(), starts[l - 1], parts);
    append(out, h.as_slice());
    append_str(out, "\n");
    assert(out@ =~= o + view_row(shown@, i as int, views(ls@), parts@, width as nat));
}

/// The parts as pairs of offsets.
fn pairs_of(parts: &Vec<ByteRange>) -> (r: Vec<(usize, usize)>)
    ensures
        r@ == pairs(parts@),
{
    let mut pv: Vec<(usize, usize)> = Vec::new();
    let mut k: usize = 0;
    while k < parts.len()
        invariant
            k <= parts.len(),
            pv@ == pairs(parts@.take(k as int)),
        decreases parts.len() - k,
    {
        let p = parts[k];
        pv.push((p.start, p.end));
        assert(parts@.take(k as int + 1) =~= parts@.take(k as int).push(p));
        assert(pv@ =~= pairs(parts@.take(k as int + 1)));
        k = k + 1;
    }
    assert(parts@.take(k as int) =~= parts@);
    pv
}

/// The lines of the view, in order.
fn shown_of(source: &str, parts: &Vec<ByteRange>, before: usize, after: usize, n: usize) -> (shown: Vec<usize>)
    requires
        source.spec_bytes().len() + after < usize::MAX,
    ensures
        increasing(shown@),
        forall|j: int| 0 <= j < shown@.len() ==> 1 <= #[trigger] shown@[j] && shown@[j] <= n,
        shown@.to_set() == view_lines(source.spec_bytes(), parts@, before, after, n as nat),
{
    let ghost b = source.spec_bytes();
    let mut shown: Vec<usize> = Vec::new();
    let mut k: usize = 0;
    assert(shown@.to_set() =~= Set::new(
        |l: usize| exists|j: int| 0 <= j < 0 && #[trigger] part_window(b, parts@[j], before, after, n as nat).contains(l),
    ));
    while k < parts.len()
        invariant
            k <= parts.len(),
            b == source.spec_bytes(),
            b.len() + after < usize::MAX,
            increasing(shown@),
            forall|j: int| 0 <= j < shown@.len() ==> 1 <= #[trigger] shown@[j] && shown@[j] <= n,
            shown@.to_set() == Set::new(
                |l: usize| exists|j: int| 0 <= j < k && #[trigger] part_window(b, parts@[j], before, after, n as nat).contains(l),
            ),
        decreases parts.len() - k,
    {
        let p = parts[k];
        let from = line_of(source, p.start);
        let last = if p.end >= 1 {
            p.end - 1
        } else {
            0
        };
        let to = line_of(source, last);
        proof {
            lemma_newlines_bound(b.take(if last <= b.len() { last as int } else { b.len() as int }));
        }
        let lo = if from > before {
            from - before
        } else {
            1
        };
        let hi = if to + after <= n {
            to + after
        } else {
            n
        };
        let ghost before_set = shown@.to_set();
        insert_range(&mut shown, lo, hi);
        assert(part_window(b, parts@[k as int], before, after, n as nat) =~= Set::new(|l: usize| lo <= l <= hi));
        assert forall|j: int| 0 <= j < shown@.len() implies 1 <= #[trigger] shown@[j] && shown@[j] <= n by {
            assert(shown@.to_set().contains(shown@[j]));
        }
        assert(shown@.to_set() =~= Set::new(
            |l: usize| exists|j: int| 0 <= j < k + 1 && #[trigger] part_window(b, parts@[j], before, after, n as nat).contains(l),
        )) by {
            assert forall|l: usize| #[trigger] shown@.to_set().contains(l) implies exists|j: int|
                0 <= j < k + 1 && #[trigger] part_window(b, parts@[j], before, after, n as nat).contains(l) by {
                if before_set.contains(l) {
                    let j = choose|j: int| 0 <= j < k && #[trigger] part_window(b, parts@[j], before, after, n as nat).contains(l);
                    assert(part_window(b, parts@[j], before, after, n as nat).contains(l));
                } else {
                    assert(part_window(b, parts@[k as int], before, after, n as nat).contains(l));
                }
            }
            assert forall|l: usize| (exists|j: int| 0 <= j < k + 1 && #[trigger] part_window(b, parts@[j], before, after, n as nat).contains(l)) implies #[trigger] shown@.to_set().contains(l) by {
                let j = choose|j: int| 0 <= j < k + 1 && #[trigger] part_window(b, parts@[j], before, after, n as nat).contains(l);
                if j < k {
                    assert(before_set.contains(l));
                }
            }
        }
        k = k + 1;
    }
    assert(shown@.to_set() =~= view_lines(b, parts@, before, after, n as nat));
    shown
}

/// Where each line starts.
fn starts_of(ls: &Vec<Vec<char>>) -> (starts: Vec<usize>)
    requires
        line_start(views(ls@), ls@.len() as int) <= usize::MAX,
    ensures
        starts@.len() == ls@.len(),
        forall|k: int| 0 <= k < ls@.len() ==> #[trigger] starts@[k] == line_start(views(ls@), k)
            && line_start(views(ls@), k) + crate::text::utf8_len(ls@[k]@) + 1 <= usize::MAX,
{
    let n = ls.len();
    let ghost lv = views(ls@);
    let mut starts: Vec<usize> = Vec::new();
    let mut at: usize = 0;
    while starts.len() < n
        invariant
            starts@.len() <= n,
            n == ls@.len(),
            lv == views(ls@),
            line_start(lv, n as int) <= usize::MAX,
            at == line_start(lv, starts@.len() as int),
            forall|k: int| 0 <= k < starts@.len() ==> #[trigger] starts@[k] == line_start(lv, k),
        decreases n - starts@.len(),
    {
        let k = starts.len();
        proof {
            lemma_line_start_mono(lv, k as int + 1, n as int);
        }
        assert(lv[k as int] == ls@[k as int]@);
        starts.push(at);
        let w = utf8_len_of(ls[k].as_slice());
        at = at + w + 1;
    }
    assert forall|k: int| 0 <= k < ls@.len() implies #[trigger] starts@[k] == line_start(views(ls@), k)
        && line_start(views(ls@), k) + crate::text::utf8_len(ls@[k]@) + 1 <= usize::MAX by {
        lemma_line_start_mono(lv, k + 1, n as int);
        assert(lv[k] == ls@[k]@);
    }
    starts
}

/// The fragment as `get` prints it: line by line, each with its number, with `...`
/// inside a line where no part covers it and `⋮` between lines that are not
/// contiguous. Nothing for an empty file.
pub fn fragment_view(source: &str, parts: &Vec<ByteRange>, before: usize, after: usize) -> (r: String)
    requires
        source.spec_bytes().len() + after < usize::MAX,
        line_start(lines(source@), lines(source@).len() as int) <= usize::MAX,
        cuts_between_chars(
            lines(source@),
            pairs(parts@),
            view_lines(source.spec_bytes(), parts@, before, after, lines(source@).len()),
        ),
    ensures
        lines(source@).len() == 0 ==> r@.len() == 0,
        lines(source@).len() > 0 ==> exists|shown: Seq<usize>|
            increasing(shown) && shown.to_set() == view_lines(
                source.spec_bytes(),
                parts@,
                before,
                after,
                lines(source@).len(),
            ) && r@ == view_rows(shown, shown.len() as int, lines(source@), pairs(parts@), view_width(shown)),
{
    let v = chars_of(source);
    let ls = lines_of(v.as_slice());
    let n = ls.len();
    if n == 0 {
        return String::new();
    }
    let ghost b = source.spec_bytes();
    let ghost lv = views(ls@);
    let starts = starts_of(&ls);
    // Which lines are shown.
    let shown = shown_of(source, parts, before, after, n);
    let pv = pairs_of(parts);
    // The rows.
    let last = if shown.len() > 0 {
        shown[shown.len() - 1]
    } else {
        1
    };
    let width = decimal_of(last as u64).len();
    let mut out: Vec<char> = Vec::new();
    let mut i: usize = 0;
    while i < shown.len()
        invariant
            i <= shown.len(),
            increasing(shown@),
            starts@.len() == ls@.len(),
            forall|j: int| 0 <= j < shown@.len() ==> 1 <= #[trigger] shown@[j] && shown@[j] <= ls@.len(),
            forall|k: int| 0 <= k < ls@.len() ==> #[trigger] starts@[k] == line_start(views(ls@), k)
                && line_start(views(ls@), k) + crate::text::utf8_len(ls@[k]@) + 1 <= usize::MAX,
            out@ == view_rows(shown@, i as int, views(ls@), pv@, width as nat),
        decreases shown.len() - i,
    {
        push_view_row(&mut out, &shown, i, &ls, &starts, &pv, width);
        i = i + 1;
    }
    assert(width as nat == view_width(shown@));
    string_of(out.as_slice())
}

// ─── the view of the dimensions ─────────────────────────────────────────────

/// Dimensions as plain values: each name with its parts.
pub open spec fn dims_view(dims: Seq<(String, Vec<ByteRange>)>) -> Seq<(Seq<char>, Seq<ByteRange>)> {
    dims.map_values(|d: (String, Vec<ByteRange>)| (d.0@, d.1@))
}

/// The parts of every dimension, in the order given.
pub open spec fn all_pairs(dims: Seq<(Seq<char>, Seq<ByteRange>)>) -> Seq<(usize, usize)>
    decreases dims.len(),
{
    if dims.len() == 0 {
        seq![]
    } else {
        all_pairs(dims.drop_last()) + pairs(dims.last().1)
    }
}

/// Parts in order, one that starts inside the one before joined to it: two
/// dimensions may overlap, and the shared range goes once.
pub open spec fn united(v: Seq<(usize, usize)>) -> Seq<(usize, usize)>
    decreases v.len(),
{
    if v.len() == 0 {
        seq![]
    } else {
        let m = united(v.drop_last());
        let p = v.last();
        if m.len() > 0 && p.0 < m.last().1 {
            m.update(m.len() - 1, (m.last().0, if p.1 > m.last().1 { p.1 } else { m.last().1 }))
        } else {
            m.push(p)
        }
    }
}

/// Pairs of offsets as ranges.
pub open spec fn ranges_of(v: Seq<(usize, usize)>) -> Seq<ByteRange> {
    v.map_values(|p: (usize, usize)| ByteRange { start: p.0, end: p.1 })
}

/// The parts of all the dimensions, sorted and united.
pub open spec fn dims_parts(dims: Seq<(Seq<char>, Seq<ByteRange>)>) -> Seq<(usize, usize)> {
    united(all_pairs(dims).sort_by(crate::sorting::pair_leq()))
}

/// Where a dimension first touches the line from `from` to `fin`: the least start,
/// cut to the line, among its parts that touch it.
pub open spec fn first_touch(parts: Seq<ByteRange>, from: nat, fin: nat) -> Option<nat>
    decreases parts.len(),
{
    if parts.len() == 0 {
        None
    } else {
        let rest = first_touch(parts.drop_last(), from, fin);
        let p = parts.last();
        let hi = if fin > from { fin } else { from + 1 };
        if p.start < hi && p.end > from {
            let at: nat = if p.start >= from { p.start as nat } else { from };
            match rest {
                Some(r) => Some(if r <= at { r } else { at }),
                None => Some(at),
            }
        } else {
            rest
        }
    }
}

/// The dimensions that touch a line, each with where it first does.
pub open spec fn touching(dims: Seq<(Seq<char>, Seq<ByteRange>)>, from: nat, fin: nat) -> Seq<(usize, Seq<char>)>
    decreases dims.len(),
{
    if dims.len() == 0 {
        seq![]
    } else {
        touching(dims.drop_last(), from, fin) + match first_touch(dims.last().1, from, fin) {
            Some(at) => seq![(at as usize, dims.last().0)],
            None => seq![],
        }
    }
}

/// The names of the dimensions that touch a line, in the order in which each first
/// appears on it.
pub open spec fn names_at(dims: Seq<(Seq<char>, Seq<ByteRange>)>, from: nat, fin: nat) -> Seq<Seq<char>> {
    touching(dims, from, fin).sort_by(crate::sorting::named_leq()).map_values(|t: (usize, Seq<char>)| t.1)
}

/// The text of the `k`-th line shown: its number and the line with its holes.
pub open spec fn dim_text(shown: Seq<usize>, k: int, ls: Seq<Seq<char>>, u: Seq<(usize, usize)>, width: nat) -> Seq<char> {
    let l = shown[k];
    pad_left(decimal(l as nat), width) + ":   "@ + with_holes(ls[l - 1], line_start(ls, l - 1), u)
}

/// The longest text of the first `k` lines shown.
pub open spec fn widest(shown: Seq<usize>, k: int, ls: Seq<Seq<char>>, u: Seq<(usize, usize)>, width: nat) -> nat
    decreases k,
{
    if k <= 0 {
        0
    } else {
        let w = widest(shown, k - 1, ls, u, width);
        let t = dim_text(shown, k - 1, ls, u, width).len();
        if t > w { t } else { w }
    }
}

/// The row of the `k`-th line shown: after a `⋮` where lines were skipped, its text,
/// and the names of the dimensions that touch it in a column.
pub open spec fn dim_row(
    shown: Seq<usize>,
    k: int,
    ls: Seq<Seq<char>>,
    u: Seq<(usize, usize)>,
    dims: Seq<(Seq<char>, Seq<ByteRange>)>,
    width: nat,
    column: nat,
) -> Seq<char> {
    let l = shown[k];
    let t = dim_text(shown, k, ls, u, width);
    let ns = names_at(dims, line_start(ls, l - 1), line_start(ls, l - 1) + crate::text::utf8_len(ls[l - 1]));
    (if k > 0 && l > shown[k - 1] + 1 {
        Seq::new(width, |i: int| ' ') + " ⋮\n"@
    } else {
        seq![]
    }) + (if ns.len() == 0 {
        t
    } else {
        t + Seq::new((column - t.len()) as nat, |i: int| ' ') + "‹"@ + join(ns, " · "@) + "›"@
    }) + "\n"@
}

/// The first `k` rows.
pub open spec fn dim_rows(
    shown: Seq<usize>,
    k: int,
    ls: Seq<Seq<char>>,
    u: Seq<(usize, usize)>,
    dims: Seq<(Seq<char>, Seq<ByteRange>)>,
    width: nat,
    column: nat,
) -> Seq<char>
    decreases k,
{
    if k <= 0 {
        seq![]
    } else {
        dim_rows(shown, k - 1, ls, u, dims, width, column) + dim_row(shown, k - 1, ls, u, dims, width, column)
    }
}

fn all_pairs_of(dims: &Vec<(String, Vec<ByteRange>)>) -> (r: Vec<(usize, usize)>)
    ensures
        r@ == all_pairs(dims_view(dims@)),
{
    let ghost dv = dims_view(dims@);
    let mut out: Vec<(usize, usize)> = Vec::new();
    let mut i: usize = 0;
    while i < dims.len()
        invariant
            i <= dims.len(),
            dv == dims_view(dims@),
            out@ == all_pairs(dv.take(i as int)),
        decreases dims.len() - i,
    {
        let pv = pairs_of(&dims[i].1);
        let mut j: usize = 0;
        let ghost o = out@;
        while j < pv.len()
            invariant
                j <= pv.len(),
                out@ == o + pv@.take(j as int),
            decreases pv.len() - j,
        {
            out.push(pv[j]);
            j = j + 1;
            assert(out@ =~= o + pv@.take(j as int));
        }
        assert(pv@.take(j as int) =~= pv@);
        assert(dv.take(i as int + 1).drop_last() =~= dv.take(i as int));
        assert(dv[i as int].1 == dims@[i as int].1@);
        i = i + 1;
    }
    assert(dv.take(i as int) =~= dv);
    out
}

fn united_of(v: &Vec<(usize, usize)>) -> (r: Vec<(usize, usize)>)
    ensures
        r@ == united(v@),
{
    let mut out: Vec<(usize, usize)> = Vec::new();
    let mut i: usize = 0;
    while i < v.len()
        invariant
            i <= v.len(),
            out@ == united(v@.take(i as int)),
        decreases v.len() - i,
    {
        let p = v[i];
        assert(v@.take(i as int + 1).drop_last() =~= v@.take(i as int));
        let n = out.len();
        if n > 0 && p.0 < out[n - 1].1 {
            let last = out[n - 1];
            let e = if p.1 > last.1 {
                p.1
            } else {
                last.1
            };
            out.set(n - 1, (last.0, e));
        } else {
            out.push(p);
        }
        i = i + 1;
    }
    assert(v@.take(i as int) =~= v@);
    out
}

fn ranges_from(v: &Vec<(usize, usize)>) -> (r: Vec<ByteRange>)
    ensures
        r@ == ranges_of(v@),
        pairs(r@) == v@,
{
    let mut out: Vec<ByteRange> = Vec::new();
    let mut i: usize = 0;
    while i < v.len()
        invariant
            i <= v.len(),
            out@ == ranges_of(v@.take(i as int)),
        decreases v.len() - i,
    {
        out.push(ByteRange { start: v[i].0, end: v[i].1 });
        assert(out@ =~= ranges_of(v@.take(i as int + 1)));
        i = i + 1;
    }
    assert(v@.take(i as int) =~= v@);
    assert(pairs(out@) =~= v@);
    out
}

fn first_touch_of(parts: &Vec<ByteRange>, from: usize, fin: usize) -> (r: Option<usize>)
    requires
        from < usize::MAX,
    ensures
        match r {
            Some(x) => first_touch(parts@, from as nat, fin as nat) == Some(x as nat),
            None => first_touch(parts@, from as nat, fin as nat) is None,
        },
{
    let hi = if fin > from {
        fin
    } else {
        from + 1
    };
    let mut best: Option<usize> = None;
    let mut i: usize = 0;
    while i < parts.len()
        invariant
            i <= parts.len(),
            from < usize::MAX,
            hi == (if fin > from { fin } else { (from + 1) as usize }),
            match best {
                Some(x) => first_touch(parts@.take(i as int), from as nat, fin as nat) == Some(x as nat),
                None => first_touch(parts@.take(i as int), from as nat, fin as nat) is None,
            },
        decreases parts.len() - i,
    {
        let p = parts[i];
        assert(parts@.take(i as int + 1).drop_last() =~= parts@.take(i as int));
        if p.start < hi && p.end > from {
            let at = if p.start >= from {
                p.start
            } else {
                from
            };
            best = match best {
                Some(b) => Some(if b <= at { b } else { at }),
                None => Some(at),
            };
        }
        i = i + 1;
    }
    assert(parts@.take(i as int) =~= parts@);
    best
}

/// The names of the dimensions that touch a line.
fn names_at_of(dims: &Vec<(String, Vec<ByteRange>)>, from: usize, fin: usize) -> (r: Vec<Vec<char>>)
    requires
        from < usize::MAX,
    ensures
        views(r@) == names_at(dims_view(dims@), from as nat, fin as nat),
{
    let ghost dv = dims_view(dims@);
    let mut t: Vec<(usize, String)> = Vec::new();
    let mut i: usize = 0;
    while i < dims.len()
        invariant
            i <= dims.len(),
            from < usize::MAX,
            dv == dims_view(dims@),
            crate::sorting::named_views(t@) == touching(dv.take(i as int), from as nat, fin as nat),
        decreases dims.len() - i,
    {
        assert(dv.take(i as int + 1).drop_last() =~= dv.take(i as int));
        assert(dv[i as int] == (dims@[i as int].0@, dims@[i as int].1@));
        let ghost before = crate::sorting::named_views(t@);
        match first_touch_of(&dims[i].1, from, fin) {
            Some(at) => {
                t.push((at, dims[i].0.clone()));
                assert(crate::sorting::named_views(t@) =~= before + seq![(at, dims@[i as int].0@)]);
            },
            None => {
                assert(before + seq![] =~= before);
            },
        }
        i = i + 1;
    }
    assert(dv.take(i as int) =~= dv);
    let sorted = crate::sorting::sort_named(&t);
    let mut out: Vec<Vec<char>> = Vec::new();
    let mut j: usize = 0;
    while j < sorted.len()
        invariant
            j <= sorted.len(),
            views(out@) == crate::sorting::named_views(sorted@).take(j as int).map_values(|x: (usize, Seq<char>)| x.1),
        decreases sorted.len() - j,
    {
        let c = chars_of(sorted[j].1.as_str());
        proof {
            crate::text::lemma_views_push(out@, c);
        }
        out.push(c);
        assert(crate::sorting::named_views(sorted@).take(j as int + 1).map_values(|x: (usize, Seq<char>)| x.1) =~= crate::sorting::named_views(sorted@).take(j as int).map_values(|x: (usize, Seq<char>)| x.1).push(sorted@[j as int].1@));
        j = j + 1;
    }
    assert(crate::sorting::named_views(sorted@).take(j as int) =~= crate::sorting::named_views(sorted@));
    out
}

fn dim_text_of(
    shown: &Vec<usize>,
    i: usize,
    ls: &Vec<Vec<char>>,
    starts: &Vec<usize>,
    u: &Vec<(usize, usize)>,
    width: usize,
) -> (r: Vec<char>)
    requires
        i < shown.len(),
        starts@.len() == ls@.len(),
        forall|j: int| 0 <= j < shown@.len() ==> 1 <= #[trigger] shown@[j] && shown@[j] <= ls@.len(),
        forall|k: int| 0 <= k < ls@.len() ==> #[trigger] starts@[k] == line_start(views(ls@), k)
            && line_start(views(ls@), k) + crate::text::utf8_len(ls@[k]@) + 1 <= usize::MAX,
    ensures
        r@ == dim_text(shown@, i as int, views(ls@), u@, width as nat),
{
    let l = shown[i];
    let mut out: Vec<char> = Vec::new();
    let num = decimal_of(l as u64);
    push_pad_left(&mut out, num.as_slice(), width);
    append_str(&mut out, ":   ");
    assert(views(ls@)[l - 1] == ls@[l - 1]@);
    let h = holes_of(ls[l - 1].as_slice(), starts[l - 1], u);
    append(&mut out, h.as_slice());
    assert(out@ =~= dim_text(shown@, i as int, views(ls@), u@, width as nat));
    out
}

fn push_spaces(out: &mut Vec<char>, n: usize)
    ensures
        final(out)@ == old(out)@ + Seq::new(n as nat, |i: int| ' '),
{
    let ghost o = out@;
    let mut k: usize = 0;
    while k < n
        invariant
            k <= n,
            out@ == o + Seq::new(k as nat, |i: int| ' '),
        decreases n - k,
    {
        out.push(' ');
        k = k + 1;
        assert(out@ =~= o + Seq::new(k as nat, |i: int| ' '));
    }
}

#[verifier::spinoff_prover]
fn push_dim_row(
    out: &mut Vec<char>,
    shown: &Vec<usize>,
    i: usize,
    ls: &Vec<Vec<char>>,
    starts: &Vec<usize>,
    u: &Vec<(usize, usize)>,
    dims: &Vec<(String, Vec<ByteRange>)>,
    width: usize,
    wide: usize,
    t: &[char],
)
    requires
        i < shown.len(),
        increasing(shown@),
        starts@.len() == ls@.len(),
        forall|j: int| 0 <= j < shown@.len() ==> 1 <= #[trigger] shown@[j] && shown@[j] <= ls@.len(),
        forall|k: int| 0 <= k < ls@.len() ==> #[trigger] starts@[k] == line_start(views(ls@), k)
            && line_start(views(ls@), k) + crate::text::utf8_len(ls@[k]@) + 1 <= usize::MAX,
        t@ == dim_text(shown@, i as int, views(ls@), u@, width as nat),
        t@.len() <= wide,
    ensures
        final(out)@ == old(out)@ + dim_row(shown@, i as int, views(ls@), u@, dims_view(dims@), width as nat, (wide + 2) as nat),
{
    let ghost o = out@;
    let l = shown[i];
    if i > 0 {
        assert(shown@[i - 1] < shown@[i as int]);
    }
    if i > 0 && l > shown[i - 1] + 1 {
        push_spaces(out, width);
        append_str(out, " ⋮\n");
    }
    let from = starts[l - 1];
    assert(views(ls@)[l - 1] == ls@[l - 1]@);
    let len = utf8_len_of(ls[l - 1].as_slice());
    let names = names_at_of(dims, from, from + len);
    append(out, t);
    if names.len() > 0 {
        push_spaces(out, wide - t.len());
        push_spaces(out, 2);
        append_str(out, "‹");
        let sep = chars_of(" · ");
        let j = join_of(&names, sep.as_slice());
        append(out, j.as_slice());
        append_str(out, "›");
        assert(Seq::new((wide - t.len()) as nat, |k: int| ' ') + Seq::new(2, |k: int| ' ') =~= Seq::new(
            (wide + 2 - t@.len()) as nat,
            |k: int| ' ',
        ));
    }
    append_str(out, "\n");
    assert(out@ =~= o + dim_row(shown@, i as int, views(ls@), u@, dims_view(dims@), width as nat, (wide + 2) as nat));
}

/// The view of an endpoint's dimensions: their parts over their lines, and at the
/// end of each line the names of the dimensions that touch it, in a column.
///
/// **A line goes once**, though several dimensions touch it, and the names go in the
/// order in which their parts appear on the line. Two dimensions may overlap, so the
/// parts are united before cutting: the shared range goes once, and its line carries
/// both names. Nothing for an empty file.
pub fn dimension_view(source: &str, dims: &Vec<(String, Vec<ByteRange>)>, before: usize, after: usize) -> (r: String)
    requires
        source.spec_bytes().len() + after < usize::MAX,
        line_start(lines(source@), lines(source@).len() as int) <= usize::MAX,
        cuts_between_chars(
            lines(source@),
            dims_parts(dims_view(dims@)),
            view_lines(source.spec_bytes(), ranges_of(dims_parts(dims_view(dims@))), before, after, lines(source@).len()),
        ),
    ensures
        lines(source@).len() == 0 ==> r@.len() == 0,
        lines(source@).len() > 0 ==> exists|shown: Seq<usize>|
            increasing(shown) && shown.to_set() == view_lines(
                source.spec_bytes(),
                ranges_of(dims_parts(dims_view(dims@))),
                before,
                after,
                lines(source@).len(),
            ) && r@ == dim_rows(
                shown,
                shown.len() as int,
                lines(source@),
                dims_parts(dims_view(dims@)),
                dims_view(dims@),
                view_width(shown),
                widest(shown, shown.len() as int, lines(source@), dims_parts(dims_view(dims@)), view_width(shown)) + 2,
            ),
{
    let v = chars_of(source);
    let ls = lines_of(v.as_slice());
    let n = ls.len();
    if n == 0 {
        return String::new();
    }
    let all = all_pairs_of(dims);
    let sorted = crate::sorting::sort_pairs(&all);
    let u = united_of(&sorted);
    let ur = ranges_from(&u);
    let starts = starts_of(&ls);
    let shown = shown_of(source, &ur, before, after, n);
    let last = if shown.len() > 0 {
        shown[shown.len() - 1]
    } else {
        1
    };
    let width = decimal_of(last as u64).len();
    let ghost lv = views(ls@);
    // The texts, and the widest.
    let mut texts: Vec<Vec<char>> = Vec::new();
    let mut wide: usize = 0;
    let mut i: usize = 0;
    while i < shown.len()
        invariant
            i <= shown.len(),
            texts@.len() == i,
            starts@.len() == ls@.len(),
            forall|j: int| 0 <= j < shown@.len() ==> 1 <= #[trigger] shown@[j] && shown@[j] <= ls@.len(),
            forall|k: int| 0 <= k < ls@.len() ==> #[trigger] starts@[k] == line_start(views(ls@), k)
                && line_start(views(ls@), k) + crate::text::utf8_len(ls@[k]@) + 1 <= usize::MAX,
            forall|j: int| 0 <= j < i ==> #[trigger] texts@[j]@ == dim_text(shown@, j, views(ls@), u@, width as nat),
            forall|j: int| 0 <= j < i ==> (#[trigger] texts@[j]).len() <= wide,
            wide == widest(shown@, i as int, views(ls@), u@, width as nat),
        decreases shown.len() - i,
    {
        let t = dim_text_of(&shown, i, &ls, &starts, &u, width);
        if t.len() > wide {
            wide = t.len();
        }
        texts.push(t);
        i = i + 1;
    }
    // The rows.
    let mut out: Vec<char> = Vec::new();
    let mut i: usize = 0;
    while i < shown.len()
        invariant
            i <= shown.len(),
            texts@.len() == shown@.len(),
            increasing(shown@),
            starts@.len() == ls@.len(),
            forall|j: int| 0 <= j < shown@.len() ==> 1 <= #[trigger] shown@[j] && shown@[j] <= ls@.len(),
            forall|k: int| 0 <= k < ls@.len() ==> #[trigger] starts@[k] == line_start(views(ls@), k)
                && line_start(views(ls@), k) + crate::text::utf8_len(ls@[k]@) + 1 <= usize::MAX,
            forall|j: int| 0 <= j < shown@.len() ==> #[trigger] texts@[j]@ == dim_text(shown@, j, views(ls@), u@, width as nat),
            forall|j: int| 0 <= j < shown@.len() ==> (#[trigger] texts@[j]).len() <= wide,
            wide == widest(shown@, shown@.len() as int, views(ls@), u@, width as nat),
            out@ == dim_rows(shown@, i as int, views(ls@), u@, dims_view(dims@), width as nat, (wide + 2) as nat),
        decreases shown.len() - i,
    {
        push_dim_row(&mut out, &shown, i, &ls, &starts, &u, dims, width, wide, texts[i].as_slice());
        i = i + 1;
    }
    assert(width as nat == view_width(shown@));
    string_of(out.as_slice())
}

// ─── lines of bytes and lines of text ───────────────────────────────────────

/// How many line breaks a text holds.
pub open spec fn breaks(s: Seq<char>) -> nat
    decreases s.len(),
{
    if s.len() == 0 {
        0
    } else {
        (if s[0] == '\n' { 1nat } else { 0nat }) + breaks(s.drop_first())
    }
}

proof fn lemma_newlines_concat(x: Seq<u8>, y: Seq<u8>)
    ensures
        newlines(x + y) == newlines(x) + newlines(y),
    decreases y.len(),
{
    if y.len() > 0 {
        lemma_newlines_concat(x, y.drop_last());
        assert((x + y).drop_last() =~= x + y.drop_last());
        assert((x + y).last() == y.last());
    } else {
        assert(x + y =~= x);
    }
}

proof fn lemma_not_a_break_byte(x: u8)
    ensures
        (0x80u8 | x) != 10u8,
        (0xC0u8 | x) != 10u8,
        (0xE0u8 | x) != 10u8,
        (0xF0u8 | x) != 10u8,
{
    assert((0x80u8 | x) != 10u8) by (bit_vector);
    assert((0xC0u8 | x) != 10u8) by (bit_vector);
    assert((0xE0u8 | x) != 10u8) by (bit_vector);
    assert((0xF0u8 | x) != 10u8) by (bit_vector);
}

/// A character's bytes hold a break exactly when it is the line break, and only
/// as its only byte.
proof fn lemma_char_breaks(c: char)
    ensures
        newlines(vstd::utf8::encode_scalar(c as u32)) == (if c == '\n' { 1nat } else { 0nat }),
        newlines(vstd::utf8::encode_scalar(c as u32).drop_last()) == 0,
        vstd::utf8::encode_scalar(c as u32).len() > 0,
{
    let v = c as u32;
    let e = vstd::utf8::encode_scalar(v);
    reveal_with_fuel(newlines, 5);
    if vstd::utf8::has_width_1_encoding(v) {
        assert(v <= 0x7f ==> (((v & 0x7F) as u8 == 10u8) == (v == 10u32))) by (bit_vector);
        assert((c == '\n') == (v == 10u32));
        assert(e.drop_last() =~= Seq::<u8>::empty());
    } else {
        lemma_not_a_break_byte(((v >> 6) & 0x1F) as u8);
        lemma_not_a_break_byte(((v >> 12) & 0x0F) as u8);
        lemma_not_a_break_byte(((v >> 18) & 0x7) as u8);
        lemma_not_a_break_byte((v & 0x3F) as u8);
        lemma_not_a_break_byte(((v >> 6) & 0x3F) as u8);
        lemma_not_a_break_byte(((v >> 12) & 0x3F) as u8);
        assert(c != '\n');
        if vstd::utf8::has_width_2_encoding(v) {
            assert(e.drop_last() =~= seq![e[0]]);
        } else if vstd::utf8::has_width_3_encoding(v) {
            assert(e.drop_last() =~= seq![e[0], e[1]]);
            assert(seq![e[0], e[1]].drop_last() =~= seq![e[0]]);
        } else {
            assert(e.drop_last() =~= seq![e[0], e[1], e[2]]);
            assert(seq![e[0], e[1], e[2]].drop_last() =~= seq![e[0], e[1]]);
            assert(seq![e[0], e[1]].drop_last() =~= seq![e[0]]);
        }
    }
}

/// The breaks of a text's bytes are its line breaks.
proof fn lemma_encoded_breaks(s: Seq<char>)
    ensures
        newlines(vstd::utf8::encode_utf8(s)) == breaks(s),
    decreases s.len(),
{
    if s.len() > 0 {
        lemma_encoded_breaks(s.drop_first());
        lemma_char_breaks(s[0]);
        lemma_newlines_concat(vstd::utf8::encode_scalar(s[0] as u32), vstd::utf8::encode_utf8(s.drop_first()));
    }
}

/// A text's bytes are those of all but its last character, then the last one's.
proof fn lemma_encode_last(s: Seq<char>)
    requires
        s.len() > 0,
    ensures
        vstd::utf8::encode_utf8(s) == vstd::utf8::encode_utf8(s.drop_last()) + vstd::utf8::encode_scalar(
            s.last() as u32,
        ),
    decreases s.len(),
{
    if s.len() == 1 {
        assert(s.drop_last() =~= Seq::<char>::empty());
        assert(s.drop_first() =~= Seq::<char>::empty());
        assert(vstd::utf8::encode_scalar(s[0] as u32) + Seq::<u8>::empty() =~= vstd::utf8::encode_scalar(s[0] as u32));
    } else {
        lemma_encode_last(s.drop_first());
        assert(s.drop_first().drop_last() =~= s.drop_last().drop_first());
        assert(s.drop_last()[0] == s[0]);
        assert(s.drop_first().last() == s.last());
    }
}

/// A text has at least one line more than the breaks before its last character.
proof fn lemma_lines_count(s: Seq<char>, cur: Seq<char>)
    requires
        s.len() > 0,
    ensures
        crate::text::lines_acc(s, cur).len() >= breaks(s.drop_last()) + 1,
    decreases s.len(),
{
    let rest = s.drop_first();
    if rest.len() == 0 {
        assert(s.drop_last() =~= Seq::<char>::empty());
        assert(breaks(s.drop_last()) == 0);
        if s[0] == '\n' {
            assert(crate::text::lines_acc(s, cur) == seq![crate::text::strip_cr(cur)] + crate::text::lines_acc(rest, seq![]));
        } else {
            assert(crate::text::lines_acc(s, cur) == crate::text::lines_acc(rest, cur.push(s[0])));
            assert(crate::text::lines_acc(rest, cur.push(s[0])) == seq![cur.push(s[0])]);
        }
    } else {
        assert(s.drop_last().drop_first() =~= rest.drop_last());
        assert(s.drop_last()[0] == s[0]);
        assert(breaks(s.drop_last()) == (if s[0] == '\n' { 1nat } else { 0nat }) + breaks(rest.drop_last()));
        if s[0] == '\n' {
            lemma_lines_count(rest, seq![]);
            assert(crate::text::lines_acc(s, cur) == seq![crate::text::strip_cr(cur)] + crate::text::lines_acc(rest, seq![]));
        } else {
            lemma_lines_count(rest, cur.push(s[0]));
        }
    }
}

/// The line of any byte of a text is one of its lines.
pub proof fn lemma_line_at_in_text(s: Seq<char>, byte: usize)
    requires
        byte < vstd::utf8::encode_utf8(s).len(),
    ensures
        1 <= line_at(vstd::utf8::encode_utf8(s), byte) <= lines(s).len(),
{
    let b = vstd::utf8::encode_utf8(s);
    assert(s.len() > 0);
    lemma_encode_last(s);
    let head = vstd::utf8::encode_utf8(s.drop_last());
    let e = vstd::utf8::encode_scalar(s.last() as u32);
    lemma_char_breaks(s.last());
    // The bytes up to `byte` are a prefix of all but the last byte.
    assert(b.drop_last() =~= head + e.drop_last());
    lemma_newlines_concat(head, e.drop_last());
    lemma_encoded_breaks(s.drop_last());
    let pre = b.take(byte as int);
    assert(b.drop_last() =~= pre + b.drop_last().skip(byte as int));
    lemma_newlines_concat(pre, b.drop_last().skip(byte as int));
    lemma_lines_count(s, seq![]);
}

/// **The marks of a view `of` builds read back.** For a view of `source` built from
/// parts that each hold at least one of its bytes, whose heading and note have no
/// line that starts like a mark, the marks read from what `render` prints
/// are the marked lines.
pub proof fn lemma_built_marks_read_back(
    p: Preview,
    source: Seq<char>,
    parts: Seq<ByteRange>,
    shown: Seq<usize>,
)
    requires
        forall|k: int| 0 <= k < parts.len() ==> #[trigger] parts[k].start < parts[k].end
            && parts[k].end <= vstd::utf8::encode_utf8(source).len(),
        p.marked@.to_set() == covered(vstd::utf8::encode_utf8(source), parts),
        match p.note {
            Some(n) => plain_text(n@),
            None => true,
        },
        plain_text(p.label@),
        increasing(shown),
        shown.to_set() == shown_set(p.marked@, lines(source).len()),
    ensures
        marks(render_text(p, lines(source), shown)) == p.marked@.to_set(),
{
    let b = vstd::utf8::encode_utf8(source);
    assert forall|k: int| 0 <= k < p.marked@.len() implies 1 <= #[trigger] p.marked@[k] <= lines(source).len() by {
        let l = p.marked@[k];
        assert(p.marked@.to_set().contains(l));
        let j = choose|j: int| 0 <= j < parts.len() && #[trigger] part_lines(b, parts[j]).contains(l);
        let q = parts[j];
        lemma_line_at_in_text(source, q.start);
        lemma_line_at_in_text(source, (q.end - 1) as usize);
    }
    lemma_marks_read_back(p, source, shown);
}

} // verus!
