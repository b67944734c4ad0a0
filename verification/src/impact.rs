//! `bilinker impact`: from a position in the code, up through its callers, to the
//! bilinks whose endpoints it reaches.
use vstd::prelude::*;

use crate::link::EndpointState;
use crate::text::same_text;
use vstd::string::StringSliceAdditionalSpecFns;

verus! {

/// A bilink endpoint that a position reaches.
pub struct ImpactResult {
    pub bilink_uuid: String,
    pub endpoint: u8,
    pub state: Option<EndpointState>,
    pub other_endpoint: String,
    pub commit: String,
    /// The call chain from the starting function up to (not including) the
    /// endpoint. Empty: the starting position is the endpoint.
    pub path: Vec<PathItem>,
}

/// A step of a call chain.
#[derive(Debug, Clone, PartialEq, Eq)]
pub struct PathItem {
    pub file: String,
    pub line: u32,
}

/// Where `impact` starts.
#[derive(Debug, Clone, PartialEq, Eq)]
pub enum Selector {
    /// Every bilink with an endpoint whose state is not OK, in this layer.
    All,
    /// A source position.
    FileLineCol { file: String, line: u32, col: u32 },
    /// A bilink's uuid, and maybe one of its endpoints.
    Uuid { uuid: String, endpoint: Option<u8> },
}

// ─── lines, in bytes ─────────────────────────────────────────────────────────

/// A line as `str::lines` yields it, in bytes: a `\r` right before the `\n` is not
/// content.
pub open spec fn strip_cr_bytes(l: Seq<u8>) -> Seq<u8> {
    if l.len() > 0 && l.last() == 13u8 {
        l.drop_last()
    } else {
        l
    }
}

/// The lines of `s` after the partial line `cur`, as `str::lines` reads them.
pub open spec fn byte_lines_acc(s: Seq<u8>, cur: Seq<u8>) -> Seq<Seq<u8>>
    decreases s.len(),
{
    if s.len() == 0 {
        if cur.len() == 0 {
            seq![]
        } else {
            seq![cur]
        }
    } else if s[0] == 10u8 {
        seq![strip_cr_bytes(cur)] + byte_lines_acc(s.drop_first(), seq![])
    } else {
        byte_lines_acc(s.drop_first(), cur.push(s[0]))
    }
}

/// The lines of a text's bytes, as `str::lines` yields them.
pub open spec fn byte_lines(s: Seq<u8>) -> Seq<Seq<u8>> {
    byte_lines_acc(s, seq![])
}

fn byte_lines_of(s: &[u8]) -> (r: Vec<Vec<u8>>)
    ensures
        r@.map_values(|l: Vec<u8>| l@) == byte_lines(s@),
{
    let mut out: Vec<Vec<u8>> = Vec::new();
    let mut cur: Vec<u8> = Vec::new();
    let mut i: usize = 0;
    assert(s@.skip(0) =~= s@);
    assert(out@.map_values(|l: Vec<u8>| l@) =~= seq![]);
    while i < s.len()
        invariant
            i <= s.len(),
            out@.map_values(|l: Vec<u8>| l@) + byte_lines_acc(s@.skip(i as int), cur@) == byte_lines(s@),
        decreases s.len() - i,
    {
        let ghost rest = s@.skip(i as int);
        let ghost before = out@.map_values(|l: Vec<u8>| l@);
        assert(rest[0] == s@[i as int]);
        assert(rest.drop_first() =~= s@.skip(i as int + 1));
        if s[i] == 10u8 {
            let ghost c0 = cur@;
            let mut l: Vec<u8> = Vec::new();
            let keep = if cur.len() > 0 && cur[cur.len() - 1] == 13u8 {
                cur.len() - 1
            } else {
                cur.len()
            };
            let mut k: usize = 0;
            while k < keep
                invariant
                    k <= keep,
                    keep <= cur.len(),
                    l@ == cur@.take(k as int),
                decreases keep - k,
            {
                l.push(cur[k]);
                k = k + 1;
                assert(l@ =~= cur@.take(k as int));
            }
            assert(l@ =~= strip_cr_bytes(cur@));
            out.push(l);
            cur = Vec::new();
            assert(out@.map_values(|l: Vec<u8>| l@) =~= before.push(strip_cr_bytes(c0)));
            assert(out@.map_values(|l: Vec<u8>| l@) + byte_lines_acc(s@.skip(i as int + 1), cur@) =~= byte_lines(
                s@,
            ));
        } else {
            cur.push(s[i]);
        }
        i = i + 1;
    }
    assert(s@.skip(i as int).len() == 0);
    let ghost before = out@.map_values(|l: Vec<u8>| l@);
    if cur.len() > 0 {
        out.push(cur);
        assert(out@.map_values(|l: Vec<u8>| l@) =~= before + byte_lines_acc(s@.skip(i as int), out@.last()@));
    } else {
        assert(byte_lines_acc(s@.skip(i as int), cur@) =~= seq![]);
    }
    assert(out@.map_values(|l: Vec<u8>| l@) =~= byte_lines(s@));
    out
}


// ─── positions ───────────────────────────────────────────────────────────────

/// Where the last line break of `b` is.
pub open spec fn last_newline(b: Seq<u8>) -> Option<int>
    decreases b.len(),
{
    if b.len() == 0 {
        None
    } else if b.last() == 10u8 {
        Some(b.len() - 1)
    } else {
        last_newline(b.drop_last())
    }
}

/// An offset where a `str` can be cut: the end, or a byte that does not continue a
/// character.
pub open spec fn cuttable(b: Seq<u8>, i: int) -> bool {
    i >= b.len() || (b[i] & 0xC0u8) != 0x80u8
}

/// A byte offset as a 0-based line and column: the line breaks before it, and the
/// bytes since the last one (or since the start). Both are narrowed to `u32`.
pub fn byte_to_line_col(source: &str, byte: usize) -> (r: (u32, u32))
    requires
        cuttable(source.spec_bytes(), byte as int),
    ensures
        ({
            let b = source.spec_bytes();
            let p = b.take(if byte <= b.len() { byte as int } else { b.len() as int });
            &&& r.0 == crate::get::newlines(p) as u32
            &&& r.1 == match last_newline(p) {
                Some(i) => (byte - i - 1) as u32,
                None => byte as u32,
            }
        }),
{
    let b = source.as_bytes();
    let end = if byte <= b.len() {
        byte
    } else {
        b.len()
    };
    let mut lines: usize = 0;
    let mut last: Option<usize> = None;
    let mut i: usize = 0;
    while i < end
        invariant
            i <= end,
            end <= b@.len(),
            b@ == source.spec_bytes(),
            lines <= i,
            lines == crate::get::newlines(b@.take(i as int)),
            match last {
                Some(k) => last_newline(b@.take(i as int)) == Some(k as int) && k < i,
                None => last_newline(b@.take(i as int)) is None,
            },
        decreases end - i,
    {
        assert(b@.take(i as int + 1).drop_last() =~= b@.take(i as int));
        if b[i] == 10u8 {
            lines = lines + 1;
            last = Some(i);
        }
        i = i + 1;
    }
    let col = match last {
        Some(k) => byte - k - 1,
        None => byte,
    };
    (lines as u32, col as u32)
}

/// The sum of the lengths of the first `k` lines, one more for each line break.
pub open spec fn start_of_line(ls: Seq<Seq<u8>>, k: nat) -> nat
    decreases k,
{
    if k == 0 || ls.len() == 0 {
        0
    } else {
        ls[0].len() + 1 + start_of_line(ls.drop_first(), (k - 1) as nat)
    }
}

/// Every line and its break, added up.
pub open spec fn total_of_lines(ls: Seq<Seq<u8>>) -> nat
    decreases ls.len(),
{
    if ls.len() == 0 {
        0
    } else {
        ls[0].len() + 1 + total_of_lines(ls.drop_first())
    }
}

proof fn lemma_start_within_total(ls: Seq<Seq<u8>>, k: nat)
    ensures
        start_of_line(ls, k) <= total_of_lines(ls),
    decreases k,
{
    if k > 0 && ls.len() > 0 {
        lemma_start_within_total(ls.drop_first(), (k - 1) as nat);
    }
}

proof fn lemma_lines_total(s: Seq<u8>, cur: Seq<u8>)
    ensures
        total_of_lines(byte_lines_acc(s, cur)) <= s.len() + cur.len() + 1,
    decreases s.len(),
{
    if s.len() == 0 {
        if cur.len() > 0 {
            let ls = byte_lines_acc(s, cur);
            assert(ls.drop_first() =~= Seq::<Seq<u8>>::empty());
            assert(total_of_lines(ls.drop_first()) == 0);
            assert(ls[0] == cur);
        } else {
            assert(byte_lines_acc(s, cur).len() == 0);
        }
    } else if s[0] == 10u8 {
        lemma_lines_total(s.drop_first(), seq![]);
        let ls = byte_lines_acc(s, cur);
        assert(ls.drop_first() =~= byte_lines_acc(s.drop_first(), seq![]));
        assert(ls[0] == strip_cr_bytes(cur));
        assert(strip_cr_bytes(cur).len() <= cur.len());
    } else {
        lemma_lines_total(s.drop_first(), cur.push(s[0]));
    }
}

proof fn lemma_start_step(ls: Seq<Seq<u8>>, k: nat)
    requires
        k < ls.len(),
    ensures
        start_of_line(ls, k + 1) == start_of_line(ls, k) + ls[k as int].len() + 1,
    decreases k,
{
    if k > 0 {
        lemma_start_step(ls.drop_first(), (k - 1) as nat);
        assert(ls.drop_first()[k - 1] == ls[k as int]);
    } else {
        assert(start_of_line(ls.drop_first(), 0) == 0);
    }
}

/// The byte offset where the 0-based line `line` starts: the lines before it, each
/// counted with one byte for its break.
pub fn line_to_byte_start(source: &str, line: u32) -> (r: usize)
    requires
        source.spec_bytes().len() < usize::MAX,
    ensures
        r == start_of_line(byte_lines(source.spec_bytes()), line as nat),
{
    let b = source.as_bytes();
    let ls = byte_lines_of(b);
    let ghost lv = ls@.map_values(|l: Vec<u8>| l@);
    proof {
        lemma_lines_total(b@, seq![]);
        lemma_start_within_total(lv, line as nat);
        assert(lv.len() <= total_of_lines(lv)) by {
            lemma_start_within_total(lv, lv.len());
            lemma_start_counts(lv, lv.len());
        }
    }
    let end: usize = if (line as usize) < ls.len() {
        line as usize
    } else {
        ls.len()
    };
    let mut sum: usize = 0;
    let mut k: usize = 0;
    while k < end
        invariant
            k <= end,
            end <= ls.len(),
            end <= line,
            lv == ls@.map_values(|l: Vec<u8>| l@),
            lv == byte_lines(source.spec_bytes()),
            total_of_lines(lv) <= source.spec_bytes().len() + 1,
            source.spec_bytes().len() < usize::MAX,
            sum == start_of_line(lv, k as nat),
        decreases end - k,
    {
        proof {
            lemma_start_step(lv, k as nat);
            lemma_start_within_total(lv, k as nat + 1);
        }
        assert(lv[k as int] == ls@[k as int]@);
        sum = sum + ls[k].len() + 1;
        k = k + 1;
    }
    proof {
        lemma_start_saturates(lv, end as nat, line as nat);
    }
    sum
}

proof fn lemma_start_counts(ls: Seq<Seq<u8>>, k: nat)
    requires
        k <= ls.len(),
    ensures
        k <= start_of_line(ls, k),
    decreases k,
{
    if k > 0 {
        lemma_start_counts(ls.drop_first(), (k - 1) as nat);
    }
}

proof fn lemma_start_saturates(ls: Seq<Seq<u8>>, end: nat, k: nat)
    requires
        end <= k,
        end == k || end == ls.len(),
    ensures
        start_of_line(ls, k) == start_of_line(ls, end),
    decreases end,
{
    if end > 0 && ls.len() > 0 {
        lemma_start_saturates(ls.drop_first(), (end - 1) as nat, (k - 1) as nat);
    } else if end == 0 && k > 0 && ls.len() > 0 {
        assert(end == ls.len());
    }
}


// ─── the column of a function's name ────────────────────────────────────────

/// A byte of an identifier: an ASCII letter or digit, or `_`.
pub open spec fn ident_byte(b: u8) -> bool {
    (48u8 <= b && b <= 57u8) || (65u8 <= b && b <= 90u8) || (97u8 <= b && b <= 122u8) || b == 95u8
}

/// Where the identifier starting at `pos` ends.
pub open spec fn ident_end(b: Seq<u8>, pos: int) -> int
    decreases b.len() - pos,
{
    if pos < 0 || pos >= b.len() || !ident_byte(b[pos]) {
        pos
    } else {
        ident_end(b, pos + 1)
    }
}

/// The words that come before a declaration's name.
pub open spec fn keywords() -> Seq<Seq<char>> {
    seq![
        "pub"@, "fn"@, "async"@, "unsafe"@, "extern"@, "def"@, "void"@, "public"@, "private"@,
        "protected"@, "static"@, "final"@, "abstract"@, "function"@, "class"@, "struct"@, "trait"@,
        "interface"@, "enum"@, "override"@, "virtual"@, "native"@, "synchronized"@,
    ]
}

/// The bytes spell the (ASCII) word.
pub open spec fn spells(w: Seq<u8>, s: Seq<char>) -> bool {
    w.len() == s.len() && forall|i: int| 0 <= i < w.len() ==> #[trigger] w[i] as u32 == s[i] as u32
}

/// The word is one of the keywords.
pub open spec fn is_keyword(w: Seq<u8>) -> bool {
    exists|k: int| 0 <= k < keywords().len() && spells(w, #[trigger] keywords()[k])
}

/// An identifier runs at least one byte, and up to the first byte that is not one.
pub proof fn lemma_ident_end(b: Seq<u8>, pos: int)
    requires
        0 <= pos < b.len(),
        ident_byte(b[pos]),
    ensures
        pos < ident_end(b, pos) <= b.len(),
        forall|i: int| pos <= i < ident_end(b, pos) ==> ident_byte(#[trigger] b[i]),
        ident_end(b, pos) < b.len() ==> !ident_byte(b[ident_end(b, pos)]),
    decreases b.len() - pos,
{
    if pos + 1 < b.len() && ident_byte(b[pos + 1]) {
        lemma_ident_end(b, pos + 1);
    } else {
        assert(ident_end(b, pos + 1) == pos + 1);
    }
    assert(ident_end(b, pos) == ident_end(b, pos + 1));
}

/// The column of the first identifier at or after `pos` that is not a keyword; 0
/// when there is none.
pub open spec fn name_column(b: Seq<u8>, pos: int) -> u32
    decreases b.len() - pos,
{
    if pos < 0 || pos >= b.len() {
        0
    } else if !ident_byte(b[pos]) {
        name_column(b, pos + 1)
    } else {
        let e = ident_end(b, pos);
        if !is_keyword(b.subrange(pos, e)) {
            pos as u32
        } else {
            proof {
                lemma_ident_end(b, pos);
            }
            name_column(b, e)
        }
    }
}

fn keyword_of(w: &[u8]) -> (r: bool)
    ensures
        r == is_keyword(w@),
{
    let ks: Vec<&str> = vec![
        "pub", "fn", "async", "unsafe", "extern", "def", "void", "public", "private",
        "protected", "static", "final", "abstract", "function", "class", "struct", "trait",
        "interface", "enum", "override", "virtual", "native", "synchronized",
    ];
    assert(ks@.map_values(|s: &str| s@) =~= keywords());
    let mut k: usize = 0;
    while k < ks.len()
        invariant
            k <= ks.len(),
            ks@.map_values(|s: &str| s@) == keywords(),
            forall|j: int| 0 <= j < k ==> !spells(w@, #[trigger] keywords()[j]),
        decreases ks.len() - k,
    {
        let c = crate::text::chars_of(ks[k]);
        assert(c@ == keywords()[k as int]);
        if c.len() == w.len() {
            let mut i: usize = 0;
            let mut same = true;
            while i < w.len()
                invariant
                    i <= w.len(),
                    c@.len() == w@.len(),
                    same == forall|j: int| 0 <= j < i ==> #[trigger] w@[j] as u32 == c@[j] as u32,
                decreases w.len() - i,
            {
                if (w[i] as u32) != (c[i] as u32) {
                    same = false;
                }
                i = i + 1;
            }
            if same {
                return true;
            }
        }
        k = k + 1;
    }
    false
}

/// The 0-based column of the first identifier of the 0-based line that is not a
/// keyword: `pub fn foo`, `def foo`, `public void foo` give where `foo` starts. 0
/// when there is no such line or identifier.
pub fn fn_col_from_source(source: &str, line_0based: usize) -> (r: u32)
    ensures
        r == if line_0based < byte_lines(source.spec_bytes()).len() {
            name_column(byte_lines(source.spec_bytes())[line_0based as int], 0)
        } else {
            0
        },
{
    let ls = byte_lines_of(source.as_bytes());
    if line_0based >= ls.len() {
        return 0;
    }
    let line = &ls[line_0based];
    let ghost b = line@;
    assert(b == byte_lines(source.spec_bytes())[line_0based as int]);
    let mut pos: usize = 0;
    while pos < line.len()
        invariant
            pos <= line.len(),
            b == line@,
            line_0based < byte_lines(source.spec_bytes()).len(),
            b == byte_lines(source.spec_bytes())[line_0based as int],
            name_column(b, 0) == name_column(b, pos as int),
        decreases line.len() - pos,
    {
        if !((48u8 <= line[pos] && line[pos] <= 57u8) || (65u8 <= line[pos] && line[pos] <= 90u8) || (97u8
            <= line[pos] && line[pos] <= 122u8) || line[pos] == 95u8) {
            pos = pos + 1;
        } else {
            let start = pos;
            proof {
                lemma_ident_end(b, start as int);
            }
            while pos < line.len() && ((48u8 <= line[pos] && line[pos] <= 57u8) || (65u8 <= line[pos] && line[pos]
                <= 90u8) || (97u8 <= line[pos] && line[pos] <= 122u8) || line[pos] == 95u8)
                invariant
                    start < line.len(),
                    start <= pos <= line.len(),
                    b == line@,
                    forall|i: int| start <= i < pos ==> ident_byte(#[trigger] b[i]),
                    pos <= ident_end(b, start as int),
                    name_column(b, 0) == name_column(b, start as int),
                    ident_byte(b[start as int]),
                    ident_end(b, start as int) <= b.len(),
                    forall|i: int| start <= i < ident_end(b, start as int) ==> ident_byte(#[trigger] b[i]),
                    ident_end(b, start as int) < b.len() ==> !ident_byte(b[ident_end(b, start as int)]),
                decreases line.len() - pos,
            {
                pos = pos + 1;
            }
            assert(pos == ident_end(b, start as int));
            let mut word: Vec<u8> = Vec::new();
            let mut i = start;
            while i < pos
                invariant
                    start <= i <= pos,
                    pos <= line.len(),
                    b == line@,
                    pos == ident_end(b, start as int),
                    start < line.len(),
                    ident_byte(b[start as int]),
                    name_column(b, 0) == name_column(b, start as int),
                    word@ == b.subrange(start as int, i as int),
                decreases pos - i,
            {
                word.push(line[i]);
                i = i + 1;
                assert(word@ =~= b.subrange(start as int, i as int));
            }
            if !keyword_of(word.as_slice()) {
                assert(name_column(b, start as int) == start as u32);
                return start as u32;
            }
            assert(name_column(b, start as int) == name_column(b, pos as int));
        }
    }
    0
}


// ─── the walk up through the callers ────────────────────────────────────────

/// A position to look at: where, the call chain that led to it, and how many more
/// levels of callers may still be asked for.
#[derive(Debug, Clone, PartialEq, Eq)]
pub struct Visit {
    pub file: String,
    pub line: u32,
    pub col: u32,
    pub path: Vec<PathItem>,
    pub depth: usize,
}

/// What a walk has gathered: the positions already looked at, the endpoints
/// already reported, and each report with the chain that reached it.
#[derive(Debug, Clone, PartialEq, Eq)]
pub struct Walk {
    pub visited: Vec<(String, u32)>,
    pub seen: Vec<(String, u8)>,
    pub found: Vec<(String, u8, Vec<PathItem>)>,
}

impl Walk {
    /// A walk that has looked at nothing.
    pub fn new() -> (r: Walk)
        ensures
            r.visited@.len() == 0 && r.seen@.len() == 0 && r.found@.len() == 0,
    {
        Walk { visited: Vec::new(), seen: Vec::new(), found: Vec::new() }
    }

    /// The first position of a walk up from a start: **each start is walked on its
    /// own**, so what was looked at is forgotten, **but an endpoint is reported once
    /// over all of them**, so what was reported stays. The position is reached by
    /// no chain and has `max_depth` levels to go, or no bound.
    pub fn start(&mut self, file: String, line: u32, col: u32, max_depth: Option<usize>) -> (v: Visit)
        ensures
            final(self).visited@.len() == 0,
            final(self).seen == old(self).seen,
            final(self).found == old(self).found,
            v.file@ == file@ && v.line == line && v.col == col && v.path@.len() == 0,
            v.depth == match max_depth {
                Some(d) => d,
                None => usize::MAX,
            },
    {
        self.visited = Vec::new();
        let depth = match max_depth {
            Some(d) => d,
            None => usize::MAX,
        };
        Visit { file, line, col, path: Vec::new(), depth }
    }
}

/// The endpoints of the reports, as plain values.
pub open spec fn found_keys(w: Walk) -> Seq<(Seq<char>, u8)> {
    found_view(w).map_values(|e: (Seq<char>, u8, Seq<(Seq<char>, u32)>)| (e.0, e.1))
}

/// **What a walk keeps**: no endpoint is reported twice, the reports are the
/// reported endpoints in order, and no chain is longer than `bound`.
pub open spec fn walk_ok(w: Walk, bound: nat) -> bool {
    &&& hits_view(w.seen@).no_duplicates()
    &&& found_keys(w) == hits_view(w.seen@)
    &&& forall|k: int| 0 <= k < found_view(w).len() ==> (#[trigger] found_view(w)[k]).2.len() <= bound
}

/// Reporting the endpoints of one more position keeps what a walk keeps, as long
/// as the chain that reached it is within the bound.
pub proof fn lemma_reports_keep_the_walk(
    seen: Seq<(Seq<char>, u8)>,
    found: Seq<(Seq<char>, u8, Seq<(Seq<char>, u32)>)>,
    hits: Seq<(Seq<char>, u8)>,
    chain: Seq<(Seq<char>, u32)>,
    bound: nat,
)
    requires
        seen.no_duplicates(),
        found.map_values(|e: (Seq<char>, u8, Seq<(Seq<char>, u32)>)| (e.0, e.1)) == seen,
        forall|k: int| 0 <= k < found.len() ==> (#[trigger] found[k]).2.len() <= bound,
        chain.len() <= bound,
    ensures
        with_hits(seen, hits).no_duplicates(),
        (found + new_reports(seen, hits, chain)).map_values(|e: (Seq<char>, u8, Seq<(Seq<char>, u32)>)| (e.0, e.1))
            == with_hits(seen, hits),
        forall|k: int| 0 <= k < (found + new_reports(seen, hits, chain)).len() ==> (#[trigger] (found
            + new_reports(seen, hits, chain))[k]).2.len() <= bound,
{
    lemma_reports_do_not_repeat(seen, hits);
    lemma_with_hits_extends(seen, hits);
    let w = with_hits(seen, hits);
    let all = found + new_reports(seen, hits, chain);
    let keys = all.map_values(|e: (Seq<char>, u8, Seq<(Seq<char>, u32)>)| (e.0, e.1));
    assert(found.len() == seen.len()) by {
        assert(found.map_values(|e: (Seq<char>, u8, Seq<(Seq<char>, u32)>)| (e.0, e.1)).len() == found.len());
    }
    assert forall|k: int| 0 <= k < keys.len() implies keys[k] == w[k] by {
        if k < found.len() {
            assert(all[k] == found[k]);
            assert(found.map_values(|e: (Seq<char>, u8, Seq<(Seq<char>, u32)>)| (e.0, e.1))[k] == seen[k]);
            assert(w.take(seen.len() as int)[k] == w[k]);
        } else {
            assert(all[k] == new_reports(seen, hits, chain)[k - found.len()]);
        }
    }
    assert(keys =~= w);
    assert forall|k: int| 0 <= k < all.len() implies (#[trigger] all[k]).2.len() <= bound by {
        if k >= found.len() {
            assert(all[k] == new_reports(seen, hits, chain)[k - found.len()]);
        }
    }
}

/// A step of a chain, as plain values.
pub open spec fn item_view(p: PathItem) -> (Seq<char>, u32) {
    (p.file@, p.line)
}

/// A chain, as plain values.
pub open spec fn chain_view(c: Seq<PathItem>) -> Seq<(Seq<char>, u32)> {
    c.map_values(|p: PathItem| item_view(p))
}

/// The positions looked at, as plain values.
pub open spec fn visited_view(w: Walk) -> Seq<(Seq<char>, u32)> {
    w.visited@.map_values(|e: (String, u32)| (e.0@, e.1))
}

/// The endpoints reported, as plain values.
pub open spec fn hits_view(h: Seq<(String, u8)>) -> Seq<(Seq<char>, u8)> {
    h.map_values(|e: (String, u8)| (e.0@, e.1))
}

/// The reports, as plain values.
pub open spec fn found_view(w: Walk) -> Seq<(Seq<char>, u8, Seq<(Seq<char>, u32)>)> {
    w.found@.map_values(|e: (String, u8, Vec<PathItem>)| (e.0@, e.1, chain_view(e.2@)))
}

/// `seen` after the endpoints found at a position: each one not yet there is added,
/// in the order found, once.
pub open spec fn with_hits(seen: Seq<(Seq<char>, u8)>, hits: Seq<(Seq<char>, u8)>) -> Seq<(Seq<char>, u8)>
    decreases hits.len(),
{
    if hits.len() == 0 {
        seen
    } else {
        let s = with_hits(seen, hits.drop_last());
        if s.contains(hits.last()) {
            s
        } else {
            s.push(hits.last())
        }
    }
}

/// The reports that a position adds: its new endpoints, each with the chain that
/// reached it.
pub open spec fn new_reports(
    seen: Seq<(Seq<char>, u8)>,
    hits: Seq<(Seq<char>, u8)>,
    chain: Seq<(Seq<char>, u32)>,
) -> Seq<(Seq<char>, u8, Seq<(Seq<char>, u32)>)> {
    with_hits(seen, hits).skip(seen.len() as int).map_values(
        |e: (Seq<char>, u8)| (e.0, e.1, chain),
    )
}

/// Whether the walk goes on to the callers of a position: **a bilink stops the
/// branch, except at the start**, where there may be more above; and not past the
/// depth bound.
pub open spec fn goes_up(has_hits: bool, at_start: bool, depth: nat) -> bool {
    (!has_hits || at_start) && depth > 0
}

/// `with_hits` only adds after what was there.
pub proof fn lemma_with_hits_extends(seen: Seq<(Seq<char>, u8)>, hits: Seq<(Seq<char>, u8)>)
    ensures
        with_hits(seen, hits).len() >= seen.len(),
        with_hits(seen, hits).take(seen.len() as int) == seen,
    decreases hits.len(),
{
    if hits.len() > 0 {
        lemma_with_hits_extends(seen, hits.drop_last());
        let s = with_hits(seen, hits.drop_last());
        if !s.contains(hits.last()) {
            assert(s.push(hits.last()).take(seen.len() as int) =~= s.take(seen.len() as int));
        }
    }
}

fn copy_chain(c: &Vec<PathItem>) -> (r: Vec<PathItem>)
    ensures
        chain_view(r@) == chain_view(c@),
{
    let mut out: Vec<PathItem> = Vec::new();
    let mut i: usize = 0;
    while i < c.len()
        invariant
            i <= c@.len(),
            out@.len() == i,
            forall|j: int| 0 <= j < i ==> #[trigger] item_view(out@[j]) == item_view(c@[j]),
        decreases c.len() - i,
    {
        out.push(PathItem { file: c[i].file.clone(), line: c[i].line });
        i = i + 1;
    }
    assert(chain_view(out@) =~= chain_view(c@));
    out
}

fn goes_up_of(has_hits: bool, at_start: bool, depth: usize) -> (r: bool)
    ensures
        r == goes_up(has_hits, at_start, depth as nat),
{
    (!has_hits || at_start) && depth > 0
}

/// Looks at one position. A position already looked at changes nothing and goes
/// nowhere. Otherwise it is marked, each endpoint found there (`hits`: the bilink's
/// uuid and the endpoint) that was not reported yet is reported once with the chain
/// that reached it, and the result says whether to ask for its callers.
pub fn visit(walk: &mut Walk, v: &Visit, hits: &Vec<(String, u8)>) -> (up: bool)
    ensures
        visited_view(*old(walk)).contains((v.file@, v.line)) ==> *final(walk) == *old(walk) && !up,
        !visited_view(*old(walk)).contains((v.file@, v.line)) ==> {
            &&& visited_view(*final(walk)) == visited_view(*old(walk)).push((v.file@, v.line))
            &&& hits_view(final(walk).seen@) == with_hits(hits_view(old(walk).seen@), hits_view(hits@))
            &&& found_view(*final(walk)) == found_view(*old(walk)) + new_reports(
                hits_view(old(walk).seen@),
                hits_view(hits@),
                chain_view(v.path@),
            )
            &&& up == goes_up(hits@.len() > 0, v.path@.len() == 0, v.depth as nat)
        },
        forall|bound: nat| #[trigger] walk_ok(*old(walk), bound) && chain_view(v.path@).len() <= bound ==> walk_ok(
            *final(walk),
            bound,
        ),
{
    let ghost key = (v.file@, v.line);
    let mut k: usize = 0;
    while k < walk.visited.len()
        invariant
            k <= walk.visited@.len(),
            key == (v.file@, v.line),
            forall|j: int| 0 <= j < k ==> visited_view(*walk)[j] != key,
        decreases walk.visited.len() - k,
    {
        assert(visited_view(*walk)[k as int] == (walk.visited@[k as int].0@, walk.visited@[k as int].1));
        if walk.visited[k].1 == v.line && same_text(walk.visited[k].0.as_str(), v.file.as_str()) {
            assert(visited_view(*walk)[k as int] == key);
            return false;
        }
        k = k + 1;
    }
    assert(!visited_view(*walk).contains(key));
    let ghost seen0 = hits_view(walk.seen@);
    let ghost found0 = found_view(*walk);
    let ghost chain = chain_view(v.path@);
    let ghost hs = hits_view(hits@);
    let ghost visited0 = visited_view(*walk);
    walk.visited.push((v.file.clone(), v.line));
    assert(visited_view(*walk) =~= visited0.push(key));
    proof {
        lemma_with_hits_extends(seen0, hs.take(0));
        assert(hs.take(0) =~= Seq::<(Seq<char>, u8)>::empty());
        assert(new_reports(seen0, hs.take(0), chain) =~= Seq::empty());
        assert(found0 + new_reports(seen0, hs.take(0), chain) =~= found0);
    }
    let mut i: usize = 0;
    while i < hits.len()
        invariant
            i <= hits@.len(),
            hs == hits_view(hits@),
            visited_view(*walk) == visited0.push(key),
            hits_view(walk.seen@) == with_hits(seen0, hs.take(i as int)),
            found_view(*walk) == found0 + new_reports(seen0, hs.take(i as int), chain),
            chain == chain_view(v.path@),
        decreases hits.len() - i,
    {
        let ghost before = hits_view(walk.seen@);
        let ghost fbefore = found_view(*walk);
        assert(hs.take(i as int + 1).drop_last() =~= hs.take(i as int));
        assert(hs.take(i as int + 1).last() == hs[i as int]);
        assert(hs[i as int] == (hits@[i as int].0@, hits@[i as int].1));
        let mut p: usize = 0;
        let mut present = false;
        while p < walk.seen.len()
            invariant
                p <= walk.seen@.len(),
                before == hits_view(walk.seen@),
                !present ==> forall|q: int| 0 <= q < p ==> before[q] != hs[i as int],
                present ==> before.contains(hs[i as int]),
                i < hits@.len(),
                hs == hits_view(hits@),
            decreases walk.seen.len() - p,
        {
            assert(before[p as int] == (walk.seen@[p as int].0@, walk.seen@[p as int].1));
            if walk.seen[p].1 == hits[i].1 && same_text(walk.seen[p].0.as_str(), hits[i].0.as_str()) {
                present = true;
                assert(before[p as int] == hs[i as int]);
            }
            p = p + 1;
        }
        proof {
            lemma_with_hits_extends(seen0, hs.take(i as int));
            lemma_with_hits_extends(seen0, hs.take(i as int + 1));
        }
        if present {
            assert(with_hits(seen0, hs.take(i as int + 1)) == before);
            assert(new_reports(seen0, hs.take(i as int + 1), chain) == new_reports(seen0, hs.take(i as int), chain));
        } else {
            assert(!before.contains(hs[i as int]));
            let e = (hits[i].0.clone(), hits[i].1);
            let r = (hits[i].0.clone(), hits[i].1, copy_chain(&v.path));
            walk.seen.push(e);
            walk.found.push(r);
            proof {
                let after = before.push(hs[i as int]);
                assert(with_hits(seen0, hs.take(i as int + 1)) == after);
                assert(hits_view(walk.seen@) =~= after);
                assert(after.skip(seen0.len() as int) =~= before.skip(seen0.len() as int).push(hs[i as int]));
                assert(new_reports(seen0, hs.take(i as int + 1), chain) =~= new_reports(
                    seen0,
                    hs.take(i as int),
                    chain,
                ).push((hs[i as int].0, hs[i as int].1, chain)));
                assert(found_view(*walk) =~= fbefore.push((hs[i as int].0, hs[i as int].1, chain)));
            }
        }
        i = i + 1;
    }
    assert(hs.take(i as int) =~= hs);
    assert forall|bound: nat| #[trigger] walk_ok(*old(walk), bound) && chain_view(v.path@).len() <= bound implies walk_ok(
        *walk,
        bound,
    ) by {
        lemma_reports_keep_the_walk(seen0, found0, hs, chain, bound);
        assert(found_view(*walk) == found0 + new_reports(seen0, hs, chain));
    }
    goes_up_of(hits.len() > 0, v.path.len() == 0, v.depth)
}


/// Whether `file` lies under `root`, whole component by whole component, as
/// `Path::starts_with` compares them.
pub open spec fn under(file: Seq<char>, root: Seq<char>) -> bool {
    let f = crate::grammar::components(file);
    let r = crate::grammar::components(root);
    &&& (file.len() > 0 && file[0] == '/') == (root.len() > 0 && root[0] == '/')
    &&& r.len() <= f.len()
    &&& f.take(r.len() as int) == r
}

/// A caller, as plain values: its file, line and column.
pub open spec fn caller_view(c: (String, u32, u32)) -> (Seq<char>, u32, u32) {
    (c.0@, c.1, c.2)
}

/// A position to look at, as plain values.
pub open spec fn visit_view(v: Visit) -> (Seq<char>, u32, u32, Seq<(Seq<char>, u32)>, nat) {
    (v.file@, v.line, v.col, chain_view(v.path@), v.depth as nat)
}

/// The callers of `v` to look at next: none where `v` has no level left; else
/// those under the root, in the order given, each reached through `v` and with
/// one level less to go.
pub open spec fn next_visits(
    root: Seq<char>,
    v: Visit,
    callers: Seq<(Seq<char>, u32, u32)>,
) -> Seq<(Seq<char>, u32, u32, Seq<(Seq<char>, u32)>, nat)> {
    if v.depth == 0 {
        seq![]
    } else {
        callers.filter(|c: (Seq<char>, u32, u32)| under(c.0, root)).map_values(
            |c: (Seq<char>, u32, u32)|
                (c.0, c.1, c.2, chain_view(v.path@).push((v.file@, v.line)), (v.depth - 1) as nat),
        )
    }
}

fn under_of(file: &str, root: &str) -> (b: bool)
    ensures
        b == under(file@, root@),
{
    let fv = crate::text::chars_of(file);
    let rv = crate::text::chars_of(root);
    let fa = fv.len() > 0 && fv[0] == '/';
    let ra = rv.len() > 0 && rv[0] == '/';
    if fa != ra {
        return false;
    }
    let f = crate::grammar::components_of(fv.as_slice());
    let r = crate::grammar::components_of(rv.as_slice());
    let ghost fs = crate::grammar::components(file@);
    let ghost rs = crate::grammar::components(root@);
    if r.len() > f.len() {
        return false;
    }
    let mut i: usize = 0;
    while i < r.len()
        invariant
            i <= r@.len(),
            r@.len() <= f@.len(),
            crate::text::views(f@) == fs,
            crate::text::views(r@) == rs,
            fs == crate::grammar::components(file@),
            rs == crate::grammar::components(root@),
            (file@.len() > 0 && file@[0] == '/') == (root@.len() > 0 && root@[0] == '/'),
            fs.take(i as int) == rs.take(i as int),
        decreases r.len() - i,
    {
        assert(crate::text::views(f@)[i as int] == f@[i as int]@);
        assert(crate::text::views(r@)[i as int] == r@[i as int]@);
        if !crate::text::same(f[i].as_slice(), r[i].as_slice()) {
            assert(fs[i as int] == f@[i as int]@ && rs[i as int] == r@[i as int]@);
            assert(fs.take(rs.len() as int)[i as int] == fs[i as int]);
            assert(fs.take(rs.len() as int)[i as int] != rs[i as int]);
            assert(fs.take(rs.len() as int) != rs);
            return false;
        }
        i = i + 1;
        assert(fs.take(i as int) =~= rs.take(i as int));
    }
    assert(rs.take(i as int) =~= rs);
    true
}

/// The positions to look at after `v`: each caller under `root`, reached through
/// `v`, with one level less to go; none where `v` has no level left.
pub fn caller_visits(root: &str, v: &Visit, callers: &Vec<(String, u32, u32)>) -> (r: Vec<Visit>)
    ensures
        r@.map_values(|w: Visit| visit_view(w)) == next_visits(
            root@,
            *v,
            callers@.map_values(|c: (String, u32, u32)| caller_view(c)),
        ),
{
    if v.depth == 0 {
        let none: Vec<Visit> = Vec::new();
        assert(none@.map_values(|w: Visit| visit_view(w)) =~= Seq::empty());
        return none;
    }
    let ghost cs = callers@.map_values(|c: (String, u32, u32)| caller_view(c));
    let ghost keep = |c: (Seq<char>, u32, u32)| under(c.0, root@);
    let ghost chain = chain_view(v.path@).push((v.file@, v.line));
    let ghost step = |c: (Seq<char>, u32, u32)|
        (c.0, c.1, c.2, chain_view(v.path@).push((v.file@, v.line)), (v.depth - 1) as nat);
    let mut out: Vec<Visit> = Vec::new();
    let mut i: usize = 0;
    assert(cs.take(0).filter(keep) =~= Seq::<(Seq<char>, u32, u32)>::empty());
    while i < callers.len()
        invariant
            i <= callers@.len(),
            v.depth > 0,
            cs == callers@.map_values(|c: (String, u32, u32)| caller_view(c)),
            forall|c: (Seq<char>, u32, u32)| #[trigger] keep(c) == under(c.0, root@),
            forall|c: (Seq<char>, u32, u32)| #[trigger] step(c)
                == (c.0, c.1, c.2, chain_view(v.path@).push((v.file@, v.line)), (v.depth - 1) as nat),
            out@.map_values(|w: Visit| visit_view(w)) == cs.take(i as int).filter(keep).map_values(step),
        decreases callers.len() - i,
    {
        let ghost before = out@.map_values(|w: Visit| visit_view(w));
        assert(cs[i as int] == caller_view(callers@[i as int]));
        proof {
            assert(cs.take(i as int + 1) =~= cs.take(i as int).push(cs[i as int]));
            cs.take(i as int).lemma_filter_push(cs[i as int], keep);
        }
        let hit = under_of(callers[i].0.as_str(), root);
        assert(keep(cs[i as int]) == hit);
        if hit {
            let mut path = copy_chain(&v.path);
            path.push(PathItem { file: v.file.clone(), line: v.line });
            assert(chain_view(path@) =~= chain_view(v.path@).push((v.file@, v.line)));
            out.push(Visit { file: callers[i].0.clone(), line: callers[i].1, col: callers[i].2, path, depth: v.depth - 1 });
            assert(out@.map_values(|w: Visit| visit_view(w)) =~= before.push(step(cs[i as int])));
            assert(cs.take(i as int + 1).filter(keep) == cs.take(i as int).filter(keep).push(cs[i as int]));
            assert(cs.take(i as int + 1).filter(keep).map_values(step) =~= cs.take(i as int).filter(keep).map_values(
                step,
            ).push(step(cs[i as int])));
        } else {
            assert(cs.take(i as int + 1).filter(keep) == cs.take(i as int).filter(keep));
        }
        i = i + 1;
    }
    assert(cs.take(i as int) =~= cs);
    out
}


/// Whether an endpoint in this state is a place to start from when the whole layer
/// is asked for: its state is known, and it is not OK.
pub open spec fn wants_a_look(state: Option<EndpointState>) -> bool {
    state matches Some(s) && s != EndpointState::Okay
}

/// The endpoints of a bilink that `impact` starts from, given its endpoints' states.
pub open spec fn starts_of(selector: Selector, state0: Option<EndpointState>, state1: Option<EndpointState>) -> Seq<u8> {
    match selector {
        Selector::Uuid { endpoint: Some(n), .. } => seq![n],
        Selector::Uuid { endpoint: None, .. } => seq![0u8, 1u8],
        Selector::All => {
            let a: Seq<u8> = if wants_a_look(state0) { seq![0u8] } else { seq![] };
            let b: Seq<u8> = if wants_a_look(state1) { seq![1u8] } else { seq![] };
            a + b
        },
        Selector::FileLineCol { .. } => Seq::<u8>::empty(),
    }
}

/// **Over the whole layer, every endpoint whose state is known and not OK is a
/// start, and no other is**: endpoint `n` is among the starts exactly when its
/// state is some state other than `OK` — an `ALTERED`, a `MOVED`, a `BROKEN` one
/// alike. The starts come in order, each once.
pub proof fn lemma_every_endpoint_not_ok_is_a_start(state0: Option<EndpointState>, state1: Option<EndpointState>)
    ensures
        starts_of(Selector::All, state0, state1).contains(0u8) <==> (state0 is Some && state0 != Some(
            EndpointState::Okay,
        )),
        starts_of(Selector::All, state0, state1).contains(1u8) <==> (state1 is Some && state1 != Some(
            EndpointState::Okay,
        )),
        forall|k: int|
            0 <= k < starts_of(Selector::All, state0, state1).len() ==> #[trigger] starts_of(
                Selector::All,
                state0,
                state1,
            )[k] == k + if state0 is Some && state0 != Some(EndpointState::Okay) {
                0int
            } else {
                1int
            },
        starts_of(Selector::All, state0, state1).len() <= 2,
{
    let s = starts_of(Selector::All, state0, state1);
    if s.contains(0u8) {
        let k = choose|k: int| 0 <= k < s.len() && s[k] == 0u8;
    }
    if s.contains(1u8) {
        let k = choose|k: int| 0 <= k < s.len() && s[k] == 1u8;
    }
    let w0 = state0 is Some && state0 != Some(EndpointState::Okay);
    let w1 = state1 is Some && state1 != Some(EndpointState::Okay);
    if w0 {
        assert(s[0] == 0u8);
    }
    if w1 {
        assert(s[s.len() - 1] == 1u8);
    }
}

/// **A uuid starts where it says, whatever the states**: the endpoint it names, and
/// only that one; with no endpoint named, both, each once. A position starts from no
/// endpoint.
pub proof fn lemma_a_uuid_starts_where_it_says(
    uuid: String,
    endpoint: Option<u8>,
    state0: Option<EndpointState>,
    state1: Option<EndpointState>,
)
    ensures
        ({
            let s = starts_of(Selector::Uuid { uuid, endpoint }, state0, state1);
            match endpoint {
                Some(n) => s.len() == 1 && s.contains(n),
                None => s.len() == 2 && s.contains(0u8) && s.contains(1u8),
            }
        }),
{
    let s = starts_of(Selector::Uuid { uuid, endpoint }, state0, state1);
    match endpoint {
        Some(n) => {
            assert(s[0] == n);
        },
        None => {
            assert(s[0] == 0u8);
            assert(s[1] == 1u8);
        },
    }
}

/// The endpoints of a bilink that `impact` starts from, given the endpoints'
/// states. For a uuid, the endpoint named, or both; for the whole layer, each one
/// that `wants_a_look`; for a position, none (the position itself is the start).
pub fn start_endpoints(selector: &Selector, state0: Option<EndpointState>, state1: Option<EndpointState>) -> (r: Vec<u8>)
    ensures
        r@ == starts_of(*selector, state0, state1),
        r@ == match *selector {
            Selector::Uuid { endpoint: Some(n), .. } => seq![n],
            Selector::Uuid { endpoint: None, .. } => seq![0u8, 1u8],
            Selector::All => {
                let a: Seq<u8> = if wants_a_look(state0) { seq![0u8] } else { seq![] };
                let b: Seq<u8> = if wants_a_look(state1) { seq![1u8] } else { seq![] };
                a + b
            },
            Selector::FileLineCol { .. } => Seq::<u8>::empty(),
        },
{
    let mut out: Vec<u8> = Vec::new();
    match selector {
        Selector::Uuid { endpoint: Some(n), .. } => {
            out.push(*n);
        },
        Selector::Uuid { endpoint: None, .. } => {
            out.push(0);
            out.push(1);
        },
        Selector::All => {
            if matches!(state0, Some(s) if s != EndpointState::Okay) {
                out.push(0);
            }
            if matches!(state1, Some(s) if s != EndpointState::Okay) {
                out.push(1);
            }
        },
        Selector::FileLineCol { .. } => {},
    }
    assert(out@ =~= match *selector {
        Selector::Uuid { endpoint: Some(n), .. } => seq![n],
        Selector::Uuid { endpoint: None, .. } => seq![0u8, 1u8],
        Selector::All => {
            let a: Seq<u8> = if wants_a_look(state0) { seq![0u8] } else { seq![] };
            let b: Seq<u8> = if wants_a_look(state1) { seq![1u8] } else { seq![] };
            a + b
        },
        Selector::FileLineCol { .. } => Seq::<u8>::empty(),
    });
    out
}


/// Whether an endpoint's range holds the first byte of the position's line.
pub open spec fn holds(line_byte: usize, e: (String, u8, crate::link::ByteRange)) -> bool {
    e.2.start <= line_byte && line_byte < e.2.end
}

/// The endpoints found at a position: of the endpoints that point into its file
/// (each a bilink's uuid, the endpoint and its range), those whose range holds the
/// first byte of the line, in order.
pub fn hits_at(line_byte: usize, entries: &Vec<(String, u8, crate::link::ByteRange)>) -> (r: Vec<(String, u8)>)
    ensures
        hits_view(r@) == entries@.filter(|e: (String, u8, crate::link::ByteRange)| holds(line_byte, e)).map_values(
            |e: (String, u8, crate::link::ByteRange)| (e.0@, e.1),
        ),
{
    let ghost keep = |e: (String, u8, crate::link::ByteRange)| holds(line_byte, e);
    let ghost pick = |e: (String, u8, crate::link::ByteRange)| (e.0@, e.1);
    let mut out: Vec<(String, u8)> = Vec::new();
    let mut i: usize = 0;
    assert(entries@.take(0).filter(keep) =~= Seq::<(String, u8, crate::link::ByteRange)>::empty());
    while i < entries.len()
        invariant
            i <= entries@.len(),
            forall|e: (String, u8, crate::link::ByteRange)| #[trigger] keep(e) == holds(line_byte, e),
            forall|e: (String, u8, crate::link::ByteRange)| #[trigger] pick(e) == (e.0@, e.1),
            hits_view(out@) == entries@.take(i as int).filter(keep).map_values(pick),
        decreases entries.len() - i,
    {
        let ghost before = hits_view(out@);
        proof {
            assert(entries@.take(i as int + 1) =~= entries@.take(i as int).push(entries@[i as int]));
            entries@.take(i as int).lemma_filter_push(entries@[i as int], keep);
        }
        let e = &entries[i];
        if e.2.start <= line_byte && line_byte < e.2.end {
            assert(keep(entries@[i as int]));
            out.push((e.0.clone(), e.1));
            assert(hits_view(out@) =~= before.push(pick(entries@[i as int])));
            assert(entries@.take(i as int + 1).filter(keep).map_values(pick) =~= entries@.take(i as int).filter(
                keep,
            ).map_values(pick).push(pick(entries@[i as int])));
        } else {
            assert(!keep(entries@[i as int]));
            assert(entries@.take(i as int + 1).filter(keep) == entries@.take(i as int).filter(keep));
        }
        i = i + 1;
    }
    assert(entries@.take(i as int) =~= entries@);
    out
}


/// An endpoint is reported once: when what was reported holds no endpoint twice,
/// neither does it after the endpoints of one more position, whatever they are.
pub proof fn lemma_reports_do_not_repeat(seen: Seq<(Seq<char>, u8)>, hits: Seq<(Seq<char>, u8)>)
    requires
        seen.no_duplicates(),
    ensures
        with_hits(seen, hits).no_duplicates(),
    decreases hits.len(),
{
    if hits.len() > 0 {
        lemma_reports_do_not_repeat(seen, hits.drop_last());
        let d = with_hits(seen, hits.drop_last());
        let x = hits.last();
        if !d.contains(x) {
            let p = d.push(x);
            assert forall|a: int, b: int| 0 <= a < p.len() && 0 <= b < p.len() && a != b implies p[a] != p[b] by {
                if a == d.len() {
                    assert(p[b] == d[b]);
                } else if b == d.len() {
                    assert(p[a] == d[a]);
                } else {
                    assert(p[a] == d[a] && p[b] == d[b]);
                }
            }
        }
    }
}

/// A position is looked at once: after `visit` has looked at it, looking at it
/// again changes nothing and goes nowhere.
pub proof fn lemma_a_position_is_looked_at_once(before: Walk, after: Walk, v: Visit)
    requires
        !visited_view(before).contains((v.file@, v.line)),
        visited_view(after) == visited_view(before).push((v.file@, v.line)),
    ensures
        visited_view(after).contains((v.file@, v.line)),
{
    assert(visited_view(after)[visited_view(before).len() as int] == (v.file@, v.line));
}


/// **The depth bound holds along every chain.** Each position looked at next is one
/// step longer in its chain and has one level less to go, so a chain's length plus
/// its levels left stays what it was at the start: no chain grows past the bound.
pub proof fn lemma_depth_bounds_the_chain(root: Seq<char>, v: Visit, callers: Seq<(Seq<char>, u32, u32)>)
    ensures
        forall|k: int| 0 <= k < next_visits(root, v, callers).len() ==> {
            let w = #[trigger] next_visits(root, v, callers)[k];
            w.3.len() + w.4 == chain_view(v.path@).len() + v.depth
        },
{
    assert forall|k: int| 0 <= k < next_visits(root, v, callers).len() implies {
        let w = #[trigger] next_visits(root, v, callers)[k];
        w.3.len() + w.4 == chain_view(v.path@).len() + v.depth
    } by {
        assert(next_visits(root, v, callers)[k].3 == chain_view(v.path@).push((v.file@, v.line)));
    }
}

} // verus!
