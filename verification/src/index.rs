//! `.bilink/index/index`: which endpoints point into each file, so that finding them
//! does not read every bilink. It is never the source of truth: without it, or with
//! it stale, the lookup scans and gives the same.
use vstd::prelude::*;

use crate::refmsg::{decimal, decimal_of, digit};
use crate::text::{
    append, append_str, chars_of, lacks, lines, lines_acc, lines_of, rsplit_once_char,
    rsplit_once_char_of, same, slice_of, split_once, split_once_of, string_of, strip_cr, views,
};

verus! {

/// Whether the index can be trusted.
#[derive(Debug, Clone, Copy, PartialEq, Eq, Structural)]
pub enum IndexStatus {
    /// No bilink is newer than the index.
    Okay,
    /// Some bilinks changed after the index was written.
    Stale { stale_count: usize },
    /// There is no index.
    Missing,
}

/// One line of the index: an endpoint (`uuid`, `n`) whose capture `capture` points
/// into `file`.
pub struct IndexEntry {
    pub file: String,
    pub uuid: String,
    pub n: u8,
    pub capture: String,
}

// ─── staleness ───────────────────────────────────────────────────────────────

/// How many bilinks were modified after the index: one whose time cannot be read
/// does not count.
pub open spec fn stale_count(index: u128, mtimes: Seq<Option<u128>>) -> nat
    decreases mtimes.len(),
{
    if mtimes.len() == 0 {
        0
    } else {
        stale_count(index, mtimes.drop_last()) + match mtimes.last() {
            Some(m) => if m > index { 1nat } else { 0nat },
            None => 0nat,
        }
    }
}

fn count_stale(index: u128, mtimes: &Vec<Option<u128>>) -> (r: usize)
    ensures
        r == stale_count(index, mtimes@),
{
    let mut c: usize = 0;
    let mut i: usize = 0;
    while i < mtimes.len()
        invariant
            i <= mtimes.len(),
            c <= i,
            c == stale_count(index, mtimes@.take(i as int)),
        decreases mtimes.len() - i,
    {
        assert(mtimes@.take(i as int + 1).drop_last() =~= mtimes@.take(i as int));
        match mtimes[i] {
            Some(m) => if m > index {
                c = c + 1;
            },
            None => {},
        }
        i = i + 1;
    }
    assert(mtimes@.take(i as int) =~= mtimes@);
    c
}

/// The status of the index, from its modification time (`None`: there is no index)
/// and those of the layer's bilinks (`None`: it could not be read).
pub fn status(index_mtime: Option<u128>, mtimes: &Vec<Option<u128>>) -> (r: IndexStatus)
    ensures
        match index_mtime {
            None => r == IndexStatus::Missing,
            Some(t) => if stale_count(t, mtimes@) > 0 {
                r == IndexStatus::Stale { stale_count: stale_count(t, mtimes@) as usize }
            } else {
                r == IndexStatus::Okay
            },
        },
{
    match index_mtime {
        None => IndexStatus::Missing,
        Some(t) => {
            let stale = count_stale(t, mtimes);
            if stale > 0 {
                IndexStatus::Stale { stale_count: stale }
            } else {
                IndexStatus::Okay
            }
        },
    }
}

/// A bilink not modified after `t`; one whose time cannot be read is not.
pub open spec fn not_newer(t: u128, m: Option<u128>) -> bool {
    match m {
        Some(m) => m <= t,
        None => true,
    }
}

/// No bilink was modified after `t`.
pub open spec fn none_newer(t: u128, mtimes: Seq<Option<u128>>) -> bool {
    forall|k: int| 0 <= k < mtimes.len() ==> not_newer(t, #[trigger] mtimes[k])
}

/// The index is used only when no bilink is newer than it; one whose time cannot be
/// read does not spoil it, an index whose own time cannot be read is not used.
pub fn index_is_valid(index_mtime: Option<u128>, mtimes: &Vec<Option<u128>>) -> (r: bool)
    ensures
        r == match index_mtime {
            None => false,
            Some(t) => none_newer(t, mtimes@),
        },
{
    match index_mtime {
        None => false,
        Some(t) => {
            let mut i: usize = 0;
            while i < mtimes.len()
                invariant
                    i <= mtimes.len(),
                    index_mtime == Some(t),
                    forall|k: int| 0 <= k < i ==> not_newer(t, #[trigger] mtimes@[k]),
                decreases mtimes.len() - i,
            {
                match mtimes[i] {
                    Some(m) => if m > t {
                        assert(!not_newer(t, mtimes@[i as int]));
                        return false;
                    },
                    None => {},
                }
                i = i + 1;
            }
            true
        },
    }
}

// ─── the text of the index ───────────────────────────────────────────────────

/// The line of one entry: `<file>\t<uuid>.<n>\t<capture>`.
pub open spec fn entry_line(e: IndexEntry) -> Seq<char> {
    e.file@ + "\t"@ + e.uuid@ + "."@ + decimal(e.n as nat) + "\t"@ + e.capture@
}

/// The whole index: one line per entry, each ended by `\n`.
pub open spec fn index_text(es: Seq<IndexEntry>) -> Seq<char>
    decreases es.len(),
{
    if es.len() == 0 {
        seq![]
    } else {
        entry_line(es[0]) + "\n"@ + index_text(es.drop_first())
    }
}

/// The text of the index for these entries, and how many lines it has.
pub fn build(entries: &Vec<IndexEntry>) -> (r: (String, usize))
    ensures
        r.0@ == index_text(entries@),
        r.1 == entries@.len(),
{
    let mut out: Vec<char> = Vec::new();
    let mut i: usize = 0;
    assert(entries@.skip(0) =~= entries@);
    while i < entries.len()
        invariant
            i <= entries.len(),
            out@ + index_text(entries@.skip(i as int)) == index_text(entries@),
        decreases entries.len() - i,
    {
        let ghost before = out@;
        let e = &entries[i];
        append_str(&mut out, e.file.as_str());
        append_str(&mut out, "\t");
        append_str(&mut out, e.uuid.as_str());
        append_str(&mut out, ".");
        let d = decimal_of(e.n as u64);
        append(&mut out, d.as_slice());
        append_str(&mut out, "\t");
        append_str(&mut out, e.capture.as_str());
        append_str(&mut out, "\n");
        proof {
            let rest = entries@.skip(i as int);
            assert(rest[0] == entries@[i as int]);
            assert(rest.drop_first() =~= entries@.skip(i as int + 1));
            assert(out@ =~= before + entry_line(entries@[i as int]) + "\n"@);
            assert(out@ + index_text(entries@.skip(i as int + 1)) =~= before + index_text(rest));
        }
        i = i + 1;
    }
    assert(entries@.skip(i as int).len() == 0);
    assert(out@ =~= index_text(entries@));
    (string_of(out.as_slice()), entries.len())
}

// ─── reading it ──────────────────────────────────────────────────────────────

/// A decimal digit.
pub open spec fn is_digit(c: char) -> bool {
    '0' <= c && c <= '9'
}

/// The value of a run of decimal digits.
pub open spec fn digits_value(s: Seq<char>) -> nat
    decreases s.len(),
{
    if s.len() == 0 {
        0
    } else {
        digits_value(s.drop_last()) * 10 + (s.last() as nat - '0' as nat) as nat
    }
}

/// `s` as `u8::from_str` reads it: an optional `+`, then at least one digit, and a
/// value that fits.
pub open spec fn parse_u8(s: Seq<char>) -> Option<u8> {
    let d = unsigned_part(s);
    if d.len() > 0 && all_digits(d) && digits_value(d) <= 255 {
        Some(digits_value(d) as u8)
    } else {
        None
    }
}

/// What follows an optional leading `+`.
pub open spec fn unsigned_part(s: Seq<char>) -> Seq<char> {
    if s.len() > 0 && s[0] == '+' {
        s.drop_first()
    } else {
        s
    }
}

/// Every character is a decimal digit.
pub open spec fn all_digits(d: Seq<char>) -> bool {
    forall|i: int| 0 <= i < d.len() ==> is_digit(#[trigger] d[i])
}

/// What a line of the index says of `file`: the endpoint, where the line names it.
/// A comment, an empty line, a line without a tab, or an endpoint that does not
/// read as `<uuid>.<n>` say nothing. The third column is optional.
pub open spec fn line_hit(line: Seq<char>, file: Seq<char>) -> Option<(Seq<char>, u8)> {
    if line.len() == 0 || line[0] == '#' {
        None
    } else {
        match split_once(line, "\t"@) {
            None => None,
            Some((indexed, rest)) => {
                let endpoint = match split_once(rest, "\t"@) {
                    Some((a, _)) => a,
                    None => rest,
                };
                if indexed != file {
                    None
                } else {
                    match rsplit_once_char(endpoint, '.') {
                        None => None,
                        Some((uuid, digits)) => match parse_u8(digits) {
                            Some(n) => Some((uuid, n)),
                            None => None,
                        },
                    }
                }
            },
        }
    }
}

/// What the lines say of `file`, in order.
pub open spec fn hits(ls: Seq<Seq<char>>, file: Seq<char>) -> Seq<(Seq<char>, u8)>
    decreases ls.len(),
{
    if ls.len() == 0 {
        seq![]
    } else {
        (match line_hit(ls[0], file) {
            Some(h) => seq![h],
            None => seq![],
        }) + hits(ls.drop_first(), file)
    }
}

/// The endpoints as texts.
pub open spec fn hit_views(v: Seq<(String, u8)>) -> Seq<(Seq<char>, u8)> {
    v.map_values(|h: (String, u8)| (h.0@, h.1))
}

pub(crate) fn parse_u8_of(s: &[char]) -> (r: Option<u8>)
    ensures
        r == parse_u8(s@),
{
    let d = if s.len() > 0 && s[0] == '+' {
        slice_of(s, 1, s.len())
    } else {
        slice_of(s, 0, s.len())
    };
    assert(d@ =~= unsigned_part(s@));
    if d.len() == 0 {
        return None;
    }
    let mut value: u32 = 0;
    let mut big = false;
    let mut i: usize = 0;
    while i < d.len()
        invariant
            i <= d.len(),
            d@ == unsigned_part(s@),
            forall|k: int| 0 <= k < i ==> is_digit(#[trigger] d@[k]),
            !big ==> value as nat == digits_value(d@.take(i as int)) && value <= 255,
            big ==> digits_value(d@.take(i as int)) > 255,
        decreases d.len() - i,
    {
        let c = d[i];
        if !('0' <= c && c <= '9') {
            assert(!is_digit(d@[i as int]));
            assert(!all_digits(d@));
            return None;
        }
        assert(d@.take(i as int + 1).drop_last() =~= d@.take(i as int));
        let v = (c as u32) - ('0' as u32);
        if !big {
            let next = value * 10 + v;
            if next > 255 {
                big = true;
            } else {
                value = next;
            }
        }
        i = i + 1;
    }
    assert(d@.take(i as int) =~= d@);
    if big {
        None
    } else {
        Some(value as u8)
    }
}

fn line_hit_of(line: &[char], file: &[char]) -> (r: Option<(String, u8)>)
    ensures
        match r {
            Some(h) => line_hit(line@, file@) == Some((h.0@, h.1)),
            None => line_hit(line@, file@) is None,
        },
{
    if line.len() == 0 || line[0] == '#' {
        return None;
    }
    let tab = chars_of("\t");
    match split_once_of(line, tab.as_slice()) {
        None => None,
        Some((indexed, rest)) => {
            let endpoint = match split_once_of(rest.as_slice(), tab.as_slice()) {
                Some((a, _)) => a,
                None => rest,
            };
            if !same(indexed.as_slice(), file) {
                return None;
            }
            match rsplit_once_char_of(endpoint.as_slice(), '.') {
                None => None,
                Some((uuid, digits)) => match parse_u8_of(digits.as_slice()) {
                    Some(n) => Some((string_of(uuid.as_slice()), n)),
                    None => None,
                },
            }
        },
    }
}

/// The endpoints the index text says point into `file`, in the order of its lines.
pub fn lookup_from_index(text: &str, file: &str) -> (r: Vec<(String, u8)>)
    ensures
        hit_views(r@) == hits(lines(text@), file@),
{
    let all = chars_of(text);
    let f = chars_of(file);
    let ls = lines_of(all.as_slice());
    let mut out: Vec<(String, u8)> = Vec::new();
    let mut i: usize = 0;
    let ghost lv = views(ls@);
    assert(lv.skip(0) =~= lv);
    assert(hit_views(out@) =~= seq![]);
    while i < ls.len()
        invariant
            i <= ls.len(),
            lv == views(ls@),
            lv == lines(text@),
            f@ == file@,
            hit_views(out@) + hits(lv.skip(i as int), file@) == hits(lv, file@),
        decreases ls.len() - i,
    {
        let ghost before = hit_views(out@);
        assert(lv.skip(i as int)[0] == ls@[i as int]@);
        assert(lv.skip(i as int).drop_first() =~= lv.skip(i as int + 1));
        match line_hit_of(ls[i].as_slice(), f.as_slice()) {
            Some(h) => {
                out.push(h);
                assert(hit_views(out@) =~= before.push((out@.last().0@, out@.last().1)));
                assert(hit_views(out@) + hits(lv.skip(i as int + 1), file@) =~= before + hits(lv.skip(i as int), file@));
            },
            None => {
                assert(hits(lv.skip(i as int), file@) =~= hits(lv.skip(i as int + 1), file@));
            },
        }
        i = i + 1;
    }
    assert(lv.skip(i as int).len() == 0);
    assert(hit_views(out@) =~= hits(lv, file@));
    out
}


// ─── what is written is what is read ─────────────────────────────────────────

/// An entry that its line can carry: a file that is neither empty nor a comment,
/// and no field holding the separators of the index.
pub open spec fn writable(e: IndexEntry) -> bool {
    &&& e.file@.len() > 0
    &&& e.file@[0] != '#'
    &&& lacks(e.file@, '\t')
    &&& lacks(e.file@, '\n')
    &&& lacks(e.uuid@, '\t')
    &&& lacks(e.uuid@, '\n')
    &&& lacks(e.capture@, '\n')
    &&& lacks(e.capture@, '\r')
}

/// The endpoints of the entries into `file`, in order.
pub open spec fn entries_into(es: Seq<IndexEntry>, file: Seq<char>) -> Seq<(Seq<char>, u8)>
    decreases es.len(),
{
    if es.len() == 0 {
        seq![]
    } else {
        (if es[0].file@ == file {
            seq![(es[0].uuid@, es[0].n)]
        } else {
            seq![]
        }) + entries_into(es.drop_first(), file)
    }
}

proof fn lemma_digit(d: nat)
    requires
        d < 10,
    ensures
        is_digit(digit(d)),
        digit(d) as nat - '0' as nat == d,
        digit(d) != '\t' && digit(d) != '\n' && digit(d) != '\r' && digit(d) != '.' && digit(d) != '+',
{
}

/// A number written in decimal is digits, and reads back as itself.
pub proof fn lemma_decimal(n: nat)
    ensures
        decimal(n).len() > 0,
        all_digits(decimal(n)),
        digits_value(decimal(n)) == n,
        lacks(decimal(n), '\t') && lacks(decimal(n), '\n') && lacks(decimal(n), '.'),
        decimal(n)[0] != '+',
    decreases n,
{
    if n < 10 {
        lemma_digit(n);
        assert(decimal(n).drop_last() =~= Seq::<char>::empty());
        assert(digits_value(decimal(n)) == digits_value(Seq::<char>::empty()) * 10 + (digit(n) as nat - '0' as nat) as nat);
    } else {
        lemma_decimal(n / 10);
        lemma_digit(n % 10);
        let s = decimal(n);
        assert(s.drop_last() =~= decimal(n / 10));
        assert(s[0] == decimal(n / 10)[0]);
        assert(s.last() == digit(n % 10));
        assert(digits_value(s) == digits_value(decimal(n / 10)) * 10 + (digit(n % 10) as nat - '0' as nat) as nat);
        assert(n == (n / 10) * 10 + n % 10);
    }
}

/// The first tab splits where it is.
proof fn lemma_split_tab(a: Seq<char>, b: Seq<char>)
    requires
        lacks(a, '\t'),
    ensures
        split_once(a + "\t"@ + b, "\t"@) == Some((a, b)),
{
    reveal_strlit("\t");
    let s = a + "\t"@ + b;
    assert(s.subrange(a.len() as int, a.len() + 1int) =~= "\t"@);
    assert forall|j: int| 0 <= j < a.len() implies !crate::text::occurs_at(s, j, "\t"@) by {
        assert(s.subrange(j, j + 1)[0] == a[j]);
    }
    crate::text::lemma_find_first(s, "\t"@, 0, a.len() as int);
    assert(s.take(a.len() as int) =~= a);
    assert(s.skip(a.len() + 1int) =~= b);
}

/// The line of an entry says, of a file, the entry's endpoint exactly when it is
/// the entry's file.
proof fn lemma_entry_hit(e: IndexEntry, file: Seq<char>)
    requires
        writable(e),
    ensures
        line_hit(entry_line(e), file) == if e.file@ == file {
            Some((e.uuid@, e.n))
        } else {
            None
        },
{
    reveal_strlit("\t");
    reveal_strlit(".");
    lemma_decimal(e.n as nat);
    let d = decimal(e.n as nat);
    let endpoint = e.uuid@ + "."@ + d;
    let line = entry_line(e);
    assert(line =~= e.file@ + "\t"@ + (endpoint + "\t"@ + e.capture@));
    lemma_split_tab(e.file@, endpoint + "\t"@ + e.capture@);
    assert forall|i: int| 0 <= i < endpoint.len() implies #[trigger] endpoint[i] != '\t' by {
        if i < e.uuid@.len() {
            assert(endpoint[i] == e.uuid@[i]);
        } else if i > e.uuid@.len() {
            assert(endpoint[i] == d[i - e.uuid@.len() - 1]);
        }
    }
    lemma_split_tab(endpoint, e.capture@);
    assert(endpoint =~= e.uuid@ + seq!['.'] + d);
    crate::text::lemma_rfind_last(e.uuid@, '.', d);
    assert(endpoint.take(e.uuid@.len() as int) =~= e.uuid@);
    assert(endpoint.skip(e.uuid@.len() + 1int) =~= d);
    assert(unsigned_part(d) == d);
    assert(line[0] == e.file@[0]);
}

/// The lines of the index are the lines of its entries.
proof fn lemma_index_lines(es: Seq<IndexEntry>)
    requires
        forall|k: int| 0 <= k < es.len() ==> writable(#[trigger] es[k]),
    ensures
        lines(index_text(es)) == es.map_values(|e: IndexEntry| entry_line(e)),
    decreases es.len(),
{
    reveal_strlit("\t");
    reveal_strlit(".");
    reveal_strlit("\n");
    if es.len() == 0 {
        assert(lines(index_text(es)) =~= seq![]);
        assert(es.map_values(|e: IndexEntry| entry_line(e)) =~= seq![]);
    } else {
        let e = es[0];
        assert(writable(e));
        lemma_decimal(e.n as nat);
        let l = entry_line(e);
        let d = decimal(e.n as nat);
        assert forall|i: int| 0 <= i < l.len() implies #[trigger] l[i] != '\n' by {
            let a = e.file@.len();
            let b = a + 1 + e.uuid@.len();
            let c = b + 1 + d.len();
            if i < a {
                assert(l[i] == e.file@[i]);
            } else if a < i < b {
                assert(l[i] == e.uuid@[i - a - 1]);
            } else if b < i < c {
                assert(l[i] == d[i - b - 1]);
            } else if c < i {
                assert(l[i] == e.capture@[i - c - 1]);
            }
        }
        assert(strip_cr(l) == l) by {
            if e.capture@.len() > 0 {
                assert(l.last() == e.capture@.last());
            } else {
                assert(l.last() == '\t');
            }
        }
        assert(index_text(es) =~= l + seq!['\n'] + index_text(es.drop_first()));
        crate::text::lemma_lines_split(l, index_text(es.drop_first()), seq![]);
        assert(seq![] + l =~= l);
        assert forall|k: int| 0 <= k < es.drop_first().len() implies writable(#[trigger] es.drop_first()[k]) by {
            assert(es.drop_first()[k] == es[k + 1]);
        }
        lemma_index_lines(es.drop_first());
        assert(es.map_values(|e: IndexEntry| entry_line(e)) =~= seq![l] + es.drop_first().map_values(|e: IndexEntry| entry_line(e)));
    }
}

proof fn lemma_hits_of_entries(es: Seq<IndexEntry>, file: Seq<char>)
    requires
        forall|k: int| 0 <= k < es.len() ==> writable(#[trigger] es[k]),
    ensures
        hits(es.map_values(|e: IndexEntry| entry_line(e)), file) == entries_into(es, file),
    decreases es.len(),
{
    if es.len() > 0 {
        let ls = es.map_values(|e: IndexEntry| entry_line(e));
        lemma_entry_hit(es[0], file);
        assert(ls.drop_first() =~= es.drop_first().map_values(|e: IndexEntry| entry_line(e)));
        assert forall|k: int| 0 <= k < es.drop_first().len() implies writable(#[trigger] es.drop_first()[k]) by {
            assert(es.drop_first()[k] == es[k + 1]);
        }
        lemma_hits_of_entries(es.drop_first(), file);
    }
}

/// **The index maps a file to its endpoints, as the scan does**: looking a file up
/// in what `build` wrote gives back, in order, the endpoints of the entries into
/// that file and no other — what `lookup_scan` answers over the same entries.
pub proof fn lemma_lookup_reads_what_build_wrote(es: Seq<IndexEntry>, file: Seq<char>)
    requires
        forall|k: int| 0 <= k < es.len() ==> writable(#[trigger] es[k]),
    ensures
        hits(lines(index_text(es)), file) == entries_into(es, file),
{
    lemma_index_lines(es);
    lemma_hits_of_entries(es, file);
}


/// The endpoints into `file` found by going through every entry, in order: what
/// a lookup without an index answers.
pub fn lookup_scan(entries: &Vec<IndexEntry>, file: &str) -> (r: Vec<(String, u8)>)
    ensures
        hit_views(r@) == entries_into(entries@, file@),
{
    let mut out: Vec<(String, u8)> = Vec::new();
    let mut i: usize = 0;
    assert(entries@.skip(0) =~= entries@);
    assert(hit_views(out@) =~= Seq::<(Seq<char>, u8)>::empty());
    while i < entries.len()
        invariant
            i <= entries@.len(),
            hit_views(out@) + entries_into(entries@.skip(i as int), file@) == entries_into(entries@, file@),
        decreases entries.len() - i,
    {
        let ghost rest = entries@.skip(i as int);
        let ghost before = hit_views(out@);
        assert(rest[0] == entries@[i as int]);
        assert(rest.drop_first() =~= entries@.skip(i as int + 1));
        if crate::text::same_text(entries[i].file.as_str(), file) {
            out.push((entries[i].uuid.clone(), entries[i].n));
            assert(hit_views(out@) =~= before + seq![(entries@[i as int].uuid@, entries@[i as int].n)]);
        }
        i = i + 1;
    }
    assert(entries@.skip(i as int) =~= Seq::<IndexEntry>::empty());
    out
}


// ─── the layers ──────────────────────────────────────────────────────────────

/// A directory under the root, as the walk met it: its path, the names of its
/// components below the root, and whether it holds a `.bilink/`.
pub struct Dir {
    pub path: String,
    pub names: Vec<String>,
    pub has_bilink: bool,
}

/// A directory the walk for layers does not go into.
pub open spec fn pruned(name: Seq<char>) -> bool {
    name == "target"@ || name == "node_modules"@ || name == ".git"@
}

/// A layer root the walk reaches: it holds a `.bilink/`, and no directory on the
/// way down to it is pruned.
pub open spec fn reached_layer(d: Dir) -> bool {
    d.has_bilink && forall|k: int| 0 <= k < d.names@.len() ==> !pruned(#[trigger] d.names@[k]@)
}

fn reached(d: &Dir) -> (b: bool)
    ensures
        b == reached_layer(*d),
{
    if !d.has_bilink {
        return false;
    }
    let mut i: usize = 0;
    while i < d.names.len()
        invariant
            i <= d.names.len(),
            forall|k: int| 0 <= k < i ==> !pruned(#[trigger] d.names@[k]@),
        decreases d.names.len() - i,
    {
        let n = d.names[i].as_str();
        if crate::text::same_text(n, "target") || crate::text::same_text(n, "node_modules") || crate::text::same_text(
            n,
            ".git",
        ) {
            assert(pruned(d.names@[i as int]@));
            return false;
        }
        i = i + 1;
    }
    true
}

/// The layer roots (directories holding a `.bilink/`) under the root, from the
/// directories the walk met, in its order: not inside `target`, `node_modules` or
/// `.git`.
pub fn layer_roots(dirs: &Vec<Dir>) -> (r: Vec<String>)
    ensures
        crate::accept::names(r@) == dirs@.filter(|d: Dir| reached_layer(d)).map_values(|d: Dir| d.path@),
{
    let mut out: Vec<String> = Vec::new();
    let ghost keep = |d: Dir| reached_layer(d);
    let mut i: usize = 0;
    assert(dirs@.take(0).filter(keep) =~= Seq::<Dir>::empty());
    assert(crate::accept::names(out@) =~= Seq::<Dir>::empty().map_values(|d: Dir| d.path@));
    while i < dirs.len()
        invariant
            i <= dirs.len(),
            keep == (|d: Dir| reached_layer(d)),
            crate::accept::names(out@) == dirs@.take(i as int).filter(keep).map_values(|d: Dir| d.path@),
        decreases dirs.len() - i,
    {
        let ghost prev = dirs@.take(i as int);
        assert(dirs@.take(i as int + 1) =~= prev.push(dirs@[i as int]));
        proof {
            prev.lemma_filter_push(dirs@[i as int], keep);
        }
        if reached(&dirs[i]) {
            let ghost o = crate::accept::names(out@);
            let p = dirs[i].path.clone();
            assert(p@ == dirs@[i as int].path@);
            out.push(p);
            assert(crate::accept::names(out@) =~= o.push(dirs@[i as int].path@));
            assert(prev.filter(keep).push(dirs@[i as int]).map_values(|d: Dir| d.path@) =~= prev.filter(keep).map_values(
                |d: Dir| d.path@,
            ).push(dirs@[i as int].path@));
        }
        i = i + 1;
    }
    assert(dirs@.take(i as int) =~= dirs@);
    out
}

} // verus!
