//! The text of tree-sitter queries: the strings inside their name predicates, and
//! the predicates themselves.
//!
//! A predicate `(#eq? @nK "...")` is a string **inside** a query, so two characters
//! cannot be written as they are: a `\` changes what follows and a `"` closes the
//! string. Writing and rewriting a name go through the same escape, so the same
//! name gives one query whatever path produced it.
use vstd::prelude::*;
use vstd::string::StringSliceAdditionalSpecFns;

use crate::text::{lacks, occurs_at, append, chars_of, find, find_from, find_from_of, find_of, rfind, rfind_of, one_line, one_line_of, slice_of, starts_with, string_of};

verus! {

// ─── escaping ───────────────────────────────────────────────────────────────

/// How one character is written inside a predicate string.
pub open spec fn escape_char(c: char) -> Seq<char> {
    if c == '\\' {
        seq!['\\', '\\']
    } else if c == '"' {
        seq!['\\', '"']
    } else {
        seq![c]
    }
}

/// `s` written inside a predicate string: each `\` and each `"` behind a `\`.
pub open spec fn escaped(s: Seq<char>) -> Seq<char>
    decreases s.len(),
{
    if s.len() == 0 {
        seq![]
    } else {
        escape_char(s[0]) + escaped(s.drop_first())
    }
}

/// `s` with every occurrence of `p`, left to right and without overlapping,
/// replaced by `r`, as `str::replace` does.
pub open spec fn replace_all(s: Seq<char>, p: Seq<char>, r: Seq<char>) -> Seq<char>
    decreases s.len(),
{
    if s.len() == 0 {
        seq![]
    } else if p.len() > 0 && starts_with(s, p) {
        r + replace_all(s.skip(p.len() as int), p, r)
    } else {
        seq![s[0]] + replace_all(s.drop_first(), p, r)
    }
}

/// A predicate string read back: `\"` becomes `"`, then `\\` becomes `\`.
pub open spec fn unescaped(s: Seq<char>) -> Seq<char> {
    replace_all(replace_all(s, seq!['\\', '"'], seq!['"']), seq!['\\', '\\'], seq!['\\'])
}

/// Escaping distributes over concatenation.
pub proof fn lemma_escaped_concat(a: Seq<char>, b: Seq<char>)
    ensures
        escaped(a + b) == escaped(a) + escaped(b),
    decreases a.len(),
{
    if a.len() == 0 {
        assert(a + b =~= b);
    } else {
        assert((a + b)[0] == a[0]);
        assert((a + b).drop_first() =~= a.drop_first() + b);
        lemma_escaped_concat(a.drop_first(), b);
        assert(escaped(a + b) =~= escaped(a) + escaped(b));
    }
}

/// An escaped string never starts with a bare `"`.
proof fn lemma_escaped_head(s: Seq<char>)
    ensures
        escaped(s).len() > 0 ==> escaped(s)[0] != '"',
        s.len() > 0 ==> escaped(s).len() > 0,
{
    if s.len() > 0 {
        assert(escaped(s)[0] == escape_char(s[0])[0]);
    }
}

/// `s` with each `\` doubled and nothing else changed: what is left of an escaped
/// string once its quotes are read back.
spec fn doubled(s: Seq<char>) -> Seq<char>
    decreases s.len(),
{
    if s.len() == 0 {
        seq![]
    } else {
        (if s[0] == '\\' {
            seq!['\\', '\\']
        } else {
            seq![s[0]]
        }) + doubled(s.drop_first())
    }
}

proof fn lemma_quotes_back(s: Seq<char>)
    ensures
        replace_all(escaped(s), seq!['\\', '"'], seq!['"']) == doubled(s),
    decreases s.len(),
{
    let q: Seq<char> = seq!['\\', '"'];
    let e = escaped(s);
    if s.len() > 0 {
        let c = s[0];
        let rest = s.drop_first();
        let t = escaped(rest);
        lemma_quotes_back(rest);
        lemma_escaped_head(rest);
        if c == '"' {
            assert(e =~= q + t);
            assert(e.take(2) =~= q);
            assert(e.skip(2) =~= t);
        } else if c == '\\' {
            let u: Seq<char> = seq!['\\'] + t;
            assert(e =~= seq!['\\', '\\'] + t);
            assert(e[1] == '\\');
            assert(!starts_with(e, q)) by {
                assert(e.take(2)[1] != q[1]);
            }
            assert(e.drop_first() =~= u);
            if u.len() >= 2 {
                assert(u[1] == t[0]);
                assert(!starts_with(u, q)) by {
                    assert(u.take(2)[1] != q[1]);
                }
            }
            assert(u.drop_first() =~= t);
            assert(replace_all(u, q, seq!['"']) == seq!['\\'] + replace_all(t, q, seq!['"']));
            assert(replace_all(e, q, seq!['"']) =~= seq!['\\', '\\'] + doubled(rest));
        } else {
            assert(e =~= seq![c] + t);
            if e.len() >= 2 {
                assert(!starts_with(e, q)) by {
                    assert(e.take(2)[0] != q[0]);
                }
            }
            assert(e.drop_first() =~= t);
        }
    }
}

proof fn lemma_backslashes_back(s: Seq<char>)
    ensures
        replace_all(doubled(s), seq!['\\', '\\'], seq!['\\']) == s,
    decreases s.len(),
{
    let b: Seq<char> = seq!['\\', '\\'];
    let m = doubled(s);
    if s.len() > 0 {
        let c = s[0];
        let rest = s.drop_first();
        lemma_backslashes_back(rest);
        if c == '\\' {
            assert(m =~= b + doubled(rest));
            assert(m.take(2) =~= b);
            assert(m.skip(2) =~= doubled(rest));
        } else {
            assert(m =~= seq![c] + doubled(rest));
            if m.len() >= 2 {
                assert(!starts_with(m, b)) by {
                    assert(m.take(2)[0] != b[0]);
                }
            }
            assert(m.drop_first() =~= doubled(rest));
        }
        assert(s =~= seq![c] + rest);
    }
}

/// **Reading back what was written gives the name.** `unescape_query_string` is
/// the inverse of `escape_query_string`, on every text.
pub proof fn lemma_unescape_escape(s: Seq<char>)
    ensures
        unescaped(escaped(s)) == s,
{
    lemma_quotes_back(s);
    lemma_backslashes_back(s);
}

/// `s` with every occurrence of `p` replaced by `r`.
fn replace_all_of(s: &[char], p: &[char], r: &[char]) -> (out: Vec<char>)
    requires
        p.len() > 0,
    ensures
        out@ == replace_all(s@, p@, r@),
{
    let mut out: Vec<char> = Vec::new();
    let mut i: usize = 0;
    assert(s@.skip(0) =~= s@);
    assert(out@ + s@ =~= s@);
    while i < s.len()
        invariant
            i <= s.len(),
            p@.len() > 0,
            out@ + replace_all(s@.skip(i as int), p@, r@) == replace_all(s@, p@, r@),
        decreases s.len() - i,
    {
        let ghost t = s@.skip(i as int);
        let hit = crate::text::occurs_at_of(s, i, p);
        assert(hit == starts_with(t, p@)) by {
            if i + p@.len() <= s@.len() {
                assert(t.take(p@.len() as int) =~= s@.subrange(i as int, i + p@.len()));
            }
        }
        if hit {
            assert(t.skip(p@.len() as int) =~= s@.skip(i + p@.len()));
            let ghost before = out@;
            append(&mut out, r);
            assert(out@ =~= before + r@);
            i = i + p.len();
            assert(out@ + replace_all(s@.skip(i as int), p@, r@) =~= before + replace_all(t, p@, r@));
        } else {
            assert(t.drop_first() =~= s@.skip(i + 1));
            let ghost before = out@;
            out.push(s[i]);
            assert(out@ =~= before + seq![s@[i as int]]);
            i = i + 1;
            assert(out@ + replace_all(s@.skip(i as int), p@, r@) =~= before + replace_all(t, p@, r@));
        }
    }
    assert(s@.skip(i as int) =~= Seq::<char>::empty());
    assert(out@ + Seq::<char>::empty() =~= out@);
    out
}

/// The text of a name, ready to go inside a predicate `(#eq? @nK "...")`.
pub fn escape_query_string(text: &str) -> (r: String)
    ensures
        r@ == escaped(text@),
{
    let s = chars_of(text);
    let mut out: Vec<char> = Vec::new();
    let mut i: usize = 0;
    while i < s.len()
        invariant
            i <= s.len(),
            out@ == escaped(s@.take(i as int)),
        decreases s.len() - i,
    {
        let c = s[i];
        let ghost before = out@;
        if c == '\\' {
            out.push('\\');
            out.push('\\');
        } else if c == '"' {
            out.push('\\');
            out.push('"');
        } else {
            out.push(c);
        }
        proof {
            lemma_escaped_concat(s@.take(i as int), seq![c]);
            assert(s@.take(i as int + 1) =~= s@.take(i as int) + seq![c]);
            assert(escaped(seq![c]) =~= escape_char(c)) by {
                assert(seq![c][0] == c);
                assert(seq![c].drop_first() =~= Seq::<char>::empty());
                assert(escaped(Seq::<char>::empty()) == Seq::<char>::empty());
                assert(escape_char(c) + Seq::<char>::empty() =~= escape_char(c));
            }
            assert(out@ =~= before + escape_char(c));
        }
        i = i + 1;
    }
    assert(s@.take(i as int) =~= s@);
    string_of(out.as_slice())
}

/// The inverse of [`escape_query_string`]: the name as it is in the file.
pub fn unescape_query_string(text: &str) -> (r: String)
    ensures
        r@ == unescaped(text@),
{
    let s = chars_of(text);
    let quote = vec!['\\', '"'];
    let bare_quote = vec!['"'];
    let double = vec!['\\', '\\'];
    let single = vec!['\\'];
    assert(quote@ =~= seq!['\\', '"']);
    assert(bare_quote@ =~= seq!['"']);
    assert(double@ =~= seq!['\\', '\\']);
    assert(single@ =~= seq!['\\']);
    let a = replace_all_of(s.as_slice(), quote.as_slice(), bare_quote.as_slice());
    let b = replace_all_of(a.as_slice(), double.as_slice(), single.as_slice());
    string_of(b.as_slice())
}

// ─── relaxing ───────────────────────────────────────────────────────────────

/// The opening of a name predicate.
pub open spec fn eq_open() -> Seq<char> {
    seq!['(', '#', 'e', 'q', '?']
}

/// Where the parenthesis opened before `i` closes, counting nested ones: the place
/// right after the `)` that brings `depth` back to zero.
pub open spec fn close_from(s: Seq<char>, i: int, depth: int) -> Option<int>
    decreases s.len() - i,
{
    if i < 0 || i >= s.len() {
        None
    } else if s[i] == '(' {
        close_from(s, i + 1, depth + 1)
    } else if s[i] == ')' {
        if depth - 1 == 0 {
            Some(i + 1)
        } else {
            close_from(s, i + 1, depth - 1)
        }
    } else {
        close_from(s, i + 1, depth)
    }
}

/// Where a parenthesis closes is after it, within the text.
pub proof fn lemma_close_in_range(s: Seq<char>, i: int, depth: int)
    ensures
        close_from(s, i, depth) matches Some(e) ==> i < e <= s.len(),
    decreases s.len() - i,
{
    if 0 <= i < s.len() {
        if s[i] == '(' {
            lemma_close_in_range(s, i + 1, depth + 1);
        } else if s[i] == ')' {
            lemma_close_in_range(s, i + 1, depth - 1);
        } else {
            lemma_close_in_range(s, i + 1, depth);
        }
    }
}

/// `s` without its predicates `(#eq? ...)`. From a predicate left open on, the
/// rest stays as it is.
pub open spec fn strip_predicates(s: Seq<char>) -> Seq<char>
    decreases s.len(),
{
    match find(s, eq_open()) {
        None => s,
        Some(pos) => match close_from(s, pos, 0) {
            None => s,
            Some(end) => {
                proof {
                    lemma_close_in_range(s, pos, 0);
                    crate::text::lemma_find_from(s, eq_open(), 0);
                }
                s.take(pos) + strip_predicates(s.skip(end))
            },
        },
    }
}

/// Where the parenthesis at `pos` closes.
fn close_of(s: &[char], pos: usize) -> (r: Option<usize>)
    requires
        pos < s.len(),
        s@[pos as int] == '(',
    ensures
        r matches Some(e) ==> close_from(s@, pos as int, 0) == Some(e as int),
        r is None ==> close_from(s@, pos as int, 0) is None,
{
    let mut depth: usize = 1;
    let mut i = pos + 1;
    while i < s.len()
        invariant
            pos < i <= s.len(),
            1 <= depth <= i - pos,
            close_from(s@, pos as int, 0) == close_from(s@, i as int, depth as int),
        decreases s.len() - i,
    {
        if s[i] == '(' {
            depth = depth + 1;
        } else if s[i] == ')' {
            if depth == 1 {
                return Some(i + 1);
            }
            depth = depth - 1;
        }
        i = i + 1;
    }
    None
}

/// Takes the predicates `(#eq? @nK "...")` out of a query, leaving its structure
/// and captures: the relaxed query matches every node of the same shape, whatever
/// it is called. It is what finds a renamed anchor.
pub fn relax_name_predicates(query_str: &str) -> (r: String)
    ensures
        r@ == one_line(strip_predicates(query_str@)),
{
    let s = chars_of(query_str);
    let pat = vec!['(', '#', 'e', 'q', '?'];
    assert(pat@ =~= eq_open());
    let mut out: Vec<char> = Vec::new();
    let mut rest = s;
    assert(out@ + strip_predicates(rest@) =~= strip_predicates(query_str@));
    loop
        invariant_except_break
            pat@ == eq_open(),
            out@ + strip_predicates(rest@) == strip_predicates(query_str@),
        ensures
            out@ == strip_predicates(query_str@),
        decreases rest.len(),
    {
        match find_of(rest.as_slice(), pat.as_slice()) {
            None => {
                let ghost before = out@;
                append(&mut out, rest.as_slice());
                assert(out@ =~= before + strip_predicates(rest@));
                break;
            },
            Some(pos) => {
                proof {
                    crate::text::lemma_find_from(rest@, eq_open(), 0);
                }
                assert(rest@[pos as int] == '(') by {
                    assert(rest@.subrange(pos as int, pos + 5)[0] == rest@[pos as int]);
                }
                let head = slice_of(rest.as_slice(), 0, pos);
                assert(head@ =~= rest@.take(pos as int));
                match close_of(rest.as_slice(), pos) {
                    None => {
                        let ghost before = out@;
                        append(&mut out, rest.as_slice());
                        assert(out@ =~= before + strip_predicates(rest@));
                        break;
                    },
                    Some(end) => {
                        proof {
                            lemma_close_in_range(rest@, pos as int, 0);
                        }
                        let ghost before = out@;
                        let ghost whole = rest@;
                        append(&mut out, head.as_slice());
                        let next = slice_of(rest.as_slice(), end, rest.len());
                        assert(next@ =~= rest@.skip(end as int));
                        rest = next;
                        assert(strip_predicates(whole) == whole.take(pos as int) + strip_predicates(rest@));
                        assert(out@ + strip_predicates(rest@) =~= before + strip_predicates(whole));
                    },
                }
            },
        }
    }
    let flat = one_line_of(out.as_slice());
    string_of(flat.as_slice())
}

// ─── the anchor's predicate ─────────────────────────────────────────────────

/// The opening of a predicate on a name capture, `(#eq? @n`.
pub open spec fn anchor_open() -> Seq<char> {
    seq!['(', '#', 'e', 'q', '?', ' ', '@', 'n']
}

/// Where the string that starts at `i` ends: the first `"` that no `\` escapes.
pub open spec fn closing_quote(s: Seq<char>, i: int, escaping: bool) -> Option<int>
    decreases s.len() - i,
{
    if i < 0 || i >= s.len() {
        None
    } else if s[i] == '\\' && !escaping {
        closing_quote(s, i + 1, true)
    } else if s[i] == '"' && !escaping {
        Some(i)
    } else {
        closing_quote(s, i + 1, false)
    }
}

/// The range, without the quotes, of the value of the last predicate
/// `(#eq? @nK "...")`: from the first `"` after the predicate opens to the first
/// one that no `\` escapes.
pub open spec fn predicate_value(q: Seq<char>) -> Option<(int, int)> {
    match rfind(q, anchor_open()) {
        None => None,
        Some(at) => match find_from(q, seq!['"'], at) {
            None => None,
            Some(quote) => match closing_quote(q, quote + 1, false) {
                None => None,
                Some(e) => Some((quote + 1, e)),
            },
        },
    }
}

/// The name the query looks for, read back from its last predicate.
pub open spec fn anchor_of(q: Seq<char>) -> Option<Seq<char>> {
    match predicate_value(q) {
        None => None,
        Some((start, end)) => Some(unescaped(q.subrange(start, end))),
    }
}

/// The query with the value of its last predicate replaced by `name`, escaped.
pub open spec fn rewritten(q: Seq<char>, name: Seq<char>) -> Option<Seq<char>> {
    match predicate_value(q) {
        None => None,
        Some((start, end)) => Some(q.take(start) + escaped(name) + q.skip(end)),
    }
}

proof fn lemma_closing_in_range(s: Seq<char>, i: int, escaping: bool)
    ensures
        closing_quote(s, i, escaping) matches Some(e) ==> i <= e < s.len() && s[e] == '"',
    decreases s.len() - i,
{
    if 0 <= i < s.len() {
        lemma_closing_in_range(s, i + 1, true);
        lemma_closing_in_range(s, i + 1, false);
    }
}

/// Where the value of the last predicate stands.
fn predicate_value_of(q: &[char]) -> (r: Option<(usize, usize)>)
    ensures
        r matches Some((a, b)) ==> predicate_value(q@) == Some((a as int, b as int)) && a <= b
            <= q.len(),
        r is None ==> predicate_value(q@) is None,
{
    let open = vec!['(', '#', 'e', 'q', '?', ' ', '@', 'n'];
    assert(open@ =~= anchor_open());
    let at = match rfind_of(q, open.as_slice()) {
        None => return None,
        Some(at) => at,
    };
    let quote_mark = vec!['"'];
    assert(quote_mark@ =~= seq!['"']);
    let quote = match find_from_of(q, quote_mark.as_slice(), at) {
        None => return None,
        Some(quote) => quote,
    };
    proof {
        crate::text::lemma_find_from(q@, seq!['"'], at as int);
        assert(occurs_at(q@, quote as int, seq!['"']));
        assert(quote + 1 <= q@.len());
    }
    assert(quote < q.len());
    let start = quote + 1;
    let mut escaping = false;
    let mut i = start;
    while i < q.len()
        invariant
            start <= i <= q.len(),
            predicate_value(q@) == match closing_quote(q@, i as int, escaping) {
                None => None,
                Some(e) => Some((start as int, e)),
            },
        decreases q.len() - i,
    {
        let c = q[i];
        if c == '\\' && !escaping {
            escaping = true;
        } else if c == '"' && !escaping {
            return Some((start, i));
        } else {
            escaping = false;
        }
        i = i + 1;
    }
    None
}

/// The name the query looks for: the value of its **last** predicate
/// `(#eq? @nK "...")`, read back.
pub fn anchor_name(query_str: &str) -> (r: Option<String>)
    ensures
        match r {
            Some(n) => anchor_of(query_str@) == Some(n@),
            None => anchor_of(query_str@) is None,
        },
{
    let q = chars_of(query_str);
    match predicate_value_of(q.as_slice()) {
        None => None,
        Some((start, end)) => {
            let value = slice_of(q.as_slice(), start, end);
            let raw = string_of(value.as_slice());
            Some(unescape_query_string(raw.as_str()))
        },
    }
}

/// Replaces the value of the anchor's predicate by `new_name`: the **last**
/// predicate `(#eq? @nK "...")`, the one that names the fragment, and never the
/// ones of its ancestors.
pub fn rewrite_name_predicate(query_str: &str, new_name: &str) -> (r: Option<String>)
    ensures
        match r {
            Some(q) => rewritten(query_str@, new_name@) == Some(q@),
            None => rewritten(query_str@, new_name@) is None,
        },
{
    let q = chars_of(query_str);
    match predicate_value_of(q.as_slice()) {
        None => None,
        Some((start, end)) => {
            let mut out = slice_of(q.as_slice(), 0, start);
            let name = escape_query_string(new_name);
            let e = chars_of(name.as_str());
            append(&mut out, e.as_slice());
            let tail = slice_of(q.as_slice(), end, q.len());
            append(&mut out, tail.as_slice());
            assert(out@ =~= q@.take(start as int) + escaped(new_name@) + q@.skip(end as int));
            Some(string_of(out.as_slice()))
        },
    }
}

/// A pattern without `\\` and `"` that starts an escaped text starts the text.
proof fn lemma_escaped_prefix(m: Seq<char>, p: Seq<char>)
    requires
        lacks(p, '\\'),
        lacks(p, '"'),
        starts_with(escaped(m), p),
    ensures
        starts_with(m, p),
    decreases p.len(),
{
    if p.len() > 0 {
        let e = escaped(m);
        assert(e.take(p.len() as int)[0] == e[0]);
        assert(p[0] != '\\' && p[0] != '"');
        if m.len() == 0 {
            assert(e.len() == 0);
        } else {
            let c = m[0];
            let rest = m.drop_first();
            assert(e == escape_char(c) + escaped(rest));
            assert(e[0] == escape_char(c)[0]);
            assert(c != '\\' && c != '"');
            assert(e =~= seq![c] + escaped(rest));
            let q = p.drop_first();
            assert(e.drop_first() =~= escaped(rest));
            assert forall|k: int| 0 <= k < q.len() implies #[trigger] q[k] != '\\' && q[k] != '"' by {
                assert(q[k] == p[k + 1]);
            }
            assert(escaped(rest).take(q.len() as int) =~= e.take(p.len() as int).drop_first());
            assert(e.take(p.len() as int) == p);
            assert(c == p[0]);
            lemma_escaped_prefix(rest, q);
            assert(m.take(p.len() as int) =~= seq![c] + rest.take(q.len() as int));
            assert(p =~= seq![p[0]] + q);
            assert(m.take(p.len() as int) =~= p);
        }
    } else {
        assert(m.take(0) =~= p);
    }
}

/// What does not occur in a name does not occur in it escaped, for a pattern that
/// starts with `(` and holds no `\\` or `"`.
proof fn lemma_escaped_absent(n: Seq<char>, p: Seq<char>)
    requires
        p.len() > 0,
        p[0] == '(',
        lacks(p, '\\'),
        lacks(p, '"'),
        forall|j: int| !occurs_at(n, j, p),
    ensures
        forall|j: int| !occurs_at(escaped(n), j, p),
    decreases n.len(),
{
    if n.len() > 0 {
        let c = n[0];
        let rest = n.drop_first();
        let u = escape_char(c);
        let t = escaped(rest);
        let e = escaped(n);
        assert(e == u + t);
        assert forall|j: int| !occurs_at(rest, j, p) by {
            if occurs_at(rest, j, p) {
                assert(n.subrange(j + 1, j + 1 + p.len()) =~= rest.subrange(j, j + p.len()));
                assert(occurs_at(n, j + 1, p));
            }
        }
        lemma_escaped_absent(rest, p);
        assert forall|j: int| !occurs_at(e, j, p) by {
            if occurs_at(e, j, p) {
                assert(e.subrange(j, j + p.len())[0] == e[j]);
                if j >= u.len() {
                    assert(e.subrange(j, j + p.len()) =~= t.subrange(j - u.len(), j - u.len()
                        + p.len()));
                    assert(occurs_at(t, j - u.len(), p));
                } else if u.len() == 2 {
                    assert(e[j] == u[j]);
                } else {
                    assert(j == 0);
                    assert(e.take(p.len() as int) =~= e.subrange(0, p.len() as int));
                    lemma_escaped_prefix(n, p);
                    assert(n.subrange(0, p.len() as int) =~= n.take(p.len() as int));
                    assert(occurs_at(n, 0, p));
                }
            }
        }
    }
}

/// An escaped text followed by `"` is a string that closes at that `"`.
proof fn lemma_closing_escaped(x: Seq<char>, i: int, n: Seq<char>)
    requires
        0 <= i,
        i + escaped(n).len() < x.len(),
        x.subrange(i, i + escaped(n).len()) == escaped(n),
        x[i + escaped(n).len()] == '"',
    ensures
        closing_quote(x, i, false) == Some(i + escaped(n).len()),
    decreases n.len(),
{
    let e = escaped(n);
    if n.len() > 0 {
        let c = n[0];
        let rest = n.drop_first();
        let u = escape_char(c);
        let t = escaped(rest);
        assert(e == u + t);
        assert(x.subrange(i + u.len(), i + u.len() + t.len()) =~= t) by {
            assert forall|k: int| 0 <= k < t.len() implies x[i + u.len() + k] == t[k] by {
                assert(x.subrange(i, i + e.len())[u.len() + k] == e[u.len() + k]);
            }
        }
        assert(x[i] == e[0]) by {
            assert(x.subrange(i, i + e.len())[0] == e[0]);
        }
        lemma_closing_escaped(x, i + u.len(), rest);
        if c == '\\' || c == '"' {
            assert(x[i + 1] == e[1]) by {
                assert(x.subrange(i, i + e.len())[1] == e[1]);
            }
            assert(x[i] == '\\');
            assert(closing_quote(x, i, false) == closing_quote(x, i + 1, true));
            assert(closing_quote(x, i + 1, true) == closing_quote(x, i + 2, false));
        } else {
            assert(x[i] == c);
            assert(closing_quote(x, i, false) == closing_quote(x, i + 1, false));
        }
    } else {
        assert(closing_quote(x, i, false) == Some(i));
    }
}

/// **The name a rewrite writes is the name read back.** After
/// `rewrite_name_predicate(q, name)`, `anchor_name` answers `name`, whenever the
/// query has a name predicate to rewrite and the name does not itself open one.
pub proof fn lemma_anchor_of_rewritten(q: Seq<char>, name: Seq<char>)
    requires
        predicate_value(q) is Some,
        forall|j: int| !occurs_at(name, j, anchor_open()),
    ensures
        rewritten(q, name) matches Some(r) && anchor_of(r) == Some(name),
{
    let p = anchor_open();
    let quote_mark: Seq<char> = seq!['"'];
    crate::text::lemma_rfind(q, p);
    let at = rfind(q, p)->0;
    crate::text::lemma_find_from(q, quote_mark, at);
    let quote = find_from(q, quote_mark, at)->0;
    let st = quote + 1;
    lemma_closing_in_range(q, st, false);
    let en = closing_quote(q, st, false)->0;
    let e = escaped(name);
    let l = e.len();
    let r = q.take(st) + e + q.skip(en);
    assert(predicate_value(q) == Some((st, en)));
    assert(lacks(p, '"') && lacks(p, '\\'));
    lemma_escaped_absent(name, p);
    // The predicate still opens where it did, and nothing opens after it.
    assert(r.len() == st + l + (q.len() - en));
    assert(forall|k: int| 0 <= k < st ==> #[trigger] r[k] == q[k]);
    assert(forall|k: int| 0 <= k < l ==> #[trigger] r[st + k] == e[k]);
    assert(forall|k: int| 0 <= k < q.len() - en ==> #[trigger] r[st + l + k] == q[en + k]);
    assert(quote >= at + 8) by {
        if quote < at + 8 {
            assert(q.subrange(at, at + 8)[quote - at] == q[quote]);
            assert(occurs_at(q, quote, quote_mark));
            assert(q.subrange(quote, quote + 1)[0] == q[quote]);
        }
    }
    assert(occurs_at(r, at, p)) by {
        assert(r.subrange(at, at + 8) =~= q.subrange(at, at + 8));
    }
    assert forall|j: int| at < j implies !occurs_at(r, j, p) by {
        if occurs_at(r, j, p) {
            if j + 8 <= st {
                assert(r.subrange(j, j + 8) =~= q.subrange(j, j + 8));
                assert(occurs_at(q, j, p));
            } else if j < st {
                assert(r.subrange(j, j + 8)[quote - j] == r[quote]);
                assert(q.subrange(quote, quote + 1)[0] == q[quote]);
            } else if j + 8 <= st + l {
                assert(r.subrange(j, j + 8) =~= e.subrange(j - st, j - st + 8));
                assert(occurs_at(e, j - st, p));
            } else if j <= st + l {
                assert(r.subrange(j, j + 8)[st + l - j] == r[st + l]);
                assert(r[st + l + 0] == q[en + 0]);
            } else {
                let j2 = j - st - l + en;
                assert(r.subrange(j, j + 8) =~= q.subrange(j2, j2 + 8));
                assert(occurs_at(q, j2, p));
            }
        }
    }
    crate::text::lemma_rfind_last_at(r, p, at);
    // The first quote after it is the same one.
    assert(occurs_at(r, quote, quote_mark)) by {
        assert(r.subrange(quote, quote + 1) =~= q.subrange(quote, quote + 1));
    }
    assert forall|j: int| at <= j < quote implies !occurs_at(r, j, quote_mark) by {
        assert(!occurs_at(q, j, quote_mark));
        assert(r.subrange(j, j + 1) =~= q.subrange(j, j + 1));
    }
    crate::text::lemma_find_first(r, quote_mark, at, quote);
    // The string closes right after the escaped name.
    assert(r.subrange(st, st + l) =~= e);
    assert(r[st + l] == '"') by {
        assert(r[st + l + 0] == q[en + 0]);
    }
    lemma_closing_escaped(r, st, name);
    lemma_unescape_escape(name);
    assert(predicate_value(r) == Some((st, st + l)));
}

// ─── ranges and captures ────────────────────────────────────────────────────

/// The bytes `u8::is_ascii_whitespace` answers for: space, tab, line feed, form
/// feed and carriage return.
pub open spec fn ascii_ws(b: u8) -> bool {
    b == 0x20u8 || b == 0x09u8 || b == 0x0Au8 || b == 0x0Cu8 || b == 0x0Du8
}

/// `r` is the range `start..end` of the bytes `b`, clamped to them, without the
/// ASCII whitespace at either edge (an empty range stays where it was clamped). One
/// `r` at most meets it.
pub open spec fn trimmed_to(b: Seq<u8>, start: usize, end: usize, r: (usize, usize)) -> bool {
    let s0 = if start <= b.len() { start as int } else { b.len() as int };
    let e0 = if end <= b.len() { end as int } else { b.len() as int };
    let (s, e) = (r.0 as int, r.1 as int);
    if s0 >= e0 {
        s == s0 && e == e0
    } else {
        &&& s0 <= s <= e <= e0
        &&& forall|k: int| s0 <= k < s ==> ascii_ws(#[trigger] b[k])
        &&& forall|k: int| e <= k < e0 ==> ascii_ws(#[trigger] b[k])
        &&& s < e ==> !ascii_ws(b[s]) && !ascii_ws(b[e - 1])
        &&& s == e ==> s == e0
    }
}

/// The range `start..end` of `source`, clamped to it, **without the whitespace
/// around it**: where a node starts depends on what surrounds it, and a fragment
/// is its content, not its context. With several `@target` each part is trimmed
/// on its own.
pub fn trim_edges(source: &str, start: usize, end: usize) -> (r: (usize, usize))
    ensures
        trimmed_to(source.spec_bytes(), start, end, r),
{
    let b = source.as_bytes();
    let mut s = if start <= b.len() { start } else { b.len() };
    let mut e = if end <= b.len() { end } else { b.len() };
    let ghost s0 = s as int;
    let ghost e0 = e as int;
    while s < e && (b[s] == 0x20u8 || b[s] == 0x09u8 || b[s] == 0x0Au8 || b[s] == 0x0Cu8 || b[s]
        == 0x0Du8)
        invariant
            b@ == source.spec_bytes(),
            e as int == e0,
            e0 <= b.len(),
            s0 <= s,
            s0 < e0 ==> s <= e,
            s0 >= e0 ==> s == s0,
            forall|k: int| s0 <= k < s ==> ascii_ws(#[trigger] b@[k]),
        decreases e - s,
    {
        s = s + 1;
    }
    while e > s && (b[e - 1] == 0x20u8 || b[e - 1] == 0x09u8 || b[e - 1] == 0x0Au8 || b[e - 1]
        == 0x0Cu8 || b[e - 1] == 0x0Du8)
        invariant
            b@ == source.spec_bytes(),
            e0 <= b.len(),
            s0 <= s,
            s0 < e0 ==> s <= e <= e0,
            s0 >= e0 ==> e == e0 && s == s0,
            forall|k: int| s0 <= k < s ==> ascii_ws(#[trigger] b@[k]),
            forall|k: int| e <= k < e0 ==> ascii_ws(#[trigger] b@[k]),
            s < e0 ==> !ascii_ws(b@[s as int]) && s < e,
        decreases e,
    {
        e = e - 1;
    }
    (s, e)
}

/// Whether `c` is an ASCII letter or digit.
pub open spec fn ascii_alnum(c: char) -> bool {
    ('0' <= c && c <= '9') || ('a' <= c && c <= 'z') || ('A' <= c && c <= 'Z')
}

/// The run of ASCII letters and digits that starts at `i`.
pub open spec fn alnum_run(s: Seq<char>, i: int) -> Seq<char>
    decreases s.len() - i,
{
    if i < 0 || i >= s.len() || !ascii_alnum(s[i]) {
        seq![]
    } else {
        seq![s[i]] + alnum_run(s, i + 1)
    }
}

/// The opening `(#eq? @` of a predicate on any capture.
pub open spec fn capture_open() -> Seq<char> {
    seq!['(', '#', 'e', 'q', '?', ' ', '@']
}

/// The name of the capture the last predicate `(#eq? @nK "...")` speaks of.
pub open spec fn anchor_capture_of(q: Seq<char>) -> Option<Seq<char>> {
    match rfind(q, capture_open()) {
        None => None,
        Some(at) => {
            let name = alnum_run(q, at + 7);
            if name.len() == 0 {
                None
            } else {
                Some(name)
            }
        },
    }
}

/// The name of the capture of the last predicate `(#eq? @nK "...")`: `nK`.
pub fn anchor_capture(query_str: &str) -> (r: Option<String>)
    ensures
        match r {
            Some(n) => anchor_capture_of(query_str@) == Some(n@),
            None => anchor_capture_of(query_str@) is None,
        },
{
    let q = chars_of(query_str);
    let open = vec!['(', '#', 'e', 'q', '?', ' ', '@'];
    assert(open@ =~= capture_open());
    let at = match rfind_of(q.as_slice(), open.as_slice()) {
        None => return None,
        Some(at) => at,
    };
    proof {
        crate::text::lemma_rfind(q@, capture_open());
        assert(occurs_at(q@, at as int, capture_open()));
        assert(capture_open().len() == 7);
    }
    assert(at + 7 <= q.len());
    let from = at + 7;
    let mut i = from;
    while i < q.len() && (('0' <= q[i] && q[i] <= '9') || ('a' <= q[i] && q[i] <= 'z') || ('A'
        <= q[i] && q[i] <= 'Z'))
        invariant
            from <= i <= q.len(),
            alnum_run(q@, from as int) == q@.subrange(from as int, i as int) + alnum_run(
                q@,
                i as int,
            ),
        decreases q.len() - i,
    {
        assert(q@.subrange(from as int, i + 1) =~= q@.subrange(from as int, i as int) + seq![q@[i as int]]);
        i = i + 1;
    }
    assert(alnum_run(q@, i as int) == Seq::<char>::empty());
    let name = slice_of(q.as_slice(), from, i);
    assert(name@ =~= alnum_run(q@, from as int));
    if name.len() == 0 {
        None
    } else {
        Some(string_of(name.as_slice()))
    }
}

} // verus!
