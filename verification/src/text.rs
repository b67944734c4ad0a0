//! Text as sequences of characters: the handful of string operations the rest of
//! the library is stated over, each with its meaning as a spec function.
use vstd::prelude::*;

verus! {

broadcast use vstd::string::group_string_axioms;

// ─── meanings ───────────────────────────────────────────────────────────────

/// Unicode `White_Space`, the set that `char::is_whitespace` answers for.
pub open spec fn ws(c: char) -> bool {
    ||| c == ' '
    ||| ('\t' <= c && c <= '\r')
    ||| c == '\u{85}'
    ||| c == '\u{A0}'
    ||| c == '\u{1680}'
    ||| ('\u{2000}' <= c && c <= '\u{200A}')
    ||| c == '\u{2028}'
    ||| c == '\u{2029}'
    ||| c == '\u{202F}'
    ||| c == '\u{205F}'
    ||| c == '\u{3000}'
}

/// No character of `s` is whitespace.
pub open spec fn no_ws(s: Seq<char>) -> bool {
    forall|i: int| 0 <= i < s.len() ==> !ws(#[trigger] s[i])
}

/// `c` does not occur in `s`.
pub open spec fn lacks(s: Seq<char>, c: char) -> bool {
    forall|i: int| 0 <= i < s.len() ==> #[trigger] s[i] != c
}

/// `s` without its leading whitespace.
pub open spec fn trim_start(s: Seq<char>) -> Seq<char>
    decreases s.len(),
{
    if s.len() > 0 && ws(s[0]) {
        trim_start(s.drop_first())
    } else {
        s
    }
}

/// `s` without its trailing whitespace.
pub open spec fn trim_end(s: Seq<char>) -> Seq<char>
    decreases s.len(),
{
    if s.len() > 0 && ws(s.last()) {
        trim_end(s.drop_last())
    } else {
        s
    }
}

/// `s` without whitespace at either end.
pub open spec fn trim(s: Seq<char>) -> Seq<char> {
    trim_end(trim_start(s))
}

/// A line as `str::lines` yields it: a `\r` right before the `\n` is not content.
pub open spec fn strip_cr(l: Seq<char>) -> Seq<char> {
    if l.len() > 0 && l.last() == '\r' {
        l.drop_last()
    } else {
        l
    }
}

/// The lines of `s` after the partial line `cur`, as `str::lines` reads them: split
/// on `\n`, a final line without `\n` kept only when not empty.
pub open spec fn lines_acc(s: Seq<char>, cur: Seq<char>) -> Seq<Seq<char>>
    decreases s.len(),
{
    if s.len() == 0 {
        if cur.len() == 0 {
            seq![]
        } else {
            seq![cur]
        }
    } else if s[0] == '\n' {
        seq![strip_cr(cur)] + lines_acc(s.drop_first(), seq![])
    } else {
        lines_acc(s.drop_first(), cur.push(s[0]))
    }
}

/// The lines of `s`, as `str::lines` yields them.
pub open spec fn lines(s: Seq<char>) -> Seq<Seq<char>> {
    lines_acc(s, seq![])
}

/// The words of `s` after the partial word `cur`: maximal runs without whitespace.
pub open spec fn words_acc(s: Seq<char>, cur: Seq<char>) -> Seq<Seq<char>>
    decreases s.len(),
{
    if s.len() == 0 {
        if cur.len() == 0 {
            seq![]
        } else {
            seq![cur]
        }
    } else if ws(s[0]) {
        (if cur.len() == 0 {
            seq![]
        } else {
            seq![cur]
        }) + words_acc(s.drop_first(), seq![])
    } else {
        words_acc(s.drop_first(), cur.push(s[0]))
    }
}

/// The words of `s`, as `str::split_whitespace` yields them.
pub open spec fn words(s: Seq<char>) -> Seq<Seq<char>> {
    words_acc(s, seq![])
}

/// The parts joined, with `sep` between each two.
pub open spec fn join(parts: Seq<Seq<char>>, sep: Seq<char>) -> Seq<char>
    decreases parts.len(),
{
    if parts.len() == 0 {
        seq![]
    } else if parts.len() == 1 {
        parts[0]
    } else {
        join(parts.drop_last(), sep) + sep + parts.last()
    }
}

/// `s` with every run of whitespace made one space, and none at the ends.
pub open spec fn one_line(s: Seq<char>) -> Seq<char> {
    join(words(s), seq![' '])
}

/// `p` occurs in `s` starting at `i`.
pub open spec fn occurs_at(s: Seq<char>, i: int, p: Seq<char>) -> bool {
    0 <= i && i + p.len() <= s.len() && s.subrange(i, i + p.len()) == p
}

/// The first place at or after `i` where `p` occurs in `s`.
pub open spec fn find_from(s: Seq<char>, p: Seq<char>, i: int) -> Option<int>
    decreases s.len() + 1 - i,
{
    if i < 0 || i + p.len() > s.len() {
        None
    } else if occurs_at(s, i, p) {
        Some(i)
    } else {
        find_from(s, p, i + 1)
    }
}

/// The first place where `p` occurs in `s`.
pub open spec fn find(s: Seq<char>, p: Seq<char>) -> Option<int> {
    find_from(s, p, 0)
}

/// What comes before and after the first `p` in `s`.
pub open spec fn split_once(s: Seq<char>, p: Seq<char>) -> Option<(Seq<char>, Seq<char>)> {
    match find(s, p) {
        Some(i) => Some((s.take(i), s.skip(i + p.len()))),
        None => None,
    }
}

/// The place of the last `c` in `s`.
pub open spec fn rfind_char(s: Seq<char>, c: char) -> Option<int>
    decreases s.len(),
{
    if s.len() == 0 {
        None
    } else if s.last() == c {
        Some(s.len() - 1)
    } else {
        rfind_char(s.drop_last(), c)
    }
}

/// What comes before and after the last `c` in `s`.
pub open spec fn rsplit_once_char(s: Seq<char>, c: char) -> Option<(Seq<char>, Seq<char>)> {
    match rfind_char(s, c) {
        Some(i) => Some((s.take(i), s.skip(i + 1))),
        None => None,
    }
}

/// The last place at or before `i` where `p` occurs in `s`.
pub open spec fn rfind_upto(s: Seq<char>, p: Seq<char>, i: int) -> Option<int>
    decreases i + 1,
{
    if i < 0 {
        None
    } else if occurs_at(s, i, p) {
        Some(i)
    } else {
        rfind_upto(s, p, i - 1)
    }
}

/// The last place where `p` occurs in `s`.
pub open spec fn rfind(s: Seq<char>, p: Seq<char>) -> Option<int> {
    rfind_upto(s, p, s.len() - p.len())
}

/// How many times `p` occurs in `s`, left to right and without overlapping, as
/// `str::matches` counts.
pub open spec fn count_matches(s: Seq<char>, p: Seq<char>) -> nat
    decreases s.len(),
{
    if s.len() == 0 || p.len() == 0 {
        0
    } else if starts_with(s, p) {
        1 + count_matches(s.skip(p.len() as int), p)
    } else {
        count_matches(s.drop_first(), p)
    }
}

/// `s` starts with `p`.
pub open spec fn starts_with(s: Seq<char>, p: Seq<char>) -> bool {
    p.len() <= s.len() && s.take(p.len() as int) == p
}

/// `s` without the prefix `p`, when it has it.
pub open spec fn strip_prefix(s: Seq<char>, p: Seq<char>) -> Option<Seq<char>> {
    if starts_with(s, p) {
        Some(s.skip(p.len() as int))
    } else {
        None
    }
}

/// `s` ends with `p`.
pub open spec fn ends_with(s: Seq<char>, p: Seq<char>) -> bool {
    p.len() <= s.len() && s.skip(s.len() - p.len()) == p
}

/// The views of a sequence of character vectors.
pub open spec fn views(v: Seq<Vec<char>>) -> Seq<Seq<char>> {
    v.map_values(|x: Vec<char>| x@)
}

/// The number of bytes a character takes in UTF-8.
pub open spec fn utf8_width(c: char) -> nat {
    if (c as u32) < 0x80 {
        1
    } else if (c as u32) < 0x800 {
        2
    } else if (c as u32) < 0x10000 {
        3
    } else {
        4
    }
}

/// The number of bytes `s` takes in UTF-8.
pub open spec fn utf8_len(s: Seq<char>) -> nat
    decreases s.len(),
{
    if s.len() == 0 {
        0
    } else {
        utf8_len(s.drop_last()) + utf8_width(s.last())
    }
}

/// Some prefix of `s` takes exactly `n` bytes, or all of `s` takes fewer: cutting
/// the string's bytes at `n` does not fall inside a character.
pub open spec fn cut_is_clean(s: Seq<char>, n: nat) -> bool {
    utf8_len(s) <= n || exists|k: int| 0 <= k <= s.len() && #[trigger] utf8_len(s.take(k)) == n
}

/// The longest prefix of `s` that takes at most `n` bytes.
pub open spec fn byte_prefix(s: Seq<char>, n: nat) -> Seq<char>
    decreases s.len(),
{
    if utf8_len(s) <= n {
        s
    } else {
        byte_prefix(s.drop_last(), n)
    }
}

// ─── facts ──────────────────────────────────────────────────────────────────

pub proof fn lemma_views_push(v: Seq<Vec<char>>, x: Vec<char>)
    ensures
        views(v.push(x)) == views(v).push(x@),
{
    assert(views(v.push(x)) =~= views(v).push(x@));
}

pub proof fn lemma_utf8_len_nonneg_prefix(s: Seq<char>, k: int)
    requires
        0 <= k <= s.len(),
    ensures
        utf8_len(s.take(k)) <= utf8_len(s),
    decreases s.len() - k,
{
    if k < s.len() {
        lemma_utf8_len_nonneg_prefix(s, k + 1);
        assert(s.take(k + 1).drop_last() =~= s.take(k));
    } else {
        assert(s.take(k) =~= s);
    }
}


/// Lines up to a `\n` close the line being read; what follows starts afresh.
pub proof fn lemma_lines_split(a: Seq<char>, b: Seq<char>, cur: Seq<char>)
    requires
        lacks(a, '\n'),
    ensures
        lines_acc(a + seq!['\n'] + b, cur) == seq![strip_cr(cur + a)] + lines_acc(b, seq![]),
    decreases a.len(),
{
    let s = a + seq!['\n'] + b;
    if a.len() == 0 {
        assert(s[0] == '\n');
        assert(s.drop_first() =~= b);
        assert(cur + a =~= cur);
    } else {
        assert(s[0] == a[0]);
        assert(s.drop_first() =~= a.drop_first() + seq!['\n'] + b);
        lemma_lines_split(a.drop_first(), b, cur.push(a[0]));
        assert(cur.push(a[0]) + a.drop_first() =~= cur + a);
    }
}

/// A run without whitespace just extends the word being read.
pub proof fn lemma_words_run(a: Seq<char>, b: Seq<char>, cur: Seq<char>)
    requires
        no_ws(a),
    ensures
        words_acc(a + b, cur) == words_acc(b, cur + a),
    decreases a.len(),
{
    if a.len() == 0 {
        assert(a + b =~= b);
        assert(cur + a =~= cur);
    } else {
        let s = a + b;
        assert(s[0] == a[0]);
        assert(s.drop_first() =~= a.drop_first() + b);
        lemma_words_run(a.drop_first(), b, cur.push(a[0]));
        assert(cur.push(a[0]) + a.drop_first() =~= cur + a);
    }
}

/// A whitespace character closes the word being read.
pub proof fn lemma_words_gap(c: char, b: Seq<char>, cur: Seq<char>)
    requires
        ws(c),
        cur.len() > 0,
    ensures
        words_acc(seq![c] + b, cur) == seq![cur] + words_acc(b, seq![]),
{
    let s = seq![c] + b;
    assert(s[0] == c);
    assert(s.drop_first() =~= b);
}

/// The words of a non-empty run without whitespace are that run.
pub proof fn lemma_words_single(a: Seq<char>)
    requires
        no_ws(a),
        a.len() > 0,
    ensures
        words(a) == seq![a],
{
    lemma_words_run(a, seq![], seq![]);
    assert(a + seq![] =~= a);
    assert(seq![] + a =~= a);
}

/// `find_from` answers the first place where the pattern is.
pub proof fn lemma_find_first(s: Seq<char>, p: Seq<char>, i: int, k: int)
    requires
        0 <= i <= k,
        occurs_at(s, k, p),
        forall|j: int| i <= j < k ==> !occurs_at(s, j, p),
    ensures
        find_from(s, p, i) == Some(k),
    decreases k - i,
{
    if i < k {
        assert(!occurs_at(s, i, p));
        lemma_find_first(s, p, i + 1, k);
    }
}

/// `find_from` finds nothing where the pattern is nowhere.
pub proof fn lemma_find_none(s: Seq<char>, p: Seq<char>, i: int)
    requires
        0 <= i,
        forall|j: int| i <= j ==> !occurs_at(s, j, p),
    ensures
        find_from(s, p, i) is None,
    decreases s.len() + 1 - i,
{
    if i + p.len() <= s.len() {
        assert(!occurs_at(s, i, p));
        lemma_find_none(s, p, i + 1);
    }
}

/// The last `c` is the one before a tail that lacks it.
pub proof fn lemma_rfind_last(a: Seq<char>, c: char, b: Seq<char>)
    requires
        lacks(b, c),
    ensures
        rfind_char(a + seq![c] + b, c) == Some(a.len() as int),
    decreases b.len(),
{
    let s = a + seq![c] + b;
    if b.len() == 0 {
        assert(s.last() == c);
    } else {
        assert(s.last() == b.last());
        assert(b.last() != c);
        assert(s.drop_last() =~= a + seq![c] + b.drop_last());
        lemma_rfind_last(a, c, b.drop_last());
    }
}

/// Trimming leaves alone what has no whitespace at its ends.
pub proof fn lemma_trim_fixed(s: Seq<char>)
    requires
        s.len() > 0 ==> !ws(s[0]) && !ws(s.last()),
    ensures
        trim_start(s) == s,
        trim_end(s) == s,
        trim(s) == s,
{
}

/// Characters below 0x80 take one byte each.
pub proof fn lemma_ascii_utf8_len(s: Seq<char>)
    requires
        forall|i: int| 0 <= i < s.len() ==> (#[trigger] s[i] as u32) < 0x80,
    ensures
        utf8_len(s) == s.len(),
    decreases s.len(),
{
    if s.len() > 0 {
        lemma_ascii_utf8_len(s.drop_last());
    }
}

/// On ASCII text the byte prefix is the character prefix.
pub proof fn lemma_ascii_byte_prefix(s: Seq<char>, n: nat)
    requires
        forall|i: int| 0 <= i < s.len() ==> (#[trigger] s[i] as u32) < 0x80,
    ensures
        byte_prefix(s, n) == s.take(if s.len() <= n { s.len() as int } else { n as int }),
        cut_is_clean(s, n),
    decreases s.len(),
{
    lemma_ascii_utf8_len(s);
    if s.len() <= n {
        assert(s.take(s.len() as int) =~= s);
    } else {
        let t = s.drop_last();
        lemma_ascii_byte_prefix(t, n);
        assert(t.take(n as int) =~= s.take(n as int));
        lemma_ascii_utf8_len(s.take(n as int));
        assert(utf8_len(s.take(n as int)) == n);
    }
}

/// Every word is a non-empty run without whitespace.
pub proof fn lemma_words_acc_clean(s: Seq<char>, cur: Seq<char>)
    requires
        no_ws(cur),
    ensures
        forall|k: int|
            0 <= k < words_acc(s, cur).len() ==> #[trigger] words_acc(s, cur)[k].len() > 0
                && no_ws(words_acc(s, cur)[k]),
    decreases s.len(),
{
    let w = words_acc(s, cur);
    if s.len() > 0 {
        if ws(s[0]) {
            let rest = words_acc(s.drop_first(), seq![]);
            lemma_words_acc_clean(s.drop_first(), seq![]);
            let head: Seq<Seq<char>> = if cur.len() == 0 {
                seq![]
            } else {
                seq![cur]
            };
            assert(w == head + rest);
            assert forall|k: int| 0 <= k < w.len() implies #[trigger] w[k].len() > 0 && no_ws(
                w[k],
            ) by {
                if k < head.len() {
                    assert(w[k] == cur);
                } else {
                    assert(w[k] == rest[k - head.len()]);
                }
            }
        } else {
            let c2 = cur.push(s[0]);
            assert forall|i: int| 0 <= i < c2.len() implies !ws(#[trigger] c2[i]) by {
                if i < cur.len() {
                    assert(c2[i] == cur[i]);
                }
            }
            lemma_words_acc_clean(s.drop_first(), c2);
            assert(w == words_acc(s.drop_first(), c2));
            assert forall|k: int| 0 <= k < w.len() implies #[trigger] w[k].len() > 0 && no_ws(
                w[k],
            ) by {
                assert(w[k] == words_acc(s.drop_first(), c2)[k]);
            }
        }
    } else {
        if cur.len() > 0 {
            assert(w == seq![cur]);
            assert(w[0] == cur);
        }
    }
}

/// Joining non-empty runs without whitespace by single spaces gives text whose only
/// whitespace is those spaces, none of them at either end.
pub proof fn lemma_join_spaces(parts: Seq<Seq<char>>)
    requires
        forall|k: int| 0 <= k < parts.len() ==> #[trigger] parts[k].len() > 0 && no_ws(parts[k]),
    ensures
        forall|i: int|
            0 <= i < join(parts, seq![' ']).len() && ws(#[trigger] join(parts, seq![' '])[i])
                ==> join(parts, seq![' '])[i] == ' ',
        join(parts, seq![' ']).len() > 0 ==> !ws(join(parts, seq![' '])[0]) && !ws(
            join(parts, seq![' ']).last(),
        ),
    decreases parts.len(),
{
    let j = join(parts, seq![' ']);
    if parts.len() == 1 {
        assert(parts[0].len() > 0 && no_ws(parts[0]));
    } else if parts.len() > 1 {
        let front = parts.drop_last();
        assert forall|k: int| 0 <= k < front.len() implies #[trigger] front[k].len() > 0 && no_ws(
            front[k],
        ) by {
            assert(front[k] == parts[k]);
        }
        lemma_join_spaces(front);
        let a = join(front, seq![' ']);
        let b = parts.last();
        assert(parts[parts.len() - 1].len() > 0 && no_ws(parts[parts.len() - 1]));
        assert(j == a + seq![' '] + b);
        if a.len() == 0 {
            assert(front.len() >= 1);
            assert(front[0].len() > 0);
            lemma_join_nonempty(front);
        }
        assert forall|i: int| 0 <= i < j.len() && ws(#[trigger] j[i]) implies j[i] == ' ' by {
            if i < a.len() {
                assert(j[i] == a[i]);
            } else if i > a.len() {
                assert(j[i] == b[i - a.len() - 1]);
            }
        }
        assert(j[0] == a[0]);
        assert(j.last() == b.last());
    }
}

/// Joining at least one non-empty part gives non-empty text.
pub proof fn lemma_join_nonempty(parts: Seq<Seq<char>>)
    requires
        parts.len() >= 1,
        parts[0].len() > 0,
    ensures
        join(parts, seq![' ']).len() > 0,
    decreases parts.len(),
{
    if parts.len() > 1 {
        lemma_join_nonempty(parts.drop_last());
    }
}

/// Text flattened to one line holds no line break and no whitespace at its ends.
/// Text with something besides whitespace has a word.
pub proof fn lemma_words_acc_some(s: Seq<char>, cur: Seq<char>)
    requires
        cur.len() > 0 || exists|i: int| 0 <= i < s.len() && !ws(#[trigger] s[i]),
    ensures
        words_acc(s, cur).len() > 0,
    decreases s.len(),
{
    if s.len() > 0 {
        if ws(s[0]) {
            if cur.len() == 0 {
                let i = choose|i: int| 0 <= i < s.len() && !ws(#[trigger] s[i]);
                assert(s.drop_first()[i - 1] == s[i]);
                lemma_words_acc_some(s.drop_first(), seq![]);
            }
        } else {
            lemma_words_acc_some(s.drop_first(), cur.push(s[0]));
        }
    }
}

/// Text with something besides whitespace does not flatten to nothing.
pub proof fn lemma_one_line_some(s: Seq<char>)
    requires
        exists|i: int| 0 <= i < s.len() && !ws(#[trigger] s[i]),
    ensures
        one_line(s).len() > 0,
{
    lemma_words_acc_some(s, seq![]);
    lemma_words_acc_clean(s, seq![]);
    let w = words(s);
    assert(w[w.len() - 1].len() > 0);
    if w.len() > 1 {
        assert(join(w, seq![' ']) == join(w.drop_last(), seq![' ']) + seq![' '] + w.last());
    }
}

pub proof fn lemma_one_line_clean(s: Seq<char>)
    ensures
        lacks(one_line(s), '\n'),
        one_line(s).len() > 0 ==> !ws(one_line(s)[0]) && !ws(one_line(s).last()),
{
    lemma_words_acc_clean(s, seq![]);
    lemma_join_spaces(words(s));
    let o = one_line(s);
    assert forall|i: int| 0 <= i < o.len() implies #[trigger] o[i] != '\n' by {
        if o[i] == '\n' {
            assert(ws(o[i]));
        }
    }
}

// ─── operations ─────────────────────────────────────────────────────────────

/// The characters of a string slice, in order.
pub fn chars_of(s: &str) -> (v: Vec<char>)
    ensures
        v@ == s@,
{
    let mut v: Vec<char> = Vec::new();
    let mut it = s.chars();
    let ghost all = vstd::std_specs::iter::IteratorSpec::remaining(&it);
    loop
        invariant
            all == s@,
            v@ + vstd::std_specs::iter::IteratorSpec::remaining(&it) == all,
            vstd::std_specs::iter::IteratorSpec::decrease(&it) is Some,
            vstd::std_specs::iter::IteratorSpec::obeys_prophetic_iter_laws(&it),
        decreases vstd::std_specs::iter::IteratorSpec::decrease(&it)->0,
    {
        match it.next() {
            Some(c) => {
                v.push(c);
                assert(v@ + vstd::std_specs::iter::IteratorSpec::remaining(&it) =~= all);
            },
            None => {
                assert(v@ =~= all);
                return v;
            },
        }
    }
}

/// Appends one character to a string: `String::push`.
#[verifier::external_body]
fn push_char(s: &mut String, c: char)
    ensures
        final(s)@ == old(s)@.push(c),
{
    s.push(c);
}

/// A string holding exactly the given characters.
pub fn string_of(v: &[char]) -> (s: String)
    ensures
        s@ == v@,
{
    let mut s = String::new();
    let mut i: usize = 0;
    while i < v.len()
        invariant
            i <= v.len(),
            s@ == v@.take(i as int),
        decreases v.len() - i,
    {
        push_char(&mut s, v[i]);
        i = i + 1;
        assert(s@ =~= v@.take(i as int));
    }
    assert(v@.take(i as int) =~= v@);
    s
}

/// The characters of a string slice, as an owned `String`.
pub fn owned(s: &str) -> (r: String)
    ensures
        r@ == s@,
{
    let v = chars_of(s);
    string_of(v.as_slice())
}

/// Whether `c` is whitespace, as `char::is_whitespace` says.
pub fn is_ws(c: char) -> (b: bool)
    ensures
        b == ws(c),
{
    c == ' ' || ('\t' <= c && c <= '\r') || c == '\u{85}' || c == '\u{A0}' || c == '\u{1680}'
        || ('\u{2000}' <= c && c <= '\u{200A}') || c == '\u{2028}' || c == '\u{2029}'
        || c == '\u{202F}' || c == '\u{205F}' || c == '\u{3000}'
}

/// Whether `c` occurs in `s`.
pub fn has_char(s: &[char], c: char) -> (b: bool)
    ensures
        b == !lacks(s@, c),
{
    let mut i: usize = 0;
    while i < s.len()
        invariant
            i <= s.len(),
            forall|j: int| 0 <= j < i ==> s@[j] != c,
        decreases s.len() - i,
    {
        if s[i] == c {
            return true;
        }
        i = i + 1;
    }
    false
}

/// The characters `s[from..to]`.
pub fn slice_of(s: &[char], from: usize, to: usize) -> (r: Vec<char>)
    requires
        from <= to <= s.len(),
    ensures
        r@ == s@.subrange(from as int, to as int),
{
    let mut r: Vec<char> = Vec::new();
    let mut i = from;
    while i < to
        invariant
            from <= i <= to <= s.len(),
            r@ == s@.subrange(from as int, i as int),
        decreases to - i,
    {
        r.push(s[i]);
        i = i + 1;
        assert(r@ =~= s@.subrange(from as int, i as int));
    }
    r
}

/// A copy of the characters.
pub fn to_vec(s: &[char]) -> (r: Vec<char>)
    ensures
        r@ == s@,
{
    let r = slice_of(s, 0, s.len());
    assert(r@ =~= s@);
    r
}

/// Appends the characters of `t` to `out`.
pub fn append(out: &mut Vec<char>, t: &[char])
    ensures
        final(out)@ == old(out)@ + t@,
{
    let mut i: usize = 0;
    while i < t.len()
        invariant
            i <= t.len(),
            out@ == old(out)@ + t@.take(i as int),
        decreases t.len() - i,
    {
        out.push(t[i]);
        i = i + 1;
        assert(out@ =~= old(out)@ + t@.take(i as int));
    }
    assert(t@.take(i as int) =~= t@);
}

/// Appends the characters of a string slice to `out`.
pub fn append_str(out: &mut Vec<char>, t: &str)
    ensures
        final(out)@ == old(out)@ + t@,
{
    let v = chars_of(t);
    append(out, v.as_slice());
}

/// Whether two character sequences are equal.
pub fn same(a: &[char], b: &[char]) -> (r: bool)
    ensures
        r == (a@ == b@),
{
    if a.len() != b.len() {
        return false;
    }
    let mut i: usize = 0;
    while i < a.len()
        invariant
            i <= a.len() == b.len(),
            a@.take(i as int) == b@.take(i as int),
        decreases a.len() - i,
    {
        if a[i] != b[i] {
            assert(a@[i as int] != b@[i as int]);
            return false;
        }
        i = i + 1;
        assert(a@.take(i as int) =~= a@.take(i as int - 1).push(a@[i as int - 1]));
        assert(b@.take(i as int) =~= b@.take(i as int - 1).push(b@[i as int - 1]));
    }
    assert(a@ =~= a@.take(i as int));
    assert(b@ =~= b@.take(i as int));
    true
}

/// Whether the characters are those of a string slice.
pub fn same_str(a: &[char], b: &str) -> (r: bool)
    ensures
        r == (a@ == b@),
{
    let v = chars_of(b);
    same(a, v.as_slice())
}

/// `s` without leading whitespace.
pub fn trim_start_of(s: &[char]) -> (r: Vec<char>)
    ensures
        r@ == trim_start(s@),
{
    let mut i: usize = 0;
    assert(s@.skip(0) =~= s@);
    while i < s.len() && is_ws(s[i])
        invariant
            i <= s.len(),
            trim_start(s@) == trim_start(s@.skip(i as int)),
        decreases s.len() - i,
    {
        assert(s@.skip(i as int).drop_first() =~= s@.skip(i as int + 1));
        i = i + 1;
    }
    assert(s@.subrange(i as int, s.len() as int) =~= s@.skip(i as int));
    slice_of(s, i, s.len())
}

/// `s` without trailing whitespace.
pub fn trim_end_of(s: &[char]) -> (r: Vec<char>)
    ensures
        r@ == trim_end(s@),
{
    let mut j: usize = s.len();
    assert(s@.take(j as int) =~= s@);
    while j > 0 && is_ws(s[j - 1])
        invariant
            j <= s.len(),
            trim_end(s@) == trim_end(s@.take(j as int)),
        decreases j,
    {
        assert(s@.take(j as int).drop_last() =~= s@.take(j as int - 1));
        j = j - 1;
    }
    assert(s@.subrange(0, j as int) =~= s@.take(j as int));
    slice_of(s, 0, j)
}

/// `s` without whitespace at either end.
pub fn trim_of(s: &[char]) -> (r: Vec<char>)
    ensures
        r@ == trim(s@),
{
    let t = trim_start_of(s);
    trim_end_of(t.as_slice())
}

/// The lines of `s`, as `str::lines` yields them.
pub fn lines_of(s: &[char]) -> (r: Vec<Vec<char>>)
    ensures
        views(r@) == lines(s@),
{
    let mut out: Vec<Vec<char>> = Vec::new();
    let mut cur: Vec<char> = Vec::new();
    let mut i: usize = 0;
    assert(s@.skip(0) =~= s@);
    assert(views(out@) =~= seq![]);
    while i < s.len()
        invariant
            i <= s.len(),
            views(out@) + lines_acc(s@.skip(i as int), cur@) == lines(s@),
        decreases s.len() - i,
    {
        let ghost rest = s@.skip(i as int);
        assert(rest[0] == s@[i as int]);
        assert(rest.drop_first() =~= s@.skip(i as int + 1));
        if s[i] == '\n' {
            let l = if cur.len() > 0 && cur[cur.len() - 1] == '\r' {
                slice_of(cur.as_slice(), 0, cur.len() - 1)
            } else {
                cur.clone()
            };
            assert(l@ =~= strip_cr(cur@));
            proof {
                lemma_views_push(out@, l);
            }
            out.push(l);
            cur = Vec::new();
            assert(views(out@) + lines_acc(s@.skip(i as int + 1), cur@) =~= lines(s@));
        } else {
            cur.push(s[i]);
        }
        i = i + 1;
    }
    assert(s@.skip(i as int).len() == 0);
    if cur.len() > 0 {
        proof {
            lemma_views_push(out@, cur);
        }
        out.push(cur);
        assert(views(out@) =~= lines(s@));
    } else {
        assert(views(out@) =~= lines(s@));
    }
    out
}

/// The words of `s`, as `str::split_whitespace` yields them.
pub fn words_of(s: &[char]) -> (r: Vec<Vec<char>>)
    ensures
        views(r@) == words(s@),
{
    let mut out: Vec<Vec<char>> = Vec::new();
    let mut cur: Vec<char> = Vec::new();
    let mut i: usize = 0;
    assert(s@.skip(0) =~= s@);
    assert(views(out@) =~= seq![]);
    while i < s.len()
        invariant
            i <= s.len(),
            views(out@) + words_acc(s@.skip(i as int), cur@) == words(s@),
        decreases s.len() - i,
    {
        let ghost rest = s@.skip(i as int);
        assert(rest[0] == s@[i as int]);
        assert(rest.drop_first() =~= s@.skip(i as int + 1));
        if is_ws(s[i]) {
            if cur.len() > 0 {
                proof {
                    lemma_views_push(out@, cur);
                }
                out.push(cur);
                cur = Vec::new();
                assert(views(out@) + words_acc(s@.skip(i as int + 1), cur@) =~= words(s@));
            } else {
                let ghost e: Seq<Seq<char>> = seq![];
                assert(cur@ =~= Seq::<char>::empty());
                assert(e + words_acc(s@.skip(i as int + 1), seq![]) =~= words_acc(s@.skip(i as int + 1), seq![]));
                assert(views(out@) + words_acc(s@.skip(i as int + 1), cur@) =~= words(s@));
            }
        } else {
            cur.push(s[i]);
        }
        i = i + 1;
    }
    if cur.len() > 0 {
        proof {
            lemma_views_push(out@, cur);
        }
        out.push(cur);
        assert(views(out@) =~= words(s@));
    } else {
        assert(views(out@) =~= words(s@));
    }
    out
}

/// The parts joined, with `sep` between each two.
pub fn join_of(parts: &Vec<Vec<char>>, sep: &[char]) -> (r: Vec<char>)
    ensures
        r@ == join(views(parts@), sep@),
{
    let mut out: Vec<char> = Vec::new();
    let mut i: usize = 0;
    while i < parts.len()
        invariant
            i <= parts.len(),
            out@ == join(views(parts@).take(i as int), sep@),
        decreases parts.len() - i,
    {
        let ghost prev = views(parts@).take(i as int);
        let ghost next = views(parts@).take(i as int + 1);
        assert(next.drop_last() =~= prev);
        if i > 0 {
            append(&mut out, sep);
        }
        append(&mut out, parts[i].as_slice());
        proof {
            if i == 0 {
                assert(out@ =~= join(next, sep@));
            } else {
                assert(out@ =~= join(next, sep@));
            }
        }
        i = i + 1;
    }
    assert(views(parts@).take(i as int) =~= views(parts@));
    out
}

/// `s` with every run of whitespace made one space, and none at the ends.
pub fn one_line_of(s: &[char]) -> (r: Vec<char>)
    ensures
        r@ == one_line(s@),
{
    let w = words_of(s);
    let sep = vec![' '];
    assert(sep@ =~= seq![' ']);
    join_of(&w, sep.as_slice())
}

/// Whether `p` occurs in `s` at `i`.
pub fn occurs_at_of(s: &[char], i: usize, p: &[char]) -> (r: bool)
    ensures
        r == occurs_at(s@, i as int, p@),
{
    if i > s.len() || p.len() > s.len() - i {
        return false;
    }
    let mut k: usize = 0;
    while k < p.len()
        invariant
            i + p.len() <= s.len(),
            k <= p.len(),
            s@.subrange(i as int, i + k) == p@.take(k as int),
        decreases p.len() - k,
    {
        if s[i + k] != p[k] {
            assert(s@.subrange(i as int, i + p.len())[k as int] != p@[k as int]);
            return false;
        }
        k = k + 1;
        assert(s@.subrange(i as int, i + k) =~= p@.take(k as int));
    }
    assert(p@.take(k as int) =~= p@);
    true
}

/// The first place at or after `from` where `p` occurs in `s`.
pub fn find_from_of(s: &[char], p: &[char], from: usize) -> (r: Option<usize>)
    ensures
        r matches Some(i) ==> find_from(s@, p@, from as int) == Some(i as int),
        r is None ==> find_from(s@, p@, from as int) is None,
{
    if from > s.len() {
        return None;
    }
    let mut i = from;
    loop
        invariant
            from <= i <= s.len(),
            find_from(s@, p@, from as int) == find_from(s@, p@, i as int),
        decreases s.len() - i,
    {
        if p.len() > s.len() - i {
            return None;
        }
        if occurs_at_of(s, i, p) {
            return Some(i);
        }
        if i == s.len() {
            assert(occurs_at(s@, i as int, p@)) by {
                assert(s@.subrange(i as int, i as int) =~= p@);
            }
            return None;
        }
        i = i + 1;
    }
}

/// The first place where `p` occurs in `s`.
pub fn find_of(s: &[char], p: &[char]) -> (r: Option<usize>)
    ensures
        r matches Some(i) ==> find(s@, p@) == Some(i as int),
        r is None ==> find(s@, p@) is None,
{
    find_from_of(s, p, 0)
}

/// What comes before and after the first `p` in `s`.
pub fn split_once_of(s: &[char], p: &[char]) -> (r: Option<(Vec<char>, Vec<char>)>)
    ensures
        r matches Some((a, b)) ==> split_once(s@, p@) == Some((a@, b@)),
        r is None ==> split_once(s@, p@) is None,
{
    match find_of(s, p) {
        Some(i) => {
            proof {
                lemma_find_from_occurs(s@, p@, 0);
                assert(occurs_at(s@, i as int, p@));
                assert(i + p@.len() <= s@.len());
            }
            assert(i + p.len() <= s.len());
            let a = slice_of(s, 0, i);
            let b = slice_of(s, i + p.len(), s.len());
            assert(a@ =~= s@.take(i as int));
            assert(b@ =~= s@.skip(i + p.len()));
            Some((a, b))
        },
        None => None,
    }
}

/// Where `find_from` answers, the pattern is there.
pub proof fn lemma_find_from_occurs(s: Seq<char>, p: Seq<char>, i: int)
    ensures
        find_from(s, p, i) matches Some(k) ==> occurs_at(s, k, p) && i <= k,
    decreases s.len() + 1 - i,
{
    if i < 0 || i + p.len() > s.len() {
    } else if occurs_at(s, i, p) {
    } else {
        lemma_find_from_occurs(s, p, i + 1);
    }
}

/// The place of the last `c` in `s`.
pub fn rfind_char_of(s: &[char], c: char) -> (r: Option<usize>)
    ensures
        r matches Some(i) ==> rfind_char(s@, c) == Some(i as int),
        r is None ==> rfind_char(s@, c) is None,
{
    let mut i: usize = s.len();
    assert(s@.take(i as int) =~= s@);
    while i > 0
        invariant
            i <= s.len(),
            rfind_char(s@, c) == rfind_char(s@.take(i as int), c),
        decreases i,
    {
        assert(s@.take(i as int).last() == s@[i - 1]);
        if s[i - 1] == c {
            return Some(i - 1);
        }
        assert(s@.take(i as int).drop_last() =~= s@.take(i - 1));
        i = i - 1;
    }
    None
}

/// What comes before and after the last `c` in `s`.
pub fn rsplit_once_char_of(s: &[char], c: char) -> (r: Option<(Vec<char>, Vec<char>)>)
    ensures
        r matches Some((a, b)) ==> rsplit_once_char(s@, c) == Some((a@, b@)),
        r is None ==> rsplit_once_char(s@, c) is None,
{
    match rfind_char_of(s, c) {
        Some(i) => {
            proof {
                lemma_rfind_char_in_range(s@, c);
            }
            assert(i < s.len());
            let a = slice_of(s, 0, i);
            let b = slice_of(s, i + 1, s.len());
            assert(a@ =~= s@.take(i as int));
            assert(b@ =~= s@.skip(i + 1));
            Some((a, b))
        },
        None => None,
    }
}

/// Where `rfind_char` answers, the character is there.
pub proof fn lemma_rfind_char_in_range(s: Seq<char>, c: char)
    ensures
        rfind_char(s, c) matches Some(i) ==> 0 <= i < s.len() && s[i] == c,
    decreases s.len(),
{
    if s.len() > 0 && s.last() != c {
        lemma_rfind_char_in_range(s.drop_last(), c);
    }
}

/// Whether `s` starts with `p`.
pub fn starts_with_of(s: &[char], p: &[char]) -> (r: bool)
    ensures
        r == starts_with(s@, p@),
{
    let r = occurs_at_of(s, 0, p);
    proof {
        if p.len() <= s.len() {
            assert(s@.subrange(0, p.len() as int) =~= s@.take(p.len() as int));
        }
    }
    r
}

/// `s` without the prefix `p`, when it has it.
pub fn strip_prefix_of(s: &[char], p: &[char]) -> (r: Option<Vec<char>>)
    ensures
        r matches Some(t) ==> strip_prefix(s@, p@) == Some(t@),
        r is None ==> strip_prefix(s@, p@) is None,
{
    if starts_with_of(s, p) {
        let t = slice_of(s, p.len(), s.len());
        assert(t@ =~= s@.skip(p.len() as int));
        Some(t)
    } else {
        None
    }
}

/// Whether `s` ends with `p`.
pub fn ends_with_of(s: &[char], p: &[char]) -> (r: bool)
    ensures
        r == ends_with(s@, p@),
{
    if p.len() > s.len() {
        return false;
    }
    let r = occurs_at_of(s, s.len() - p.len(), p);
    assert(s@.subrange(s.len() - p.len(), s.len() as int) =~= s@.skip(s.len() - p.len()));
    r
}

/// The number of bytes `c` takes in UTF-8.
pub fn utf8_width_of(c: char) -> (n: usize)
    ensures
        n == utf8_width(c),
        1 <= n <= 4,
{
    let u = c as u32;
    if u < 0x80 {
        1
    } else if u < 0x800 {
        2
    } else if u < 0x10000 {
        3
    } else {
        4
    }
}

/// Whether cutting the bytes of `s` at `n` falls between characters.
pub fn clean_cut_of(s: &[char], n: usize) -> (b: bool)
    ensures
        b == cut_is_clean(s@, n as nat),
{
    let mut k: usize = 0;
    let mut used: usize = 0;
    while k < s.len() && used < n
        invariant
            k <= s.len(),
            used <= n,
            used == utf8_len(s@.take(k as int)),
            forall|j: int| 0 <= j < k ==> #[trigger] utf8_len(s@.take(j)) < n,
        decreases s.len() - k,
    {
        let w = utf8_width_of(s[k]);
        assert(s@.take(k as int + 1).drop_last() =~= s@.take(k as int));
        if w > n - used {
            proof {
                assert forall|j: int| 0 <= j <= s.len() implies #[trigger] utf8_len(s@.take(j)) != n by {
                    if j > k {
                        lemma_utf8_len_nonneg_prefix(s@.take(j), k as int + 1);
                        assert(s@.take(j).take(k as int + 1) =~= s@.take(k as int + 1));
                    }
                }
                lemma_utf8_len_nonneg_prefix(s@, k as int + 1);
            }
            return false;
        }
        used = used + w;
        k = k + 1;
    }
    proof {
        if used == n {
            assert(utf8_len(s@.take(k as int)) == n);
        } else {
            assert(s@.take(k as int) =~= s@);
        }
    }
    true
}

/// The longest prefix of `s` that takes at most `n` bytes: what `&s[..n]` gives
/// when `n` falls between characters.
pub fn byte_prefix_of(s: &[char], n: usize) -> (r: Vec<char>)
    ensures
        r@ == byte_prefix(s@, n as nat),
{
    let mut k: usize = 0;
    let mut used: usize = 0;
    while k < s.len() && utf8_width_of(s[k]) <= n - used
        invariant
            k <= s.len(),
            used <= n,
            used == utf8_len(s@.take(k as int)),
        decreases s.len() - k,
    {
        let w = utf8_width_of(s[k]);
        assert(s@.take(k as int + 1).drop_last() =~= s@.take(k as int));
        used = used + w;
        k = k + 1;
    }
    proof {
        if k < s.len() {
            assert(s@.take(k as int + 1).drop_last() =~= s@.take(k as int));
        }
        lemma_byte_prefix_take(s@, n as nat, k as int);
    }
    slice_of(s, 0, k)
}

proof fn lemma_utf8_len_monotone(s: Seq<char>, a: int, b: int)
    requires
        0 <= a <= b <= s.len(),
    ensures
        utf8_len(s.take(a)) <= utf8_len(s.take(b)),
    decreases b - a,
{
    if a < b {
        lemma_utf8_len_monotone(s, a, b - 1);
        assert(s.take(b).drop_last() =~= s.take(b - 1));
    }
}

proof fn lemma_byte_prefix_take(s: Seq<char>, n: nat, k: int)
    requires
        0 <= k <= s.len(),
        utf8_len(s.take(k)) <= n,
        k == s.len() || utf8_len(s.take(k + 1)) > n,
    ensures
        byte_prefix(s, n) == s.take(k),
    decreases s.len(),
{
    if utf8_len(s) <= n {
        if k < s.len() {
            lemma_utf8_len_monotone(s, k + 1, s.len() as int);
            assert(s.take(s.len() as int) =~= s);
        }
        assert(s.take(k) =~= s);
    } else {
        assert(s.take(s.len() as int) =~= s);
        if k == s.len() {
        } else {
            let t = s.drop_last();
            assert(t.take(k) =~= s.take(k));
            if k < t.len() {
                assert(t.take(k + 1) =~= s.take(k + 1));
            }
            lemma_byte_prefix_take(t, n, k);
        }
    }
}

/// The last place where `p` occurs in `s`.
pub fn rfind_of(s: &[char], p: &[char]) -> (r: Option<usize>)
    ensures
        r matches Some(i) ==> rfind(s@, p@) == Some(i as int),
        r is None ==> rfind(s@, p@) is None,
{
    if p.len() > s.len() {
        return None;
    }
    let mut i = s.len() - p.len();
    loop
        invariant
            i + p.len() <= s.len(),
            rfind(s@, p@) == rfind_upto(s@, p@, i as int),
        decreases i,
    {
        if occurs_at_of(s, i, p) {
            return Some(i);
        }
        if i == 0 {
            assert(rfind_upto(s@, p@, -1) is None);
            return None;
        }
        i = i - 1;
    }
}

/// What `rfind_upto` answers: an occurrence, with none after it up to `i`.
pub proof fn lemma_rfind_upto(s: Seq<char>, p: Seq<char>, i: int)
    ensures
        rfind_upto(s, p, i) matches Some(k) ==> 0 <= k <= i && occurs_at(s, k, p) && forall|j: int|
            k < j <= i ==> !occurs_at(s, j, p),
        rfind_upto(s, p, i) is None ==> forall|j: int| 0 <= j <= i ==> !occurs_at(s, j, p),
    decreases i + 1,
{
    if i >= 0 && !occurs_at(s, i, p) {
        lemma_rfind_upto(s, p, i - 1);
    }
}

/// What `rfind` answers: the last occurrence.
pub proof fn lemma_rfind(s: Seq<char>, p: Seq<char>)
    ensures
        rfind(s, p) matches Some(k) ==> occurs_at(s, k, p) && forall|j: int|
            k < j ==> !occurs_at(s, j, p),
        rfind(s, p) is None ==> forall|j: int| !occurs_at(s, j, p),
{
    lemma_rfind_upto(s, p, s.len() - p.len());
}

/// `rfind_upto` finds the last occurrence at or before `i`.
pub proof fn lemma_rfind_last_at(s: Seq<char>, p: Seq<char>, k: int)
    requires
        occurs_at(s, k, p),
        forall|j: int| k < j ==> !occurs_at(s, j, p),
    ensures
        rfind(s, p) == Some(k),
{
    lemma_rfind_upto_at(s, p, k, s.len() - p.len());
}

proof fn lemma_rfind_upto_at(s: Seq<char>, p: Seq<char>, k: int, i: int)
    requires
        occurs_at(s, k, p),
        k <= i,
        forall|j: int| k < j <= i ==> !occurs_at(s, j, p),
    ensures
        rfind_upto(s, p, i) == Some(k),
    decreases i - k,
{
    if i > k {
        lemma_rfind_upto_at(s, p, k, i - 1);
    }
}

/// `find_from` answers an occurrence at or after `i`, with none between.
pub proof fn lemma_find_from(s: Seq<char>, p: Seq<char>, i: int)
    requires
        0 <= i,
    ensures
        find_from(s, p, i) matches Some(k) ==> i <= k && occurs_at(s, k, p) && forall|j: int|
            i <= j < k ==> !occurs_at(s, j, p),
        find_from(s, p, i) is None ==> forall|j: int| i <= j ==> !occurs_at(s, j, p),
    decreases s.len() + 1 - i,
{
    if i + p.len() <= s.len() && !occurs_at(s, i, p) {
        lemma_find_from(s, p, i + 1);
    }
}

/// Whether two strings hold the same characters.
pub fn same_text(a: &str, b: &str) -> (r: bool)
    ensures
        r == (a@ == b@),
{
    let v = chars_of(a);
    same_str(v.as_slice(), b)
}

/// How many times `p` occurs in `s`, without overlapping.
pub fn count_matches_of(s: &[char], p: &[char]) -> (r: usize)
    requires
        p.len() > 0,
    ensures
        r == count_matches(s@, p@),
{
    let mut count: usize = 0;
    let mut i: usize = 0;
    assert(s@.skip(0) =~= s@);
    while i < s.len()
        invariant
            i <= s.len(),
            p@.len() > 0,
            count <= i,
            count + count_matches(s@.skip(i as int), p@) == count_matches(s@, p@),
        decreases s.len() - i,
    {
        let ghost t = s@.skip(i as int);
        let hit = occurs_at_of(s, i, p);
        assert(hit == starts_with(t, p@)) by {
            if i + p@.len() <= s@.len() {
                assert(t.take(p@.len() as int) =~= s@.subrange(i as int, i + p@.len()));
            }
        }
        if hit {
            assert(t.skip(p@.len() as int) =~= s@.skip(i + p@.len()));
            count = count + 1;
            i = i + p.len();
        } else {
            assert(t.drop_first() =~= s@.skip(i + 1));
            i = i + 1;
        }
    }
    assert(s@.skip(i as int) =~= Seq::<char>::empty());
    count
}

// ─── order ──────────────────────────────────────────────────────────────────

/// `a` comes before `b` in the order of `String`'s `Ord`: character by character
/// (UTF-8 bytes compare as code points do), a prefix first.
pub open spec fn lex_lt(a: Seq<char>, b: Seq<char>) -> bool
    decreases a.len(),
{
    if b.len() == 0 {
        false
    } else if a.len() == 0 {
        true
    } else if a[0] < b[0] {
        true
    } else if a[0] == b[0] {
        lex_lt(a.drop_first(), b.drop_first())
    } else {
        false
    }
}

/// Nothing comes before itself.
pub proof fn lemma_lex_irreflexive(a: Seq<char>)
    ensures
        !lex_lt(a, a),
    decreases a.len(),
{
    if a.len() > 0 {
        lemma_lex_irreflexive(a.drop_first());
    }
}

/// Of two different texts, one comes before the other, and not both ways.
pub proof fn lemma_lex_total(a: Seq<char>, b: Seq<char>)
    ensures
        a != b ==> lex_lt(a, b) || lex_lt(b, a),
        !(lex_lt(a, b) && lex_lt(b, a)),
    decreases a.len(),
{
    if a.len() > 0 && b.len() > 0 && a[0] == b[0] {
        lemma_lex_total(a.drop_first(), b.drop_first());
        if a != b {
            assert(a =~= seq![a[0]] + a.drop_first());
            assert(b =~= seq![b[0]] + b.drop_first());
        }
    } else if a.len() == 0 && b.len() == 0 {
        assert(a =~= b);
    }
}

/// The order is transitive.
pub proof fn lemma_lex_transitive(a: Seq<char>, b: Seq<char>, c: Seq<char>)
    requires
        lex_lt(a, b),
        lex_lt(b, c),
    ensures
        lex_lt(a, c),
    decreases a.len(),
{
    if a.len() > 0 && b.len() > 0 && c.len() > 0 && a[0] == b[0] && b[0] == c[0] {
        lemma_lex_transitive(a.drop_first(), b.drop_first(), c.drop_first());
    }
}

/// Whether `a` comes before `b`.
pub fn lex_lt_of(a: &[char], b: &[char]) -> (r: bool)
    ensures
        r == lex_lt(a@, b@),
{
    let mut i: usize = 0;
    assert(a@.skip(0) =~= a@);
    assert(b@.skip(0) =~= b@);
    while i < a.len() && i < b.len() && a[i] == b[i]
        invariant
            i <= a.len(),
            i <= b.len(),
            a@.take(i as int) == b@.take(i as int),
            lex_lt(a@, b@) == lex_lt(a@.skip(i as int), b@.skip(i as int)),
        decreases a.len() - i,
    {
        assert(a@.skip(i as int).drop_first() =~= a@.skip(i as int + 1));
        assert(b@.skip(i as int).drop_first() =~= b@.skip(i as int + 1));
        assert(a@.take(i as int + 1) =~= a@.take(i as int).push(a@[i as int]));
        assert(b@.take(i as int + 1) =~= b@.take(i as int).push(b@[i as int]));
        i = i + 1;
    }
    if i == b.len() {
        false
    } else if i == a.len() {
        true
    } else {
        a[i] < b[i]
    }
}

/// Whether the texts are in strictly increasing order.
pub open spec fn strictly_sorted(v: Seq<Seq<char>>) -> bool {
    forall|i: int, j: int| 0 <= i < j < v.len() ==> lex_lt(#[trigger] v[i], #[trigger] v[j])
}

/// `x` put into a strictly sorted list of strings, where it is not already.
pub fn insert_unique(v: &mut Vec<String>, x: String)
    requires
        strictly_sorted(old(v)@.map_values(|s: String| s@)),
    ensures
        strictly_sorted(final(v)@.map_values(|s: String| s@)),
        final(v)@.map_values(|s: String| s@).to_set() == old(v)@.map_values(|s: String| s@).to_set().insert(x@),
{
    let ghost vs = v@.map_values(|s: String| s@);
    let xv = chars_of(x.as_str());
    let mut i: usize = 0;
    loop
        invariant_except_break
            i <= v.len(),
            xv@ == x@,
            vs == v@.map_values(|s: String| s@),
            forall|k: int| 0 <= k < i ==> lex_lt(#[trigger] vs[k], x@),
        ensures
            i <= v.len(),
            xv@ == x@,
            vs == v@.map_values(|s: String| s@),
            forall|k: int| 0 <= k < i ==> lex_lt(#[trigger] vs[k], x@),
            i < v.len() ==> !lex_lt(vs[i as int], x@),
        decreases v.len() - i,
    {
        if i >= v.len() {
            break;
        }
        let e = chars_of(v[i].as_str());
        assert(vs[i as int] == v@[i as int]@);
        if !lex_lt_of(e.as_slice(), xv.as_slice()) {
            break;
        }
        i = i + 1;
    }
    proof {
        if i < v.len() {
            assert(vs[i as int] == v@[i as int]@);
        }
    }
    if i < v.len() {
        let e = chars_of(v[i].as_str());
        if same(e.as_slice(), xv.as_slice()) {
            assert(vs.to_set().insert(x@) =~= vs.to_set()) by {
                assert(vs.contains(x@)) by {
                    assert(vs[i as int] == x@);
                }
            }
            return;
        }
    }
    let ghost before = v@;
    v.insert(i, x);
    proof {
        let w = v@.map_values(|s: String| s@);
        assert(w =~= vs.insert(i as int, x@));
        if i < vs.len() {
            lemma_lex_total(vs[i as int], x@);
        }
        assert forall|a: int, b: int| 0 <= a < b < w.len() implies lex_lt(#[trigger] w[a], #[trigger] w[b]) by {
            if b < i {
                assert(w[a] == vs[a] && w[b] == vs[b]);
            } else if b == i {
                assert(w[a] == vs[a]);
            } else if a == i {
                assert(w[b] == vs[b - 1]);
                if b - 1 > i {
                    lemma_lex_transitive(x@, vs[i as int], vs[b - 1]);
                }
            } else if a < i {
                assert(w[a] == vs[a] && w[b] == vs[b - 1]);
            } else {
                assert(w[a] == vs[a - 1] && w[b] == vs[b - 1]);
            }
        }
        assert(w.to_set() =~= vs.to_set().insert(x@)) by {
            assert forall|y: Seq<char>| #[trigger] w.to_set().contains(y) implies vs.to_set().insert(x@).contains(y) by {
                assert(w.contains(y));
                let k = choose|k: int| 0 <= k < w.len() && w[k] == y;
                if k < i {
                    assert(vs[k] == y);
                } else if k > i {
                    assert(vs[k - 1] == y);
                }
            }
            assert forall|y: Seq<char>| vs.to_set().insert(x@).contains(y) implies #[trigger] w.to_set().contains(y) by {
                if y == x@ {
                    assert(w[i as int] == y);
                } else {
                    assert(vs.contains(y));
                    let k = choose|k: int| 0 <= k < vs.len() && vs[k] == y;
                    if k < i {
                        assert(w[k] == y);
                    } else {
                        assert(w[k + 1] == y);
                    }
                }
            }
        }
    }
}

} // verus!
