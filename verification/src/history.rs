//! `bilinker history`: what happened to a bilink.
//!
//! The other commands look at the present; this one looks at the ref, where the
//! record of decisions lives. **It persists nothing new: it builds a view.**
use vstd::prelude::*;

use crate::bilink_ref::Act;
use crate::refmsg::{ReadView, command_line, read_text};
use crate::text::{
    append_str, chars_of, join, join_of, rsplit_once_char, rsplit_once_char_of, same_text, split_once,
    split_once_of, string_of, strip_prefix, strip_prefix_of, trim, trim_of, views,
};

verus! {

/// One act on a bilink.
pub struct Deed {
    pub commit: String,
    pub author: String,
    pub date: String,
    /// `absorción` · `decisión` · `sincronización` · `corte`, or `?` where it could
    /// not be decided. It comes from the parents, not from the message.
    pub kind: String,
    /// The canonical command. **`None` on an act from before the grammar**, and it
    /// stays `None`: guessing it from free text would forge precision.
    pub command: Option<String>,
    /// The project commit it was computed against.
    pub against: Option<String>,
    pub changes: Vec<Change>,
}

/// What changed of an endpoint, field by field.
pub struct Change {
    pub n: u8,
    pub field: &'static str,
    pub before: Option<String>,
    pub after: Option<String>,
    /// For a change of `link`: both captures, read from the tree of **this** commit,
    /// so they can still be read after `prune` removed them.
    pub captures: Vec<CaptureView>,
}

/// A capture as a commit's tree holds it.
pub struct CaptureView {
    pub id: String,
    pub file: String,
    pub query: Option<String>,
}

/// The view of a bilink's acts.
pub struct History {
    pub uuid: String,
    pub path: String,
    /// `false` in a repo that did not cut over yet: the history comes from the
    /// project's branch and **does not include** the acts the ref would record.
    pub from_ref: bool,
    pub deeds: Vec<Deed>,
}

/// What an endpoint held at a commit: the proposed location, and what was
/// approved.
pub struct EndpointRecord {
    pub link: String,
    pub accepted: Option<AcceptedRecord>,
}

/// An `accepted` block as a commit's tree holds it.
pub struct AcceptedRecord {
    pub link: Option<String>,
    pub hash: String,
    pub hash_ast: Option<String>,
    pub agree: Vec<String>,
}

// ─── the target ──────────────────────────────────────────────────────────────

/// The index of an endpoint is `0` or `1`.
#[derive(Debug, Clone, PartialEq, Eq)]
pub struct NotAnEndpoint {
    pub index: String,
}

impl NotAnEndpoint {
    /// What the error says.
    pub fn message(&self) -> (r: String)
        ensures
            r@ == "'"@ + self.index@ + "' no es un índice de endpoint: son 0 o 1"@,
    {
        let mut out: Vec<char> = Vec::new();
        append_str(&mut out, "'");
        append_str(&mut out, self.index.as_str());
        append_str(&mut out, "' no es un índice de endpoint: son 0 o 1");
        string_of(out.as_slice())
    }
}

/// Every character is an ASCII digit (true of the empty text).
pub open spec fn ascii_digits(s: Seq<char>) -> bool {
    forall|i: int| 0 <= i < s.len() ==> '0' <= #[trigger] s[i] && s[i] <= '9'
}

/// `<uuid>` or `<uuid>.<N>`: a tail after the last `.` made of digits has to be
/// `0` or `1`.
pub open spec fn target_of(t: Seq<char>) -> Result<(Seq<char>, Option<u8>), Seq<char>> {
    match rsplit_once_char(t, '.') {
        Some((u, i)) => if i == "0"@ {
            Ok((u, Some(0u8)))
        } else if i == "1"@ {
            Ok((u, Some(1u8)))
        } else if ascii_digits(i) {
            Err(i)
        } else {
            Ok((t, None))
        },
        None => Ok((t, None)),
    }
}

/// Reads `<uuid>` or `<uuid>.<N>`.
pub fn parse_target(target: &str) -> (r: Result<(String, Option<u8>), NotAnEndpoint>)
    ensures
        match target_of(target@) {
            Ok((u, n)) => r matches Ok((s, m)) && s@ == u && m == n,
            Err(i) => r matches Err(e) && e.index@ == i,
        },
{
    let t = chars_of(target);
    match rsplit_once_char_of(t.as_slice(), '.') {
        Some((u, i)) => {
            let is = string_of(i.as_slice());
            if same_text(is.as_str(), "0") {
                Ok((string_of(u.as_slice()), Some(0)))
            } else if same_text(is.as_str(), "1") {
                Ok((string_of(u.as_slice()), Some(1)))
            } else {
                let mut k: usize = 0;
                while k < i.len()
                    invariant
                        k <= i.len(),
                        t@ == target@,
                        rsplit_once_char(target@, '.') == Some((u@, i@)),
                        is@ == i@,
                        i@ != "0"@,
                        i@ != "1"@,
                        forall|j: int| 0 <= j < k ==> '0' <= #[trigger] i@[j] && i@[j] <= '9',
                    decreases i.len() - k,
                {
                    if !('0' <= i[k] && i[k] <= '9') {
                        assert(!ascii_digits(i@));
                        return Ok((crate::text::owned(target), None));
                    }
                    k = k + 1;
                }
                Err(NotAnEndpoint { index: is })
            }
        },
        None => Ok((crate::text::owned(target), None)),
    }
}

// ─── one act ─────────────────────────────────────────────────────────────────

/// The author, the date and the message of `git log -1 --format=%an%x00%aI%x00%B`:
/// split on the first two NULs, the first two trimmed.
pub open spec fn meta_of(meta: Seq<char>) -> (Seq<char>, Seq<char>, Seq<char>) {
    match split_once(meta, seq!['\0']) {
        None => (trim(meta), seq![], seq![]),
        Some((a, rest)) => match split_once(rest, seq!['\0']) {
            None => (trim(a), trim(rest), seq![]),
            Some((d, m)) => (trim(a), trim(d), m),
        },
    }
}

/// The author, the date and the message of a commit.
pub fn meta_fields(meta: &str) -> (r: (String, String, String))
    ensures
        (r.0@, r.1@, r.2@) == meta_of(meta@),
{
    let all = chars_of(meta);
    let nul = vec!['\0'];
    assert(nul@ =~= seq!['\0']);
    match split_once_of(all.as_slice(), nul.as_slice()) {
        None => (string_of(trim_of(all.as_slice()).as_slice()), String::new(), String::new()),
        Some((a, rest)) => match split_once_of(rest.as_slice(), nul.as_slice()) {
            None => (
                string_of(trim_of(a.as_slice()).as_slice()),
                string_of(trim_of(rest.as_slice()).as_slice()),
                String::new(),
            ),
            Some((d, m)) => (
                string_of(trim_of(a.as_slice()).as_slice()),
                string_of(trim_of(d.as_slice()).as_slice()),
                string_of(m.as_slice()),
            ),
        },
    }
}

/// The kind of an act: on the ref, what its parents make it (`?` where they could
/// not be read); off the ref, a plain `commit`.
pub fn kind_of(from_ref: bool, act: Option<&Act>) -> (r: &'static str)
    ensures
        r@ == if !from_ref {
            "commit"@
        } else {
            match act {
                Some(Act::Absorption { .. }) => "absorción"@,
                Some(Act::Decision) => "decisión"@,
                Some(Act::Synchronization) => "sincronización"@,
                Some(Act::Cut { .. }) => "corte"@,
                None => "?"@,
            }
        },
{
    if !from_ref {
        return "commit";
    }
    match act {
        Some(Act::Absorption { .. }) => "absorción",
        Some(Act::Decision) => "decisión",
        Some(Act::Synchronization) => "sincronización",
        Some(Act::Cut { .. }) => "corte",
        None => "?",
    }
}

/// **The command is not guessed.** The canonical line of a message that parses
/// under the grammar; nothing for one from before it, or one that does not parse.
pub fn command_of_message(message: &str) -> (r: Option<String>)
    ensures
        match read_text(message@) {
            Ok(ReadView::Parsed(m)) => r matches Some(s) && s@ == command_line(m.command),
            _ => r is None,
        },
{
    match crate::refmsg::read(message) {
        Ok(crate::refmsg::Read::Parsed(m)) => {
            proof {
                crate::refmsg::lemma_read_command_writable(message@);
            }
            Some(m.command.line())
        },
        _ => None,
    }
}

// ─── what changed ────────────────────────────────────────────────────────────

/// A change, as texts.
pub open spec fn change_view(c: Change) -> (u8, Seq<char>, Option<Seq<char>>, Option<Seq<char>>) {
    (c.n, c.field@, opt(c.before), opt(c.after))
}

pub open spec fn opt(o: Option<String>) -> Option<Seq<char>> {
    match o {
        Some(s) => Some(s@),
        None => None,
    }
}

/// The names of `agree`, joined by `, `.
pub open spec fn agree_text(a: AcceptedRecord) -> Seq<char> {
    join(a.agree@.map_values(|s: String| s@), ", "@)
}

/// A field, only where it differs.
pub open spec fn kept(n: u8, field: Seq<char>, before: Option<Seq<char>>, after: Option<Seq<char>>) -> Seq<
    (u8, Seq<char>, Option<Seq<char>>, Option<Seq<char>>),
> {
    if before == after {
        seq![]
    } else {
        seq![(n, field, before, after)]
    }
}

/// What changed of endpoint `n`, from what it held before (`None`: there was no
/// bilink) to what it holds: the proposed location, then the approved one, the
/// hashes and who agreed. **`link` and `accepted.link` are the two dimensions**:
/// when a location was proposed and when it was approved.
pub open spec fn endpoint_changes(n: u8, b: Option<EndpointRecord>, a: EndpointRecord) -> Seq<
    (u8, Seq<char>, Option<Seq<char>>, Option<Seq<char>>),
> {
    let ba: Option<AcceptedRecord> = match b {
        Some(e) => e.accepted,
        None => None,
    };
    let aa = a.accepted;
    kept(n, "link"@, match b {
        Some(e) => Some(e.link@),
        None => None,
    }, Some(a.link@)) + kept(n, "accepted.link"@, match ba {
        Some(x) => opt(x.link),
        None => None,
    }, match aa {
        Some(x) => opt(x.link),
        None => None,
    }) + kept(n, "hash"@, match ba {
        Some(x) => Some(x.hash@),
        None => None,
    }, match aa {
        Some(x) => Some(x.hash@),
        None => None,
    }) + kept(n, "hash_ast"@, match ba {
        Some(x) => opt(x.hash_ast),
        None => None,
    }, match aa {
        Some(x) => opt(x.hash_ast),
        None => None,
    }) + kept(n, "agree"@, match ba {
        Some(x) => Some(agree_text(x)),
        None => None,
    }, match aa {
        Some(x) => Some(agree_text(x)),
        None => None,
    })
}

/// What a field of an endpoint holds (`None`: there is no endpoint, or no approved
/// block for a field of it): the proposed location, the approved one, the approved
/// hashes, and the names that agreed, joined by `, `.
pub open spec fn field_of(e: Option<EndpointRecord>, f: Seq<char>) -> Option<Seq<char>> {
    let acc: Option<AcceptedRecord> = match e {
        Some(x) => x.accepted,
        None => None,
    };
    if f == "link"@ {
        match e {
            Some(x) => Some(x.link@),
            None => None,
        }
    } else if f == "accepted.link"@ {
        match acc {
            Some(x) => opt(x.link),
            None => None,
        }
    } else if f == "hash"@ {
        match acc {
            Some(x) => Some(x.hash@),
            None => None,
        }
    } else if f == "hash_ast"@ {
        match acc {
            Some(x) => opt(x.hash_ast),
            None => None,
        }
    } else if f == "agree"@ {
        match acc {
            Some(x) => Some(agree_text(x)),
            None => None,
        }
    } else {
        None
    }
}

/// The fields a diff looks at.
pub open spec fn diff_field(f: Seq<char>) -> bool {
    f == "link"@ || f == "accepted.link"@ || f == "hash"@ || f == "hash_ast"@ || f == "agree"@
}

proof fn lemma_field_names_differ()
    ensures
        "link"@ != "accepted.link"@,
        "link"@ != "hash"@,
        "link"@ != "hash_ast"@,
        "link"@ != "agree"@,
        "accepted.link"@ != "hash"@,
        "accepted.link"@ != "hash_ast"@,
        "accepted.link"@ != "agree"@,
        "hash"@ != "hash_ast"@,
        "hash"@ != "agree"@,
        "hash_ast"@ != "agree"@,
{
    reveal_strlit("link");
    reveal_strlit("accepted.link");
    reveal_strlit("hash");
    reveal_strlit("hash_ast");
    reveal_strlit("agree");
    assert("link"@[0] != "hash"@[0]);
    assert("link"@[0] != "agree"@[0]);
    assert("hash"@[0] != "agree"@[0]);
    assert("accepted.link"@[1] != "hash_ast"@[1]);
    assert("accepted.link"@[1] != "agree"@[1]);
    assert("hash"@.len() != "hash_ast"@.len());
    assert("link"@.len() != "accepted.link"@.len());
    assert("link"@.len() != "hash_ast"@.len());
    assert("accepted.link"@.len() != "hash"@.len());
    assert("hash_ast"@.len() != "agree"@.len());
}

/// **The changes of an endpoint are exactly its fields that differ.** For each of
/// `link`, `accepted.link`, `hash`, `hash_ast` and `agree`: where what the field
/// held before differs from what it holds after, the changes list that field with
/// both values; where they are equal, they do not list it. Every change is of
/// endpoint `n` and of one of these fields.
pub proof fn lemma_changes_are_the_fields_that_differ(n: u8, b: Option<EndpointRecord>, a: EndpointRecord, f: Seq<char>)
    requires
        diff_field(f),
    ensures
        field_of(b, f) != field_of(Some(a), f) ==> endpoint_changes(n, b, a).contains(
            (n, f, field_of(b, f), field_of(Some(a), f)),
        ),
        forall|k: int|
            0 <= k < endpoint_changes(n, b, a).len() && (#[trigger] endpoint_changes(n, b, a)[k]).1 == f
                ==> field_of(b, f) != field_of(Some(a), f) && endpoint_changes(n, b, a)[k] == (
                n,
                f,
                field_of(b, f),
                field_of(Some(a), f),
            ),
        forall|k: int|
            0 <= k < endpoint_changes(n, b, a).len() ==> (#[trigger] endpoint_changes(n, b, a)[k]).0 == n
                && diff_field(endpoint_changes(n, b, a)[k].1),
{
    lemma_field_names_differ();
    let names = seq!["link"@, "accepted.link"@, "hash"@, "hash_ast"@, "agree"@];
    let parts = Seq::new(5, |i: int| kept(n, names[i], field_of(b, names[i]), field_of(Some(a), names[i])));
    let d = endpoint_changes(n, b, a);
    assert(d =~= parts[0] + parts[1] + parts[2] + parts[3] + parts[4]);
    let target = (n, f, field_of(b, f), field_of(Some(a), f));
    let fi: int = if f == "link"@ {
        0
    } else if f == "accepted.link"@ {
        1
    } else if f == "hash"@ {
        2
    } else if f == "hash_ast"@ {
        3
    } else {
        4
    };
    assert(names[fi] == f);
    let pre = if fi == 0 {
        0int
    } else if fi == 1 {
        parts[0].len() as int
    } else if fi == 2 {
        (parts[0].len() + parts[1].len()) as int
    } else if fi == 3 {
        (parts[0].len() + parts[1].len() + parts[2].len()) as int
    } else {
        (parts[0].len() + parts[1].len() + parts[2].len() + parts[3].len()) as int
    };
    if field_of(b, f) != field_of(Some(a), f) {
        assert(parts[fi] == seq![target]);
        assert(d[pre] == target);
    }
    assert forall|k: int| 0 <= k < d.len() implies (#[trigger] d[k]).0 == n && diff_field(d[k].1) && (d[k].1 == f
        ==> field_of(b, f) != field_of(Some(a), f) && d[k] == target) by {
        let l0 = parts[0].len() as int;
        let l1: int = l0 + parts[1].len();
        let l2: int = l1 + parts[2].len();
        let l3: int = l2 + parts[3].len();
        let j: int = if k < l0 {
            0
        } else if k < l1 {
            1
        } else if k < l2 {
            2
        } else if k < l3 {
            3
        } else {
            4
        };
        let at: int = if j == 0 {
            k
        } else if j == 1 {
            k - l0
        } else if j == 2 {
            k - l1
        } else if j == 3 {
            k - l2
        } else {
            k - l3
        };
        assert(d[k] == parts[j][at]);
        assert(parts[j].len() <= 1);
        assert(at == 0);
        assert(d[k] == (n, names[j], field_of(b, names[j]), field_of(Some(a), names[j])));
        assert(field_of(b, names[j]) != field_of(Some(a), names[j]));
    }
}

/// What a diff lists: the changes of endpoint 0, then of endpoint 1, each only
/// where asked for.
pub open spec fn diff_changes(
    before: Option<(EndpointRecord, EndpointRecord)>,
    after: (EndpointRecord, EndpointRecord),
    only: Option<u8>,
) -> Seq<(u8, Seq<char>, Option<Seq<char>>, Option<Seq<char>>)> {
    (if only is None || only == Some(0u8) {
        endpoint_changes(0, match before {
            Some(p) => Some(p.0),
            None => None,
        }, after.0)
    } else {
        seq![]
    }) + (if only is None || only == Some(1u8) {
        endpoint_changes(1, match before {
            Some(p) => Some(p.1),
            None => None,
        }, after.1)
    } else {
        seq![]
    })
}

/// Endpoint `n` of a pair.
pub open spec fn nth(p: (EndpointRecord, EndpointRecord), n: u8) -> EndpointRecord {
    if n == 0 {
        p.0
    } else {
        p.1
    }
}

/// **A diff lists, for each endpoint asked for, exactly the fields that changed.**
/// Where endpoint `n` is asked for (no endpoint named, or `n` named) and one of
/// `link`, `accepted.link`, `hash`, `hash_ast`, `agree` held something else before
/// than after — a re-accepted content's hash, say — the diff lists
/// `(n, field, before, after)`; and any entry it has for that endpoint and field is
/// that one, listed only where the values differ and the endpoint was asked for.
pub proof fn lemma_diff_lists_each_changed_field(
    before: Option<(EndpointRecord, EndpointRecord)>,
    after: (EndpointRecord, EndpointRecord),
    only: Option<u8>,
    n: u8,
    f: Seq<char>,
)
    requires
        n == 0 || n == 1,
        diff_field(f),
    ensures
        ({
            let bn = match before {
                Some(p) => Some(nth(p, n)),
                None => None,
            };
            let an = nth(after, n);
            let d = diff_changes(before, after, only);
            &&& (only is None || only == Some(n)) && field_of(bn, f) != field_of(Some(an), f) ==> d.contains(
                (n, f, field_of(bn, f), field_of(Some(an), f)),
            )
            &&& forall|k: int|
                0 <= k < d.len() && (#[trigger] d[k]).0 == n && d[k].1 == f ==> (only is None || only == Some(n))
                    && field_of(bn, f) != field_of(Some(an), f) && d[k] == (n, f, field_of(bn, f), field_of(Some(an), f))
        }),
{
    let b0 = match before {
        Some(p) => Some(p.0),
        None => None,
    };
    let b1 = match before {
        Some(p) => Some(p.1),
        None => None,
    };
    lemma_changes_are_the_fields_that_differ(0, b0, after.0, f);
    lemma_changes_are_the_fields_that_differ(1, b1, after.1, f);
    let e0 = if only is None || only == Some(0u8) {
        endpoint_changes(0, b0, after.0)
    } else {
        seq![]
    };
    let e1 = if only is None || only == Some(1u8) {
        endpoint_changes(1, b1, after.1)
    } else {
        seq![]
    };
    let d = diff_changes(before, after, only);
    assert(d == e0 + e1);
    let bn = match before {
        Some(p) => Some(nth(p, n)),
        None => None,
    };
    let an = nth(after, n);
    let t = (n, f, field_of(bn, f), field_of(Some(an), f));
    if (only is None || only == Some(n)) && field_of(bn, f) != field_of(Some(an), f) {
        if n == 0 {
            assert(bn == b0);
            let k = choose|k: int| 0 <= k < e0.len() && e0[k] == t;
            assert(d[k] == t);
        } else {
            assert(bn == b1);
            let k = choose|k: int| 0 <= k < e1.len() && e1[k] == t;
            assert(d[e0.len() + k] == t);
        }
    }
    assert forall|k: int| 0 <= k < d.len() && (#[trigger] d[k]).0 == n && d[k].1 == f implies (only is None || only
        == Some(n)) && field_of(bn, f) != field_of(Some(an), f) && d[k] == t by {
        if k < e0.len() {
            assert(d[k] == e0[k]);
            assert(e0[k].0 == 0);
            assert(bn == b0);
        } else {
            assert(d[k] == e1[k - e0.len()]);
            assert(e1[k - e0.len()].0 == 1);
            assert(bn == b1);
        }
    }
}

fn copy_opt(o: &Option<String>) -> (r: Option<String>)
    ensures
        opt(r) == opt(*o),
{
    match o {
        Some(s) => Some(s.clone()),
        None => None,
    }
}

fn same_opt(a: &Option<String>, b: &Option<String>) -> (r: bool)
    ensures
        r == (opt(*a) == opt(*b)),
{
    match (a, b) {
        (None, None) => true,
        (Some(x), Some(y)) => same_text(x.as_str(), y.as_str()),
        _ => false,
    }
}

fn push_change(out: &mut Vec<Change>, n: u8, field: &'static str, before: Option<String>, after: Option<String>)
    ensures
        final(out)@.map_values(|c: Change| change_view(c)) == old(out)@.map_values(|c: Change| change_view(c))
            + kept(n, field@, opt(before), opt(after)),
{
    let ghost o = out@;
    if same_opt(&before, &after) {
        assert(o.map_values(|c: Change| change_view(c)) + kept(n, field@, opt(before), opt(after)) =~= o.map_values(
            |c: Change| change_view(c),
        ));
        return;
    }
    out.push(Change { n, field, before, after, captures: Vec::new() });
    assert(out@.map_values(|c: Change| change_view(c)) =~= o.map_values(|c: Change| change_view(c)) + kept(
        n,
        field@,
        opt(before),
        opt(after),
    ));
}

fn agree_of(a: &AcceptedRecord) -> (r: String)
    ensures
        r@ == agree_text(*a),
{
    let mut parts: Vec<Vec<char>> = Vec::new();
    let mut i: usize = 0;
    while i < a.agree.len()
        invariant
            i <= a.agree.len(),
            views(parts@) == a.agree@.map_values(|s: String| s@).take(i as int),
        decreases a.agree.len() - i,
    {
        let v = chars_of(a.agree[i].as_str());
        proof {
            crate::text::lemma_views_push(parts@, v);
        }
        parts.push(v);
        assert(views(parts@) =~= a.agree@.map_values(|s: String| s@).take(i as int + 1));
        i = i + 1;
    }
    assert(a.agree@.map_values(|s: String| s@).take(i as int) =~= a.agree@.map_values(|s: String| s@));
    let sep = chars_of(", ");
    let j = join_of(&parts, sep.as_slice());
    string_of(j.as_slice())
}

#[verifier::spinoff_prover]
#[verifier::rlimit(50)]
fn endpoint_diff(out: &mut Vec<Change>, n: u8, b: Option<&EndpointRecord>, a: &EndpointRecord)
    ensures
        final(out)@.map_values(|c: Change| change_view(c)) == old(out)@.map_values(|c: Change| change_view(c))
            + endpoint_changes(n, match b {
            Some(e) => Some(*e),
            None => None,
        }, *a),
{
    let ghost o = out@.map_values(|c: Change| change_view(c));
    let before_link = match b {
        Some(e) => Some(e.link.clone()),
        None => None,
    };
    push_change(out, n, "link", before_link, Some(a.link.clone()));
    let ba: Option<&AcceptedRecord> = match b {
        Some(e) => match &e.accepted {
            Some(x) => Some(x),
            None => None,
        },
        None => None,
    };
    let aa: Option<&AcceptedRecord> = match &a.accepted {
        Some(x) => Some(x),
        None => None,
    };
    push_change(out, n, "accepted.link", match ba {
        Some(x) => copy_opt(&x.link),
        None => None,
    }, match aa {
        Some(x) => copy_opt(&x.link),
        None => None,
    });
    push_change(out, n, "hash", match ba {
        Some(x) => Some(x.hash.clone()),
        None => None,
    }, match aa {
        Some(x) => Some(x.hash.clone()),
        None => None,
    });
    push_change(out, n, "hash_ast", match ba {
        Some(x) => copy_opt(&x.hash_ast),
        None => None,
    }, match aa {
        Some(x) => copy_opt(&x.hash_ast),
        None => None,
    });
    push_change(out, n, "agree", match ba {
        Some(x) => Some(agree_of(x)),
        None => None,
    }, match aa {
        Some(x) => Some(agree_of(x)),
        None => None,
    });
    proof {
        reveal_strlit("link");
        reveal_strlit("accepted.link");
        reveal_strlit("hash");
        reveal_strlit("hash_ast");
        reveal_strlit("agree");
    }
    assert(out@.map_values(|c: Change| change_view(c)) =~= o + endpoint_changes(n, match b {
        Some(e) => Some(*e),
        None => None,
    }, *a));
}

/// The fields that changed, endpoint by endpoint (only `only`, where given), from
/// the bilink before the commit (`None`: it did not exist) to the one after. The
/// captures of a location are left for the caller to read from the commit's tree.
pub fn diff(
    before: Option<&(EndpointRecord, EndpointRecord)>,
    after: &(EndpointRecord, EndpointRecord),
    only: Option<u8>,
) -> (r: Vec<Change>)
    ensures
        r@.map_values(|c: Change| change_view(c)) == diff_changes(
            match before {
                Some(p) => Some(*p),
                None => None,
            },
            *after,
            only,
        ),
        r@.map_values(|c: Change| change_view(c)) == (if only is None || only == Some(0u8) {
            endpoint_changes(0, match before {
                Some(p) => Some(p.0),
                None => None,
            }, after.0)
        } else {
            seq![]
        }) + (if only is None || only == Some(1u8) {
            endpoint_changes(1, match before {
                Some(p) => Some(p.1),
                None => None,
            }, after.1)
        } else {
            seq![]
        }),
{
    let mut out: Vec<Change> = Vec::new();
    assert(out@.map_values(|c: Change| change_view(c)) =~= seq![]);
    let want0 = match only {
        None => true,
        Some(k) => k == 0,
    };
    let want1 = match only {
        None => true,
        Some(k) => k == 1,
    };
    if want0 {
        endpoint_diff(&mut out, 0, match before {
            Some(p) => Some(&p.0),
            None => None,
        }, &after.0);
    }
    let ghost mid = out@.map_values(|c: Change| change_view(c));
    if want1 {
        endpoint_diff(&mut out, 1, match before {
            Some(p) => Some(&p.1),
            None => None,
        }, &after.1);
    }
    assert(out@.map_values(|c: Change| change_view(c)) =~= (if only is None || only == Some(0u8) {
        endpoint_changes(0, match before {
            Some(p) => Some(p.0),
            None => None,
        }, after.0)
    } else {
        seq![]
    }) + (if only is None || only == Some(1u8) {
        endpoint_changes(1, match before {
            Some(p) => Some(p.1),
            None => None,
        }, after.1)
    } else {
        seq![]
    }));
    out
}

/// The capture ids of a change of location, whose `{file, query}` are to be read
/// from the commit's tree: the links that are `capture <id>`, before then after.
pub fn capture_ids(c: &Change) -> (r: Vec<String>)
    ensures
        r@.map_values(|s: String| s@) == (if crate::text::ends_with(c.field@, "link"@) {
            (match opt(c.before) {
                Some(l) => match strip_prefix(l, "capture "@) {
                    Some(id) => seq![id],
                    None => seq![],
                },
                None => seq![],
            }) + (match opt(c.after) {
                Some(l) => match strip_prefix(l, "capture "@) {
                    Some(id) => seq![id],
                    None => seq![],
                },
                None => seq![],
            })
        } else {
            seq![]
        }),
{
    let mut out: Vec<String> = Vec::new();
    let f = chars_of(c.field);
    let l = chars_of("link");
    if !crate::text::ends_with_of(f.as_slice(), l.as_slice()) {
        assert(out@.map_values(|s: String| s@) =~= seq![]);
        return out;
    }
    let p = chars_of("capture ");
    let ghost first: Seq<Seq<char>> = match opt(c.before) {
        Some(l) => match strip_prefix(l, "capture "@) {
            Some(id) => seq![id],
            None => seq![],
        },
        None => seq![],
    };
    match &c.before {
        Some(b) => {
            let bv = chars_of(b.as_str());
            match strip_prefix_of(bv.as_slice(), p.as_slice()) {
                Some(id) => out.push(string_of(id.as_slice())),
                None => {},
            }
        },
        None => {},
    }
    assert(out@.map_values(|s: String| s@) =~= first);
    match &c.after {
        Some(a) => {
            let av = chars_of(a.as_str());
            match strip_prefix_of(av.as_slice(), p.as_slice()) {
                Some(id) => out.push(string_of(id.as_slice())),
                None => {},
            }
        },
        None => {},
    }
    assert(out@.map_values(|s: String| s@) =~= first + match opt(c.after) {
        Some(l) => match strip_prefix(l, "capture "@) {
            Some(id) => seq![id],
            None => seq![],
        },
        None => seq![],
    });
    out
}

} // verus!
