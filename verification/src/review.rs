//! The review surface: `status`, `diff` and `log` over bilinker's own index and
//! ref. **The forge does not show the ref**, so this is part of the product.
use vstd::prelude::*;
use vstd::multiset::Multiset;

use crate::bilink_ref::string_views;
use crate::text::{chars_of, lex_lt, lex_lt_of, lemma_lex_total, lemma_lex_transitive};

verus! {

broadcast use vstd::seq_lib::group_to_multiset_ensures;

/// What happened to a file of `.bilink/` against the commit of the ref.
#[derive(Debug, Clone, Copy, PartialEq, Eq, Structural)]
pub enum Change {
    Added,
    Modified,
    Deleted,
}

impl Change {
    /// The letter `git status` would show.
    pub fn letter(self) -> (c: char)
        ensures
            c == match self {
                Change::Added => 'A',
                Change::Modified => 'M',
                Change::Deleted => 'D',
            },
    {
        match self {
            Change::Added => 'A',
            Change::Modified => 'M',
            Change::Deleted => 'D',
        }
    }
}

/// The entries' paths never go down.
pub open spec fn by_path(v: Seq<(Change, String)>) -> bool {
    forall|i: int, j: int| 0 <= i < j < v.len() ==> !lex_lt(#[trigger] v[j].1@, #[trigger] v[i].1@)
}

/// `x` put into a list ordered by path, after the entries with the same path.
fn insert_by_path(v: &mut Vec<(Change, String)>, x: (Change, String))
    requires
        by_path(old(v)@),
    ensures
        by_path(final(v)@),
        final(v)@.to_multiset() == old(v)@.to_multiset().insert(x),
{
    let ghost vs = v@;
    let xv = chars_of(x.1.as_str());
    let mut i: usize = 0;
    loop
        invariant_except_break
            i <= v.len(),
            xv@ == x.1@,
            vs == v@,
            forall|k: int| 0 <= k < i ==> !lex_lt(x.1@, #[trigger] vs[k].1@),
        ensures
            i <= v.len(),
            vs == v@,
            forall|k: int| 0 <= k < i ==> !lex_lt(x.1@, #[trigger] vs[k].1@),
            i < v.len() ==> lex_lt(x.1@, vs[i as int].1@),
        decreases v.len() - i,
    {
        if i >= v.len() {
            break;
        }
        let e = chars_of(v[i].1.as_str());
        if lex_lt_of(xv.as_slice(), e.as_slice()) {
            break;
        }
        i = i + 1;
    }
    v.insert(i, x);
    proof {
        let w = v@;
        assert(w =~= vs.insert(i as int, x));
        assert forall|a: int, b: int| 0 <= a < b < w.len() implies !lex_lt(#[trigger] w[b].1@, #[trigger] w[a].1@) by {
            if b < i {
                assert(w[a] == vs[a] && w[b] == vs[b]);
            } else if b == i {
                assert(w[a] == vs[a]);
                lemma_lex_total(x.1@, vs[a].1@);
            } else if a == i {
                assert(w[b] == vs[b - 1]);
                lemma_lex_total(x.1@, vs[i as int].1@);
                if lex_lt(vs[b - 1].1@, x.1@) {
                    if b - 1 > i {
                        lemma_lex_transitive(vs[b - 1].1@, x.1@, vs[i as int].1@);
                        lemma_lex_total(vs[b - 1].1@, vs[i as int].1@);
                    } else {
                        lemma_lex_total(vs[i as int].1@, x.1@);
                    }
                }
            } else if a < i {
                assert(w[a] == vs[a] && w[b] == vs[b - 1]);
                if lex_lt(vs[b - 1].1@, vs[a].1@) {
                    lemma_lex_total(x.1@, vs[a].1@);
                    lemma_lex_transitive(vs[b - 1].1@, vs[a].1@, x.1@);
                    if b - 1 > i {
                        lemma_lex_transitive(vs[b - 1].1@, x.1@, vs[i as int].1@);
                        lemma_lex_total(vs[b - 1].1@, vs[i as int].1@);
                    } else {
                        lemma_lex_total(vs[i as int].1@, x.1@);
                    }
                }
            } else {
                assert(w[a] == vs[a - 1] && w[b] == vs[b - 1]);
            }
        }
    }
}

/// The entries of the status, before ordering: added, modified, deleted.
pub open spec fn status_entries(want: Seq<String>, have: Seq<String>, dirty: Seq<String>) -> Seq<(Change, String)> {
    have.filter(|p: String| !string_views(want).contains(p@)).map_values(|p: String| (Change::Added, p))
        + dirty.filter(|p: String| string_views(want).contains(p@) && string_views(have).contains(p@)).map_values(|p: String| (Change::Modified, p))
        + want.filter(|p: String| !string_views(have).contains(p@)).map_values(|p: String| (Change::Deleted, p))
}

fn contains_text(v: &Vec<String>, s: &str) -> (b: bool)
    ensures
        b == string_views(v@).contains(s@),
{
    let mut i: usize = 0;
    while i < v.len()
        invariant
            i <= v.len(),
            forall|k: int| 0 <= k < i ==> #[trigger] string_views(v@)[k] != s@,
        decreases v.len() - i,
    {
        assert(string_views(v@)[i as int] == v@[i as int]@);
        if crate::text::same_text(v[i].as_str(), s) {
            return true;
        }
        i = i + 1;
    }
    false
}

/// Adds the entries of `src` that `keep` selects, tagged `change`, in order.
fn add_entries(
    out: &mut Vec<(Change, String)>,
    src: &Vec<String>,
    change: Change,
    want: &Vec<String>,
    have: &Vec<String>,
    which: u8,
)
    requires
        by_path(old(out)@),
        which <= 2,
    ensures
        by_path(final(out)@),
        final(out)@.to_multiset() == old(out)@.to_multiset().add(
            (if which == 0 {
                src@.filter(|p: String| !string_views(want@).contains(p@))
            } else if which == 1 {
                src@.filter(|p: String| string_views(want@).contains(p@) && string_views(have@).contains(p@))
            } else {
                src@.filter(|p: String| !string_views(have@).contains(p@))
            }).map_values(|p: String| (change, p)).to_multiset(),
        ),
{
    let ghost keep = if which == 0 {
        |p: String| !string_views(want@).contains(p@)
    } else if which == 1 {
        |p: String| string_views(want@).contains(p@) && string_views(have@).contains(p@)
    } else {
        |p: String| !string_views(have@).contains(p@)
    };
    let ghost base = out@.to_multiset();
    let mut i: usize = 0;
    assert(src@.take(0).filter(keep) =~= Seq::<String>::empty());
    assert(Seq::<String>::empty().map_values(|p: String| (change, p)).to_multiset() =~= Multiset::<(Change, String)>::empty());
    assert(base.add(Multiset::<(Change, String)>::empty()) =~= base);
    while i < src.len()
        invariant
            i <= src.len(),
            which <= 2,
            keep == (if which == 0 {
                |p: String| !string_views(want@).contains(p@)
            } else if which == 1 {
                |p: String| string_views(want@).contains(p@) && string_views(have@).contains(p@)
            } else {
                |p: String| !string_views(have@).contains(p@)
            }),
            by_path(out@),
            out@.to_multiset() == base.add(src@.take(i as int).filter(keep).map_values(|p: String| (change, p)).to_multiset()),
        decreases src.len() - i,
    {
        let p = src[i].as_str();
        let sel = if which == 0 {
            !contains_text(want, p)
        } else if which == 1 {
            contains_text(want, p) && contains_text(have, p)
        } else {
            !contains_text(have, p)
        };
        let ghost prev = src@.take(i as int);
        let ghost next = src@.take(i as int + 1);
        proof {
            assert(next =~= prev.push(src@[i as int]));
            prev.lemma_filter_push(src@[i as int], keep);
            assert(sel == keep(src@[i as int]));
        }
        if sel {
            let e = (change, src[i].clone());
            insert_by_path(out, e);
            proof {
                assert(next.filter(keep) == prev.filter(keep).push(src@[i as int]));
                assert(next.filter(keep).map_values(|p: String| (change, p)) =~= prev.filter(keep).map_values(|p: String| (change, p)).push(e));
            }
        } else {
            proof {
                assert(next.filter(keep) == prev.filter(keep));
            }
        }
        i = i + 1;
    }
    assert(src@.take(i as int) =~= src@);
}

/// bilinker's `git status`: what changed in `.bilink/` since the commit `head`
/// names — added (tracked, not in the commit), modified (in both, and dirty),
/// deleted (in the commit, not tracked) — ordered by path.
pub fn status(want: &Vec<String>, have: &Vec<String>, dirty: &Vec<String>) -> (r: Vec<(Change, String)>)
    ensures
        by_path(r@),
        r@.to_multiset() == status_entries(want@, have@, dirty@).to_multiset(),
{
    let mut out: Vec<(Change, String)> = Vec::new();
    add_entries(&mut out, have, Change::Added, want, have, 0);
    add_entries(&mut out, dirty, Change::Modified, want, have, 1);
    add_entries(&mut out, want, Change::Deleted, want, have, 2);
    proof {
        let a = have@.filter(|p: String| !string_views(want@).contains(p@)).map_values(|p: String| (Change::Added, p));
        let m = dirty@.filter(|p: String| string_views(want@).contains(p@) && string_views(have@).contains(p@)).map_values(|p: String| (Change::Modified, p));
        let d = want@.filter(|p: String| !string_views(have@).contains(p@)).map_values(|p: String| (Change::Deleted, p));
        vstd::seq_lib::lemma_multiset_commutative(a, m);
        vstd::seq_lib::lemma_multiset_commutative(a + m, d);
        assert(Seq::<(Change, String)>::empty().to_multiset() =~= Multiset::<(Change, String)>::empty());
        assert(status_entries(want@, have@, dirty@) == a + m + d);
        assert(out@.to_multiset() =~= status_entries(want@, have@, dirty@).to_multiset());
    }
    out
}

/// The record of decisions: the ref's own commits, newest first, and with
/// `already`, only those the other branch does not have — `log --first-parent
/// <theirs> ^<mine>`, to see what acts there were on the other side.
pub fn log(chain: &Vec<String>, already: &Vec<String>) -> (r: Vec<String>)
    ensures
        r@ == chain@.filter(|c: String| !string_views(already@).contains(c@)),
{
    let mut out: Vec<String> = Vec::new();
    let mut i: usize = 0;
    let ghost keep = |c: String| !string_views(already@).contains(c@);
    assert(chain@.take(0).filter(keep) =~= Seq::<String>::empty());
    while i < chain.len()
        invariant
            i <= chain.len(),
            keep == (|c: String| !string_views(already@).contains(c@)),
            out@ == chain@.take(i as int).filter(keep),
        decreases chain.len() - i,
    {
        let ghost prev = chain@.take(i as int);
        assert(chain@.take(i as int + 1) =~= prev.push(chain@[i as int]));
        proof {
            prev.lemma_filter_push(chain@[i as int], keep);
        }
        if !contains_text(already, chain[i].as_str()) {
            out.push(chain[i].clone());
        }
        i = i + 1;
    }
    assert(chain@.take(i as int) =~= chain@);
    out
}

} // verus!
