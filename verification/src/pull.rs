//! `bilinker pull`: bring what another clone accepted **on the same branch**.
//!
//! Both sides hang from the same absorption, so they describe the same code: the
//! tree is not chosen, it comes from the first parent, and only `.bilink/` merges,
//! field by field. **No acceptance is lost**, by construction: both commits are
//! the parents of the result.
use vstd::prelude::*;

use crate::adopt::{count_of, count_row, Change, Row};
use crate::text::{append, append_str, byte_prefix, byte_prefix_of, chars_of, cut_is_clean, same, string_of};

verus! {

/// What `pull` did.
pub struct PullResult {
    pub branch: String,
    pub remote: String,
    pub base: Option<String>,
    pub changes: Vec<Change>,
    /// The commit written, or `None` when there was nothing to bring.
    pub sha: Option<String>,
    /// The remote's ref was already contained in the local one.
    pub up_to_date: bool,
    /// It only had to advance: the local ref was an ancestor of the remote's.
    pub fast_forward: bool,
}

impl PullResult {
    /// The fields in conflict.
    pub fn conflicts(&self) -> (r: usize)
        ensures
            r == count_row(self.changes@, Row::Conflict),
    {
        count_of(&self.changes, Row::Conflict)
    }

    /// The fields brought.
    pub fn brought(&self) -> (r: usize)
        ensures
            r == count_row(self.changes@, Row::Clean),
    {
        count_of(&self.changes, Row::Clean)
    }
}

/// What pulling does, once the remote's ref is fetched.
#[derive(Debug, Clone, Copy, PartialEq, Eq, Structural)]
pub enum PullStep {
    /// What the remote has is already here.
    UpToDate,
    /// It only has to advance: there is nothing to join, and a merge commit would
    /// say there is.
    FastForward,
    /// They diverged: the fields are merged three ways from their base.
    Merge,
    /// Nothing is written: a conflict (all or nothing), or a dry run.
    Stop,
}

/// What `pull` does: nothing when the remote's tip is an ancestor of the local one;
/// advance when the local one is an ancestor of the remote's; otherwise merge the
/// fields — **all or nothing**: with a conflict, or on a dry run, nothing is
/// written. `changes` are the merged fields, when it came to that.
pub fn pull(theirs_in_mine: bool, mine_in_theirs: bool, changes: Option<&Vec<Change>>, dry_run: bool) -> (r: PullStep)
    ensures
        r == if theirs_in_mine {
            PullStep::UpToDate
        } else if mine_in_theirs {
            PullStep::FastForward
        } else {
            match changes {
                None => PullStep::Merge,
                Some(cs) => if count_row(cs@, Row::Conflict) > 0 || dry_run {
                    PullStep::Stop
                } else {
                    PullStep::Merge
                },
            }
        },
{
    if theirs_in_mine {
        PullStep::UpToDate
    } else if mine_in_theirs {
        PullStep::FastForward
    } else {
        match changes {
            None => PullStep::Merge,
            Some(cs) => if count_of(cs, Row::Conflict) > 0 || dry_run {
                PullStep::Stop
            } else {
                PullStep::Merge
            },
        }
    }
}

/// The endpoints whose fields come clean.
pub open spec fn brought_set(cs: Seq<Change>) -> Set<(Seq<char>, u8)> {
    Set::new(|p: (Seq<char>, u8)| exists|i: int| 0 <= i < cs.len() && #[trigger] cs[i].row == Row::Clean && cs[i].uuid@ == p.0 && cs[i].n == p.1)
}

/// How many distinct endpoints come, which is what the message counts: an endpoint
/// with both dimensions clean is **one** acceptance that arrives, not two.
pub fn brought_endpoints(changes: &Vec<Change>) -> (r: usize)
    ensures
        r == brought_set(changes@).len(),
{
    let mut seen: Vec<(Vec<char>, u8)> = Vec::new();
    let mut i: usize = 0;
    let ghost pairs = |v: Seq<(Vec<char>, u8)>| v.map_values(|p: (Vec<char>, u8)| (p.0@, p.1));
    while i < changes.len()
        invariant
            i <= changes.len(),
            seen@.len() <= i,
            pairs == (|v: Seq<(Vec<char>, u8)>| v.map_values(|p: (Vec<char>, u8)| (p.0@, p.1))),
            pairs(seen@).no_duplicates(),
            pairs(seen@).to_set() == brought_set(changes@.take(i as int)),
        decreases changes.len() - i,
    {
        let ghost before = seen@;
        let ghost next = changes@.take(i as int + 1);
        if changes[i].row == Row::Clean {
            let u = chars_of(changes[i].uuid.as_str());
            let n = changes[i].n;
            let mut j: usize = 0;
            let mut found = false;
            while j < seen.len()
                invariant
                    j <= seen.len(),
                    seen@ == before,
                    pairs == (|v: Seq<(Vec<char>, u8)>| v.map_values(|p: (Vec<char>, u8)| (p.0@, p.1))),
                    found ==> pairs(seen@).contains((u@, n)),
                    !found ==> forall|k: int| 0 <= k < j ==> #[trigger] pairs(seen@)[k] != (u@, n),
                decreases seen.len() - j,
            {
                assert(pairs(seen@)[j as int] == (seen@[j as int].0@, seen@[j as int].1));
                if seen[j].1 == n && same(seen[j].0.as_slice(), u.as_slice()) {
                    assert(pairs(seen@)[j as int] == (u@, n));
                    found = true;
                }
                j = j + 1;
            }
            if !found {
                let ghost uv = u@;
                seen.push((u, n));
                proof {
                    assert(pairs(seen@) =~= pairs(before).push((uv, n)));
                    assert(!pairs(before).contains((uv, n)));
                    pairs(before).lemma_push_to_set_commute((uv, n));
                    assert(pairs(seen@).to_set() =~= pairs(before).to_set().insert((uv, n)));
                    assert forall|a: int, b: int| 0 <= a < b < pairs(seen@).len() implies #[trigger] pairs(seen@)[a] != #[trigger] pairs(seen@)[b] by {
                        if b == pairs(seen@).len() - 1 {
                            assert(pairs(seen@)[a] == pairs(before)[a]);
                        } else {
                            assert(pairs(seen@)[a] == pairs(before)[a]);
                            assert(pairs(seen@)[b] == pairs(before)[b]);
                        }
                    }
                }
            } else {
                proof {
                    assert(pairs(seen@).to_set() =~= pairs(before).to_set().insert((u@, n)));
                }
            }
            proof {
                assert(brought_set(next) =~= brought_set(changes@.take(i as int)).insert((u@, n))) by {
                    assert forall|p: (Seq<char>, u8)| #[trigger] brought_set(next).contains(p) implies brought_set(changes@.take(i as int)).insert((u@, n)).contains(p) by {
                        let w = choose|w: int| 0 <= w < next.len() && #[trigger] next[w].row == Row::Clean && next[w].uuid@ == p.0 && next[w].n == p.1;
                        if w < i {
                            assert(changes@.take(i as int)[w] == next[w]);
                        }
                    }
                    assert forall|p: (Seq<char>, u8)| #[trigger] brought_set(changes@.take(i as int)).insert((u@, n)).contains(p) implies brought_set(next).contains(p) by {
                        if p == (u@, n) {
                            assert(next[i as int] == changes@[i as int]);
                            assert(next[i as int].row == Row::Clean);
                        } else {
                            let w = choose|w: int| 0 <= w < changes@.take(i as int).len() && #[trigger] changes@.take(i as int)[w].row == Row::Clean && changes@.take(i as int)[w].uuid@ == p.0 && changes@.take(i as int)[w].n == p.1;
                            assert(next[w] == changes@.take(i as int)[w]);
                        }
                    }
                }
            }
        } else {
            proof {
                assert(brought_set(next) =~= brought_set(changes@.take(i as int))) by {
                    assert forall|p: (Seq<char>, u8)| #[trigger] brought_set(next).contains(p) implies brought_set(changes@.take(i as int)).contains(p) by {
                        let w = choose|w: int| 0 <= w < next.len() && #[trigger] next[w].row == Row::Clean && next[w].uuid@ == p.0 && next[w].n == p.1;
                        assert(w != i);
                        assert(changes@.take(i as int)[w] == next[w]);
                    }
                    assert forall|p: (Seq<char>, u8)| #[trigger] brought_set(changes@.take(i as int)).contains(p) implies brought_set(next).contains(p) by {
                        let w = choose|w: int| 0 <= w < changes@.take(i as int).len() && #[trigger] changes@.take(i as int)[w].row == Row::Clean && changes@.take(i as int)[w].uuid@ == p.0 && changes@.take(i as int)[w].n == p.1;
                        assert(next[w] == changes@.take(i as int)[w]);
                    }
                }
            }
        }
        i = i + 1;
    }
    assert(changes@.take(i as int) =~= changes@);
    proof {
        pairs(seen@).unique_seq_to_set();
    }
    seen.len()
}

/// The local namespace where the remote's ref is fetched, forced: a copy to read,
/// never the local ref, which is exactly the one not to overwrite.
pub fn fetch_refspec(remote: &str, branch: &str) -> (r: (String, String))
    ensures
        r.0@ == "refs/bilink-remote/"@ + remote@ + "/"@ + branch@,
        r.1@ == "+refs/bilink/"@ + branch@ + ":"@ + r.0@,
{
    let mut local = chars_of("refs/bilink-remote/");
    append_str(&mut local, remote);
    append_str(&mut local, "/");
    append_str(&mut local, branch);
    let mut spec = chars_of("+refs/bilink/");
    append_str(&mut spec, branch);
    append_str(&mut spec, ":");
    append(&mut spec, local.as_slice());
    (string_of(local.as_slice()), string_of(spec.as_slice()))
}

/// Why the remote refused a push: **divergence or rewriting**, which are not the
/// same. With a merge base both sides added, and the way out is to join; without
/// one, history was rewritten, and that is something to look at.
pub open spec fn rejection_text(remote: Seq<char>, branch: Seq<char>, base: Option<Seq<char>>) -> Seq<char> {
    match base {
        Some(b) => remote + " tiene "@ + "refs/bilink/"@ + branch
            + " adelantada, y las dos historias agregaron.\n  Nadie reescribió nada: base de merge en "@
            + byte_prefix(b, 7) + ".\n  Unir con `bilinker pull`."@,
        None => remote + " tiene una "@ + "refs/bilink/"@ + branch
            + " que no comparte historia con la local.\n  La ref es append-only: esto es una reescritura, y es algo que mirar antes de tocar nada."@,
    }
}

/// Why the remote refused a push, from the merge base of both refs.
pub fn diagnose_rejection(remote: &str, branch: &str, base: Option<&str>) -> (r: String)
    requires
        base matches Some(b) ==> cut_is_clean(b@, 7),
    ensures
        r@ == rejection_text(remote@, branch@, match base {
            Some(b) => Some(b@),
            None => None,
        }),
{
    let mut out = chars_of(remote);
    match base {
        Some(b) => {
            append_str(&mut out, " tiene ");
            append_str(&mut out, "refs/bilink/");
            append_str(&mut out, branch);
            append_str(&mut out, " adelantada, y las dos historias agregaron.\n  Nadie reescribió nada: base de merge en ");
            let bv = chars_of(b);
            let short = byte_prefix_of(bv.as_slice(), 7);
            append(&mut out, short.as_slice());
            append_str(&mut out, ".\n  Unir con `bilinker pull`.");
        },
        None => {
            append_str(&mut out, " tiene una ");
            append_str(&mut out, "refs/bilink/");
            append_str(&mut out, branch);
            append_str(&mut out, " que no comparte historia con la local.\n  La ref es append-only: esto es una reescritura, y es algo que mirar antes de tocar nada.");
        },
    }
    string_of(out.as_slice())
}

} // verus!
