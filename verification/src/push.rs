//! `bilinker push`: publish the ref. **Nobody types git to touch `refs/bilink/*`**:
//! the refspec is bilinker's.
use vstd::prelude::*;

use crate::bilink_ref::string_views;
use crate::text::{append_str, chars_of, owned, same_text, string_of, words};

verus! {

/// What `push` published.
#[derive(Debug)]
pub struct PushReport {
    pub branch: String,
    pub remote: String,
    /// The tip that got published.
    pub tip: String,
    /// `false` when the remote already had it.
    pub moved: bool,
}

/// Why there is nowhere to publish.
#[derive(Debug, Clone, PartialEq)]
pub enum PushError {
    /// The repo has no remote.
    NoRemote,
    /// Several remotes and none is `origin`: choosing would be guessing.
    Ambiguous { remotes: Vec<String> },
    /// The remote's tip is not behind ours: somebody rewrote a history that is not
    /// rewritten. It is something to look at, never to force; the remote keeps `kept`.
    Rejected { remote: String, kept: String },
}

/// A copy of a list of strings.
pub fn copy_strings(v: &Vec<String>) -> (r: Vec<String>)
    ensures
        r@ == v@,
{
    let mut out: Vec<String> = Vec::new();
    let mut i: usize = 0;
    while i < v.len()
        invariant
            i <= v.len(),
            out@ == v@.take(i as int),
        decreases v.len() - i,
    {
        out.push(v[i].clone());
        assert(out@ =~= v@.take(i as int + 1));
        i = i + 1;
    }
    assert(v@.take(i as int) =~= v@);
    out
}

/// The remote chosen: the one given; otherwise the only one; with several,
/// `origin` if it is among them; otherwise none.
pub open spec fn picked(given: Option<Seq<char>>, remotes: Seq<Seq<char>>) -> Option<Seq<char>> {
    match given {
        Some(g) => Some(g),
        None => if remotes.len() == 1 {
            Some(remotes[0])
        } else if remotes.len() > 1 && remotes.contains("origin"@) {
            Some("origin"@)
        } else {
            None
        },
    }
}

/// **The remote is never guessed.** A given remote is the one used; with none
/// given, the one configured where there is only one, and `origin` whenever there
/// are several and `origin` is among them; with several and no `origin`, none. The
/// remote chosen is always the given one or one of those configured.
pub proof fn lemma_remote_is_origin_among_several(given: Option<Seq<char>>, remotes: Seq<Seq<char>>)
    ensures
        given matches Some(g) ==> picked(given, remotes) == Some(g),
        given is None && remotes.len() > 1 && remotes.contains("origin"@) ==> picked(given, remotes) == Some(
            "origin"@,
        ),
        given is None && remotes.len() == 1 ==> picked(given, remotes) == Some(remotes[0]),
        given is None && (remotes.len() == 0 || (remotes.len() > 1 && !remotes.contains("origin"@)))
            ==> picked(given, remotes) is None,
        given is None ==> (picked(given, remotes) matches Some(x) ==> remotes.contains(x)),
{
    if given is None && remotes.len() == 1 {
        assert(remotes[0] == remotes[0]);
        assert(remotes.contains(remotes[0]));
    }
}

/// The view of an optional name.
pub open spec fn opt(o: Option<&str>) -> Option<Seq<char>> {
    match o {
        Some(s) => Some(s@),
        None => None,
    }
}

/// The remote to publish to: the one given; otherwise the only one; with several,
/// `origin` if it is among them — choosing any other would be guessing.
pub fn pick_remote(given: Option<&str>, remotes: &Vec<String>) -> (r: Result<String, PushError>)
    ensures
        match r {
            Ok(x) => picked(opt(given), string_views(remotes@)) == Some(x@),
            Err(PushError::NoRemote) => picked(opt(given), string_views(remotes@)) is None
                && remotes@.len() == 0,
            Err(PushError::Ambiguous { remotes: rs }) => picked(opt(given), string_views(remotes@))
                is None && remotes@.len() > 1 && rs@ == remotes@,
            Err(PushError::Rejected { .. }) => false,
        },
{
    match given {
        Some(g) => {
            let x = owned(g);
            assert(x@ == g@);
            Ok(x)
        },
        None => {
            if remotes.len() == 1 {
                return Ok(remotes[0].clone());
            }
            if remotes.len() == 0 {
                return Err(PushError::NoRemote);
            }
            let mut i: usize = 0;
            while i < remotes.len()
                invariant
                    given is None,
                    remotes@.len() > 1,
                    i <= remotes.len(),
                    forall|k: int| 0 <= k < i ==> #[trigger] string_views(remotes@)[k] != "origin"@,
                decreases remotes.len() - i,
            {
                assert(string_views(remotes@)[i as int] == remotes@[i as int]@);
                if same_text(remotes[i].as_str(), "origin") {
                    assert(string_views(remotes@)[i as int] == "origin"@);
                    assert(string_views(remotes@).contains("origin"@));
                    return Ok(owned("origin"));
                }
                i = i + 1;
            }
            Err(PushError::Ambiguous { remotes: copy_strings(remotes) })
        },
    }
}

/// The refspec that publishes a branch's ref: `refs/bilink/<b>:refs/bilink/<b>`,
/// **never forced**. The ref is append-only, so publishing is always a fast-forward;
/// where the remote refuses one, that is reported.
pub fn push_refspec(branch: &str) -> (r: String)
    ensures
        r@ == "refs/bilink/"@ + branch@ + ":refs/bilink/"@ + branch@,
{
    let mut out = chars_of("refs/bilink/");
    append_str(&mut out, branch);
    append_str(&mut out, ":refs/bilink/");
    append_str(&mut out, branch);
    string_of(out.as_slice())
}

/// The tip a remote has, from `git ls-remote <remote> <ref>`: its first word.
pub fn remote_tip(listing: Option<&str>) -> (r: Option<String>)
    ensures
        match r {
            Some(t) => listing matches Some(l) && words(l@).len() > 0 && t@ == words(l@)[0],
            None => listing is None || words(listing->0@).len() == 0,
        },
{
    match listing {
        None => None,
        Some(l) => {
            let v = chars_of(l);
            let ws = crate::text::words_of(v.as_slice());
            if ws.len() == 0 {
                None
            } else {
                assert(crate::text::views(ws@)[0] == ws@[0]@);
                Some(string_of(ws[0].as_slice()))
            }
        },
    }
}

/// What `push` reports, from the remote's tip before (`before`) and whether that tip
/// is an ancestor of ours (`before_is_ancestor`, read only where there is a tip): the
/// push is **only ever a fast-forward**. Where the remote's tip is not behind ours,
/// the push is rejected and the remote keeps its tip; otherwise the tip is published,
/// and the remote moved unless it already had it.
pub fn push(branch: String, remote: String, tip: String, before: Option<&str>, before_is_ancestor: bool) -> (r:
    Result<PushReport, PushError>)
    ensures
        match before {
            Some(b) => if b@ == tip@ {
                r matches Ok(p) && p.branch == branch && p.remote == remote && p.tip == tip && !p.moved
            } else if before_is_ancestor {
                r matches Ok(p) && p.branch == branch && p.remote == remote && p.tip == tip && p.moved
            } else {
                r matches Err(PushError::Rejected { remote: x, kept: k }) && x == remote && k@ == b@
            },
            None => r matches Ok(p) && p.branch == branch && p.remote == remote && p.tip == tip && p.moved,
        },
{
    match before {
        Some(b) => {
            if same_text(b, tip.as_str()) {
                Ok(PushReport { branch, remote, tip, moved: false })
            } else if before_is_ancestor {
                Ok(PushReport { branch, remote, tip, moved: true })
            } else {
                Err(PushError::Rejected { remote, kept: owned(b) })
            }
        },
        None => Ok(PushReport { branch, remote, tip, moved: true }),
    }
}

} // verus!
