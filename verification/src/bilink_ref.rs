//! `refs/bilink/<branch>`: the ref where the bilinks live.
//!
//! No branch of the project holds `.bilink/`. Each commit of the ref carries **the
//! project's tree plus `.bilink/`**, so it is a consistent snapshot by
//! construction and a remote consumer fetches one ref.
//!
//! What every command that writes on the ref has to meet:
//!
//! - **Faithfulness.** The code tree of every commit of the ref is identical to
//!   that of the project commit absorbed most recently.
//! - **A commit does one thing.** It brings code, or decides, or synchronises
//!   decisions; never two of the three. [`Repo::classify`] reads back what a written
//!   commit did, with plain git.
//! - **`.bilink/head`.** Which branch and which commit the tree's `.bilink/` came
//!   from.
//!
//! git itself runs outside this library: these functions take what git answered
//! and decide.
use vstd::prelude::*;

use crate::refmsg::{RefCommand, RefMessage};
use crate::text::{
    append_str, byte_prefix, byte_prefix_of, chars_of, cut_is_clean, lines, lines_of, occurs_at,
    occurs_at_of, owned, string_of, trim, trim_of, views, words, words_of,
};

verus! {

/// The repo. git runs on `root`; bilinker's own index lives under `git_dir`.
pub struct Repo {
    pub root: String,
    git_dir: String,
}

/// Which branch and which commit of the ref the tree's `.bilink/` corresponds to.
#[derive(Debug, Clone, PartialEq)]
pub struct Head {
    pub branch: String,
    pub commit: String,
}

/// What happened to the tree's `.bilink/` when a command started.
#[derive(Debug, Clone, PartialEq)]
pub enum Materialization {
    /// The tree already corresponds to the current branch.
    UpToDate,
    /// The `.bilink/` of the right ref was materialised.
    Rematerialized { from: Head, to: String },
    /// There is a `.bilink/` in the tree and no `head`: nobody knows where it came
    /// from, and it is not overwritten.
    NoProvenance,
    /// The branch has no ref yet. The fix is `track`, not materialising.
    NoRef(String),
    /// `HEAD` detached.
    Detached,
    /// No git repo.
    NoGit,
}

/// What a commit on the ref does. One of three, never two.
#[derive(Debug, Clone, PartialEq)]
pub enum Act {
    /// The cut. A single parent, from the project.
    Cut { project: String },
    /// **Brings code.** Two parents, the second from the project, `.bilink/` untouched.
    Absorption { project: String },
    /// **Decides.** One parent, the code tree unchanged.
    Decision,
    /// **Synchronises decisions.** Two parents, both of the ref, the code tree unchanged.
    Synchronization,
}

/// The result of committing on the ref.
#[derive(Debug, Clone)]
pub struct Commit {
    pub sha: String,
    /// The project commit absorbed, or `None` if it already was.
    pub absorbed: Option<String>,
    /// `false` when there was nothing to write.
    pub wrote: bool,
}

/// Why something on the ref cannot be done.
#[derive(Debug, Clone, PartialEq)]
pub enum RefError {
    /// `HEAD` is detached: there is no current branch.
    Detached,
    /// The branch has no ref; `track` creates it.
    NoRef { branch: String },
    /// The branch has no commits.
    NoCommits { branch: String },
    /// The project commit's tree holds `.bilink/`.
    NotDisjoint { commit: String, offenders: Vec<String> },
    /// The code tree differs from the absorbed commit's.
    NotFaithful { absorbed: String, strays: Vec<String> },
    /// A decision does not absorb: the project tip is not absorbed yet.
    NotAbsorbed { project: String, absorbed: String },
    /// A single-parent commit that moves code.
    DecidesAndMovesCode { commit: String },
    /// An absorption whose `.bilink/` moved.
    AbsorbsAndDecides { commit: String },
    /// A synchronisation that moves code.
    SynchronizesAndMovesCode { commit: String },
    /// A commit without parents is not a commit of the ref.
    NoParents { commit: String },
    /// The tree's `.bilink/` differs from the commit `head` names.
    Dirty { commit: String, paths: Vec<String> },
    /// `HEAD` detached on a repo that already has refs: nothing can be committed.
    DetachedOnRef,
}

// ─── paths ──────────────────────────────────────────────────────────────────

/// The name of the directory bilinks live in.
pub open spec fn bilink_dir() -> Seq<char> {
    seq!['.', 'b', 'i', 'l', 'i', 'n', 'k']
}

/// `.bilink` is a whole `/`-separated component of `p` starting at `i`.
pub open spec fn bilink_component_at(p: Seq<char>, i: int) -> bool {
    &&& occurs_at(p, i, bilink_dir())
    &&& (i == 0 || p[i - 1] == '/')
    &&& (i + 7 == p.len() || p[i + 7] == '/')
}

/// Whether a path of the repo falls inside some `.bilink/`.
pub open spec fn is_bilink(p: Seq<char>) -> bool {
    exists|i: int| 0 <= i <= p.len() && #[trigger] bilink_component_at(p, i)
}

/// Whether a path of the repo falls inside some `.bilink/`.
pub fn is_bilink_path(path: &str) -> (b: bool)
    ensures
        b == is_bilink(path@),
{
    let p = chars_of(path);
    let dir = vec!['.', 'b', 'i', 'l', 'i', 'n', 'k'];
    assert(dir@ =~= bilink_dir());
    let mut i: usize = 0;
    while i < p.len()
        invariant
            i <= p.len(),
            dir@ == bilink_dir(),
            p@ == path@,
            forall|j: int| 0 <= j < i ==> !#[trigger] bilink_component_at(p@, j),
        decreases p.len() - i,
    {
        if occurs_at_of(p.as_slice(), i, dir.as_slice()) && (i == 0 || p[i - 1] == '/') && (i + 7
            == p.len() || p[i + 7] == '/') {
            assert(bilink_component_at(p@, i as int));
            return true;
        }
        i = i + 1;
    }
    assert(!bilink_component_at(p@, p@.len() as int));
    false
}

/// The first seven bytes of a commit, as it is shown.
pub fn short(sha: &str) -> (r: String)
    requires
        cut_is_clean(sha@, 7),
    ensures
        r@ == byte_prefix(sha@, 7),
{
    let v = chars_of(sha);
    let p = byte_prefix_of(v.as_slice(), 7);
    string_of(p.as_slice())
}

/// The first line that is not blank, trimmed.
pub open spec fn first_filled(ls: Seq<Seq<char>>) -> Seq<char>
    decreases ls.len(),
{
    if ls.len() == 0 {
        seq![]
    } else if trim(ls[0]).len() > 0 {
        trim(ls[0])
    } else {
        first_filled(ls.drop_first())
    }
}

/// The first line of `s` that is not blank, trimmed.
pub fn first_line(s: &str) -> (r: String)
    ensures
        r@ == first_filled(lines(s@)),
{
    let v = chars_of(s);
    let ls = lines_of(v.as_slice());
    let mut i: usize = 0;
    assert(views(ls@).skip(0) =~= views(ls@));
    while i < ls.len()
        invariant
            i <= ls.len(),
            views(ls@) == lines(s@),
            first_filled(lines(s@)) == first_filled(views(ls@).skip(i as int)),
        decreases ls.len() - i,
    {
        let t = trim_of(ls[i].as_slice());
        assert(views(ls@).skip(i as int)[0] == ls@[i as int]@);
        if t.len() > 0 {
            return string_of(t.as_slice());
        }
        assert(views(ls@).skip(i as int).drop_first() =~= views(ls@).skip(i as int + 1));
        i = i + 1;
    }
    assert(views(ls@).skip(i as int) =~= Seq::<Seq<char>>::empty());
    let none: Vec<char> = Vec::new();
    string_of(none.as_slice())
}

// ─── reading what git answered ──────────────────────────────────────────────

/// An answer of git trimmed, or nothing when it is empty.
pub open spec fn filled(s: Seq<char>) -> Option<Seq<char>> {
    if trim(s).len() == 0 {
        None
    } else {
        Some(trim(s))
    }
}

/// The answer trimmed, or nothing when it is empty.
fn filled_of(s: &str) -> (r: Option<String>)
    ensures
        match r {
            Some(t) => filled(s@) == Some(t@),
            None => filled(s@) is None,
        },
{
    let v = chars_of(s);
    let t = trim_of(v.as_slice());
    if t.len() == 0 {
        None
    } else {
        Some(string_of(t.as_slice()))
    }
}

/// The views of an optional string.
pub open spec fn opt_view(o: Option<String>) -> Option<Seq<char>> {
    match o {
        Some(s) => Some(s@),
        None => None,
    }
}

/// The strings' views.
pub open spec fn string_views(v: Seq<String>) -> Seq<Seq<char>> {
    v.map_values(|s: String| s@)
}

/// The views of pairs of strings.
pub open spec fn pair_views(v: Seq<(String, String)>) -> Seq<(Seq<char>, Seq<char>)> {
    v.map_values(|p: (String, String)| (p.0@, p.1@))
}

impl Repo {
    /// The repo at `root`, with its git directory.
    pub fn open(root: String, git_dir: String) -> (r: Repo)
        ensures
            r.root_dir() == root,
            r.git_dir() == git_dir,
    {
        Repo { root, git_dir }
    }

    /// The repo's root.
    pub closed spec fn root_dir(&self) -> String {
        self.root
    }

    /// The git directory.
    pub closed spec fn git_dir(&self) -> String {
        self.git_dir
    }

    /// The project branch checked out, from what `git symbolic-ref --short HEAD`
    /// answered; `None` with `HEAD` detached, when git fails or answers nothing.
    pub fn branch(symbolic_ref: Option<&str>) -> (r: Option<String>)
        ensures
            opt_view(r) == match symbolic_ref {
                Some(out) => filled(out@),
                None => None,
            },
    {
        match symbolic_ref {
            Some(out) => filled_of(out),
            None => None,
        }
    }

    /// The current branch, or the error for a detached `HEAD`.
    pub fn require_branch(branch: Option<String>) -> (r: Result<String, RefError>)
        ensures
            match branch {
                Some(b) => r == Ok::<String, RefError>(b),
                None => r == Err::<String, RefError>(RefError::Detached),
            },
    {
        match branch {
            Some(b) => Ok(b),
            None => Err(RefError::Detached),
        }
    }

    /// `refs/bilink/<branch>`.
    pub fn ref_name(branch: &str) -> (r: String)
        ensures
            r@ == "refs/bilink/"@ + branch@,
    {
        let mut out = chars_of("refs/bilink/");
        append_str(&mut out, branch);
        string_of(out.as_slice())
    }

    /// The tip a revision names, from what `git rev-parse --verify --quiet`
    /// answered: `None` when git fails or answers nothing.
    pub fn ref_tip(rev_parse: Option<&str>) -> (r: Option<String>)
        ensures
            opt_view(r) == match rev_parse {
                Some(out) => filled(out@),
                None => None,
            },
    {
        Repo::branch(rev_parse)
    }

    /// The tip of the branch's ref, or the error that says `track` creates it.
    pub fn require_ref_tip(branch: &str, tip: Option<String>) -> (r: Result<String, RefError>)
        ensures
            match tip {
                Some(t) => r == Ok::<String, RefError>(t),
                None => r matches Err(RefError::NoRef { branch: b }) && b@ == branch@,
            },
    {
        match tip {
            Some(t) => Ok(t),
            None => Err(RefError::NoRef { branch: owned(branch) }),
        }
    }

    /// The tip of the project branch, or the error for a branch without commits.
    pub fn branch_tip(branch: &str, tip: Option<String>) -> (r: Result<String, RefError>)
        ensures
            match tip {
                Some(t) => r == Ok::<String, RefError>(t),
                None => r matches Err(RefError::NoCommits { branch: b }) && b@ == branch@,
            },
    {
        match tip {
            Some(t) => Ok(t),
            None => Err(RefError::NoCommits { branch: owned(branch) }),
        }
    }

    /// The parents of a commit, in order, from `git rev-list --parents -n 1`.
    pub fn parents(line: &str) -> (r: Vec<String>)
        ensures
            string_views(r@) == if words(line@).len() == 0 {
                Seq::<Seq<char>>::empty()
            } else {
                words(line@).drop_first()
            },
    {
        let v = chars_of(line);
        let ws = words_of(v.as_slice());
        let mut out: Vec<String> = Vec::new();
        let mut i: usize = 1;
        while i < ws.len()
            invariant
                1 <= i,
                i <= ws.len() || ws.len() == 0,
                views(ws@) == words(line@),
                ws.len() > 0 ==> string_views(out@) == views(ws@).subrange(1, i as int),
                ws.len() == 0 ==> out@.len() == 0,
            decreases ws.len() - i,
        {
            let w = string_of(ws[i].as_slice());
            assert(views(ws@)[i as int] == ws@[i as int]@);
            let ghost before = out@;
            assert(w@ == ws@[i as int]@);
            assert(string_views(before).len() == i - 1);
            assert(before.len() == i - 1);
            out.push(w);
            assert(out@ == before.push(w));
            assert(string_views(out@) =~= views(ws@).subrange(1, i as int + 1)) by {
                assert forall|k: int| 0 <= k < out@.len() implies #[trigger] string_views(out@)[k]
                    == views(ws@).subrange(1, i as int + 1)[k] by {
                    if k < before.len() {
                        assert(out@[k] == before[k]);
                        assert(string_views(before)[k] == views(ws@).subrange(1, i as int)[k]);
                    } else {
                        assert(out@[k] == w);
                    }
                }
            }
            i = i + 1;
        }
        if ws.len() == 0 {
            assert(string_views(out@) =~= Seq::<Seq<char>>::empty());
        } else {
            assert(views(ws@).subrange(1, ws.len() as int) =~= views(ws@).drop_first());
        }
        out
    }

    /// bilinker's own index: `<git dir>/bilink/index`.
    pub fn index_path(&self) -> (r: String)
        ensures
            r@ == self.git_dir()@ + "/bilink/index"@,
    {
        let mut out = chars_of(self.git_dir.as_str());
        append_str(&mut out, "/bilink/index");
        string_of(out.as_slice())
    }

    /// Whether the repo has some `refs/bilink/*`, from what `git for-each-ref`
    /// listed.
    pub fn has_any_ref(listing: &str) -> (b: bool)
        ensures
            b == (trim(listing@).len() > 0),
    {
        let v = chars_of(listing);
        trim_of(v.as_slice()).len() > 0
    }

    /// The merge base git answered, trimmed; `None` when git failed.
    pub fn merge_base(answer: Option<&str>) -> (r: Option<String>)
        ensures
            opt_view(r) == match answer {
                Some(out) => Some(trim(out@)),
                None => None,
            },
    {
        match answer {
            Some(out) => {
                let v = chars_of(out);
                Some(string_of(trim_of(v.as_slice()).as_slice()))
            },
            None => None,
        }
    }
}

// ─── trees and diffs ────────────────────────────────────────────────────────

/// The lines that fall inside `.bilink/`, in order.
pub open spec fn bilink_lines(ls: Seq<Seq<char>>) -> Seq<Seq<char>>
    decreases ls.len(),
{
    if ls.len() == 0 {
        seq![]
    } else {
        bilink_lines(ls.drop_last()) + if is_bilink(ls.last()) {
            seq![ls.last()]
        } else {
            Seq::<Seq<char>>::empty()
        }
    }
}

/// The lines that are not blank and fall outside `.bilink/`, in order.
pub open spec fn code_lines(ls: Seq<Seq<char>>) -> Seq<Seq<char>>
    decreases ls.len(),
{
    if ls.len() == 0 {
        seq![]
    } else {
        code_lines(ls.drop_last()) + if trim(ls.last()).len() > 0 && !is_bilink(ls.last()) {
            seq![ls.last()]
        } else {
            Seq::<Seq<char>>::empty()
        }
    }
}

/// The first (at most) `n` of `s`.
pub open spec fn first_n<A>(s: Seq<A>, n: nat) -> Seq<A> {
    if s.len() <= n {
        s
    } else {
        s.take(n as int)
    }
}

/// The lines of a listing: the ones in `.bilink/` (when `bilink`) or the filled
/// ones outside it, up to `n` of them.
fn pick_lines(listing: &str, bilink: bool, n: usize) -> (r: Vec<String>)
    ensures
        string_views(r@) == first_n(
            if bilink {
                bilink_lines(lines(listing@))
            } else {
                code_lines(lines(listing@))
            },
            n as nat,
        ),
{
    let v = chars_of(listing);
    let ls = lines_of(v.as_slice());
    let ghost all = views(ls@);
    let ghost picked = if bilink {
        bilink_lines(all)
    } else {
        code_lines(all)
    };
    let mut out: Vec<String> = Vec::new();
    let mut i: usize = 0;
    while i < ls.len()
        invariant
            i <= ls.len(),
            all == views(ls@),
            all == lines(listing@),
            picked == if bilink {
                bilink_lines(all)
            } else {
                code_lines(all)
            },
            string_views(out@) == first_n(
                if bilink {
                    bilink_lines(all.take(i as int))
                } else {
                    code_lines(all.take(i as int))
                },
                n as nat,
            ),
        decreases ls.len() - i,
    {
        let line = string_of(ls[i].as_slice());
        let ghost next = all.take(i as int + 1);
        assert(next.drop_last() =~= all.take(i as int));
        assert(next.last() == ls@[i as int]@);
        let hit = if bilink {
            is_bilink_path(line.as_str())
        } else {
            trim_of(ls[i].as_slice()).len() > 0 && !is_bilink_path(line.as_str())
        };
        let ghost before = out@;
        if hit && out.len() < n {
            out.push(line);
            assert(string_views(out@) =~= string_views(before).push(line@));
        }
        proof {
            let prev = if bilink {
                bilink_lines(all.take(i as int))
            } else {
                code_lines(all.take(i as int))
            };
            let now = if bilink {
                bilink_lines(next)
            } else {
                code_lines(next)
            };
            if hit {
                assert(now =~= prev.push(next.last()));
                if prev.len() < n {
                    assert(first_n(now, n as nat) =~= prev.push(next.last()));
                } else {
                    assert(first_n(now, n as nat) =~= first_n(prev, n as nat));
                }
            } else {
                assert(now =~= prev);
            }
        }
        i = i + 1;
    }
    assert(all.take(i as int) =~= all);
    out
}

/// Whether some line of a listing falls inside `.bilink/`.
pub open spec fn lists_bilink(listing: Seq<char>) -> bool {
    exists|k: int| 0 <= k < lines(listing).len() && is_bilink(#[trigger] lines(listing)[k])
}

proof fn lemma_bilink_lines_empty(ls: Seq<Seq<char>>)
    ensures
        bilink_lines(ls).len() == 0 <==> forall|k: int| 0 <= k < ls.len() ==> !is_bilink(
            #[trigger] ls[k],
        ),
    decreases ls.len(),
{
    if ls.len() > 0 {
        lemma_bilink_lines_empty(ls.drop_last());
        assert forall|k: int| 0 <= k < ls.len() - 1 implies #[trigger] ls.drop_last()[k] == ls[k] by {}
        if bilink_lines(ls).len() == 0 {
            assert forall|k: int| 0 <= k < ls.len() implies !is_bilink(#[trigger] ls[k]) by {
                if k < ls.len() - 1 {
                    assert(ls.drop_last()[k] == ls[k]);
                }
            }
        }
    }
}

proof fn lemma_code_lines_empty(ls: Seq<Seq<char>>)
    ensures
        code_lines(ls).len() == 0 <==> forall|k: int|
            0 <= k < ls.len() ==> trim(#[trigger] ls[k]).len() == 0 || is_bilink(ls[k]),
    decreases ls.len(),
{
    if ls.len() > 0 {
        lemma_code_lines_empty(ls.drop_last());
        assert forall|k: int| 0 <= k < ls.len() - 1 implies #[trigger] ls.drop_last()[k] == ls[k] by {}
        if code_lines(ls).len() == 0 {
            assert forall|k: int| 0 <= k < ls.len() implies trim(#[trigger] ls[k]).len() == 0
                || is_bilink(ls[k]) by {
                if k < ls.len() - 1 {
                    assert(ls.drop_last()[k] == ls[k]);
                }
            }
        }
    }
}

impl Repo {
    /// **Disjointness.** The tree of the project commit, as `git ls-tree -r
    /// --name-only` listed it, holds no `.bilink/`; otherwise the error names up to
    /// three offending paths. It goes by the **tree** and not the diff: the commit
    /// that deletes `.bilink/` is exactly the one that has to be absorbable.
    pub fn verify_disjoint(project_commit: &str, listing: &str) -> (r: Result<(), RefError>)
        ensures
            match r {
                Ok(()) => !lists_bilink(listing@),
                Err(RefError::NotDisjoint { commit, offenders }) => lists_bilink(listing@)
                    && commit@ == project_commit@ && string_views(offenders@) == first_n(
                    bilink_lines(lines(listing@)),
                    3,
                ),
                Err(_) => false,
            },
    {
        let offenders = pick_lines(listing, true, 3);
        proof {
            lemma_bilink_lines_empty(lines(listing@));
            assert(string_views(offenders@).len() == offenders@.len());
        }
        if offenders.len() == 0 {
            Ok(())
        } else {
            Err(RefError::NotDisjoint { commit: owned(project_commit), offenders })
        }
    }

    /// **Faithfulness.** The code tree of the new commit is identical to that of the
    /// absorbed project commit: `git diff-tree -r --name-only` between them lists
    /// nothing outside `.bilink/`. Otherwise the error names up to three strays.
    pub fn verify_faithful(absorbed: &str, diff: &str) -> (r: Result<(), RefError>)
        ensures
            match r {
                Ok(()) => code_lines(lines(diff@)).len() == 0,
                Err(RefError::NotFaithful { absorbed: a, strays }) => code_lines(lines(diff@)).len()
                    > 0 && a@ == absorbed@ && string_views(strays@) == first_n(
                    code_lines(lines(diff@)),
                    3,
                ),
                Err(_) => false,
            },
    {
        let strays = pick_lines(diff, false, 3);
        assert(string_views(strays@).len() == strays@.len());
        if strays.len() == 0 {
            Ok(())
        } else {
            Err(RefError::NotFaithful { absorbed: owned(absorbed), strays })
        }
    }

    /// Whether the tree `git ls-tree -r --name-only` listed holds some `.bilink/`.
    /// It is the test of disjointness, and what stops the walk of [`Repo::absorbed`].
    pub fn tree_has_any_bilink(listing: &str) -> (b: bool)
        ensures
            b == lists_bilink(listing@),
    {
        let found = pick_lines(listing, true, 1);
        proof {
            lemma_bilink_lines_empty(lines(listing@));
            assert(string_views(found@).len() == found@.len());
        }
        found.len() > 0
    }

    /// Which of the two trees moved between two commits, from `git diff-tree -r
    /// --name-only`: `(.bilink/, code)`.
    pub fn what_moved(diff: &str) -> (r: (bool, bool))
        ensures
            r.0 == (bilink_lines(lines(diff@)).len() > 0),
            r.1 == (code_lines(lines(diff@)).len() > 0),
    {
        let b = pick_lines(diff, true, 1);
        let c = pick_lines(diff, false, 1);
        assert(string_views(b@).len() == b@.len());
        assert(string_views(c@).len() == c@.len());
        (b.len() > 0, c.len() > 0)
    }
}

// ─── one commit, one thing ──────────────────────────────────────────────────

/// What a commit with these parents did, by the number of parents, where they
/// come from and which tree moved against the first one.
pub open spec fn act_of(
    commit: Seq<char>,
    parents: Seq<Seq<char>>,
    moved: (bool, bool),
    first_has_bilink: bool,
    second_has_bilink: bool,
) -> Result<(Seq<char>, nat), Seq<char>> {
    if parents.len() == 1 && !first_has_bilink {
        Ok((parents[0], 0))
    } else if parents.len() == 1 {
        if moved.1 {
            Err(commit)
        } else {
            Ok((seq![], 2))
        }
    } else if parents.len() >= 2 && !second_has_bilink {
        if moved.0 {
            Err(commit)
        } else {
            Ok((parents[1], 1))
        }
    } else if parents.len() >= 2 {
        if moved.1 {
            Err(commit)
        } else {
            Ok((seq![], 3))
        }
    } else {
        Err(commit)
    }
}

/// What the walk towards the absorbed commit does next.
#[derive(Debug, Clone, PartialEq)]
pub enum Walk {
    /// The walk is over: the absorbed commit, or none below the cut.
    Done(Option<String>),
    /// Go on from this commit.
    Next(String),
}

/// A step of the walk, as plain values.
pub enum WalkView {
    Done(Option<Seq<char>>),
    Next(Seq<char>),
}

/// A step of the walk, as plain values.
pub open spec fn walk_view(w: Walk) -> WalkView {
    match w {
        Walk::Done(c) => WalkView::Done(opt_view(c)),
        Walk::Next(c) => WalkView::Next(c@),
    }
}

/// What the walk does at a commit: a commit without `.bilink/` is the project's
/// and is what was absorbed; a merge whose second parent has no `.bilink/` absorbed
/// that parent; any other commit with parents is followed through its first; and a
/// ref commit without parents ends the walk with nothing absorbed.
pub open spec fn walk_step(
    current: Seq<char>,
    has_bilink: bool,
    parents: Seq<Seq<char>>,
    second_has_bilink: bool,
) -> WalkView {
    if !has_bilink {
        WalkView::Done(Some(current))
    } else if parents.len() >= 2 && !second_has_bilink {
        WalkView::Done(Some(parents[1]))
    } else if parents.len() >= 1 {
        WalkView::Next(parents[0])
    } else {
        WalkView::Done(None)
    }
}

/// The parents of the absorbing commit that an absorption asks for, or nothing when
/// the project tip already is the absorbed commit (or, below the cut, the ref's tip).
pub open spec fn absorb_plan(ref_tip: Seq<char>, project_tip: Seq<char>, absorbed: Option<Seq<char>>) -> Option<
    Seq<Seq<char>>,
> {
    let a = match absorbed {
        Some(x) => x,
        None => ref_tip,
    };
    if a == project_tip {
        None
    } else {
        Some(seq![ref_tip, project_tip])
    }
}

/// A commit of the ref as the walk reads it: its id, whether its tree holds
/// `.bilink/`, its parents, and whether its second parent's tree holds `.bilink/`.
pub struct RefCommit {
    pub commit: String,
    pub has_bilink: bool,
    pub parents: Vec<String>,
    pub second_has_bilink: bool,
}

/// Where the walk from the `k`-th commit of a first-parent chain ends: the
/// absorbed commit, or none below the cut; `None` where the chain ends, or does
/// not go on to the commit the walk follows, before the walk does.
pub open spec fn walk_from(chain: Seq<RefCommit>, k: int) -> Option<Option<Seq<char>>>
    decreases chain.len() - k,
{
    if k < 0 || k >= chain.len() {
        None
    } else {
        match walk_step(chain[k].commit@, chain[k].has_bilink, string_views(chain[k].parents@), chain[k].second_has_bilink) {
            WalkView::Done(c) => Some(c),
            WalkView::Next(p) => if k + 1 < chain.len() && chain[k + 1].commit@ == p {
                walk_from(chain, k + 1)
            } else {
                None
            },
        }
    }
}

impl Repo {
    /// **The project commit a ref commit has absorbed**, walking its first-parent
    /// chain (`chain[0]` is the commit, each next one the parent the step before
    /// follows) with `absorbed` step by step: a cut gives the project commit below
    /// it, an absorption its project parent, and a decision or a synchronization is
    /// followed through its first parent. `None` where the chain runs out first.
    pub fn absorbed_along(chain: &Vec<RefCommit>) -> (r: Option<Option<String>>)
        ensures
            match r {
                Some(Some(c)) => walk_from(chain@, 0) == Some(Some(c@)),
                Some(None) => walk_from(chain@, 0) == Some(None::<Seq<char>>),
                None => walk_from(chain@, 0) is None,
            },
    {
        let mut k: usize = 0;
        while k < chain.len()
            invariant
                k <= chain@.len(),
                walk_from(chain@, 0) == walk_from(chain@, k as int),
            decreases chain.len() - k,
        {
            let c = &chain[k];
            match Repo::absorbed(c.commit.as_str(), c.has_bilink, &c.parents, c.second_has_bilink) {
                Walk::Done(x) => {
                    return Some(x);
                },
                Walk::Next(p) => {
                    if k + 1 < chain.len() && crate::text::same_text(chain[k + 1].commit.as_str(), p.as_str()) {
                        k = k + 1;
                    } else {
                        return None;
                    }
                },
            }
        }
        None
    }
}

/// **A decision or a synchronization absorbed what its first parent absorbed**:
/// where the walk follows a commit's first parent and the chain goes on to it, the
/// walk from the commit ends where the walk from that parent does.
pub proof fn lemma_walk_follows_first_parent(chain: Seq<RefCommit>, k: int)
    requires
        0 <= k,
        k + 1 < chain.len(),
        chain[k].has_bilink,
        chain[k].parents@.len() >= 1,
        chain[k].parents@.len() >= 2 ==> chain[k].second_has_bilink,
        chain[k + 1].commit@ == chain[k].parents@[0]@,
    ensures
        walk_from(chain, k) == walk_from(chain, k + 1),
{
    assert(string_views(chain[k].parents@)[0] == chain[k].parents@[0]@);
}

/// **A cut is read as the project commit below it**: a ref commit whose only parent
/// has no `.bilink/` absorbed that parent.
pub proof fn lemma_cut_absorbs_its_parent(chain: Seq<RefCommit>, k: int)
    requires
        0 <= k,
        k + 1 < chain.len(),
        chain[k].has_bilink,
        chain[k].parents@.len() == 1,
        chain[k + 1].commit@ == chain[k].parents@[0]@,
        !chain[k + 1].has_bilink,
    ensures
        walk_from(chain, k) == Some(Some(chain[k].parents@[0]@)),
{
    assert(string_views(chain[k].parents@)[0] == chain[k].parents@[0]@);
    assert(walk_from(chain, k + 1) == Some(Some(chain[k + 1].commit@)));
}

/// **Absorbing twice in a row absorbs once.** The commit an absorption writes, with
/// the parents it asked for and a tree that holds `.bilink/`, is read by the walk as
/// having absorbed the project's tip (which holds no `.bilink/`); so with that commit
/// as the ref's tip and the project's tip unmoved, the next absorption asks for
/// nothing.
pub proof fn lemma_absorbing_twice_absorbs_once(
    ref_tip: Seq<char>,
    project_tip: Seq<char>,
    absorbed: Option<Seq<char>>,
    written: Seq<char>,
)
    requires
        absorb_plan(ref_tip, project_tip, absorbed) is Some,
    ensures
        walk_step(written, true, absorb_plan(ref_tip, project_tip, absorbed)->Some_0, false) == WalkView::Done(
            Some(project_tip),
        ),
        ({
            let next_absorbed = match walk_step(written, true, absorb_plan(ref_tip, project_tip, absorbed)->Some_0, false) {
                WalkView::Done(c) => c,
                WalkView::Next(_) => None,
            };
            absorb_plan(written, project_tip, next_absorbed) is None
        }),
{
}

impl Repo {
    /// Which act a commit of the ref is, read **with plain git**: its parents (from
    /// `git rev-list --parents`), which trees moved against the first parent, and
    /// whether the first and the second parent's trees hold `.bilink/`. It fails
    /// when the commit does two things at once.
    pub fn classify(
        commit: &str,
        parents: &Vec<String>,
        moved: (bool, bool),
        first_has_bilink: bool,
        second_has_bilink: bool,
    ) -> (r: Result<Act, RefError>)
        ensures
            ({
                let ps = string_views(parents@);
                let n = parents@.len();
                match r {
                    Ok(Act::Cut { project }) => n == 1 && !first_has_bilink && project@ == ps[0],
                    Ok(Act::Decision) => n == 1 && first_has_bilink && !moved.1,
                    Ok(Act::Absorption { project }) => n >= 2 && !second_has_bilink && !moved.0
                        && project@ == ps[1],
                    Ok(Act::Synchronization) => n >= 2 && second_has_bilink && !moved.1,
                    Err(RefError::DecidesAndMovesCode { commit: c }) => n == 1 && first_has_bilink
                        && moved.1 && c@ == commit@,
                    Err(RefError::AbsorbsAndDecides { commit: c }) => n >= 2 && !second_has_bilink
                        && moved.0 && c@ == commit@,
                    Err(RefError::SynchronizesAndMovesCode { commit: c }) => n >= 2
                        && second_has_bilink && moved.1 && c@ == commit@,
                    Err(RefError::NoParents { commit: c }) => n == 0 && c@ == commit@,
                    _ => false,
                }
            }),
    {
        let n = parents.len();
        if n == 1 && !first_has_bilink {
            Ok(Act::Cut { project: parents[0].clone() })
        } else if n == 1 {
            if moved.1 {
                Err(RefError::DecidesAndMovesCode { commit: owned(commit) })
            } else {
                Ok(Act::Decision)
            }
        } else if n >= 2 && !second_has_bilink {
            if moved.0 {
                Err(RefError::AbsorbsAndDecides { commit: owned(commit) })
            } else {
                Ok(Act::Absorption { project: parents[1].clone() })
            }
        } else if n >= 2 {
            if moved.1 {
                Err(RefError::SynchronizesAndMovesCode { commit: owned(commit) })
            } else {
                Ok(Act::Synchronization)
            }
        } else {
            Err(RefError::NoParents { commit: owned(commit) })
        }
    }

    /// One step of the walk to the project commit that a ref commit has absorbed:
    /// a commit whose tree has no `.bilink/` is it; an absorption (a merge whose
    /// second parent is a project commit, without `.bilink/`) absorbed its second
    /// parent; a decision, or a synchronization (a merge whose second parent is
    /// itself a ref commit), absorbed what its first parent did, so the walk goes on
    /// there. `second_has_bilink` says whether the second parent's tree has
    /// `.bilink/`; it is read only for a merge.
    pub fn absorbed(current: &str, has_bilink: bool, parents: &Vec<String>, second_has_bilink: bool) -> (r: Walk)
        ensures
            ({
                let ps = string_views(parents@);
                &&& !has_bilink ==> (r matches Walk::Done(Some(c)) && c@ == current@)
                &&& has_bilink && ps.len() >= 2 && !second_has_bilink ==> (r matches Walk::Done(Some(c)) && c@
                    == ps[1])
                &&& has_bilink && ps.len() >= 2 && second_has_bilink ==> (r matches Walk::Next(c) && c@ == ps[0])
                &&& has_bilink && ps.len() == 1 ==> (r matches Walk::Next(c) && c@ == ps[0])
                &&& has_bilink && ps.len() == 0 ==> r matches Walk::Done(None)
            }),
            walk_view(r) == walk_step(current@, has_bilink, string_views(parents@), second_has_bilink),
    {
        if !has_bilink {
            return Walk::Done(Some(owned(current)));
        }
        if parents.len() >= 2 && !second_has_bilink {
            Walk::Done(Some(parents[1].clone()))
        } else if parents.len() >= 1 {
            Walk::Next(parents[0].clone())
        } else {
            Walk::Done(None)
        }
    }

    /// The ref's **own** commits, newest first: the first-parent chain up to the
    /// first commit whose tree has no `.bilink/`.
    pub fn ref_chain(chain: &Vec<(String, bool)>) -> (r: Vec<String>)
        ensures
            r@.len() <= chain@.len(),
            forall|k: int| 0 <= k < r@.len() ==> #[trigger] r@[k]@ == chain@[k].0@ && chain@[k].1,
            r@.len() < chain@.len() ==> !chain@[r@.len() as int].1,
    {
        let mut out: Vec<String> = Vec::new();
        let mut i: usize = 0;
        loop
            invariant_except_break
                i <= chain.len(),
                out@.len() == i,
                forall|k: int| 0 <= k < i ==> #[trigger] out@[k]@ == chain@[k].0@ && chain@[k].1,
            ensures
                out@.len() <= chain@.len(),
                forall|k: int| 0 <= k < out@.len() ==> #[trigger] out@[k]@ == chain@[k].0@
                    && chain@[k].1,
                out@.len() < chain@.len() ==> !chain@[out@.len() as int].1,
            decreases chain.len() - i,
        {
            if i >= chain.len() || !chain[i].1 {
                assert(out@.len() == i);
                break;
            }
            let c = chain[i].0.clone();
            assert(c == chain@[i as int].0);
            let ghost before = out@;
            out.push(c);
            assert forall|k: int| 0 <= k < i + 1 implies #[trigger] out@[k]@ == chain@[k].0@
                && chain@[k].1 by {
                if k < i {
                    assert(out@[k] == before[k]);
                } else {
                    assert(out@[k] == c);
                }
            }
            i = i + 1;
        }
        out
    }

    /// **Absorption**, decided: nothing when the project tip already is the
    /// absorbed commit (or, below the cut, the ref's tip); otherwise the two parents
    /// of the absorbing commit, the ref's and the project's, and its message.
    pub fn absorb(branch: &str, ref_tip: &str, project_tip: &str, absorbed: Option<String>) -> (r:
        Option<(Vec<String>, RefMessage)>)
        ensures
            ({
                let a = match absorbed {
                    Some(x) => x@,
                    None => ref_tip@,
                };
                match r {
                    None => a == project_tip@,
                    Some((parents, message)) => a != project_tip@ && string_views(parents@)
                        == seq![ref_tip@, project_tip@] && message@.command
                        == crate::refmsg::CommandView::Absorb { project: project_tip@ }
                        && message@.prose == Some(crate::text::one_line(branch@ + " al día"@))
                        && message@.invocation is None && message@.version
                        == crate::refmsg::VERSION@,
                }
            }),
            match r {
                None => absorb_plan(ref_tip@, project_tip@, opt_view(absorbed)) is None,
                Some((parents, _)) => absorb_plan(ref_tip@, project_tip@, opt_view(absorbed)) == Some(
                    string_views(parents@),
                ),
            },
    {
        let a = match absorbed {
            Some(x) => x,
            None => owned(ref_tip),
        };
        if crate::text::same_text(a.as_str(), project_tip) {
            return None;
        }
        let mut parents: Vec<String> = Vec::new();
        parents.push(owned(ref_tip));
        parents.push(owned(project_tip));
        assert(string_views(parents@) =~= seq![ref_tip@, project_tip@]);
        let mut prose = chars_of(branch);
        append_str(&mut prose, " al día");
        let prose = string_of(prose.as_slice());
        let message = RefMessage::new(RefCommand::Absorb { project: owned(project_tip) })
            .with_prose(prose.as_str());
        Some((parents, message))
    }

    /// **Decision**, checked: a decision does not absorb, so the project tip has to
    /// be absorbed already (below the cut, the ref's tip stands for it). Answers the
    /// absorbed commit, whose code tree the decision carries.
    pub fn decide(ref_tip: &str, project_tip: &str, absorbed: Option<String>) -> (r: Result<
        String,
        RefError,
    >)
        ensures
            ({
                let a = match absorbed {
                    Some(x) => x@,
                    None => ref_tip@,
                };
                match r {
                    Ok(x) => a == project_tip@ && x@ == a,
                    Err(RefError::NotAbsorbed { project, absorbed: b }) => a != project_tip@
                        && project@ == project_tip@ && b@ == a,
                    Err(_) => false,
                }
            }),
    {
        let a = match absorbed {
            Some(x) => x,
            None => owned(ref_tip),
        };
        if crate::text::same_text(a.as_str(), project_tip) {
            Ok(a)
        } else {
            Err(RefError::NotAbsorbed { project: owned(project_tip), absorbed: a })
        }
    }

    /// The project branch a name written by hand names. `origin/main` and `main` are
    /// the same branch, but `feature/x` carries a slash too: the prefix goes only
    /// when it is a remote of this repo, and never when the name has a ref.
    pub fn resolve_branch_name(name: &str, has_ref: bool, remotes: &Vec<String>) -> (r: String)
        ensures
            has_ref ==> r@ == name@,
            !has_ref ==> match first_remote_prefix(name@, string_views(remotes@)) {
                Some(rest) => r@ == rest,
                None => r@ == name@,
            },
    {
        if has_ref {
            return owned(name);
        }
        let n = chars_of(name);
        let mut i: usize = 0;
        assert(string_views(remotes@).skip(0) =~= string_views(remotes@));
        while i < remotes.len()
            invariant
                !has_ref,
                i <= remotes.len(),
                n@ == name@,
                first_remote_prefix(name@, string_views(remotes@)) == first_remote_prefix(
                    name@,
                    string_views(remotes@).skip(i as int),
                ),
            decreases remotes.len() - i,
        {
            let mut prefix = chars_of(remotes[i].as_str());
            prefix.push('/');
            let ghost rs = string_views(remotes@).skip(i as int);
            assert(rs[0] == remotes@[i as int]@);
            assert(prefix@ == rs[0] + seq!['/']);
            match crate::text::strip_prefix_of(n.as_slice(), prefix.as_slice()) {
                Some(rest) => {
                    return string_of(rest.as_slice());
                },
                None => {},
            }
            assert(rs.drop_first() =~= string_views(remotes@).skip(i as int + 1));
            i = i + 1;
        }
        assert(string_views(remotes@).skip(i as int) =~= Seq::<Seq<char>>::empty());
        owned(name)
    }
}

/// What the name has after the first remote that prefixes it as `<remote>/`.
pub open spec fn first_remote_prefix(name: Seq<char>, remotes: Seq<Seq<char>>) -> Option<
    Seq<char>,
>
    decreases remotes.len(),
{
    if remotes.len() == 0 {
        None
    } else {
        match crate::text::strip_prefix(name, remotes[0] + seq!['/']) {
            Some(rest) => Some(rest),
            None => first_remote_prefix(name, remotes.drop_first()),
        }
    }
}

// ─── `.bilink/head` and materialisation ─────────────────────────────────────

/// The value of the last line `<key> <value>` of the lines, trimmed.
pub open spec fn last_value(ls: Seq<Seq<char>>, key: Seq<char>) -> Option<Seq<char>>
    decreases ls.len(),
{
    if ls.len() == 0 {
        None
    } else {
        match crate::text::split_once(ls.last(), seq![' ']) {
            Some((k, v)) => if k == key {
                Some(trim(v))
            } else {
                last_value(ls.drop_last(), key)
            },
            None => last_value(ls.drop_last(), key),
        }
    }
}

/// The provenance a `head` text records: its branch and its commit, both needed.
pub open spec fn head_of(text: Seq<char>) -> Option<(Seq<char>, Seq<char>)> {
    match (last_value(lines(text), "branch"@), last_value(lines(text), "commit"@)) {
        (Some(b), Some(c)) => Some((b, c)),
        _ => None,
    }
}

/// The text of `.bilink/head`.
pub open spec fn head_text_of(branch: Seq<char>, commit: Seq<char>) -> Seq<char> {
    "branch "@ + branch + "\ncommit "@ + commit + "\n"@
}

impl Repo {
    /// What `.bilink/head` says: which branch and which commit of the ref the
    /// tree's `.bilink/` came from. `None` when either is missing.
    pub fn read_head(text: &str) -> (r: Option<Head>)
        ensures
            match r {
                Some(h) => head_of(text@) == Some((h.branch@, h.commit@)),
                None => head_of(text@) is None,
            },
    {
        let v = chars_of(text);
        let ls = lines_of(v.as_slice());
        let mut branch: Option<Vec<char>> = None;
        let mut commit: Option<Vec<char>> = None;
        let space = vec![' '];
        assert(space@ =~= seq![' ']);
        let mut i: usize = 0;
        while i < ls.len()
            invariant
                i <= ls.len(),
                space@ == seq![' '],
                views(ls@) == lines(text@),
                match branch {
                    Some(b) => last_value(views(ls@).take(i as int), "branch"@) == Some(b@),
                    None => last_value(views(ls@).take(i as int), "branch"@) is None,
                },
                match commit {
                    Some(c) => last_value(views(ls@).take(i as int), "commit"@) == Some(c@),
                    None => last_value(views(ls@).take(i as int), "commit"@) is None,
                },
            decreases ls.len() - i,
        {
            let ghost next = views(ls@).take(i as int + 1);
            assert(next.drop_last() =~= views(ls@).take(i as int));
            assert(next.last() == ls@[i as int]@);
            match crate::text::split_once_of(ls[i].as_slice(), space.as_slice()) {
                Some((k, val)) => {
                    if crate::text::same_str(k.as_slice(), "branch") {
                        branch = Some(trim_of(val.as_slice()));
                    } else if crate::text::same_str(k.as_slice(), "commit") {
                        commit = Some(trim_of(val.as_slice()));
                    }
                    proof {
                        reveal_strlit("branch");
                        reveal_strlit("commit");
                        assert("branch"@[0] != "commit"@[0]);
                    }
                },
                None => {},
            }
            i = i + 1;
        }
        assert(views(ls@).take(i as int) =~= views(ls@));
        match (branch, commit) {
            (Some(b), Some(c)) => Some(
                Head { branch: string_of(b.as_slice()), commit: string_of(c.as_slice()) },
            ),
            _ => None,
        }
    }

    /// The text `.bilink/head` gets: the branch and the commit of the ref.
    pub fn head_text(branch: &str, ref_commit: &str) -> (r: String)
        ensures
            r@ == head_text_of(branch@, ref_commit@),
    {
        let mut out = chars_of("branch ");
        append_str(&mut out, branch);
        append_str(&mut out, "\ncommit ");
        append_str(&mut out, ref_commit);
        append_str(&mut out, "\n");
        string_of(out.as_slice())
    }

    /// Whether the tree's `.bilink/` has to be materialised, from the current
    /// branch, the `head` read and the ref's tip. `Rematerialized` means that it
    /// has to, after [`Repo::guard_clean`]: the tree then corresponds to that tip.
    pub fn ensure_current(branch: Option<String>, head: Option<Head>, tip: Option<String>) -> (r:
        Materialization)
        ensures
            match branch {
                None => r == Materialization::Detached,
                Some(b) => match tip {
                    None => r == Materialization::NoRef(b),
                    Some(t) => match head {
                        None => r == Materialization::NoProvenance,
                        Some(h) => if h.branch@ == b@ && h.commit@ == t@ {
                            r == Materialization::UpToDate
                        } else {
                            r == Materialization::Rematerialized { from: h, to: t }
                        },
                    },
                },
            },
    {
        let b = match branch {
            None => return Materialization::Detached,
            Some(b) => b,
        };
        let t = match tip {
            None => return Materialization::NoRef(b),
            Some(t) => t,
        };
        match head {
            None => Materialization::NoProvenance,
            Some(h) => {
                if crate::text::same_text(h.branch.as_str(), b.as_str()) && crate::text::same_text(
                    h.commit.as_str(),
                    t.as_str(),
                ) {
                    Materialization::UpToDate
                } else {
                    Materialization::Rematerialized { from: h, to: t }
                }
            },
        }
    }

    /// **The guard, which is git's.** If the tree's `.bilink/` differs from the
    /// commit `head` names, there is work that is nowhere else, and materialising
    /// would destroy it: it stops there.
    pub fn guard_clean(head: &Head, dirty: Vec<String>) -> (r: Result<(), RefError>)
        ensures
            dirty@.len() == 0 ==> r == Ok::<(), RefError>(()),
            dirty@.len() > 0 ==> r == Err::<(), RefError>(
                RefError::Dirty { commit: head.commit, paths: dirty },
            ),
    {
        if dirty.len() == 0 {
            Ok(())
        } else {
            Err(RefError::Dirty { commit: head.commit.clone(), paths: dirty })
        }
    }
}

/// **A `head` written reads back.** What `Repo::head_text` writes, `Repo::read_head`
/// reads as the same branch and commit, when each fits on a line as it is.
pub proof fn lemma_head_round_trip(branch: Seq<char>, commit: Seq<char>)
    requires
        crate::refmsg::clean_line(branch),
        crate::refmsg::clean_line(commit),
    ensures
        head_of(head_text_of(branch, commit)) == Some((branch, commit)),
{
    reveal_strlit("branch ");
    reveal_strlit("commit ");
    reveal_strlit("\ncommit ");
    reveal_strlit("\n");
    reveal_strlit("branch");
    reveal_strlit("commit");
    let bl = "branch "@ + branch;
    let cl = "commit "@ + commit;
    let e: Seq<char> = seq![];
    let t = head_text_of(branch, commit);
    assert(t =~= bl + seq!['\n'] + (cl + seq!['\n'] + e));
    assert forall|k: int| 0 <= k < bl.len() implies #[trigger] bl[k] != '\n' by {
        if k >= 7 {
            assert(bl[k] == branch[k - 7]);
        }
    }
    assert forall|k: int| 0 <= k < cl.len() implies #[trigger] cl[k] != '\n' by {
        if k >= 7 {
            assert(cl[k] == commit[k - 7]);
        }
    }
    assert(crate::text::strip_cr(bl) == bl) by {
        if branch.len() > 0 {
            assert(bl.last() == branch.last());
        }
    }
    assert(crate::text::strip_cr(cl) == cl) by {
        if commit.len() > 0 {
            assert(cl.last() == commit.last());
        }
    }
    crate::text::lemma_lines_split(bl, cl + seq!['\n'] + e, e);
    assert(e + bl =~= bl);
    crate::text::lemma_lines_split(cl, e, e);
    assert(e + cl =~= cl);
    let ls = lines(t);
    assert(ls =~= seq![bl, cl]);
    let sp: Seq<char> = seq![' '];
    // "branch " and "commit " split at their space.
    assert forall|j: int| 0 <= j < 6 implies !occurs_at(bl, j, sp) by {
        if occurs_at(bl, j, sp) {
            assert(bl.subrange(j, j + 1)[0] == bl[j]);
        }
    }
    assert(occurs_at(bl, 6, sp)) by {
        assert(bl.subrange(6, 7) =~= sp);
    }
    crate::text::lemma_find_first(bl, sp, 0, 6);
    assert(bl.take(6) =~= "branch"@);
    assert(bl.skip(7) =~= branch);
    assert forall|j: int| 0 <= j < 6 implies !occurs_at(cl, j, sp) by {
        if occurs_at(cl, j, sp) {
            assert(cl.subrange(j, j + 1)[0] == cl[j]);
        }
    }
    assert(occurs_at(cl, 6, sp)) by {
        assert(cl.subrange(6, 7) =~= sp);
    }
    crate::text::lemma_find_first(cl, sp, 0, 6);
    assert(cl.take(6) =~= "commit"@);
    assert(cl.skip(7) =~= commit);
    crate::text::lemma_trim_fixed(branch);
    crate::text::lemma_trim_fixed(commit);
    assert(ls.drop_last() =~= seq![bl]);
    assert(ls.drop_last().drop_last() =~= Seq::<Seq<char>>::empty());
    assert("branch"@[0] != "commit"@[0]);
    assert(last_value(ls, "commit"@) == Some(commit));
    assert(last_value(ls.drop_last(), "branch"@) == Some(branch));
    assert(crate::text::split_once(cl, sp) == Some(("commit"@, commit)));
    assert("commit"@ != "branch"@);
    assert(last_value(ls, "branch"@) == Some(branch));
}

// ─── where to commit ────────────────────────────────────────────────────────

/// The branch to commit on, or `None` when there is nowhere: **`None` when the
/// branch has no ref**, as before the cut, where the bilinks still live in the
/// branch. With `HEAD` detached it refuses, but only on a repo that has refs.
pub fn committable(branch: Option<String>, has_any_ref: bool, has_ref_tip: bool) -> (r: Result<
    Option<String>,
    RefError,
>)
    ensures
        match branch {
            None => if has_any_ref {
                r == Err::<Option<String>, RefError>(RefError::DetachedOnRef)
            } else {
                r == Ok::<Option<String>, RefError>(None)
            },
            Some(b) => if has_ref_tip {
                r == Ok::<Option<String>, RefError>(Some(b))
            } else {
                r == Ok::<Option<String>, RefError>(None)
            },
        },
{
    match branch {
        None => if has_any_ref {
            Err(RefError::DetachedOnRef)
        } else {
            Ok(None)
        },
        Some(b) => if has_ref_tip {
            Ok(Some(b))
        } else {
            Ok(None)
        },
    }
}

/// The absorption that precedes an act, if one is missing: nothing where there is
/// nowhere to commit or the tip is already absorbed; otherwise the parents and the
/// message of the absorbing commit. Called again on the result, it finds the tip
/// absorbed: N acts hang from one absorption.
pub fn absorb_act(
    branch: Option<String>,
    has_any_ref: bool,
    ref_tip: Option<String>,
    project_tip: Option<String>,
    absorbed: Option<String>,
) -> (r: Result<Option<(Vec<String>, RefMessage)>, RefError>)
    ensures
        branch is None && has_any_ref ==> r matches Err(RefError::DetachedOnRef),
        (branch is None && !has_any_ref) || (branch is Some && ref_tip is None) ==> r matches Ok(
            None,
        ),
        match branch {
            Some(b) => ref_tip is Some && project_tip is None ==> (r matches Err(
                RefError::NoCommits { branch: x },
            ) && x@ == b@),
            None => true,
        },
        match (branch, ref_tip, project_tip) {
            (Some(b), Some(t), Some(p)) => {
            let a = match absorbed {
                Some(x) => x@,
                None => t@,
            };
            match r {
                Ok(None) => a == p@,
                Ok(Some((parents, message))) => a != p@ && string_views(parents@) == seq![t@, p@]
                    && message@.command == crate::refmsg::CommandView::Absorb { project: p@ },
                Err(_) => false,
            }
            },
            _ => true,
        },
{
    let has_tip = match ref_tip {
        Some(_) => true,
        None => false,
    };
    let b = match committable(branch, has_any_ref, has_tip) {
        Err(e) => return Err(e),
        Ok(None) => return Ok(None),
        Ok(Some(b)) => b,
    };
    let t = match ref_tip {
        Some(t) => t,
        None => return Ok(None),
    };
    let p = match Repo::branch_tip(b.as_str(), project_tip) {
        Err(e) => return Err(e),
        Ok(p) => p,
    };
    Ok(Repo::absorb(b.as_str(), t.as_str(), p.as_str(), absorbed))
}

/// Where the decision that closes an acceptance or an `apply` goes: nothing where
/// there is nowhere to commit; otherwise the absorbed commit whose code tree it
/// carries, or the error when the tip is not absorbed.
pub fn decide_act(
    branch: Option<String>,
    has_any_ref: bool,
    ref_tip: Option<String>,
    project_tip: Option<String>,
    absorbed: Option<String>,
) -> (r: Result<Option<String>, RefError>)
    ensures
        branch is None && has_any_ref ==> r matches Err(RefError::DetachedOnRef),
        (branch is None && !has_any_ref) || (branch is Some && ref_tip is None) ==> r matches Ok(
            None,
        ),
        match branch {
            Some(b) => ref_tip is Some && project_tip is None ==> (r matches Err(
                RefError::NoCommits { branch: x },
            ) && x@ == b@),
            None => true,
        },
        match (branch, ref_tip, project_tip) {
            (Some(b), Some(t), Some(p)) => {
            let a = match absorbed {
                Some(x) => x@,
                None => t@,
            };
            match r {
                Ok(Some(x)) => a == p@ && x@ == a,
                Ok(None) => false,
                Err(RefError::NotAbsorbed { project, absorbed: y }) => a != p@ && project@ == p@
                    && y@ == a,
                Err(_) => false,
            }
            },
            _ => true,
        },
{
    let has_tip = match ref_tip {
        Some(_) => true,
        None => false,
    };
    let b = match committable(branch, has_any_ref, has_tip) {
        Err(e) => return Err(e),
        Ok(None) => return Ok(None),
        Ok(Some(b)) => b,
    };
    let t = match ref_tip {
        Some(t) => t,
        None => return Ok(None),
    };
    let p = match Repo::branch_tip(b.as_str(), project_tip) {
        Err(e) => return Err(e),
        Ok(p) => p,
    };
    match Repo::decide(t.as_str(), p.as_str(), absorbed) {
        Ok(x) => Ok(Some(x)),
        Err(e) => Err(e),
    }
}

// ─── listings ───────────────────────────────────────────────────────────────

/// What each line gives, in order, skipping the lines that give nothing.
pub open spec fn gather<A>(ls: Seq<Seq<char>>, f: spec_fn(Seq<char>) -> Option<A>) -> Seq<A>
    decreases ls.len(),
{
    if ls.len() == 0 {
        seq![]
    } else {
        gather(ls.drop_last(), f) + match f(ls.last()) {
            Some(a) => seq![a],
            None => Seq::<A>::empty(),
        }
    }
}

/// A line of `git diff-tree --name-status` (with a base) or of `git ls-tree
/// --name-only` (without one), as a changed file under `.bilink/`: its status
/// letter (`A` without a base) and its path.
pub open spec fn changed_entry(line: Seq<char>, with_base: bool) -> Option<(char, Seq<char>)> {
    if trim(line).len() == 0 {
        None
    } else if with_base {
        match crate::text::split_once(line, seq!['\t']) {
            None => None,
            Some((status, path)) => if is_bilink(path) {
                Some((if status.len() > 0 { status[0] } else { 'M' }, path))
            } else {
                None
            },
        }
    } else if is_bilink(line) {
        Some(('A', line))
    } else {
        None
    }
}

/// A line of `git ls-tree -r` as a blob under `.bilink/`: `(mode, oid, path)`.
pub open spec fn blob_entry(line: Seq<char>) -> Option<(Seq<char>, Seq<char>, Seq<char>)> {
    match crate::text::split_once(line, seq!['\t']) {
        None => None,
        Some((meta, path)) => if !is_bilink(path) {
            None
        } else {
            let f = words(meta);
            if f.len() >= 3 && f[1] == "blob"@ {
                Some((f[0], f[2], path))
            } else {
                None
            }
        },
    }
}

/// A line as a changed file under `.bilink/`.
fn changed_entry_of(line: &Vec<char>, with_base: bool) -> (r: Option<(char, String)>)
    ensures
        match r {
            Some((c, p)) => changed_entry(line@, with_base) == Some((c, p@)),
            None => changed_entry(line@, with_base) is None,
        },
{
    if trim_of(line.as_slice()).len() == 0 {
        return None;
    }
    if with_base {
        let tab = vec!['\t'];
        assert(tab@ =~= seq!['\t']);
        match crate::text::split_once_of(line.as_slice(), tab.as_slice()) {
            None => None,
            Some((status, path)) => {
                let p = string_of(path.as_slice());
                if is_bilink_path(p.as_str()) {
                    let c = if status.len() > 0 {
                        status[0]
                    } else {
                        'M'
                    };
                    Some((c, p))
                } else {
                    None
                }
            },
        }
    } else {
        let p = string_of(line.as_slice());
        if is_bilink_path(p.as_str()) {
            Some(('A', p))
        } else {
            None
        }
    }
}

/// A line as a blob under `.bilink/`.
fn blob_entry_of(line: &Vec<char>) -> (r: Option<(String, String, String)>)
    ensures
        match r {
            Some((m, o, p)) => blob_entry(line@) == Some((m@, o@, p@)),
            None => blob_entry(line@) is None,
        },
{
    let tab = vec!['\t'];
    assert(tab@ =~= seq!['\t']);
    match crate::text::split_once_of(line.as_slice(), tab.as_slice()) {
        None => None,
        Some((meta, path)) => {
            let p = string_of(path.as_slice());
            if !is_bilink_path(p.as_str()) {
                return None;
            }
            let f = words_of(meta.as_slice());
            if f.len() >= 3 {
                assert(views(f@)[1] == f@[1]@);
                assert(views(f@)[0] == f@[0]@);
                assert(views(f@)[2] == f@[2]@);
                if crate::text::same_str(f[1].as_slice(), "blob") {
                    return Some((string_of(f[0].as_slice()), string_of(f[2].as_slice()), p));
                }
            }
            None
        },
    }
}

/// The views of `(status, path)` pairs.
pub open spec fn changed_views(v: Seq<(char, String)>) -> Seq<(char, Seq<char>)> {
    v.map_values(|e: (char, String)| (e.0, e.1@))
}

/// The views of `(mode, oid, path)` triples.
pub open spec fn triple_views(v: Seq<(String, String, String)>) -> Seq<
    (Seq<char>, Seq<char>, Seq<char>),
> {
    v.map_values(|e: (String, String, String)| (e.0@, e.1@, e.2@))
}

/// The blobs under `.bilink/` a `git ls-tree -r` listing holds.
fn blobs_of(listing: &str) -> (r: Vec<(String, String, String)>)
    ensures
        triple_views(r@) == gather(lines(listing@), |l: Seq<char>| blob_entry(l)),
{
    let v = chars_of(listing);
    let ls = lines_of(v.as_slice());
    let ghost f = |l: Seq<char>| blob_entry(l);
    let mut out: Vec<(String, String, String)> = Vec::new();
    let mut i: usize = 0;
    while i < ls.len()
        invariant
            i <= ls.len(),
            views(ls@) == lines(listing@),
            f == (|l: Seq<char>| blob_entry(l)),
            triple_views(out@) == gather(views(ls@).take(i as int), f),
        decreases ls.len() - i,
    {
        let ghost next = views(ls@).take(i as int + 1);
        assert(next.drop_last() =~= views(ls@).take(i as int));
        assert(next.last() == ls@[i as int]@);
        let ghost before = out@;
        match blob_entry_of(&ls[i]) {
            Some(e) => {
                out.push(e);
                assert(triple_views(out@) =~= triple_views(before).push((e.0@, e.1@, e.2@)));
            },
            None => {},
        }
        assert(triple_views(out@) =~= gather(next, f));
        i = i + 1;
    }
    assert(views(ls@).take(i as int) =~= views(ls@));
    out
}

impl Repo {
    /// The files under `.bilink/` that a commit touched, with their git status,
    /// from `git diff-tree -r --no-renames --name-status <base> <commit>`; without a
    /// base (the root commit) from `git ls-tree -r --name-only`, all added.
    pub fn changed_bilink_files(with_base: bool, listing: &str) -> (r: Vec<(char, String)>)
        ensures
            changed_views(r@) == gather(lines(listing@), |l: Seq<char>| changed_entry(l, with_base)),
    {
        let v = chars_of(listing);
        let ls = lines_of(v.as_slice());
        let ghost f = |l: Seq<char>| changed_entry(l, with_base);
        let mut out: Vec<(char, String)> = Vec::new();
        let mut i: usize = 0;
        while i < ls.len()
            invariant
                i <= ls.len(),
                views(ls@) == lines(listing@),
                f == (|l: Seq<char>| changed_entry(l, with_base)),
                changed_views(out@) == gather(views(ls@).take(i as int), f),
            decreases ls.len() - i,
        {
            let ghost next = views(ls@).take(i as int + 1);
            assert(next.drop_last() =~= views(ls@).take(i as int));
            assert(next.last() == ls@[i as int]@);
            let ghost before = out@;
            match changed_entry_of(&ls[i], with_base) {
                Some(e) => {
                    out.push(e);
                    assert(changed_views(out@) =~= changed_views(before).push((e.0, e.1@)));
                },
                None => {},
            }
            assert(changed_views(out@) =~= gather(next, f));
            i = i + 1;
        }
        assert(views(ls@).take(i as int) =~= views(ls@));
        out
    }

    /// The blobs under `.bilink/` of a commit, `(path, oid)`, from `git ls-tree -r`.
    pub fn bilink_blobs(listing: &str) -> (r: Vec<(String, String)>)
        ensures
            pair_views(r@) == gather(lines(listing@), |l: Seq<char>| blob_entry(l)).map_values(
                |e: (Seq<char>, Seq<char>, Seq<char>)| (e.2, e.1),
            ),
    {
        let all = blobs_of(listing);
        let mut out: Vec<(String, String)> = Vec::new();
        let mut i: usize = 0;
        while i < all.len()
            invariant
                i <= all.len(),
                out@.len() == i,
                pair_views(out@) == triple_views(all@).take(i as int).map_values(
                    |e: (Seq<char>, Seq<char>, Seq<char>)| (e.2, e.1),
                ),
            decreases all.len() - i,
        {
            let oid = all[i].1.clone();
            let path = all[i].2.clone();
            let ghost before = out@;
            let ghost want = triple_views(all@).take(i as int + 1).map_values(
                |e: (Seq<char>, Seq<char>, Seq<char>)| (e.2, e.1),
            );
            let ghost had = triple_views(all@).take(i as int).map_values(
                |e: (Seq<char>, Seq<char>, Seq<char>)| (e.2, e.1),
            );
            out.push((path, oid));
            assert forall|k: int| 0 <= k < i + 1 implies #[trigger] pair_views(out@)[k] == want[k] by {
                if k < i {
                    assert(out@[k] == before[k]);
                    assert(pair_views(before)[k] == had[k]);
                } else {
                    assert(out@[k] == (path, oid));
                }
            }
            assert(pair_views(out@) =~= want);
            i = i + 1;
        }
        assert(triple_views(all@).take(i as int) =~= triple_views(all@));
        out
    }

    /// The paths under `.bilink/` of a commit, from `git ls-tree -r`.
    pub fn bilink_paths_in(listing: &str) -> (r: Vec<String>)
        ensures
            string_views(r@) == gather(lines(listing@), |l: Seq<char>| blob_entry(l)).map_values(
                |e: (Seq<char>, Seq<char>, Seq<char>)| e.2,
            ),
    {
        let all = blobs_of(listing);
        let mut out: Vec<String> = Vec::new();
        let mut i: usize = 0;
        while i < all.len()
            invariant
                i <= all.len(),
                out@.len() == i,
                string_views(out@) == triple_views(all@).take(i as int).map_values(
                    |e: (Seq<char>, Seq<char>, Seq<char>)| e.2,
                ),
            decreases all.len() - i,
        {
            let path = all[i].2.clone();
            let ghost before = out@;
            let ghost want = triple_views(all@).take(i as int + 1).map_values(
                |e: (Seq<char>, Seq<char>, Seq<char>)| e.2,
            );
            let ghost had = triple_views(all@).take(i as int).map_values(
                |e: (Seq<char>, Seq<char>, Seq<char>)| e.2,
            );
            out.push(path);
            assert forall|k: int| 0 <= k < i + 1 implies #[trigger] string_views(out@)[k] == want[k] by {
                if k < i {
                    assert(out@[k] == before[k]);
                    assert(string_views(before)[k] == had[k]);
                } else {
                    assert(out@[k] == path);
                }
            }
            assert(string_views(out@) =~= want);
            i = i + 1;
        }
        assert(triple_views(all@).take(i as int) =~= triple_views(all@));
        out
    }

    /// The entries under `.bilink/` of a commit, `(mode, oid, path)`, from `git
    /// ls-tree -r`.
    pub fn bilink_entries(listing: &str) -> (r: Vec<(String, String, String)>)
        ensures
            triple_views(r@) == gather(lines(listing@), |l: Seq<char>| blob_entry(l)),
    {
        blobs_of(listing)
    }
}

// ─── the git commands that write the ref ────────────────────────────────────

/// `-p <parent>` for each parent, in order.
pub open spec fn parent_args(parents: Seq<Seq<char>>) -> Seq<Seq<char>>
    decreases parents.len(),
{
    if parents.len() == 0 {
        seq![]
    } else {
        parent_args(parents.drop_last()) + seq!["-p"@, parents.last()]
    }
}

/// The arguments of `git commit-tree` for a commit on the ref.
pub open spec fn commit_tree_args(
    tree: Seq<char>,
    parents: Seq<Seq<char>>,
    signs: bool,
    message: Seq<char>,
) -> Seq<Seq<char>> {
    seq!["commit-tree"@, tree] + parent_args(parents) + (if signs {
        seq!["-S"@]
    } else {
        Seq::<Seq<char>>::empty()
    }) + seq!["-m"@, message]
}

/// `files` in chunks of at most `n`, in order.
pub open spec fn chunks(files: Seq<Seq<char>>, n: nat) -> Seq<Seq<Seq<char>>>
    recommends
        n > 0,
    decreases files.len(),
{
    if files.len() == 0 || n == 0 {
        seq![]
    } else if files.len() <= n {
        seq![files]
    } else {
        seq![files.take(n as int)] + chunks(files.skip(n as int), n)
    }
}

/// The views of lists of strings.
pub open spec fn arg_lists(v: Seq<Vec<String>>) -> Seq<Seq<Seq<char>>> {
    v.map_values(|a: Vec<String>| string_views(a@))
}

fn push_str(out: &mut Vec<String>, s: &str)
    ensures
        string_views(final(out)@) == string_views(old(out)@).push(s@),
{
    let ghost before = old(out)@;
    out.push(owned(s));
    assert(string_views(out@) =~= string_views(before).push(s@));
}

impl Repo {
    /// The arguments of the `git commit-tree` that writes a commit on the ref with
    /// the given tree, parents and message. **`commit-tree` does not sign on its
    /// own**: `-S` goes when the repo signs its commits (`commit.gpgsign`).
    pub fn write_ref_commit(tree: &str, parents: &[String], signs: bool, message: &str) -> (r:
        Vec<String>)
        ensures
            string_views(r@) == commit_tree_args(tree@, string_views(parents@), signs, message@),
    {
        let mut args: Vec<String> = Vec::new();
        push_str(&mut args, "commit-tree");
        push_str(&mut args, tree);
        let ghost head = string_views(args@);
        let mut i: usize = 0;
        while i < parents.len()
            invariant
                i <= parents.len(),
                string_views(args@) == head + parent_args(string_views(parents@).take(i as int)),
            decreases parents.len() - i,
        {
            let ghost next = string_views(parents@).take(i as int + 1);
            assert(next.drop_last() =~= string_views(parents@).take(i as int));
            assert(next.last() == parents@[i as int]@);
            push_str(&mut args, "-p");
            push_str(&mut args, parents[i].as_str());
            assert(string_views(args@) =~= head + parent_args(next));
            i = i + 1;
        }
        assert(string_views(parents@).take(i as int) =~= string_views(parents@));
        let ghost mid = string_views(args@);
        if signs {
            push_str(&mut args, "-S");
        }
        push_str(&mut args, "-m");
        push_str(&mut args, message);
        assert(string_views(args@) =~= commit_tree_args(
            tree@,
            string_views(parents@),
            signs,
            message@,
        ));
        args
    }

    /// The `git update-index --add --cacheinfo <mode>,<oid>,<path>` that put each
    /// inherited blob under `.bilink/` into the index.
    pub fn build_tree_inheriting(entries: &Vec<(String, String, String)>) -> (r: Vec<Vec<String>>)
        ensures
            arg_lists(r@) == triple_views(entries@).map_values(
                |e: (Seq<char>, Seq<char>, Seq<char>)|
                    seq!["update-index"@, "--add"@, "--cacheinfo"@, e.0 + ","@ + e.1 + ","@ + e.2],
            ),
    {
        let mut out: Vec<Vec<String>> = Vec::new();
        let mut i: usize = 0;
        while i < entries.len()
            invariant
                i <= entries.len(),
                out@.len() == i,
                arg_lists(out@) == triple_views(entries@).take(i as int).map_values(
                    |e: (Seq<char>, Seq<char>, Seq<char>)|
                        seq!["update-index"@, "--add"@, "--cacheinfo"@, e.0 + ","@ + e.1 + ","@ + e.2],
                ),
            decreases entries.len() - i,
        {
            let mut info = chars_of(entries[i].0.as_str());
            append_str(&mut info, ",");
            append_str(&mut info, entries[i].1.as_str());
            append_str(&mut info, ",");
            append_str(&mut info, entries[i].2.as_str());
            let mut args: Vec<String> = Vec::new();
            push_str(&mut args, "update-index");
            push_str(&mut args, "--add");
            push_str(&mut args, "--cacheinfo");
            let info = string_of(info.as_slice());
            push_str(&mut args, info.as_str());
            let ghost before = out@;
            let ghost want = triple_views(entries@).take(i as int + 1).map_values(
                |e: (Seq<char>, Seq<char>, Seq<char>)|
                    seq!["update-index"@, "--add"@, "--cacheinfo"@, e.0 + ","@ + e.1 + ","@ + e.2],
            );
            let ghost had = triple_views(entries@).take(i as int).map_values(
                |e: (Seq<char>, Seq<char>, Seq<char>)|
                    seq!["update-index"@, "--add"@, "--cacheinfo"@, e.0 + ","@ + e.1 + ","@ + e.2],
            );
            out.push(args);
            assert forall|k: int| 0 <= k < i + 1 implies #[trigger] arg_lists(out@)[k] == want[k] by {
                if k < i {
                    assert(out@[k] == before[k]);
                    assert(arg_lists(before)[k] == had[k]);
                } else {
                    assert(out@[k] == args);
                    assert(string_views(args@) =~= want[k]);
                }
            }
            assert(arg_lists(out@) =~= want);
            i = i + 1;
        }
        assert(triple_views(entries@).take(i as int) =~= triple_views(entries@));
        out
    }

    /// The `git add -f --` that put the tracked files under `.bilink/` into the
    /// index, five hundred at a time, one by one and forced: `.bilink/` is excluded,
    /// and listing them is what keeps `cache/`, `index/` and `head` out.
    pub fn build_tree(files: &Vec<String>) -> (r: Vec<Vec<String>>)
        ensures
            arg_lists(r@) == chunks(string_views(files@), 500).map_values(
                |c: Seq<Seq<char>>| seq!["add"@, "-f"@, "--"@] + c,
            ),
    {
        let mut out: Vec<Vec<String>> = Vec::new();
        let mut i: usize = 0;
        let ghost all = string_views(files@);
        let ghost f = |c: Seq<Seq<char>>| seq!["add"@, "-f"@, "--"@] + c;
        assert(all.skip(0) =~= all);
        while i < files.len()
            invariant
                i <= files.len(),
                all == string_views(files@),
                f == (|c: Seq<Seq<char>>| seq!["add"@, "-f"@, "--"@] + c),
                chunks(all, 500).map_values(f) == arg_lists(out@) + chunks(all.skip(i as int), 500).map_values(f),
            decreases files.len() - i,
        {
            let end = if files.len() - i <= 500 {
                files.len()
            } else {
                i + 500
            };
            let mut args: Vec<String> = Vec::new();
            push_str(&mut args, "add");
            push_str(&mut args, "-f");
            push_str(&mut args, "--");
            let ghost head = string_views(args@);
            let mut j = i;
            while j < end
                invariant
                    i <= j <= end <= files.len(),
                    string_views(args@) == head + all.subrange(i as int, j as int),
                    all == string_views(files@),
                decreases end - j,
            {
                push_str(&mut args, files[j].as_str());
                assert(all[j as int] == files@[j as int]@);
                assert(string_views(args@) =~= head + all.subrange(i as int, j + 1));
                j = j + 1;
            }
            let ghost rest = all.skip(i as int);
            let ghost chunk = all.subrange(i as int, end as int);
            proof {
                assert(rest.len() > 0);
                if rest.len() <= 500 {
                    assert(chunk =~= rest);
                    assert(chunks(rest, 500) == seq![rest]);
                    assert(all.skip(end as int) =~= Seq::<Seq<char>>::empty());
                    assert(chunks(all.skip(end as int), 500) =~= Seq::<Seq<Seq<char>>>::empty());
                    assert(seq![chunk] + Seq::<Seq<Seq<char>>>::empty() =~= seq![chunk]);
                } else {
                    assert(chunk =~= rest.take(500));
                    assert(rest.skip(500) =~= all.skip(end as int));
                }
                assert(chunks(rest, 500) == seq![chunk] + chunks(all.skip(end as int), 500));
            }
            let ghost before = out@;
            out.push(args);
            assert(arg_lists(out@) =~= arg_lists(before).push(string_views(args@)));
            assert(string_views(args@) == f(chunk)) by {
                assert(head =~= seq!["add"@, "-f"@, "--"@]);
            }
            assert((seq![chunk] + chunks(all.skip(end as int), 500)).map_values(f) =~= seq![f(chunk)]
                + chunks(all.skip(end as int), 500).map_values(f));
            i = end;
        }
        assert(chunks(all.skip(i as int), 500) =~= Seq::<Seq<Seq<char>>>::empty()) by {
            assert(all.skip(i as int).len() == 0);
        }
        assert(arg_lists(out@) + Seq::<Seq<Seq<char>>>::empty().map_values(f) =~= arg_lists(out@));
        out
    }
}

// ─── what differs from a commit of the ref ──────────────────────────────────

/// The blob id a commit's listing gives `path`: its first entry for it.
pub open spec fn first_oid(want: Seq<(String, String)>, path: Seq<char>) -> Option<Seq<char>>
    decreases want.len(),
{
    if want.len() == 0 {
        None
    } else if want[0].0@ == path {
        Some(want[0].1@)
    } else {
        first_oid(want.drop_first(), path)
    }
}

/// The paths under `.bilink/` where the working tree differs from a commit of the
/// ref: a file whose content is not the commit's blob, or that the commit lacks,
/// and a file of the commit that the tree lacks.
pub open spec fn dirty_set(want: Seq<(String, String)>, have: Seq<(String, String)>) -> Set<Seq<char>> {
    Set::new(|p: Seq<char>|
        (exists|i: int| 0 <= i < have.len() && #[trigger] have[i].0@ == p && first_oid(want, p) != Some(have[i].1@))
        || ((exists|j: int| 0 <= j < want.len() && #[trigger] want[j].0@ == p) && !(exists|i: int| 0 <= i < have.len() && #[trigger] have[i].0@ == p)))
}

fn first_oid_of(want: &Vec<(String, String)>, path: &str) -> (r: Option<String>)
    ensures
        match r {
            Some(o) => first_oid(want@, path@) == Some(o@),
            None => first_oid(want@, path@) is None,
        },
{
    let mut i: usize = 0;
    assert(want@.skip(0) =~= want@);
    while i < want.len()
        invariant
            i <= want.len(),
            first_oid(want@, path@) == first_oid(want@.skip(i as int), path@),
        decreases want.len() - i,
    {
        assert(want@.skip(i as int)[0] == want@[i as int]);
        if crate::text::same_text(want[i].0.as_str(), path) {
            return Some(want[i].1.clone());
        }
        assert(want@.skip(i as int).drop_first() =~= want@.skip(i as int + 1));
        i = i + 1;
    }
    None
}

fn has_path(v: &Vec<(String, String)>, path: &str) -> (b: bool)
    ensures
        b == exists|i: int| 0 <= i < v@.len() && #[trigger] v@[i].0@ == path@,
{
    let mut i: usize = 0;
    while i < v.len()
        invariant
            i <= v.len(),
            forall|k: int| 0 <= k < i ==> #[trigger] v@[k].0@ != path@,
        decreases v.len() - i,
    {
        if crate::text::same_text(v[i].0.as_str(), path) {
            return true;
        }
        i = i + 1;
    }
    false
}

impl Repo {
    /// The paths under `.bilink/` where the working tree differs from a commit of
    /// the ref, each once and in order. `want` is the commit's listing (path, blob
    /// id); `have` the tree's tracked files with the blob id of their content.
    pub fn dirty_against(want: &Vec<(String, String)>, have: &Vec<(String, String)>) -> (r: Vec<String>)
        ensures
            crate::text::strictly_sorted(string_views(r@)),
            string_views(r@).to_set() == dirty_set(want@, have@),
    {
        let mut out: Vec<String> = Vec::new();
        let ghost mut found: Set<Seq<char>> = Set::empty();
        let mut i: usize = 0;
        while i < have.len()
            invariant
                i <= have.len(),
                crate::text::strictly_sorted(string_views(out@)),
                string_views(out@).to_set() == found,
                found == Set::new(|p: Seq<char>| exists|k: int| 0 <= k < i && #[trigger] have@[k].0@ == p && first_oid(want@, p) != Some(have@[k].1@)),
            decreases have.len() - i,
        {
            let path = have[i].0.as_str();
            let differs = match first_oid_of(want, path) {
                Some(oid) => !crate::text::same_text(oid.as_str(), have[i].1.as_str()),
                None => true,
            };
            let ghost prev = found;
            if differs {
                crate::text::insert_unique(&mut out, have[i].0.clone());
                proof {
                    found = found.insert(have@[i as int].0@);
                }
            }
            proof {
                assert(found =~= Set::new(|p: Seq<char>| exists|k: int| 0 <= k < i + 1 && #[trigger] have@[k].0@ == p && first_oid(want@, p) != Some(have@[k].1@))) by {
                    assert forall|p: Seq<char>| #[trigger] found.contains(p) implies exists|k: int| 0 <= k < i + 1 && #[trigger] have@[k].0@ == p && first_oid(want@, p) != Some(have@[k].1@) by {
                        if prev.contains(p) {
                            let k = choose|k: int| 0 <= k < i && #[trigger] have@[k].0@ == p && first_oid(want@, p) != Some(have@[k].1@);
                        } else {
                            assert(have@[i as int].0@ == p);
                        }
                    }
                    assert forall|p: Seq<char>| (exists|k: int| 0 <= k < i + 1 && #[trigger] have@[k].0@ == p && first_oid(want@, p) != Some(have@[k].1@)) implies #[trigger] found.contains(p) by {
                        let k = choose|k: int| 0 <= k < i + 1 && #[trigger] have@[k].0@ == p && first_oid(want@, p) != Some(have@[k].1@);
                        if k < i {
                            assert(prev.contains(p));
                        }
                    }
                }
            }
            i = i + 1;
        }
        let ghost first = found;
        let mut j: usize = 0;
        while j < want.len()
            invariant
                j <= want.len(),
                crate::text::strictly_sorted(string_views(out@)),
                string_views(out@).to_set() == found,
                found == first.union(Set::new(|p: Seq<char>| (exists|k: int| 0 <= k < j && #[trigger] want@[k].0@ == p) && !(exists|m: int| 0 <= m < have@.len() && #[trigger] have@[m].0@ == p))),
                first == Set::new(|p: Seq<char>| exists|k: int| 0 <= k < have@.len() && #[trigger] have@[k].0@ == p && first_oid(want@, p) != Some(have@[k].1@)),
            decreases want.len() - j,
        {
            let path = want[j].0.as_str();
            let present = has_path(have, path);
            let ghost prev = found;
            if !present {
                crate::text::insert_unique(&mut out, want[j].0.clone());
                proof {
                    found = found.insert(want@[j as int].0@);
                }
            }
            proof {
                let later = Set::new(|p: Seq<char>| (exists|k: int| 0 <= k < j + 1 && #[trigger] want@[k].0@ == p) && !(exists|m: int| 0 <= m < have@.len() && #[trigger] have@[m].0@ == p));
                assert(found =~= first.union(later)) by {
                    assert forall|p: Seq<char>| #[trigger] found.contains(p) implies first.union(later).contains(p) by {
                        if !prev.contains(p) {
                            assert(want@[j as int].0@ == p);
                        } else if !first.contains(p) {
                            let k = choose|k: int| 0 <= k < j && #[trigger] want@[k].0@ == p;
                            assert(later.contains(p));
                        }
                    }
                    assert forall|p: Seq<char>| first.union(later).contains(p) implies #[trigger] found.contains(p) by {
                        if !first.contains(p) {
                            let k = choose|k: int| 0 <= k < j + 1 && #[trigger] want@[k].0@ == p;
                            if k < j {
                                assert(prev.contains(p));
                            }
                        }
                    }
                }
            }
            j = j + 1;
        }
        proof {
            assert(found =~= dirty_set(want@, have@));
        }
        out
    }
}


// ─── the layers' `.bilink/` in the tree ─────────────────────────────────────

/// What a `.bilink/` holds that does not go into the ref's commit: derived files
/// and the tree's state.
pub open spec fn not_committed(name: Seq<char>) -> bool {
    name == "cache"@ || name == "index"@ || name == "head"@
}

/// Whether an entry of a `.bilink/`, by the first component of its path inside it,
/// goes into the ref's commit.
pub fn committed(first: &str) -> (b: bool)
    ensures
        b == !not_committed(first@),
{
    !(crate::text::same_text(first, "cache") || crate::text::same_text(first, "index") || crate::text::same_text(
        first,
        "head",
    ))
}

/// Whether the walk for layers goes into a directory: not into `.git`, `.bilink`,
/// `target` or a migration's leftovers, and not past the repo's border (a
/// directory that holds its own `.git`, a directory or a file).
pub fn walks_into(name: &str, has_git: bool) -> (b: bool)
    ensures
        b == !(name@ == ".git"@ || name@ == ".bilink"@ || name@ == "target"@
            || crate::text::starts_with(name@, ".bilink-migrate-"@) || has_git),
{
    let n = chars_of(name);
    let p = chars_of(".bilink-migrate-");
    !(crate::text::same_text(name, ".git") || crate::text::same_text(name, ".bilink") || crate::text::same_text(
        name,
        "target",
    ) || crate::text::starts_with_of(n.as_slice(), p.as_slice()) || has_git)
}

impl Repo {
    /// The files of `.bilink/` that do go into commits, relative to the repo's root
    /// (`files`, gathered from every layer), each once and in order.
    pub fn tracked_bilink_files(files: Vec<String>) -> (r: Vec<String>)
        ensures
            crate::text::strictly_sorted(string_views(r@)),
            string_views(r@).to_set() == string_views(files@).to_set(),
    {
        crate::frontier::sparse_set(files)
    }

    /// The tree's `.bilink/` directories, one per layer (`found`), in order.
    pub fn bilink_dirs(found: Vec<String>) -> (r: Vec<String>)
        ensures
            crate::text::strictly_sorted(string_views(r@)),
            string_views(r@).to_set() == string_views(found@).to_set(),
    {
        crate::frontier::sparse_set(found)
    }
}


// ─── what the errors say ────────────────────────────────────────────────────

/// Names joined by `, `.
pub open spec fn joined_names(v: Seq<String>) -> Seq<char> {
    crate::text::join(string_views(v), ", "@)
}

/// The first three paths that differ, and how many more.
pub open spec fn dirty_list(v: Seq<String>) -> Seq<char> {
    if v.len() > 3 {
        joined_names(v.take(3)) + ", +"@ + crate::refmsg::decimal((v.len() - 3) as nat)
    } else {
        joined_names(v)
    }
}

/// What a ref error says.
pub open spec fn ref_error_text(e: RefError) -> Seq<char> {
    match e {
        RefError::Detached => "HEAD está desacoplado: no hay rama actual contra la cual comparar.\n  Volver a una rama antes de commitear sobre la ref."@,
        RefError::NoRef { branch } => "refs/bilink/"@ + branch@ + " no existe.\n  Correr `bilinker track "@ + branch@
            + "` para crearla."@,
        RefError::NoCommits { branch } => "la rama "@ + branch@ + " no tiene commits"@,
        RefError::NotDisjoint { commit, offenders } => "el árbol de "@ + byte_prefix(commit@, 7) + " contiene .bilink/ ("@
            + joined_names(offenders@)
            + "…)\n\n  Alguien mergeó la ref al proyecto, o commiteó bilinks a mano.\n  Absorberlo haría que el árbol de la ref contenga dos .bilink/ que git\n  fusionaría sin que nadie mire.\n\n  No se escribió nada."@,
        RefError::NotFaithful { absorbed, strays } => "el árbol de código no coincide con "@ + byte_prefix(absorbed@, 7)
            + " ("@ + joined_names(strays@) + "…)\n  Es la invariante de fidelidad; no se escribió nada."@,
        RefError::NotAbsorbed { project, absorbed } => byte_prefix(project@, 7) + " no está absorbido; la ref está en "@
            + byte_prefix(absorbed@, 7)
            + ".\n                   Una decisión no absorbe: sobre la ref un commit hace una cosa.\n                   Absorber primero — `bilinker sync`. No se escribió nada."@,
        RefError::DecidesAndMovesCode { commit } => byte_prefix(commit@, 7)
            + " decide y mueve código a la vez: el árbol de código de una decisión es el de la absorción que tiene arriba"@,
        RefError::AbsorbsAndDecides { commit } => byte_prefix(commit@, 7)
            + " absorbe y decide a la vez: sobre la ref un commit hace una cosa, y el diff de .bilink/ de una absorción es vacío"@,
        RefError::SynchronizesAndMovesCode { commit } => byte_prefix(commit@, 7)
            + " sincroniza y mueve código a la vez: los dos lados de una sincronización describen el mismo código"@,
        RefError::NoParents { commit } => byte_prefix(commit@, 7) + " no tiene padres: no es un commit de la ref"@,
        RefError::Dirty { commit, paths } => "el .bilink/ del árbol difiere de "@ + byte_prefix(commit@, 7) + " ("@
            + dirty_list(paths@)
            + ")\n\n  Ese trabajo no está en ninguna otra parte: .bilink/ está fuera del git\n  del proyecto. No se materializó nada."@,
        RefError::DetachedOnRef => "HEAD está desacoplado: no se puede commitear sobre la ref.\n  Volver a una rama; lo que se escribió en .bilink/ sigue en el árbol."@,
    }
}

fn append_joined(out: &mut Vec<char>, v: &Vec<String>, upto: usize)
    requires
        upto <= v.len(),
    ensures
        final(out)@ == old(out)@ + joined_names(v@.take(upto as int)),
{
    let mut parts: Vec<Vec<char>> = Vec::new();
    let mut i: usize = 0;
    while i < upto
        invariant
            i <= upto,
            upto <= v.len(),
            views(parts@) == string_views(v@.take(upto as int)).take(i as int),
        decreases upto - i,
    {
        let c = chars_of(v[i].as_str());
        proof {
            crate::text::lemma_views_push(parts@, c);
        }
        parts.push(c);
        assert(views(parts@) =~= string_views(v@.take(upto as int)).take(i as int + 1));
        i = i + 1;
    }
    assert(string_views(v@.take(upto as int)).take(i as int) =~= string_views(v@.take(upto as int)));
    let sep = chars_of(", ");
    let j = crate::text::join_of(&parts, sep.as_slice());
    crate::text::append(out, j.as_slice());
}

impl RefError {
    /// What the error says.
    pub fn message(&self) -> (r: String)
        ensures
            r@ == ref_error_text(*self),
    {
        let mut out: Vec<char> = Vec::new();
        match self {
            RefError::Detached => {
                append_str(&mut out, "HEAD está desacoplado: no hay rama actual contra la cual comparar.\n  Volver a una rama antes de commitear sobre la ref.");
            },
            RefError::NoRef { branch } => {
                append_str(&mut out, "refs/bilink/");
                append_str(&mut out, branch.as_str());
                append_str(&mut out, " no existe.\n  Correr `bilinker track ");
                append_str(&mut out, branch.as_str());
                append_str(&mut out, "` para crearla.");
            },
            RefError::NoCommits { branch } => {
                append_str(&mut out, "la rama ");
                append_str(&mut out, branch.as_str());
                append_str(&mut out, " no tiene commits");
            },
            RefError::NotDisjoint { commit, offenders } => {
                append_str(&mut out, "el árbol de ");
                let c = chars_of(commit.as_str());
                crate::text::append(&mut out, byte_prefix_of(c.as_slice(), 7).as_slice());
                append_str(&mut out, " contiene .bilink/ (");
                assert(offenders@.take(offenders@.len() as int) =~= offenders@);
                append_joined(&mut out, offenders, offenders.len());
                append_str(&mut out, "…)\n\n  Alguien mergeó la ref al proyecto, o commiteó bilinks a mano.\n  Absorberlo haría que el árbol de la ref contenga dos .bilink/ que git\n  fusionaría sin que nadie mire.\n\n  No se escribió nada.");
            },
            RefError::NotFaithful { absorbed, strays } => {
                append_str(&mut out, "el árbol de código no coincide con ");
                let c = chars_of(absorbed.as_str());
                crate::text::append(&mut out, byte_prefix_of(c.as_slice(), 7).as_slice());
                append_str(&mut out, " (");
                assert(strays@.take(strays@.len() as int) =~= strays@);
                append_joined(&mut out, strays, strays.len());
                append_str(&mut out, "…)\n  Es la invariante de fidelidad; no se escribió nada.");
            },
            RefError::NotAbsorbed { project, absorbed } => {
                let p = chars_of(project.as_str());
                crate::text::append(&mut out, byte_prefix_of(p.as_slice(), 7).as_slice());
                append_str(&mut out, " no está absorbido; la ref está en ");
                let a = chars_of(absorbed.as_str());
                crate::text::append(&mut out, byte_prefix_of(a.as_slice(), 7).as_slice());
                append_str(&mut out, ".\n                   Una decisión no absorbe: sobre la ref un commit hace una cosa.\n                   Absorber primero — `bilinker sync`. No se escribió nada.");
            },
            RefError::DecidesAndMovesCode { commit } => {
                let c = chars_of(commit.as_str());
                crate::text::append(&mut out, byte_prefix_of(c.as_slice(), 7).as_slice());
                append_str(&mut out, " decide y mueve código a la vez: el árbol de código de una decisión es el de la absorción que tiene arriba");
            },
            RefError::AbsorbsAndDecides { commit } => {
                let c = chars_of(commit.as_str());
                crate::text::append(&mut out, byte_prefix_of(c.as_slice(), 7).as_slice());
                append_str(&mut out, " absorbe y decide a la vez: sobre la ref un commit hace una cosa, y el diff de .bilink/ de una absorción es vacío");
            },
            RefError::SynchronizesAndMovesCode { commit } => {
                let c = chars_of(commit.as_str());
                crate::text::append(&mut out, byte_prefix_of(c.as_slice(), 7).as_slice());
                append_str(&mut out, " sincroniza y mueve código a la vez: los dos lados de una sincronización describen el mismo código");
            },
            RefError::NoParents { commit } => {
                let c = chars_of(commit.as_str());
                crate::text::append(&mut out, byte_prefix_of(c.as_slice(), 7).as_slice());
                append_str(&mut out, " no tiene padres: no es un commit de la ref");
            },
            RefError::Dirty { commit, paths } => {
                append_str(&mut out, "el .bilink/ del árbol difiere de ");
                let c = chars_of(commit.as_str());
                crate::text::append(&mut out, byte_prefix_of(c.as_slice(), 7).as_slice());
                append_str(&mut out, " (");
                if paths.len() > 3 {
                    append_joined(&mut out, paths, 3);
                    append_str(&mut out, ", +");
                    let d = crate::refmsg::decimal_of((paths.len() - 3) as u64);
                    crate::text::append(&mut out, d.as_slice());
                } else {
                    assert(paths@.take(paths@.len() as int) =~= paths@);
                    append_joined(&mut out, paths, paths.len());
                }
                append_str(&mut out, ")\n\n  Ese trabajo no está en ninguna otra parte: .bilink/ está fuera del git\n  del proyecto. No se materializó nada.");
            },
            RefError::DetachedOnRef => {
                append_str(&mut out, "HEAD está desacoplado: no se puede commitear sobre la ref.\n  Volver a una rama; lo que se escribió en .bilink/ sigue en el árbol.");
            },
        }
        string_of(out.as_slice())
    }
}

} // verus!
