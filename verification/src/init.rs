//! `bilinker init`: setting the clone up.
//!
//! Everything the ref needs is three things in the clone, and none travels with it:
//! the exclusion in `.git/info/exclude`, the refspec in `.git/config`, and the
//! `.bilink/` materialised in the tree. They are **per clone**, not per branch nor
//! per commit. It is idempotent and per repo, not per layer.
use vstd::prelude::*;

use crate::bilink_ref::{Head, Materialization, Repo, string_views};
use crate::config::{
    ConfigError, arg_lists, commands_of, excluded_text, missing_patterns, name_views, pending_of,
};
use crate::text::same_text;

verus! {

/// What `init` did.
pub struct InitResult {
    pub excluded: Vec<&'static str>,
    pub refspec: Vec<String>,
    pub fetched: Option<String>,
    pub branch: Option<String>,
    pub outcome: Outcome,
}

/// What became of the tree's `.bilink/`.
#[derive(Debug, Clone, PartialEq)]
pub enum Outcome {
    /// The `.bilink/` of the current branch was materialised.
    Materialized { commit: String, files: usize },
    /// The tree was already up to date.
    AlreadyCurrent { commit: String },
    /// There is a `.bilink/` without `head`: it is not overwritten.
    SkippedNoProvenance,
    /// The branch has no ref. Not an error: whom a new branch inherits from is a
    /// decision of `track`.
    NoRef(String),
    /// `HEAD` detached.
    Detached,
}

/// The third step, which **overwrites nothing**: either it is decided, or the
/// ref's tip has to be materialised, after checking the tree is clean against
/// `guard` where there was a `head`.
#[derive(Debug, Clone, PartialEq)]
pub enum Step {
    Done(Outcome),
    Materialize { tip: String, guard: Option<Head> },
}

/// What the third step decides, from the current branch, its ref's tip, the `head`
/// read, and whether the tree has any `.bilink/`.
pub fn materialize_step(branch: Option<String>, tip: Option<String>, head: Option<Head>, has_bilinks: bool) -> (r:
    Step)
    ensures
        match branch {
            None => r == Step::Done(Outcome::Detached),
            Some(b) => match tip {
                None => r == Step::Done(Outcome::NoRef(b)),
                Some(t) => match head {
                    None => if has_bilinks {
                        r == Step::Done(Outcome::SkippedNoProvenance)
                    } else {
                        r == Step::Materialize { tip: t, guard: None }
                    },
                    Some(h) => if h.branch@ == b@ && h.commit@ == t@ {
                        r == Step::Done(Outcome::AlreadyCurrent { commit: t })
                    } else {
                        r == Step::Materialize { tip: t, guard: Some(h) }
                    },
                },
            },
        },
{
    let b = match branch {
        None => return Step::Done(Outcome::Detached),
        Some(b) => b,
    };
    let t = match tip {
        None => return Step::Done(Outcome::NoRef(b)),
        Some(t) => t,
    };
    match head {
        None => if has_bilinks {
            Step::Done(Outcome::SkippedNoProvenance)
        } else {
            Step::Materialize { tip: t, guard: None }
        },
        Some(h) => if same_text(h.branch.as_str(), b.as_str()) && same_text(h.commit.as_str(), t.as_str()) {
            Step::Done(Outcome::AlreadyCurrent { commit: t })
        } else {
            Step::Materialize { tip: t, guard: Some(h) }
        },
    }
}

/// What `init` is to do, decided before doing any of it.
pub struct InitPlan {
    /// The patterns `.git/info/exclude` lacked.
    pub excluded: Vec<&'static str>,
    /// The new text of `.git/info/exclude`, where it changes.
    pub exclude_text: Option<String>,
    /// The remotes that lacked the refspec.
    pub refspec: Vec<String>,
    /// The `git config` commands that add it.
    pub commands: Vec<Vec<String>>,
    /// Whether to fetch the ref: not on a dry run, and only with remotes. A remote
    /// that cannot be reached does not stop setting the clone up.
    pub fetch: bool,
    pub step: Step,
}

/// `init`: from the text of `.git/info/exclude`, the remotes (each with whether it
/// has the refspec and the forced one), the current branch, its ref's tip, the
/// `head` read, and whether the tree has any `.bilink/`.
pub fn init(
    exclude: &str,
    remotes: &Vec<(String, bool, bool)>,
    branch: Option<String>,
    tip: Option<String>,
    head: Option<Head>,
    has_bilinks: bool,
    dry_run: bool,
) -> (r: InitPlan)
    ensures
        name_views(r.excluded@) == missing_patterns(exclude@),
        match r.exclude_text {
            Some(t) => !dry_run && missing_patterns(exclude@).len() > 0 && t@ == excluded_text(exclude@),
            None => dry_run || missing_patterns(exclude@).len() == 0,
        },
        string_views(r.refspec@) == pending_of(remotes@),
        arg_lists(r.commands@) == if dry_run {
            Seq::<Seq<Seq<char>>>::empty()
        } else {
            commands_of(remotes@)
        },
        r.fetch == (!dry_run && remotes@.len() > 0),
        r.step == match branch {
            None => Step::Done(Outcome::Detached),
            Some(b) => match tip {
                None => Step::Done(Outcome::NoRef(b)),
                Some(t) => match head {
                    None => if has_bilinks {
                        Step::Done(Outcome::SkippedNoProvenance)
                    } else {
                        Step::Materialize { tip: t, guard: None }
                    },
                    Some(h) => if h.branch@ == b@ && h.commit@ == t@ {
                        Step::Done(Outcome::AlreadyCurrent { commit: t })
                    } else {
                        Step::Materialize { tip: t, guard: Some(h) }
                    },
                },
            },
        },
{
    let (excluded, exclude_text) = crate::config::write_exclude(exclude, dry_run);
    let (refspec, commands) = crate::config::write_refspec(remotes, dry_run);
    let fetch = !dry_run && remotes.len() > 0;
    let step = materialize_step(branch, tip, head, has_bilinks);
    InitPlan { excluded, exclude_text, refspec, commands, fetch, step }
}

/// What runs **before every command** but `init` itself: outside a git repo,
/// nothing; in a repo that already cut over to the ref, `init` is required; then
/// the tree's `.bilink/` is brought to the current branch's.
pub fn prelude(
    in_repo: bool,
    cut_over: bool,
    initialized: bool,
    branch: Option<String>,
    head: Option<Head>,
    tip: Option<String>,
) -> (r: Result<Materialization, ConfigError>)
    ensures
        !in_repo ==> r == Ok::<Materialization, ConfigError>(Materialization::NoGit),
        in_repo && cut_over && !initialized ==> r is Err,
        in_repo && !(cut_over && !initialized) ==> r == Ok::<Materialization, ConfigError>(
            match branch {
                None => Materialization::Detached,
                Some(b) => match tip {
                    None => Materialization::NoRef(b),
                    Some(t) => match head {
                        None => Materialization::NoProvenance,
                        Some(h) => if h.branch@ == b@ && h.commit@ == t@ {
                            Materialization::UpToDate
                        } else {
                            Materialization::Rematerialized { from: h, to: t }
                        },
                    },
                },
            },
        ),
{
    if !in_repo {
        return Ok(Materialization::NoGit);
    }
    match crate::config::require_initialized(cut_over, initialized) {
        Err(e) => Err(e),
        Ok(()) => Ok(Repo::ensure_current(branch, head, tip)),
    }
}

} // verus!
