//! The commit that last touched a file, from what `git log` answered.
use vstd::prelude::*;

use crate::text::{append_str, chars_of, string_of, trim, trim_of};

verus! {

/// A file with no git history: uncommitted, or not tracked.
#[derive(Debug, Clone, PartialEq, Eq)]
pub struct NoHistory {
    pub file: String,
}

impl NoHistory {
    /// What the error says.
    pub fn message(&self) -> (r: String)
        ensures
            r@ == "file '"@ + self.file@ + "' has no git history — commit the file before creating a bilink"@,
    {
        let mut out: Vec<char> = Vec::new();
        append_str(&mut out, "file '");
        append_str(&mut out, self.file.as_str());
        append_str(&mut out, "' has no git history — commit the file before creating a bilink");
        string_of(out.as_slice())
    }
}

/// The commit of `git log --format=%H -n 1 -- <file>`, from its output: the
/// output without surrounding whitespace, which is empty when the file has no
/// history.
pub fn head_commit_for_file(file: &str, log: &str) -> (r: Result<String, NoHistory>)
    ensures
        match r {
            Ok(c) => trim(log@).len() > 0 && c@ == trim(log@),
            Err(e) => trim(log@).len() == 0 && e.file@ == file@,
        },
{
    let all = chars_of(log);
    let t = trim_of(all.as_slice());
    if t.len() == 0 {
        Err(NoHistory { file: crate::text::owned(file) })
    } else {
        Ok(string_of(t.as_slice()))
    }
}

/// The commit that last touched the file, or `None` where there is none, or git
/// could not answer (`log` is `None`).
pub fn try_head_commit_for_file(file: &str, log: Option<&str>) -> (r: Option<String>)
    ensures
        match log {
            None => r is None,
            Some(l) => match r {
                Some(c) => trim(l@).len() > 0 && c@ == trim(l@),
                None => trim(l@).len() == 0,
            },
        },
{
    match log {
        None => None,
        Some(l) => match head_commit_for_file(file, l) {
            Ok(c) => Some(c),
            Err(_) => None,
        },
    }
}

} // verus!
