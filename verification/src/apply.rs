//! `bilinker apply`: corrects **where an endpoint points**, and nothing else. It
//! mints the capture of the new location and repoints the `link`; it does not write
//! `accepted`. `apply` proposes, `accept` disposes.
use vstd::prelude::*;

use crate::accept::names;
use crate::text::{byte_prefix, byte_prefix_of, chars_of, same_text, string_of};

verus! {

/// An endpoint that could not be looked at, and why. **Not a missing fix: a missing
/// answer.**
pub struct Unlooked {
    pub uuid: String,
    pub n: u8,
    /// What failed. It is for the report, not for deciding.
    pub why: &'static str,
}

impl Unlooked {
    /// The uuid's first eight bytes.
    pub fn short(&self) -> (r: String)
        requires
            crate::text::cut_is_clean(self.uuid@, 8),
        ensures
            r@ == byte_prefix(self.uuid@, 8),
    {
        let v = chars_of(self.uuid.as_str());
        let p = byte_prefix_of(v.as_slice(), 8);
        string_of(p.as_slice())
    }
}

/// Where the declared neighbours of a signature are.
pub enum DeclaredLink {
    /// `unknown`: from which neighbours it came is not known.
    Unknown,
    /// The ids of the neighbours' captures.
    Ids(Vec<String>),
}

fn same_ids(ids: &Vec<String>, today: &Vec<String>) -> (b: bool)
    ensures
        b == (names(ids@) == names(today@)),
{
    if ids.len() != today.len() {
        assert(names(ids@).len() != names(today@).len());
        return false;
    }
    let mut i: usize = 0;
    while i < ids.len()
        invariant
            i <= ids.len(),
            ids.len() == today.len(),
            forall|k: int| 0 <= k < i ==> #[trigger] names(ids@)[k] == names(today@)[k],
        decreases ids.len() - i,
    {
        if !same_text(ids[i].as_str(), today[i].as_str()) {
            assert(names(ids@)[i as int] != names(today@)[i as int]);
            return false;
        }
        i = i + 1;
    }
    assert(names(ids@) =~= names(today@));
    true
}

/// Whether the set of neighbours the signature names today (`today`, their ids)
/// has to be proposed over what is declared. **`unknown` is incomparable**, so any
/// set is the fix, the empty one too; a declared set compares by ids; without a
/// declared level, only a set that is not empty adds anything.
pub fn neighbourhood_needs_fix(declared: Option<&DeclaredLink>, today: &Vec<String>) -> (b: bool)
    ensures
        b == match declared {
            Some(DeclaredLink::Unknown) => true,
            Some(DeclaredLink::Ids(ids)) => names(ids@) != names(today@),
            None => today@.len() > 0,
        },
{
    match declared {
        Some(DeclaredLink::Unknown) => true,
        Some(DeclaredLink::Ids(ids)) => !same_ids(ids, today),
        None => today.len() > 0,
    }
}

/// What came of looking at the neighbourhood of **one** endpoint: three values, and
/// not an `Option`, which is what tells "there is none" from "I could not".
pub enum Looked {
    /// There is a new set to propose.
    Fix,
    /// Looked at, and nothing to fix.
    Nothing,
    /// It could not be looked at.
    Failed(&'static str),
}

/// Where what was looked at goes: a failure is counted as not looked at, **unless
/// the endpoint's fragment is being repointed in this same scan** (`repointed`): the
/// neighbourhood is asked from the fragment's range, and the range that holds is
/// the new one. Answers whether there is a fix.
pub fn settle(looked: Looked, uuid: &str, n: u8, repointed: &Vec<u8>, unlooked: &mut Vec<Unlooked>) -> (fix: bool)
    ensures
        fix == (looked is Fix),
        match looked {
            Looked::Failed(why) => if repointed@.contains(n) {
                final(unlooked)@ == old(unlooked)@
            } else {
                final(unlooked)@.len() == old(unlooked)@.len() + 1 && final(unlooked)@.drop_last() == old(unlooked)@
                    && final(unlooked)@.last().uuid@ == uuid@ && final(unlooked)@.last().n == n
                    && final(unlooked)@.last().why == why
            },
            _ => final(unlooked)@ == old(unlooked)@,
        },
{
    match looked {
        Looked::Fix => true,
        Looked::Nothing => false,
        Looked::Failed(why) => {
            let mut i: usize = 0;
            let mut waiting = false;
            while i < repointed.len()
                invariant
                    i <= repointed.len(),
                    waiting == exists|k: int| 0 <= k < i && repointed@[k] == n,
                decreases repointed.len() - i,
            {
                if repointed[i] == n {
                    waiting = true;
                }
                i = i + 1;
            }
            assert(waiting == repointed@.contains(n));
            if !waiting {
                let ghost o = unlooked@;
                unlooked.push(Unlooked { uuid: crate::text::owned(uuid), n, why });
                assert(unlooked@.drop_last() =~= o);
            }
            false
        },
    }
}


/// **A layer must have been looked at.** A layer with bilinks and no state in its
/// cache is not a list of zero fixes: what is missing is the `check` nobody ran. A
/// layer without bilinks counts as looked at: there the empty cache is right.
pub fn is_cold_scan(bilinks: usize, cache_is_cold: bool) -> (b: bool)
    ensures
        b == (bilinks > 0 && cache_is_cold),
{
    bilinks > 0 && cache_is_cold
}

/// Which fix an endpoint needs, by the state of its capture **derived again** (never
/// the cached one): a moved file or a renamed anchor have a new place; no other
/// state is `apply`'s to fix.
#[derive(Debug, Clone, Copy, PartialEq, Eq, Structural)]
pub enum FixKind {
    Moved,
    Reanchored,
}

/// The fix an endpoint in this state needs, if any.
pub fn fix_kind(state: crate::state::CaptureState) -> (r: Option<FixKind>)
    ensures
        r == match state {
            crate::state::CaptureState::Moved => Some(FixKind::Moved),
            crate::state::CaptureState::Reanchored => Some(FixKind::Reanchored),
            _ => None,
        },
{
    match state {
        crate::state::CaptureState::Moved => Some(FixKind::Moved),
        crate::state::CaptureState::Reanchored => Some(FixKind::Reanchored),
        _ => None,
    }
}

impl FixKind {
    /// The state word the fix is reported under.
    pub fn reason(&self) -> (r: String)
        ensures
            r@ == match *self {
                FixKind::Moved => "MOVED"@,
                FixKind::Reanchored => "REANCHORED"@,
            },
    {
        match self {
            FixKind::Moved => crate::text::owned("MOVED"),
            FixKind::Reanchored => crate::text::owned("REANCHORED"),
        }
    }
}

/// **A fix that moves nothing is no fix**: the capture computed for the new place
/// is proposed only when its id differs from the current one.
pub fn moves_something(new_id: &str, current_id: &str) -> (b: bool)
    ensures
        b == (new_id@ != current_id@),
{
    !same_text(new_id, current_id)
}

} // verus!
