//! The state of a capture: whether, and how, its query still finds its fragment.
use vstd::prelude::*;

use crate::text::{chars_of, owned, same_str, trim, trim_of, ws};

verus! {

/// What resolving a capture found.
#[derive(Debug, Clone, Copy, PartialEq, Eq, Structural)]
pub enum CaptureState {
    /// The query finds the fragment where it was.
    Resolved,
    /// The file moved.
    Moved,
    /// The anchor was renamed.
    Reanchored,
    /// The anchor is nowhere.
    Unanchored,
    /// The file is gone.
    Deleted,
    /// The capture cannot be read.
    Broken,
}

/// The word a capture state is written as.
pub open spec fn capture_text(s: CaptureState) -> Seq<char> {
    match s {
        CaptureState::Resolved => "RESOLVED"@,
        CaptureState::Moved => "MOVED"@,
        CaptureState::Reanchored => "REANCHORED"@,
        CaptureState::Unanchored => "UNANCHORED"@,
        CaptureState::Deleted => "DELETED"@,
        CaptureState::Broken => "BROKEN"@,
    }
}

/// The capture state a word names, whitespace around it aside.
pub open spec fn capture_named(text: Seq<char>) -> Option<CaptureState> {
    let t = trim(text);
    if t == "RESOLVED"@ {
        Some(CaptureState::Resolved)
    } else if t == "MOVED"@ {
        Some(CaptureState::Moved)
    } else if t == "REANCHORED"@ {
        Some(CaptureState::Reanchored)
    } else if t == "UNANCHORED"@ {
        Some(CaptureState::Unanchored)
    } else if t == "DELETED"@ {
        Some(CaptureState::Deleted)
    } else if t == "BROKEN"@ {
        Some(CaptureState::Broken)
    } else {
        None
    }
}

impl CaptureState {
    /// The word this state is written as.
    pub fn text(&self) -> (r: String)
        ensures
            r@ == capture_text(*self),
    {
        match self {
            CaptureState::Resolved => owned("RESOLVED"),
            CaptureState::Moved => owned("MOVED"),
            CaptureState::Reanchored => owned("REANCHORED"),
            CaptureState::Unanchored => owned("UNANCHORED"),
            CaptureState::Deleted => owned("DELETED"),
            CaptureState::Broken => owned("BROKEN"),
        }
    }

    /// The capture state a word names.
    pub fn parse(s: &str) -> (r: Option<CaptureState>)
        ensures
            r == capture_named(s@),
    {
        let v = chars_of(s);
        let t = trim_of(v.as_slice());
        let t = t.as_slice();
        if same_str(t, "RESOLVED") {
            Some(CaptureState::Resolved)
        } else if same_str(t, "MOVED") {
            Some(CaptureState::Moved)
        } else if same_str(t, "REANCHORED") {
            Some(CaptureState::Reanchored)
        } else if same_str(t, "UNANCHORED") {
            Some(CaptureState::Unanchored)
        } else if same_str(t, "DELETED") {
            Some(CaptureState::Deleted)
        } else if same_str(t, "BROKEN") {
            Some(CaptureState::Broken)
        } else {
            None
        }
    }
}

/// **A capture state written reads back as itself.**
pub proof fn lemma_capture_round_trip(s: CaptureState)
    ensures
        capture_named(capture_text(s)) == Some(s),
{
    reveal_strlit("RESOLVED");
    reveal_strlit("MOVED");
    reveal_strlit("REANCHORED");
    reveal_strlit("UNANCHORED");
    reveal_strlit("DELETED");
    reveal_strlit("BROKEN");
    let t = capture_text(s);
    assert(!ws(t[0]) && !ws(t.last()));
    crate::text::lemma_trim_fixed(t);
}

} // verus!
