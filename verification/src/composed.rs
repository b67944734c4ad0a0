//! A capture written when its query composed the fragment out of several parts.
use vstd::prelude::*;

use crate::text::{chars_of, count_matches, count_matches_of};

verus! {

/// Whether the query composes: more than one `@target`.
pub fn is_composed(query_str: &str) -> (b: bool)
    ensures
        b == (count_matches(query_str@, "@target"@) > 1),
{
    let q = chars_of(query_str);
    let t = chars_of("@target");
    proof {
        reveal_strlit("@target");
    }
    count_matches_of(q.as_slice(), t.as_slice()) > 1
}

} // verus!
