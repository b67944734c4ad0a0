//! `bilinker relayer`: folds a layer's own `.bilink/` into the one of the layer
//! above. Captures are minted again with their `file` prefixed, and every link that
//! named them is repointed.
use vstd::prelude::*;

use crate::accept::names;
use crate::text::{append_str, chars_of, same_text, starts_with, starts_with_of, string_of, strip_prefix, strip_prefix_of};

verus! {

/// What folding a layer did.
pub struct RelayerResult {
    /// The layer emptied, relative to the destination.
    pub layer: String,
    pub captures: usize,
    pub bilinks: usize,
    /// Bilinks of other layers whose `accepted.link` copied an id that changed.
    pub neighbours: usize,
}

/// The new id of a capture, where it was renamed.
pub open spec fn renamed(renames: Seq<(String, String)>, id: Seq<char>) -> Option<Seq<char>>
    decreases renames.len(),
{
    if renames.len() == 0 {
        None
    } else if renames[0].0@ == id {
        Some(renames[0].1@)
    } else {
        renamed(renames.drop_first(), id)
    }
}

fn renamed_of(renames: &Vec<(String, String)>, id: &str) -> (r: Option<String>)
    ensures
        match r {
            Some(n) => renamed(renames@, id@) == Some(n@),
            None => renamed(renames@, id@) is None,
        },
{
    let mut i: usize = 0;
    assert(renames@.skip(0) =~= renames@);
    while i < renames.len()
        invariant
            i <= renames.len(),
            renamed(renames@, id@) == renamed(renames@.skip(i as int), id@),
        decreases renames.len() - i,
    {
        assert(renames@.skip(i as int)[0] == renames@[i as int]);
        assert(renames@.skip(i as int).drop_first() =~= renames@.skip(i as int + 1));
        if same_text(renames[i].0.as_str(), id) {
            return Some(renames[i].1.clone());
        }
        i = i + 1;
    }
    None
}

/// A link seen from the layer above: a `capture` takes its new id, where it was
/// renamed; a `path` relative to the layer being emptied (one that starts with `>`)
/// takes the layer as prefix; `issue`, `repo` and `abstract` do not depend on the
/// layer.
pub open spec fn moved_link_of(link: Seq<char>, renames: Seq<(String, String)>, layer: Seq<char>) -> Seq<char> {
    match strip_prefix(link, "capture "@) {
        Some(id) => match renamed(renames, id) {
            Some(n) => "capture "@ + n,
            None => link,
        },
        None => match strip_prefix(link, "path "@) {
            Some(p) => if starts_with(p, ">"@) {
                "path "@ + layer + p
            } else {
                link
            },
            None => link,
        },
    }
}

/// A link seen from the layer above.
pub fn moved_link(link: &str, renames: &Vec<(String, String)>, layer: &str) -> (r: String)
    ensures
        r@ == moved_link_of(link@, renames@, layer@),
{
    let l = chars_of(link);
    let cp = chars_of("capture ");
    match strip_prefix_of(l.as_slice(), cp.as_slice()) {
        Some(id) => {
            let ids = string_of(id.as_slice());
            match renamed_of(renames, ids.as_str()) {
                Some(n) => {
                    let mut out: Vec<char> = Vec::new();
                    append_str(&mut out, "capture ");
                    append_str(&mut out, n.as_str());
                    string_of(out.as_slice())
                },
                None => crate::text::owned(link),
            }
        },
        None => {
            let pp = chars_of("path ");
            match strip_prefix_of(l.as_slice(), pp.as_slice()) {
                Some(p) => {
                    let gt = chars_of(">");
                    if starts_with_of(p.as_slice(), gt.as_slice()) {
                        let mut out: Vec<char> = Vec::new();
                        append_str(&mut out, "path ");
                        append_str(&mut out, layer);
                        crate::text::append(&mut out, p.as_slice());
                        string_of(out.as_slice())
                    } else {
                        crate::text::owned(link)
                    }
                },
                None => crate::text::owned(link),
            }
        },
    }
}

/// The `file` of a capture seen from the layer above: prefixed by the layer.
pub fn moved_file(layer: &str, file: &str) -> (r: String)
    ensures
        r@ == layer@ + "/"@ + file@,
{
    let mut out: Vec<char> = Vec::new();
    append_str(&mut out, layer);
    append_str(&mut out, "/");
    append_str(&mut out, file);
    string_of(out.as_slice())
}

/// An `accepted.link` of a neighbouring bilink: repointed only when it is a
/// `capture` whose id changed. Answers the link and whether it was touched.
pub fn neighbour_link(link: Option<String>, renames: &Vec<(String, String)>) -> (r: (Option<String>, bool))
    ensures
        match link {
            None => r.0 is None && !r.1,
            Some(l) => match strip_prefix(l@, "capture "@) {
                Some(id) => match renamed(renames@, id) {
                    Some(n) => r.1 && match r.0 {
                        Some(x) => x@ == "capture "@ + n,
                        None => false,
                    },
                    None => !r.1 && r.0 == Some(l),
                },
                None => !r.1 && r.0 == Some(l),
            },
        },
{
    match link {
        None => (None, false),
        Some(l) => {
            let lv = chars_of(l.as_str());
            let cp = chars_of("capture ");
            match strip_prefix_of(lv.as_slice(), cp.as_slice()) {
                Some(id) => {
                    let ids = string_of(id.as_slice());
                    match renamed_of(renames, ids.as_str()) {
                        Some(n) => {
                            let mut out: Vec<char> = Vec::new();
                            append_str(&mut out, "capture ");
                            append_str(&mut out, n.as_str());
                            (Some(string_of(out.as_slice())), true)
                        },
                        None => (Some(l), false),
                    }
                },
                None => (Some(l), false),
            }
        },
    }
}


/// Why a layer cannot be folded.
#[derive(Debug, Clone, Copy, PartialEq, Eq, Structural)]
pub enum RelayerRefusal {
    /// The layer has no `.bilink/` of its own: there is nothing to fold.
    NoOwnBilink,
    /// The layer is the destination itself.
    IsDestination,
}

impl RelayerRefusal {
    /// What the refusal says of `layer`.
    pub fn message(&self, layer: &str) -> (r: String)
        ensures
            r@ == layer@ + match *self {
                RelayerRefusal::NoOwnBilink => " has no .bilink/ of its own: there is no layer to fold"@,
                RelayerRefusal::IsDestination => " is the destination layer"@,
            },
    {
        let mut out = chars_of(layer);
        match self {
            RelayerRefusal::NoOwnBilink => append_str(&mut out, " has no .bilink/ of its own: there is no layer to fold"),
            RelayerRefusal::IsDestination => append_str(&mut out, " is the destination layer"),
        }
        string_of(out.as_slice())
    }
}

/// Whether a layer can be folded, in the order the checks are made: it must have
/// its own `.bilink/`, and that must not be the destination's.
pub fn relayer_refusal(has_own_bilink: bool, is_destination: bool) -> (r: Option<RelayerRefusal>)
    ensures
        r == if !has_own_bilink {
            Some(RelayerRefusal::NoOwnBilink)
        } else if is_destination {
            Some(RelayerRefusal::IsDestination)
        } else {
            None
        },
{
    if !has_own_bilink {
        Some(RelayerRefusal::NoOwnBilink)
    } else if is_destination {
        Some(RelayerRefusal::IsDestination)
    } else {
        None
    }
}

/// A link that may be there, as a plain value.
pub open spec fn opt_view(l: Option<String>) -> Option<Seq<char>> {
    match l {
        Some(x) => Some(x@),
        None => None,
    }
}

/// **Every** `accepted.link` of a moved bilink, seen from the layer above: the
/// whole layer moves, so a displaced decision points at a capture that moved like
/// the others. An entry without a link keeps none.
pub fn moved_accepted(links: &Vec<Option<String>>, renames: &Vec<(String, String)>, layer: &str) -> (r: Vec<Option<String>>)
    ensures
        r@.len() == links@.len(),
        forall|i: int| 0 <= i < links@.len() ==> #[trigger] opt_view(r@[i]) == match links@[i] {
            Some(l) => Some(moved_link_of(l@, renames@, layer@)),
            None => None,
        },
{
    let mut out: Vec<Option<String>> = Vec::new();
    let mut i: usize = 0;
    while i < links.len()
        invariant
            i <= links@.len(),
            out@.len() == i,
            forall|j: int| 0 <= j < i ==> #[trigger] opt_view(out@[j]) == match links@[j] {
                Some(l) => Some(moved_link_of(l@, renames@, layer@)),
                None => None,
            },
        decreases links.len() - i,
    {
        let m = match &links[i] {
            Some(l) => Some(moved_link(l.as_str(), renames, layer)),
            None => None,
        };
        out.push(m);
        i = i + 1;
    }
    out
}

/// The `accepted.link`s of a neighbouring bilink, each repointed by
/// `neighbour_link`, and whether any of them was touched.
pub fn touched_neighbour(links: Vec<Option<String>>, renames: &Vec<(String, String)>) -> (r: (Vec<Option<String>>, bool))
    ensures
        r.0@.len() == links@.len(),
        forall|i: int| 0 <= i < links@.len() ==> #[trigger] opt_view(r.0@[i]) == match links@[i] {
            Some(l) => match strip_prefix(l@, "capture "@) {
                Some(id) => match renamed(renames@, id) {
                    Some(n) => Some("capture "@ + n),
                    None => Some(l@),
                },
                None => Some(l@),
            },
            None => None,
        },
        r.1 == exists|i: int| 0 <= i < links@.len() && #[trigger] touches(links@[i], renames@),
{
    let mut out: Vec<Option<String>> = Vec::new();
    let mut any = false;
    let mut i: usize = 0;
    while i < links.len()
        invariant
            i <= links@.len(),
            out@.len() == i,
            forall|j: int| 0 <= j < i ==> #[trigger] opt_view(out@[j]) == match links@[j] {
                Some(l) => match strip_prefix(l@, "capture "@) {
                    Some(id) => match renamed(renames@, id) {
                        Some(n) => Some("capture "@ + n),
                        None => Some(l@),
                    },
                    None => Some(l@),
                },
                None => None,
            },
            any == exists|j: int| 0 <= j < i && #[trigger] touches(links@[j], renames@),
        decreases links.len() - i,
    {
        let (m, t) = neighbour_link(links[i].clone(), renames);
        assert(t == touches(links@[i as int], renames@));
        out.push(m);
        if t {
            any = true;
        }
        i = i + 1;
    }
    (out, any)
}

/// Whether a neighbour's link is a `capture` whose id changed.
pub open spec fn touches(link: Option<String>, renames: Seq<(String, String)>) -> bool {
    match link {
        Some(l) => match strip_prefix(l@, "capture "@) {
            Some(id) => renamed(renames, id) is Some,
            None => false,
        },
        None => false,
    }
}

} // verus!
