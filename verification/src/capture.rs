//! Captures: where a fragment is, immutable, named by the hash of its location.
use vstd::prelude::*;

use crate::accept::names;
use crate::text::same_text;

verus! {

/// What a generator needs to know of the file, and nothing more.
pub struct GenCtx<'a> {
    pub source: &'a str,
    pub lang: &'a str,
    /// The node kinds taken as stable anchors in this language.
    pub anchors: &'a [&'a str],
    /// The node pointed at has to be the pattern's root: a YAML sequence item,
    /// which identifies itself and whose ancestor is the whole sequence.
    pub standalone: bool,
}

/// What repointing an endpoint did.
pub struct Recaptured {
    pub old_uuid: Option<String>,
    pub new_uuid: String,
    /// The new capture already existed and was reused.
    pub reused: bool,
    /// The previous capture was left without referents.
    pub orphaned: bool,
}

fn contains_id(v: &Vec<String>, id: &str) -> (b: bool)
    ensures
        b == names(v@).contains(id@),
{
    let mut i: usize = 0;
    while i < v.len()
        invariant
            i <= v.len(),
            forall|k: int| 0 <= k < i ==> #[trigger] names(v@)[k] != id@,
        decreases v.len() - i,
    {
        if same_text(v[i].as_str(), id) {
            assert(names(v@)[i as int] == id@);
            return true;
        }
        i = i + 1;
    }
    false
}

/// The captures no bilink reaches: **mark and sweep over two kinds of root**. A
/// capture lives when a `link` (the current location) or an `accepted.link` (the
/// approved one) names it, or a declared or accepted neighbourhood does; `alive`
/// holds all those ids, and `all` the layer's captures, in order.
pub fn orphans(all: &Vec<String>, alive: &Vec<String>) -> (r: Vec<String>)
    ensures
        names(r@) == names(all@).filter(|id: Seq<char>| !names(alive@).contains(id)),
{
    let mut out: Vec<String> = Vec::new();
    let ghost keep = |id: Seq<char>| !names(alive@).contains(id);
    let mut i: usize = 0;
    assert(names(all@).take(0).filter(keep) =~= Seq::<Seq<char>>::empty());
    assert(names(out@) =~= Seq::<Seq<char>>::empty());
    while i < all.len()
        invariant
            i <= all.len(),
            keep == (|id: Seq<char>| !names(alive@).contains(id)),
            names(out@) == names(all@).take(i as int).filter(keep),
        decreases all.len() - i,
    {
        let ghost prev = names(all@).take(i as int);
        assert(names(all@).take(i as int + 1) =~= prev.push(names(all@)[i as int]));
        proof {
            prev.lemma_filter_push(names(all@)[i as int], keep);
        }
        if !contains_id(alive, all[i].as_str()) {
            out.push(all[i].clone());
            assert(names(out@) =~= prev.filter(keep).push(names(all@)[i as int]));
        }
        i = i + 1;
    }
    assert(names(all@).take(i as int) =~= names(all@));
    out
}

/// **Pruning never takes what something references**: no capture a link, an
/// approved link or a neighbourhood names is an orphan, and every orphan is a
/// capture of the layer.
pub proof fn lemma_orphans_are_unreferenced(all: Seq<Seq<char>>, alive: Seq<Seq<char>>, id: Seq<char>)
    ensures
        all.filter(|x: Seq<char>| !alive.contains(x)).contains(id) <==> (all.contains(id) && !alive.contains(id)),
{
    let keep = |x: Seq<char>| !alive.contains(x);
    if all.filter(keep).contains(id) {
        all.lemma_filter_contains_rev(keep, id);
        let j = choose|j: int| 0 <= j < all.filter(keep).len() && all.filter(keep)[j] == id;
        all.filter_lemma(keep);
        assert(keep(all.filter(keep)[j]));
    }
    if all.contains(id) && !alive.contains(id) {
        let k = choose|k: int| 0 <= k < all.len() && all[k] == id;
        all.lemma_filter_contains(keep, k);
    }
}


/// Whether a character means something to a regular expression.
pub open spec fn regex_special(c: char) -> bool {
    c == '\\' || c == '.' || c == '^' || c == '$' || c == '|' || c == '?' || c == '*' || c == '+' || c == '('
        || c == ')' || c == '[' || c == ']' || c == '{' || c == '}'
}

/// A text as a regular expression that matches it literally: each special
/// character after a backslash.
pub open spec fn regex_literal_of(t: Seq<char>) -> Seq<char>
    decreases t.len(),
{
    if t.len() == 0 {
        seq![]
    } else {
        regex_literal_of(t.drop_last()) + if regex_special(t.last()) {
            seq!['\\', t.last()]
        } else {
            seq![t.last()]
        }
    }
}

/// A text as a regular expression that matches it literally.
pub fn regex_literal(texto: &str) -> (r: String)
    ensures
        r@ == regex_literal_of(texto@),
{
    let t = crate::text::chars_of(texto);
    let mut out: Vec<char> = Vec::new();
    let mut i: usize = 0;
    while i < t.len()
        invariant
            i <= t.len(),
            t@ == texto@,
            out@ == regex_literal_of(t@.take(i as int)),
        decreases t.len() - i,
    {
        let c = t[i];
        assert(t@.take(i as int + 1).drop_last() =~= t@.take(i as int));
        if c == '\\' || c == '.' || c == '^' || c == '$' || c == '|' || c == '?' || c == '*' || c == '+'
            || c == '(' || c == ')' || c == '[' || c == ']' || c == '{' || c == '}' {
            out.push('\\');
        }
        out.push(c);
        assert(out@ =~= regex_literal_of(t@.take(i as int + 1)));
        i = i + 1;
    }
    assert(t@.take(i as int) =~= t@);
    crate::text::string_of(out.as_slice())
}

/// Where the history of a file is walked from: `refs/bilink/<branch>` where the
/// branch has its ref, `HEAD` otherwise. The ref reaches every commit of the project
/// ever absorbed, so its history is a superset of the branch's.
pub fn history_root(branch: Option<&str>, ref_tip: Option<&str>) -> (r: String)
    ensures
        r@ == match (branch, ref_tip) {
            (Some(b), Some(_)) => "refs/bilink/"@ + b@,
            _ => "HEAD"@,
        },
{
    match (branch, ref_tip) {
        (Some(b), Some(_)) => crate::bilink_ref::Repo::ref_name(b),
        _ => crate::text::owned("HEAD"),
    }
}

/// Why an endpoint is not repointed.
#[derive(Debug, Clone, PartialEq, Eq)]
pub enum RecaptureRefusal {
    /// The endpoint is not structural: it has no capture to repoint.
    NotStructural,
    /// A generator makes the query of what was pointed at: it needs a position.
    NeedsPosition,
    /// The endpoint already points at that capture, and declares nothing new.
    Unchanged,
}

/// **What repointing an endpoint asks before any capture is made**: the endpoint's
/// current capture (`None`: not structural), and, with a generator, a position.
pub fn recapture_plan(old_id: Option<String>, has_position: bool, generator: bool) -> (r: Result<String, RecaptureRefusal>)
    ensures
        match old_id {
            None => r == Err::<String, RecaptureRefusal>(RecaptureRefusal::NotStructural),
            Some(id) => if generator && !has_position {
                r == Err::<String, RecaptureRefusal>(RecaptureRefusal::NeedsPosition)
            } else {
                r == Ok::<String, RecaptureRefusal>(id)
            },
        },
{
    match old_id {
        None => Err(RecaptureRefusal::NotStructural),
        Some(id) => if generator && !has_position {
            Err(RecaptureRefusal::NeedsPosition)
        } else {
            Ok(id)
        },
    }
}

/// **What repointing leaves the endpoint in**, once the new capture is made: on the
/// same capture, with no generator or the same declaration, there is nothing to do;
/// on the same capture what is watched changed and nobody approved it (`ALTERED`);
/// on another one the location changed (`RELOCATED`).
pub fn recapture_state(old_id: &str, new_id: &str, generator: bool, same_declaration: bool) -> (r: Result<
    crate::link::EndpointState,
    RecaptureRefusal,
>)
    ensures
        old_id@ == new_id@ && (!generator || same_declaration) ==> r == Err::<crate::link::EndpointState, _>(
            RecaptureRefusal::Unchanged,
        ),
        old_id@ == new_id@ && generator && !same_declaration ==> r == Ok::<_, RecaptureRefusal>(
            crate::link::EndpointState::Altered,
        ),
        old_id@ != new_id@ ==> r == Ok::<_, RecaptureRefusal>(crate::link::EndpointState::Relocated),
{
    let same = same_text(old_id, new_id);
    if same && (!generator || same_declaration) {
        Err(RecaptureRefusal::Unchanged)
    } else if same {
        Ok(crate::link::EndpointState::Altered)
    } else {
        Ok(crate::link::EndpointState::Relocated)
    }
}

} // verus!
