//! `bilinker check`: verifies, and **writes not a byte into git**.
//!
//! It works in two steps and over **two dimensions**: first it resolves the capture
//! (where the fragment is), then it compares against `accepted` (where it was
//! approved to be, and what it was approved to say).
use vstd::prelude::*;

use crate::dimension::DimensionStates;
use crate::grammar::{components, components_of, extension};
use crate::link::EndpointState;
use crate::text::same_text;
use crate::neighbours::{Demand, NoProvider};
use vstd::string::StringSliceAdditionalSpecFns;
use crate::text::{
    append_str, chars_of, lex_lt, lex_lt_of, lemma_lex_total, lemma_lex_transitive, rfind_char,
    rfind_char_of, same, same_str, slice_of, starts_with, starts_with_of, string_of, views,
};

verus! {

/// What `check` found: what it verified, and what it could not read. **The two
/// lists travel together because the count of one is not the total.**
pub struct Checked {
    pub results: Vec<CheckResult>,
    pub unreadable: Vec<Unreadable>,
    /// The endpoints with an acquired level 1 that entered this run.
    pub n1: crate::neighbours::Demand,
}

/// A bilink that does not parse. **A state, not an absence.**
pub struct Unreadable {
    /// Relative to the layer: what is printed.
    pub path: String,
    pub error: String,
}

/// What `check` says of one bilink.
pub struct CheckResult {
    pub uuid: String,
    pub state0: EndpointState,
    pub state1: EndpointState,
    /// The dimensions that qualify each endpoint's state: those not `OK`.
    pub dimensions: [DimensionStates; 2],
}

impl CheckResult {
    /// Both endpoints OK. **Decides what is printed.**
    pub fn all_ok(&self) -> (b: bool)
        ensures
            b == (self.state0 == EndpointState::Okay && self.state1 == EndpointState::Okay),
    {
        self.state0.is_ok() && self.state1.is_ok()
    }

    /// Nothing that asks for a human decision. **Decides the exit code.**
    pub fn is_clean(&self) -> (b: bool)
        ensures
            b == (clean(self.state0) && clean(self.state1)),
    {
        is_clean_state(self.state0) && is_clean_state(self.state1)
    }
}

/// A state that asks nobody for a decision: the fragment is as approved, or only
/// its format changed.
pub open spec fn clean(s: EndpointState) -> bool {
    s == EndpointState::Okay || s == EndpointState::Restyled
}

/// Whether a state asks nobody for a decision.
pub fn is_clean_state(s: EndpointState) -> (b: bool)
    ensures
        b == clean(s),
{
    match s {
        EndpointState::Okay | EndpointState::Restyled => true,
        _ => false,
    }
}

// ─── what `check <path>` verifies ────────────────────────────────────────────

/// Which part of the layer a `check <path>` verifies.
#[derive(Debug, Clone, PartialEq, Eq)]
pub enum Scope {
    Layer,
    /// One bilink, by its uuid.
    Bilink(String),
    /// The bilinks with an endpoint whose capture falls under this path, relative to
    /// the layer.
    Under(String),
}

/// Why a path cannot be checked. **A path that does not exist is an error, not an
/// empty scope**: with a typo, "nothing not OK" would read as all well.
#[derive(Debug, Clone, PartialEq, Eq)]
pub enum ScopeError {
    Missing { path: String },
    Outside { path: String, layer: String },
}

impl ScopeError {
    /// What the error says.
    pub fn message(&self) -> (r: String)
        ensures
            r@ == match *self {
                ScopeError::Missing { path } => path@ + " no existe"@,
                ScopeError::Outside { path, layer } => path@ + " no está adentro de la capa "@ + layer@,
            },
    {
        let mut out: Vec<char> = Vec::new();
        match self {
            ScopeError::Missing { path } => {
                append_str(&mut out, path.as_str());
                append_str(&mut out, " no existe");
            },
            ScopeError::Outside { path, layer } => {
                append_str(&mut out, path.as_str());
                append_str(&mut out, " no está adentro de la capa ");
                append_str(&mut out, layer.as_str());
            },
        }
        string_of(out.as_slice())
    }
}

/// `abs` relative to the directory `dir`, both canonical, as `Path::strip_prefix`
/// gives it: empty for the directory itself, `None` outside it.
pub open spec fn relative_to(abs: Seq<char>, dir: Seq<char>) -> Option<Seq<char>> {
    if abs == dir {
        Some(seq![])
    } else if dir.len() > 0 && dir.last() == '/' {
        if starts_with(abs, dir) {
            Some(abs.skip(dir.len() as int))
        } else {
            None
        }
    } else if starts_with(abs, dir + seq!['/']) {
        Some(abs.skip(dir.len() + 1int))
    } else {
        None
    }
}

/// A scope, as texts.
pub enum ScopeView {
    Layer,
    Bilink(Seq<char>),
    Under(Seq<char>),
}

pub open spec fn scope_view(s: Scope) -> ScopeView {
    match s {
        Scope::Layer => ScopeView::Layer,
        Scope::Bilink(u) => ScopeView::Bilink(u@),
        Scope::Under(p) => ScopeView::Under(p@),
    }
}

/// The scope of a relative path: the layer itself, one bilink file
/// (`.bilink/<uuid>.yaml`, named by what precedes its last `.`), or what lies
/// under it.
pub open spec fn scope_for(rel: Seq<char>) -> ScopeView {
    let cs = components(rel);
    if rel.len() == 0 {
        ScopeView::Layer
    } else if cs.len() == 2 && cs[0] == ".bilink"@ && extension(rel) == Some("yaml"@) {
        match rfind_char(cs[1], '.') {
            Some(i) => ScopeView::Bilink(cs[1].take(i)),
            None => ScopeView::Under(rel),
        }
    } else {
        ScopeView::Under(rel)
    }
}

fn relative_of(abs: &[char], dir: &[char]) -> (r: Option<Vec<char>>)
    ensures
        match r {
            Some(v) => relative_to(abs@, dir@) == Some(v@),
            None => relative_to(abs@, dir@) is None,
        },
{
    if same(abs, dir) {
        return Some(Vec::new());
    }
    if dir.len() > 0 && dir[dir.len() - 1] == '/' {
        if starts_with_of(abs, dir) {
            let v = slice_of(abs, dir.len(), abs.len());
            assert(v@ =~= abs@.skip(dir.len() as int));
            return Some(v);
        }
        return None;
    }
    let mut d = crate::text::to_vec(dir);
    d.push('/');
    assert(d@ =~= dir@ + seq!['/']);
    if starts_with_of(abs, d.as_slice()) {
        let v = slice_of(abs, d.len(), abs.len());
        assert(v@ =~= abs@.skip(dir.len() + 1int));
        Some(v)
    } else {
        None
    }
}

/// What `check <path>` verifies, for a path that is not a layer itself: from
/// whether it exists (`abs`: its canonical form) and the layer's canonical path. A
/// bilink file is named by its uuid, what its name has before `.yaml`.
pub fn scope_of(path: &str, abs: Option<&str>, layer: &str) -> (r: Result<Scope, ScopeError>)
    ensures
        match abs {
            None => match r {
                Err(ScopeError::Missing { path: p }) => p@ == path@,
                _ => false,
            },
            Some(a) => match relative_to(a@, layer@) {
                None => match r {
                    Err(ScopeError::Outside { path: p, layer: l }) => p@ == path@ && l@ == layer@,
                    _ => false,
                },
                Some(rel) => match r {
                    Ok(s) => scope_view(s) == scope_for(rel),
                    Err(_) => false,
                },
            },
        },
{
    let a = match abs {
        None => return Err(ScopeError::Missing { path: crate::text::owned(path) }),
        Some(a) => a,
    };
    let av = chars_of(a);
    let lv = chars_of(layer);
    let rel = match relative_of(av.as_slice(), lv.as_slice()) {
        None => return Err(ScopeError::Outside { path: crate::text::owned(path), layer: crate::text::owned(layer) }),
        Some(r) => r,
    };
    if rel.len() == 0 {
        return Ok(Scope::Layer);
    }
    let cs = components_of(rel.as_slice());
    let relstr = string_of(rel.as_slice());
    if cs.len() == 2 && same_str(cs[0].as_slice(), ".bilink") {
        let ext = crate::grammar::extension_of(relstr.as_str());
        let is_yaml = match &ext {
            Some(e) => same_str(e.as_slice(), "yaml"),
            None => false,
        };
        if is_yaml {
            assert(views(cs@)[1] == cs@[1]@);
            match rfind_char_of(cs[1].as_slice(), '.') {
                Some(i) => {
                    proof {
                        crate::text::lemma_rfind_char_in_range(cs@[1]@, '.');
                    }
                    let stem = slice_of(cs[1].as_slice(), 0, i);
                    assert(stem@ =~= cs@[1]@.take(i as int));
                    return Ok(Scope::Bilink(string_of(stem.as_slice())));
                },
                None => {
                    return Ok(Scope::Under(relstr));
                },
            }
        }
    }
    Ok(Scope::Under(relstr))
}

/// A file under a directory, both relative to the layer, as `Path::starts_with`
/// says: the directory itself, or below it.
pub open spec fn under(file: Seq<char>, dir: Seq<char>) -> bool {
    relative_to(file, dir) is Some
}

/// Whether any of a bilink's endpoints (the files of their captures) falls under
/// `dir`. The current location counts: a neighbour does not bring its bilink into
/// the scope.
pub fn scope_covers(files: &Vec<String>, dir: &str) -> (b: bool)
    ensures
        b == exists|k: int| 0 <= k < files@.len() && under(#[trigger] files@[k]@, dir@),
{
    let dv = chars_of(dir);
    let mut i: usize = 0;
    while i < files.len()
        invariant
            i <= files.len(),
            dv@ == dir@,
            forall|k: int| 0 <= k < i ==> !under(#[trigger] files@[k]@, dir@),
        decreases files.len() - i,
    {
        let fv = chars_of(files[i].as_str());
        if relative_of(fv.as_slice(), dv.as_slice()).is_some() {
            assert(under(files@[i as int]@, dir@));
            return true;
        }
        i = i + 1;
    }
    false
}


/// The state of an endpoint on a capture, from what was resolved of it: **the list
/// decides before any axis**. An unresolved capture is `UNRESOLVED`; no entry is
/// `PENDING`; more than one is `CONSENSUS_DIVERGED` — two human decisions that
/// disagree, and no value to compare against. Then the place: an entry approved at
/// another link is `RELOCATED`. Only then the content decides, as compared by its
/// dimensions (`content`).
pub fn endpoint_verdict(
    resolved: bool,
    accepted: &Vec<crate::accept::Accepted>,
    link: &crate::link::LinkEndpoint,
    content: crate::link::EndpointState,
) -> (r: crate::link::EndpointState)
    ensures
        r == if !resolved {
            crate::link::EndpointState::Unresolved
        } else if accepted@.len() == 0 {
            crate::link::EndpointState::Pending
        } else if accepted@.len() > 1 {
            crate::link::EndpointState::ConsensusDiverged
        } else if crate::accept::link_view(accepted@[0].link) != Some(link@) {
            crate::link::EndpointState::Relocated
        } else {
            content
        },
{
    if !resolved {
        return crate::link::EndpointState::Unresolved;
    }
    if accepted.len() == 0 {
        return crate::link::EndpointState::Pending;
    }
    if accepted.len() > 1 {
        return crate::link::EndpointState::ConsensusDiverged;
    }
    let same = match &accepted[0].link {
        Some(l) => crate::accept::same_endpoint(l, link),
        None => false,
    };
    if !same {
        crate::link::EndpointState::Relocated
    } else {
        content
    }
}

/// Whether `check` looks at a bilink, by the scope: the whole layer takes every
/// one; a uuid, only the bilink of that name; a path, the bilinks with an endpoint
/// whose capture's file falls under it (`files`).
pub fn in_scope(scope: &Scope, name: &str, files: &Vec<String>) -> (b: bool)
    ensures
        b == match *scope {
            Scope::Layer => true,
            Scope::Bilink(only) => name@ == only@,
            Scope::Under(dir) => exists|k: int| 0 <= k < files@.len() && under(#[trigger] files@[k]@, dir@),
        },
{
    match scope {
        Scope::Layer => true,
        Scope::Bilink(only) => crate::text::same_text(name, only.as_str()),
        Scope::Under(dir) => scope_covers(files, dir.as_str()),
    }
}

/// Which layer `check <path>` verifies: the path itself where it holds its own
/// `.bilink/`, else the root's.
pub fn checked_layer(root: &str, path: &str, path_has_bilink: bool) -> (r: String)
    ensures
        r@ == if path_has_bilink { path@ } else { root@ },
{
    if path_has_bilink {
        crate::text::owned(path)
    } else {
        crate::text::owned(root)
    }
}


// ─── the axis of the neighbourhood ──────────────────────────────────────────

/// What the types a signature mentions say today against what was approved, when
/// they say something.
#[derive(Debug, Clone, Copy, PartialEq, Eq, Structural)]
pub enum ContractVerdict {
    /// A neighbour changed.
    Altered,
    /// Only the format of the neighbourhood changed.
    Restyled,
    /// The neighbours are others, or elsewhere.
    Relocated,
    /// The approved neighbourhood has no location to compare.
    Unlocated,
    /// Nothing contradicts it, but nobody confirmed that the names still reach the
    /// same neighbours.
    Unconfirmed,
}

/// A neighbourhood as plain values: the ids of its captures where they are known,
/// its hash, and the hash of its syntax where there is one.
pub open spec fn hood_view(ids: Option<Vec<String>>, hash: String, ast: Option<String>) -> (
    Option<Seq<Seq<char>>>,
    Seq<char>,
    Option<Seq<char>>,
) {
    (
        match ids {
            Some(v) => Some(v@.map_values(|x: String| x@)),
            None => None,
        },
        hash@,
        match ast {
            Some(a) => Some(a@),
            None => None,
        },
    )
}

/// The content of a neighbourhood against the approved one: nothing when the
/// hashes agree; `Restyled` when only the text differs and both sides have a syntax
/// hash that agrees; else `Altered`.
pub open spec fn contract_content_of(
    today_hash: Seq<char>,
    today_ast: Option<Seq<char>>,
    hash: Seq<char>,
    ast: Option<Seq<char>>,
) -> Option<ContractVerdict> {
    if today_hash == hash {
        None
    } else if today_ast is Some && ast is Some && today_ast == ast {
        Some(ContractVerdict::Restyled)
    } else {
        Some(ContractVerdict::Altered)
    }
}

fn opt_same(a: &Option<String>, b: &Option<String>) -> (r: bool)
    ensures
        r == (a is Some && b is Some && a->0@ == b->0@),
{
    match (a, b) {
        (Some(x), Some(y)) => same_text(x.as_str(), y.as_str()),
        _ => false,
    }
}

/// The content of a neighbourhood against the approved one.
pub fn contract_content(today_hash: &str, today_ast: &Option<String>, hash: &str, ast: &Option<String>) -> (r: Option<
    ContractVerdict,
>)
    ensures
        r == contract_content_of(
            today_hash@,
            match today_ast {
                Some(a) => Some(a@),
                None => None,
            },
            hash@,
            match ast {
                Some(a) => Some(a@),
                None => None,
            },
        ),
{
    if same_text(today_hash, hash) {
        None
    } else if opt_same(today_ast, ast) {
        Some(ContractVerdict::Restyled)
    } else {
        Some(ContractVerdict::Altered)
    }
}

fn same_ids(a: &Vec<String>, b: &Vec<String>) -> (r: bool)
    ensures
        r == (a@.map_values(|x: String| x@) == b@.map_values(|x: String| x@)),
{
    let ghost av = a@.map_values(|x: String| x@);
    let ghost bv = b@.map_values(|x: String| x@);
    if a.len() != b.len() {
        assert(av.len() != bv.len());
        return false;
    }
    let mut i: usize = 0;
    while i < a.len()
        invariant
            i <= a@.len(),
            a@.len() == b@.len(),
            av == a@.map_values(|x: String| x@),
            bv == b@.map_values(|x: String| x@),
            forall|j: int| 0 <= j < i ==> av[j] == bv[j],
        decreases a.len() - i,
    {
        assert(av[i as int] == a@[i as int]@ && bv[i as int] == b@[i as int]@);
        if !same_text(a[i].as_str(), b[i].as_str()) {
            assert(av[i as int] != bv[i as int]);
            return false;
        }
        i = i + 1;
    }
    assert(av =~= bv);
    true
}

/// The ids of a neighbourhood's captures, where known, as plain values.
pub open spec fn ids_view(ids: Option<Vec<String>>) -> Option<Seq<Seq<char>>> {
    match ids {
        Some(v) => Some(v@.map_values(|x: String| x@)),
        None => None,
    }
}

/// Whether the neighbourhood has no location to compare: the one declared today is
/// unknown, or the approved one is.
pub open spec fn unlocated(declared: Option<Option<Vec<String>>>, expected_ids: Option<Vec<String>>) -> bool {
    (declared matches Some(d) && d is None) || expected_ids is None
}

/// What the neighbourhood axis says before a provider is asked, if anything.
pub enum ContractStep {
    /// It has a verdict, or nothing to say.
    Says(Option<ContractVerdict>),
    /// Only a provider can tell: ask it where the signature's names lead today.
    Ask,
}

/// The neighbourhood axis, up to where a provider is needed. **What is proved beats
/// what is suspected**: first the content of the approved neighbours, by their
/// captures (`today`: their fold today, `None` where one no longer resolves, only
/// looked at when their ids are known); then the location declared today against
/// the approved one; and last, only a provider can confirm that the names still
/// reach those neighbours — without one, it is `Unlocated` or `Unconfirmed`.
pub fn contract_before_asking(
    expected_ids: &Option<Vec<String>>,
    expected_hash: &str,
    expected_ast: &Option<String>,
    today: &Option<(String, Option<String>)>,
    declared: &Option<Option<Vec<String>>>,
    has_provider: bool,
) -> (r: ContractStep)
    ensures
        ({
            let u = unlocated(*declared, *expected_ids);
            let ev = ids_view(*expected_ids);
            let dv: Seq<Seq<char>> = match *declared {
                Some(Some(v)) => v@.map_values(|x: String| x@),
                _ => Seq::empty(),
            };
            let eav = match *expected_ast {
                Some(a) => Some(a@),
                None => None,
            };
            let th = today->0;
            if expected_ids is Some && today is None {
                r == ContractStep::Says(Some(ContractVerdict::Altered))
            } else if expected_ids is Some && contract_content_of(
                th.0@,
                match th.1 {
                    Some(a) => Some(a@),
                    None => None,
                },
                expected_hash@,
                eav,
            ) is Some {
                r == ContractStep::Says(contract_content_of(
                    th.0@,
                    match th.1 {
                        Some(a) => Some(a@),
                        None => None,
                    },
                    expected_hash@,
                    eav,
                ))
            } else if !u && dv != ev->0 {
                r == ContractStep::Says(Some(ContractVerdict::Relocated))
            } else if !has_provider {
                r == ContractStep::Says(Some(if u { ContractVerdict::Unlocated } else { ContractVerdict::Unconfirmed }))
            } else {
                r == ContractStep::Ask
            }
        }),
{
    match expected_ids {
        Some(_) => match today {
            None => return ContractStep::Says(Some(ContractVerdict::Altered)),
            Some((h, a)) => {
                let c = contract_content(h.as_str(), a, expected_hash, expected_ast);
                if c.is_some() {
                    return ContractStep::Says(c);
                }
            },
        },
        None => {},
    }
    let u = match declared {
        Some(None) => true,
        _ => expected_ids.is_none(),
    };
    if !u {
        let empty: Vec<String> = Vec::new();
        let d = match declared {
            Some(Some(v)) => v,
            _ => &empty,
        };
        assert(empty@.map_values(|x: String| x@) =~= Seq::<Seq<char>>::empty());
        match expected_ids {
            Some(e) => {
                if !same_ids(d, e) {
                    return ContractStep::Says(Some(ContractVerdict::Relocated));
                }
            },
            None => {},
        }
    }
    if !has_provider {
        return ContractStep::Says(Some(if u { ContractVerdict::Unlocated } else { ContractVerdict::Unconfirmed }));
    }
    ContractStep::Ask
}

/// The neighbourhood axis after the provider was asked: `today` is the fold of the
/// neighbours its answer names (`None` where one of them cannot be captured, which
/// is none of the approved ones). Without a location, the kept hash is all there is
/// to compare, and a real change of contract beats the missing location; with one,
/// other ids are other neighbours.
pub fn contract_after_asking(
    is_unlocated: bool,
    expected_ids: &Option<Vec<String>>,
    expected_hash: &str,
    expected_ast: &Option<String>,
    today: &Option<(Option<Vec<String>>, String, Option<String>)>,
) -> (r: Option<ContractVerdict>)
    ensures
        ({
            let eav = match *expected_ast {
                Some(a) => Some(a@),
                None => None,
            };
            let ev: Seq<Seq<char>> = match ids_view(*expected_ids) {
                Some(v) => v,
                None => Seq::empty(),
            };
            match *today {
                None => r == Some(ContractVerdict::Relocated),
                Some((ids, h, a)) => {
                    let c = contract_content_of(
                        h@,
                        match a {
                            Some(x) => Some(x@),
                            None => None,
                        },
                        expected_hash@,
                        eav,
                    );
                    let tv: Seq<Seq<char>> = match ids_view(ids) {
                        Some(v) => v,
                        None => Seq::empty(),
                    };
                    if is_unlocated {
                        r == (if c is Some { c } else { Some(ContractVerdict::Unlocated) })
                    } else if tv != ev {
                        r == Some(ContractVerdict::Relocated)
                    } else {
                        r is None
                    }
                },
            }
        }),
{
    match today {
        None => Some(ContractVerdict::Relocated),
        Some((ids, h, a)) => {
            if is_unlocated {
                let c = contract_content(h.as_str(), a, expected_hash, expected_ast);
                return if c.is_some() { c } else { Some(ContractVerdict::Unlocated) };
            }
            let empty: Vec<String> = Vec::new();
            assert(empty@.map_values(|x: String| x@) =~= Seq::<Seq<char>>::empty());
            let t = match ids {
                Some(v) => v,
                None => &empty,
            };
            let e = match expected_ids {
                Some(v) => v,
                None => &empty,
            };
            if !same_ids(t, e) {
                Some(ContractVerdict::Relocated)
            } else {
                None
            }
        },
    }
}


// ─── where a file went ──────────────────────────────────────────────────────

/// Where a line of `git diff -M --name-status` says `file` was renamed to: a line
/// of a rename (it starts with `R`), split at its first two tabs, whose middle part
/// is `file`, gives the rest.
pub open spec fn rename_target(line: Seq<char>, file: Seq<char>) -> Option<Seq<char>> {
    if line.len() > 0 && line[0] == 'R' {
        match crate::text::split_once(line, seq!['\t']) {
            Some((_, rest)) => match crate::text::split_once(rest, seq!['\t']) {
                Some((from, to)) => if from == file {
                    Some(to)
                } else {
                    None
                },
                None => None,
            },
            None => None,
        }
    } else {
        None
    }
}

/// Every place the output of `git diff -M --name-status` says `file` was renamed
/// to, in the order of its lines. Which of them exists is for the disk to say.
pub open spec fn rename_targets(lines: Seq<Seq<char>>, file: Seq<char>) -> Seq<Seq<char>>
    decreases lines.len(),
{
    if lines.len() == 0 {
        seq![]
    } else {
        rename_targets(lines.drop_last(), file) + match rename_target(lines.last(), file) {
            Some(t) => seq![t],
            None => seq![],
        }
    }
}

/// Where `git diff -M --name-status` (its output, `status`) says `file` went.
pub fn renamed_targets(status: &str, file: &str) -> (r: Vec<String>)
    ensures
        r@.map_values(|x: String| x@) == rename_targets(crate::text::lines(status@), file@),
{
    let all = crate::text::chars_of(status);
    let ls = crate::text::lines_of(all.as_slice());
    let ghost lv = crate::text::views(ls@);
    let fv = crate::text::chars_of(file);
    let tab = crate::text::chars_of("\t");
    proof {
        reveal_strlit("\t");
    }
    let mut out: Vec<String> = Vec::new();
    let mut i: usize = 0;
    assert(out@.map_values(|x: String| x@) =~= rename_targets(lv.take(0), file@));
    while i < ls.len()
        invariant
            i <= ls@.len(),
            lv == crate::text::views(ls@),
            lv == crate::text::lines(status@),
            fv@ == file@,
            tab@ == seq!['\t'],
            out@.map_values(|x: String| x@) == rename_targets(lv.take(i as int), file@),
        decreases ls.len() - i,
    {
        let ghost before = out@.map_values(|x: String| x@);
        assert(lv[i as int] == ls@[i as int]@);
        assert(lv.take(i as int + 1).drop_last() =~= lv.take(i as int));
        assert(lv.take(i as int + 1).last() == lv[i as int]);
        let l = &ls[i];
        let mut hit: Option<Vec<char>> = None;
        if l.len() > 0 && l[0] == 'R' {
            match crate::text::split_once_of(l.as_slice(), tab.as_slice()) {
                Some((_, rest)) => match crate::text::split_once_of(rest.as_slice(), tab.as_slice()) {
                    Some((from, to)) => {
                        if crate::text::same(from.as_slice(), fv.as_slice()) {
                            hit = Some(to);
                        }
                    },
                    None => {},
                },
                None => {},
            }
        }
        assert(match hit {
            Some(t) => rename_target(lv[i as int], file@) == Some(t@),
            None => rename_target(lv[i as int], file@) is None,
        });
        match hit {
            Some(t) => {
                out.push(crate::text::string_of(t.as_slice()));
                assert(out@.map_values(|x: String| x@) =~= before.push(t@));
            },
            None => {},
        }
        i = i + 1;
    }
    assert(lv.take(i as int) =~= lv);
    out
}


// ─── endpoints that are not fragments ───────────────────────────────────────

/// An endpoint that copies its neighbour's approval (a `path` to another layer, or
/// a published endpoint of another repo), once the neighbour's place is known to
/// exist: the neighbour's bilink missing is a regression where something was
/// approved (`BROKEN`) and an intention where nothing was (`TODO`); unreadable, it
/// is `BROKEN`; with no approval on either side there is nothing to compare
/// (`PENDING`); and **both** approved values must agree, the place and the content
/// (`OK`), else the chain is dirty.
pub fn copy_verdict(
    found: bool,
    readable: bool,
    theirs: Option<&crate::accept::Accepted>,
    mine: Option<&crate::accept::Accepted>,
) -> (r: EndpointState)
    ensures
        r == if !found {
            if mine is None { EndpointState::Todo } else { EndpointState::Broken }
        } else if !readable {
            EndpointState::Broken
        } else if theirs is None || mine is None {
            EndpointState::Pending
        } else if theirs->0.hash@ == mine->0.hash@ && crate::accept::link_view(theirs->0.link)
            == crate::accept::link_view(mine->0.link) {
            EndpointState::Okay
        } else {
            EndpointState::ChainDirty
        },
{
    if !found {
        return if mine.is_none() { EndpointState::Todo } else { EndpointState::Broken };
    }
    if !readable {
        return EndpointState::Broken;
    }
    match (theirs, mine) {
        (Some(t), Some(m)) => {
            if same_text(t.hash.as_str(), m.hash.as_str()) && crate::accept::same_link(&t.link, &m.link) {
                EndpointState::Okay
            } else {
                EndpointState::ChainDirty
            }
        },
        _ => EndpointState::Pending,
    }
}

/// An `issue` endpoint, hashed as the content of its item's file (`text`, where it
/// could be read): no item is `TODO` where nothing was approved and `BROKEN` where
/// something was; nothing approved is `PENDING`; an unreadable item is `BROKEN`;
/// the approved hash is `OK`; anything else is `ALTERED`.
pub fn issue_verdict(item_found: bool, accepted: Option<&crate::accept::Accepted>, text: Option<&str>) -> (r: EndpointState)
    ensures
        r == if !item_found {
            if accepted is None { EndpointState::Todo } else { EndpointState::Broken }
        } else if accepted is None {
            EndpointState::Pending
        } else if text is None {
            EndpointState::Broken
        } else if crate::hash::hex_text(crate::hash::sha256_of(text->0.spec_bytes())) == accepted->0.hash@ {
            EndpointState::Okay
        } else {
            EndpointState::Altered
        },
{
    if !item_found {
        return if accepted.is_none() { EndpointState::Todo } else { EndpointState::Broken };
    }
    let a = match accepted {
        None => return EndpointState::Pending,
        Some(a) => a,
    };
    let t = match text {
        None => return EndpointState::Broken,
        Some(t) => t,
    };
    let h = crate::hash::sha256(t.as_bytes());
    if same_text(h.as_str(), a.hash.as_str()) {
        EndpointState::Okay
    } else {
        EndpointState::Altered
    }
}


/// Whether an endpoint makes demand on a provider of neighbourhoods: it has exactly
/// one approved entry, and that entry acquired a level 1. (Its file counts only
/// where its link names a capture that can be read.)
pub fn demands_level1(accepted: &Vec<crate::accept::Accepted>) -> (b: bool)
    ensures
        b == (accepted@.len() == 1 && accepted@[0].n matches Some(crate::accept::N::Level1(_))),
{
    accepted.len() == 1 && match &accepted[0].n {
        Some(crate::accept::N::Level1(_)) => true,
        _ => false,
    }
}


/// Where a capture stands against today's tree, by what was found in the order it
/// is looked for (each fact is only looked for where the ones before leave the
/// question open): a missing file that git renamed has **moved**, one git knows
/// was **deleted**, one it never knew is **broken**; an unreadable file is broken;
/// a capture without a query is the whole file and resolves; a query that matches
/// resolves; one that does not has its anchor **renamed** where a candidate scores
/// as the approved text, was **deleted** where git saw the fragment go, and is
/// **unanchored** otherwise.
pub fn capture_state_of(
    file_exists: bool,
    renamed: bool,
    known: bool,
    readable: bool,
    has_query: bool,
    matched: bool,
    reanchored: bool,
    vanished: bool,
) -> (r: crate::state::CaptureState)
    ensures
        r == if !file_exists {
            if renamed {
                crate::state::CaptureState::Moved
            } else if known {
                crate::state::CaptureState::Deleted
            } else {
                crate::state::CaptureState::Broken
            }
        } else if !readable {
            crate::state::CaptureState::Broken
        } else if !has_query || matched {
            crate::state::CaptureState::Resolved
        } else if reanchored {
            crate::state::CaptureState::Reanchored
        } else if vanished {
            crate::state::CaptureState::Deleted
        } else {
            crate::state::CaptureState::Unanchored
        },
{
    if !file_exists {
        if renamed {
            crate::state::CaptureState::Moved
        } else if known {
            crate::state::CaptureState::Deleted
        } else {
            crate::state::CaptureState::Broken
        }
    } else if !readable {
        crate::state::CaptureState::Broken
    } else if !has_query || matched {
        crate::state::CaptureState::Resolved
    } else if reanchored {
        crate::state::CaptureState::Reanchored
    } else if vanished {
        crate::state::CaptureState::Deleted
    } else {
        crate::state::CaptureState::Unanchored
    }
}


// ─── which bilinks a run reads ──────────────────────────────────────────────

/// A `.bilink` file as read: its path in the layer, its name, and either the files
/// of its endpoints' captures or why it does not parse.
pub type ReadBilink = (String, String, Result<Vec<String>, String>);

/// What a run verifies and what it names as unreadable, in the order of the files.
pub struct CheckPlan {
    /// The names of the bilinks to verify.
    pub checked: Vec<String>,
    pub unreadable: Vec<Unreadable>,
}

/// Whether a run looks at a file at all: **with a uuid, only the file of that
/// name** — the others are not even read.
pub open spec fn looked_at(scope: Scope, name: Seq<char>) -> bool {
    match scope {
        Scope::Bilink(only) => name == only@,
        _ => true,
    }
}

/// Whether a readable bilink is verified: under a path, only where an endpoint's
/// capture falls under it.
pub open spec fn verified_in(scope: Scope, files: Seq<String>) -> bool {
    match scope {
        Scope::Under(dir) => exists|k: int| 0 <= k < files.len() && under(#[trigger] files[k]@, dir@),
        _ => true,
    }
}

/// The names a run verifies.
pub open spec fn checked_of(scope: Scope, read: Seq<ReadBilink>) -> Seq<Seq<char>>
    decreases read.len(),
{
    if read.len() == 0 {
        seq![]
    } else {
        let x = read.last();
        checked_of(scope, read.drop_last()) + if looked_at(scope, x.1@) && (x.2 matches Ok(fs) && verified_in(
            scope,
            fs@,
        )) {
            seq![x.1@]
        } else {
            Seq::<Seq<char>>::empty()
        }
    }
}

/// The files a run names as unreadable, with why: **skipped so the rest is still
/// verified, but counted and named**.
pub open spec fn unreadable_of(scope: Scope, read: Seq<ReadBilink>) -> Seq<(Seq<char>, Seq<char>)>
    decreases read.len(),
{
    if read.len() == 0 {
        seq![]
    } else {
        let x = read.last();
        unreadable_of(scope, read.drop_last()) + if looked_at(scope, x.1@) && (x.2 matches Err(e)) {
            seq![(x.0@, x.2->Err_0@)]
        } else {
            Seq::<(Seq<char>, Seq<char>)>::empty()
        }
    }
}

/// Which bilinks a run verifies and which it names as unreadable, from the files
/// as read.
pub fn plan_check(scope: &Scope, read: &Vec<ReadBilink>) -> (r: CheckPlan)
    ensures
        r.checked@.map_values(|x: String| x@) == checked_of(*scope, read@),
        r.unreadable@.map_values(|u: Unreadable| (u.path@, u.error@)) == unreadable_of(*scope, read@),
{
    let mut checked: Vec<String> = Vec::new();
    let mut unreadable: Vec<Unreadable> = Vec::new();
    let mut i: usize = 0;
    while i < read.len()
        invariant
            i <= read@.len(),
            checked@.map_values(|x: String| x@) == checked_of(*scope, read@.take(i as int)),
            unreadable@.map_values(|u: Unreadable| (u.path@, u.error@)) == unreadable_of(*scope, read@.take(i as int)),
        decreases read.len() - i,
    {
        let ghost c0 = checked@.map_values(|x: String| x@);
        let ghost u0 = unreadable@.map_values(|u: Unreadable| (u.path@, u.error@));
        assert(read@.take(i as int + 1).drop_last() =~= read@.take(i as int));
        assert(read@.take(i as int + 1).last() == read@[i as int]);
        let x = &read[i];
        let looked = match scope {
            Scope::Bilink(only) => same_text(x.1.as_str(), only.as_str()),
            _ => true,
        };
        if looked {
            match &x.2 {
                Ok(files) => {
                    let inside = match scope {
                        Scope::Under(dir) => scope_covers(files, dir.as_str()),
                        _ => true,
                    };
                    if inside {
                        checked.push(x.1.clone());
                        assert(checked@.map_values(|x: String| x@) =~= c0.push(read@[i as int].1@));
                    }
                },
                Err(e) => {
                    unreadable.push(Unreadable { path: x.0.clone(), error: e.clone() });
                    assert(unreadable@.map_values(|u: Unreadable| (u.path@, u.error@)) =~= u0.push(
                        (read@[i as int].0@, read@[i as int].2->Err_0@),
                    ));
                },
            }
        }
        i = i + 1;
    }
    assert(read@.take(i as int) =~= read@);
    CheckPlan { checked, unreadable }
}


// ─── a run over a layer ─────────────────────────────────────────────────────

/// The files of the endpoints with a level 1 to resolve, over the bilinks among the
/// first `n` read that a run verifies (`level1[i]` holds those of `read[i]`).
pub open spec fn level1_files(scope: Scope, read: Seq<ReadBilink>, level1: Seq<Vec<String>>, n: int) -> Seq<Seq<char>>
    decreases n,
{
    if n <= 0 {
        seq![]
    } else {
        let x = read[n - 1];
        level1_files(scope, read, level1, n - 1) + if looked_at(scope, x.1@) && (x.2 matches Ok(fs)
            && verified_in(scope, fs@)) {
            level1[n - 1]@.map_values(|f: String| f@)
        } else {
            Seq::<Seq<char>>::empty()
        }
    }
}

/// The languages that these files ask a provider for.
pub open spec fn demanded_of(files: Seq<Seq<char>>) -> Set<Seq<char>>
    decreases files.len(),
{
    if files.len() == 0 {
        Set::empty()
    } else {
        match crate::neighbours::demanded(files.last()) {
            Some(l) => demanded_of(files.drop_last()).insert(l),
            None => demanded_of(files.drop_last()),
        }
    }
}

/// What a run over a layer decides before verifying any endpoint.
pub struct LayerPlan {
    /// The bilinks to verify and the files it could not read.
    pub plan: CheckPlan,
    /// The level 1 of the bilinks it verifies.
    pub n1: Demand,
}

/// **A run first reads everything, and knows how much level 1 there is.** From the
/// files as read (and, for each, the files of its endpoints whose single approved
/// entry acquired a level 1 and whose capture could be read), it decides which
/// bilinks are verified and which files are named as unreadable, counts the level 1
/// of the verified ones, and fails with that demand, before verifying anything,
/// where there is level 1 and the provider said it is not there (`available`:
/// what it answered, `None` where it was not asked).
pub fn check_layer(scope: &Scope, read: &Vec<ReadBilink>, level1: &Vec<Vec<String>>, available: Option<bool>) -> (r:
    Result<LayerPlan, NoProvider>)
    requires
        level1@.len() == read@.len(),
        level1_files(*scope, read@, level1@, read@.len() as int).len() < usize::MAX,
    ensures
        ({
            let files = level1_files(*scope, read@, level1@, read@.len() as int);
            match r {
                Ok(p) => {
                    &&& !(available == Some(false) && files.len() > 0)
                    &&& p.plan.checked@.map_values(|x: String| x@) == checked_of(*scope, read@)
                    &&& p.plan.unreadable@.map_values(|u: Unreadable| (u.path@, u.error@)) == unreadable_of(
                        *scope,
                        read@,
                    )
                    &&& p.n1.endpoints == files.len()
                    &&& p.n1.well_formed()
                    &&& crate::neighbours::language_views(p.n1.languages@).to_set() == demanded_of(files)
                },
                Err(NoProvider(d)) => {
                    &&& available == Some(false)
                    &&& files.len() > 0
                    &&& d.endpoints == files.len()
                    &&& d.well_formed()
                    &&& crate::neighbours::language_views(d.languages@).to_set() == demanded_of(files)
                },
            }
        }),
{
    let plan = plan_check(scope, read);
    let mut n1 = Demand { endpoints: 0, languages: Vec::new() };
    proof {
        assert(crate::neighbours::language_views(n1.languages@) =~= Seq::<Seq<char>>::empty());
        assert(crate::neighbours::served(false, false, false) =~= Seq::<Seq<char>>::empty());
        assert(crate::neighbours::language_views(n1.languages@).to_set() =~= Set::<Seq<char>>::empty());
    }
    let ghost total = level1_files(*scope, read@, level1@, read@.len() as int);
    proof {
        lemma_level1_grows(*scope, read@, level1@, read@.len() as int);
    }
    let mut i: usize = 0;
    while i < read.len()
        invariant
            i <= read@.len(),
            level1@.len() == read@.len(),
            total == level1_files(*scope, read@, level1@, read@.len() as int),
            total.len() < usize::MAX,
            forall|a: int, b: int| 0 <= a <= b <= read@.len() ==> #[trigger] level1_files(*scope, read@, level1@, a).len()
                <= #[trigger] level1_files(*scope, read@, level1@, b).len(),
            n1.well_formed(),
            n1.endpoints == level1_files(*scope, read@, level1@, i as int).len(),
            crate::neighbours::language_views(n1.languages@).to_set() == demanded_of(
                level1_files(*scope, read@, level1@, i as int),
            ),
        decreases read.len() - i,
    {
        let x = &read[i];
        let looked = match scope {
            Scope::Bilink(only) => same_text(x.1.as_str(), only.as_str()),
            _ => true,
        };
        let verified = looked && match &x.2 {
            Ok(files) => match scope {
                Scope::Under(dir) => scope_covers(files, dir.as_str()),
                _ => true,
            },
            Err(_) => false,
        };
        let ghost before = level1_files(*scope, read@, level1@, i as int);
        assert(level1_files(*scope, read@, level1@, i as int + 1).len() <= total.len());
        if verified {
            let fs = &level1[i];
            let mut j: usize = 0;
            while j < fs.len()
                invariant
                    j <= fs@.len(),
                    fs@ == level1@[i as int]@,
                    before.len() + fs@.len() <= total.len(),
                    total.len() < usize::MAX,
                    n1.well_formed(),
                    n1.endpoints == before.len() + j,
                    crate::neighbours::language_views(n1.languages@).to_set() == demanded_of(
                        before + fs@.take(j as int).map_values(|f: String| f@),
                    ),
                decreases fs.len() - j,
            {
                n1.add(fs[j].as_str());
                proof {
                    let prev = before + fs@.take(j as int).map_values(|f: String| f@);
                    let next = before + fs@.take(j as int + 1).map_values(|f: String| f@);
                    assert(next.drop_last() =~= prev);
                    assert(next.last() == fs@[j as int]@);
                }
                j = j + 1;
            }
            proof {
                assert(fs@.take(j as int) =~= fs@);
                assert(level1_files(*scope, read@, level1@, i as int + 1) =~= before + fs@.map_values(
                    |f: String| f@,
                ));
            }
        } else {
            assert(level1_files(*scope, read@, level1@, i as int + 1) =~= before);
        }
        i = i + 1;
    }
    let refused = match available {
        Some(false) => !n1.is_empty(),
        _ => false,
    };
    if refused {
        Err(NoProvider(n1))
    } else {
        Ok(LayerPlan { plan, n1 })
    }
}

/// The level 1 counted over more files read is never less.
proof fn lemma_level1_grows(scope: Scope, read: Seq<ReadBilink>, level1: Seq<Vec<String>>, n: int)
    ensures
        forall|a: int, b: int| 0 <= a <= b <= n ==> #[trigger] level1_files(scope, read, level1, a).len()
            <= #[trigger] level1_files(scope, read, level1, b).len(),
    decreases n,
{
    if n > 0 {
        lemma_level1_grows(scope, read, level1, n - 1);
        assert forall|a: int, b: int| 0 <= a <= b <= n implies #[trigger] level1_files(scope, read, level1, a).len()
            <= #[trigger] level1_files(scope, read, level1, b).len() by {
            if b == n && a < n {
                assert(level1_files(scope, read, level1, a).len() <= level1_files(scope, read, level1, n - 1).len());
            }
        }
    }
}

/// The results' names never go down.
pub open spec fn by_uuid(v: Seq<CheckResult>) -> bool {
    forall|i: int, j: int| 0 <= i < j < v.len() ==> !lex_lt(#[trigger] v[j].uuid@, #[trigger] v[i].uuid@)
}

/// `x` put into results ordered by name, after those with the same name.
fn insert_by_uuid(v: &mut Vec<CheckResult>, x: CheckResult)
    requires
        by_uuid(old(v)@),
    ensures
        by_uuid(final(v)@),
        final(v)@.to_multiset() == old(v)@.to_multiset().insert(x),
{
    let ghost vs = v@;
    let xv = chars_of(x.uuid.as_str());
    let mut i: usize = 0;
    loop
        invariant_except_break
            i <= v.len(),
            xv@ == x.uuid@,
            vs == v@,
            forall|k: int| 0 <= k < i ==> !lex_lt(x.uuid@, #[trigger] vs[k].uuid@),
        ensures
            i <= v.len(),
            vs == v@,
            forall|k: int| 0 <= k < i ==> !lex_lt(x.uuid@, #[trigger] vs[k].uuid@),
            i < v.len() ==> lex_lt(x.uuid@, vs[i as int].uuid@),
        decreases v.len() - i,
    {
        if i >= v.len() {
            break;
        }
        let e = chars_of(v[i].uuid.as_str());
        if lex_lt_of(xv.as_slice(), e.as_slice()) {
            break;
        }
        i = i + 1;
    }
    let ghost xg = x;
    v.insert(i, x);
    proof {
        let w = v@;
        assert(w =~= vs.insert(i as int, xg));
        broadcast use vstd::seq_lib::group_to_multiset_ensures;
        assert forall|a: int, b: int| 0 <= a < b < w.len() implies !lex_lt(#[trigger] w[b].uuid@, #[trigger] w[a].uuid@) by {
            if b < i {
                assert(w[a] == vs[a] && w[b] == vs[b]);
            } else if b == i {
                assert(w[a] == vs[a]);
                lemma_lex_total(xg.uuid@, vs[a].uuid@);
            } else if a == i {
                assert(w[b] == vs[b - 1]);
                lemma_lex_total(xg.uuid@, vs[i as int].uuid@);
                if lex_lt(vs[b - 1].uuid@, xg.uuid@) {
                    if b - 1 > i {
                        lemma_lex_transitive(vs[b - 1].uuid@, xg.uuid@, vs[i as int].uuid@);
                        lemma_lex_total(vs[b - 1].uuid@, vs[i as int].uuid@);
                    } else {
                        lemma_lex_total(vs[i as int].uuid@, xg.uuid@);
                    }
                }
            } else if a < i {
                assert(w[a] == vs[a] && w[b] == vs[b - 1]);
                if lex_lt(vs[b - 1].uuid@, vs[a].uuid@) {
                    lemma_lex_total(xg.uuid@, vs[a].uuid@);
                    lemma_lex_transitive(vs[b - 1].uuid@, vs[a].uuid@, xg.uuid@);
                    if b - 1 > i {
                        lemma_lex_transitive(vs[b - 1].uuid@, xg.uuid@, vs[i as int].uuid@);
                        lemma_lex_total(vs[b - 1].uuid@, vs[i as int].uuid@);
                    } else {
                        lemma_lex_total(vs[i as int].uuid@, xg.uuid@);
                    }
                }
            } else {
                assert(w[a] == vs[a - 1] && w[b] == vs[b - 1]);
            }
        }
    }
}

/// What a run over a layer says, once each bilink it verifies has its result:
/// **the results by name**, the files it could not read, and its level 1.
pub fn checked_run(p: LayerPlan, results: Vec<CheckResult>) -> (r: Checked)
    ensures
        by_uuid(r.results@),
        r.results@.to_multiset() == results@.to_multiset(),
        r.unreadable@ == p.plan.unreadable@,
        r.n1 == p.n1,
{
    let mut out: Vec<CheckResult> = Vec::new();
    let mut rest = results;
    let ghost all = rest@;
    proof {
        broadcast use vstd::seq_lib::group_to_multiset_ensures;
        assert(out@.to_multiset() =~= vstd::multiset::Multiset::empty());
    }
    while rest.len() > 0
        invariant
            by_uuid(out@),
            all.to_multiset() == out@.to_multiset().add(rest@.to_multiset()),
        decreases rest.len(),
    {
        let ghost before = rest@;
        let x = rest.pop().unwrap();
        proof {
            assert(before =~= rest@.push(x));
            broadcast use vstd::seq_lib::group_to_multiset_ensures;
            assert(before.to_multiset() =~= rest@.to_multiset().insert(x));
        }
        insert_by_uuid(&mut out, x);
    }
    proof {
        broadcast use vstd::seq_lib::group_to_multiset_ensures;
        assert(rest@.to_multiset() =~= vstd::multiset::Multiset::empty());
        assert(out@.to_multiset().add(vstd::multiset::Multiset::empty()) =~= out@.to_multiset());
    }
    Checked { results: out, unreadable: p.plan.unreadable, n1: p.n1 }
}

} // verus!
