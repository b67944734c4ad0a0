//! `bilinker accept`: the only command that writes a decision.
//!
//! Accepting is saying *"I reviewed this and I approve it"*, and there are **two
//! things to approve**: where the fragment is and what it says. They can be
//! approved together or apart.
use vstd::prelude::*;

use crate::link::{EndpointView, LinkEndpoint};
use crate::neighbours::Reach;
use crate::text::{
    append_str, chars_of, insert_unique, lex_lt, same_text, split_once, split_once_of,
    starts_with, starts_with_of, string_of, strictly_sorted, trim, trim_of,
};

verus! {

/// Which dimensions this acceptance approves.
#[derive(Debug, Clone, Copy, PartialEq, Eq, Structural)]
pub struct What {
    pub place: bool,
    pub content: bool,
    /// Accept declining the neighbourhood: writes `n: declined` instead of the
    /// levels, asking nobody. From level 1 up, not only level 1.
    pub decline_n1: bool,
    /// Only beside `decline_n1`, and only where it **lowers** an acquired level 1.
    pub force: bool,
}

impl Default for What {
    /// By default both are approved.
    fn default() -> (r: What)
        ensures
            r == (What { place: true, content: true, decline_n1: false, force: false }),
    {
        What { place: true, content: true, decline_n1: false, force: false }
    }
}

impl What {
    /// Only where the fragment is.
    pub fn place_only() -> (r: What)
        ensures
            r == (What { place: true, content: false, decline_n1: false, force: false }),
    {
        What { place: true, content: false, decline_n1: false, force: false }
    }

    /// Only what the fragment says.
    pub fn content_only() -> (r: What)
        ensures
            r == (What { place: false, content: true, decline_n1: false, force: false }),
    {
        What { place: false, content: true, decline_n1: false, force: false }
    }
}

/// The level-1 neighbourhood of a signature: the captures of the types it names,
/// and the hashes of what they say.
pub struct Neighbourhood {
    /// The captures of the neighbours, as written in the file.
    pub link: String,
    pub hash: String,
    pub hash_ast: Option<String>,
}

/// What was decided about a fragment's neighbourhood.
pub enum N {
    /// `n: declined`: somebody declined it, and it stays written.
    Declined,
    /// An acquired level 1.
    Level1(Neighbourhood),
}

/// What was approved of one dimension: its query, and the hashes of its text and of
/// its tree.
#[derive(Debug, Clone, PartialEq, Eq)]
pub struct AcceptedDimension {
    pub query: String,
    pub hash: String,
    pub hash_ast: Option<String>,
}

/// One entry of `accepted`: a set of values, and who approved **these** values.
/// An entry's identity is its whole tuple.
pub struct Accepted {
    /// Who approved; a set, kept in order.
    pub agree: Vec<String>,
    /// Where the fragment was approved: the endpoint's link at the time.
    pub link: Option<LinkEndpoint>,
    /// The hash of the approved text.
    pub hash: String,
    /// The hash of its tree, where the grammar tells content apart.
    pub hash_ast: Option<String>,
    pub n: Option<N>,
    /// The approved dimensions, by name.
    pub dimensions: Vec<(String, AcceptedDimension)>,
}

/// An approved link, as plain values.
pub open spec fn link_view(l: Option<LinkEndpoint>) -> Option<EndpointView> {
    match l {
        Some(e) => Some(e@),
        None => None,
    }
}

/// The approved dimensions, as plain values.
pub open spec fn dims_view(d: Seq<(String, AcceptedDimension)>) -> Seq<(Seq<char>, Seq<char>, Seq<char>, Option<Seq<char>>)> {
    d.map_values(|x: (String, AcceptedDimension)| (x.0@, x.1.query@, x.1.hash@, crate::refmsg::opt_view(x.1.hash_ast)))
}

/// What `accept` did.
pub struct AcceptResult {
    pub uuid: String,
    pub n: u8,
    pub hash: String,
    pub commit: Option<String>,
    /// Who approved these values, after this act, in order.
    pub agree: Vec<String>,
    /// `false` when the file stayed the same: the same values, and whoever accepts
    /// was already in the set. Nothing to add, and no commit to write.
    pub wrote: bool,
}

// ─── the neighbourhood ───────────────────────────────────────────────────────

/// What decision there was on an endpoint's neighbourhood: three values, not a
/// boolean. A written decline is not the absence of a decision.
#[derive(Debug, Clone, Copy, PartialEq, Eq, Structural)]
pub enum Had {
    /// No `n`: nobody decided yet.
    Nothing,
    /// `n: declined`.
    Declined,
    /// An acquired neighbourhood: coverage that can be lost.
    Acquired,
}

/// What is written in `n` after accepting.
#[derive(Debug, Clone, Copy, PartialEq, Eq, Structural)]
pub enum NOutcome {
    /// What was there before stays, absent included.
    Keep,
    /// `n: declined`.
    Decline,
    /// The neighbourhood the provider answered, whole.
    Asked,
}

/// Why `accept` refuses to write the neighbourhood.
#[derive(Debug, Clone, PartialEq, Eq)]
pub enum N1Refusal {
    /// There is a neighbourhood, and it cannot be reached from the fragment.
    Unreachable { file: String, what: String },
    /// `--decline-n1` would lower an accepted neighbourhood without `--force`.
    WouldLower,
    /// Not asked, and nothing to keep: the types would go unwatched.
    Unwatched { file: String, lang: String },
    /// Not asked, and the signature under an acquired neighbourhood changed.
    SignatureMoved { lang: String },
}

/// The decision already written in a previous entry.
pub open spec fn had_of(previous: Option<&Accepted>) -> Had {
    match previous {
        None => Had::Nothing,
        Some(a) => match a.n {
            None => Had::Nothing,
            Some(N::Level1(_)) => Had::Acquired,
            Some(N::Declined) => Had::Declined,
        },
    }
}

/// The table of the three previous values, and the two ways of declining.
///
/// The rule behind it: **not asking can neither lower a link's coverage nor claim
/// one that nobody looked at.**
pub open spec fn n1_decision(
    reach: Reach,
    had: Had,
    asked: bool,
    what: What,
    signature_changed: bool,
    file: Seq<char>,
) -> Result<NOutcome, N1Refusal> {
    if !what.content {
        Ok(NOutcome::Keep)
    } else {
        match reach {
            Reach::Absent => Ok(NOutcome::Keep),
            Reach::Unreachable { what: w } => if what.decline_n1 {
                Ok(NOutcome::Decline)
            } else {
                Err(N1Refusal::Unreachable { file: arbitrary(), what: w })
            },
            Reach::At(_) => if what.decline_n1 {
                if had == Had::Acquired && !what.force {
                    Err(N1Refusal::WouldLower)
                } else {
                    Ok(NOutcome::Decline)
                }
            } else if asked {
                Ok(NOutcome::Asked)
            } else {
                match had {
                    Had::Nothing => Err(N1Refusal::Unwatched { file: arbitrary(), lang: arbitrary() }),
                    Had::Declined => Ok(NOutcome::Keep),
                    Had::Acquired => if signature_changed {
                        Err(N1Refusal::SignatureMoved { lang: arbitrary() })
                    } else {
                        Ok(NOutcome::Keep)
                    },
                }
            },
        }
    }
}

/// Whether the outcome, or the kind of refusal, is the one the table gives.
pub open spec fn same_kind(r: Result<NOutcome, N1Refusal>, t: Result<NOutcome, N1Refusal>) -> bool {
    match (r, t) {
        (Ok(NOutcome::Keep), Ok(NOutcome::Keep)) => true,
        (Ok(NOutcome::Decline), Ok(NOutcome::Decline)) => true,
        (Ok(NOutcome::Asked), Ok(NOutcome::Asked)) => true,
        (Err(N1Refusal::Unreachable { .. }), Err(N1Refusal::Unreachable { .. })) => true,
        (Err(N1Refusal::WouldLower), Err(N1Refusal::WouldLower)) => true,
        (Err(N1Refusal::Unwatched { .. }), Err(N1Refusal::Unwatched { .. })) => true,
        (Err(N1Refusal::SignatureMoved { .. }), Err(N1Refusal::SignatureMoved { .. })) => true,
        _ => false,
    }
}

fn had(previous: Option<&Accepted>) -> (h: Had)
    ensures
        h == had_of(previous),
{
    match previous {
        None => Had::Nothing,
        Some(a) => match &a.n {
            None => Had::Nothing,
            Some(N::Level1(_)) => Had::Acquired,
            Some(N::Declined) => Had::Declined,
        },
    }
}

/// What to write in `n`, from what can be known of the neighbourhood (`reach`),
/// what was approved before (`previous`), whether the provider was asked
/// (`asked`), and the hash of the content being approved.
///
/// A refusal names the file, what cannot be reached, and the language whose
/// daemon would answer.
pub fn resolve_n1(
    file: &str,
    reach: &Reach,
    previous: Option<&Accepted>,
    asked: bool,
    what: What,
    content_hash: &str,
) -> (r: Result<NOutcome, N1Refusal>)
    ensures
        same_kind(
            r,
            n1_decision(
                *reach,
                had_of(previous),
                asked,
                what,
                match previous {
                    None => true,
                    Some(p) => p.hash@ != content_hash@,
                },
                file@,
            ),
        ),
        r matches Err(N1Refusal::Unreachable { file: f, what: w }) ==> f@ == file@ && (reach matches Reach::Unreachable { what: rw } && w@ == rw@),
        r matches Err(N1Refusal::Unwatched { file: f, lang: l }) ==> f@ == file@ && l@ == crate::grammar::language_of(file@),
        r matches Err(N1Refusal::SignatureMoved { lang: l }) ==> l@ == crate::grammar::language_of(file@),
{
    if !what.content {
        return Ok(NOutcome::Keep);
    }
    match reach {
        Reach::Absent => {
            return Ok(NOutcome::Keep);
        },
        Reach::Unreachable { what: w } => {
            if what.decline_n1 {
                return Ok(NOutcome::Decline);
            }
            return Err(N1Refusal::Unreachable { file: crate::text::owned(file), what: w.clone() });
        },
        Reach::At(_) => {},
    }
    let h = had(previous);
    if what.decline_n1 {
        return if h == Had::Acquired && !what.force {
            Err(N1Refusal::WouldLower)
        } else {
            Ok(NOutcome::Decline)
        };
    }
    if asked {
        return Ok(NOutcome::Asked);
    }
    let signature_changed = match previous {
        None => true,
        Some(p) => !same_text(p.hash.as_str(), content_hash),
    };
    let lang = crate::text::owned(crate::grammar::language_for_file(file));
    match h {
        Had::Nothing => Err(N1Refusal::Unwatched { file: crate::text::owned(file), lang }),
        Had::Declined => Ok(NOutcome::Keep),
        Had::Acquired => if signature_changed {
            Err(N1Refusal::SignatureMoved { lang })
        } else {
            Ok(NOutcome::Keep)
        },
    }
}

/// What a refusal says.
pub open spec fn refusal_text(e: N1Refusal) -> Seq<char> {
    match e {
        N1Refusal::Unreachable { file, what } => "el fragmento de "@ + file@ + " "@ + what@
            + ", y su vecindario no se puede alcanzar: el nivel 1 sale de una firma, y ahí no hay una que sea la suya.\n       Capturar el contrato con --as, o renunciar al vecindario con --decline-n1."@,
        N1Refusal::WouldLower => "--decline-n1 acá baja un vecindario que ya estaba aceptado.\n       Conservarlo: aceptar sin --decline-n1. Bajarlo a propósito: --decline-n1 --force."@,
        N1Refusal::Unwatched { file, lang } => "la firma de "@ + file@
            + " tiene nivel 1, y --no-ask-n1 no le pregunta a nadie.\n       Aceptar así deja los tipos que la firma menciona sin vigilar, y el baseline no lo diría.\n       Levantar el daemon con `lspd start --wait --lang "@
            + lang@ + "`, o renunciar al nivel 1 con --decline-n1."@,
        N1Refusal::SignatureMoved { lang } => "ya hay un vecindario aceptado, y la firma cambió.\n       Conservarlo mentiría: el conjunto de vecinos pudo cambiar con la firma, y --no-ask-n1 no le pregunta a nadie.\n       Levantar el daemon con `lspd start --wait --lang "@
            + lang@ + "`, o bajarlo a propósito con --decline-n1 --force."@,
    }
}

impl N1Refusal {
    /// What the refusal says, with the two ways out.
    pub fn message(&self) -> (r: String)
        ensures
            r@ == refusal_text(*self),
    {
        let mut out: Vec<char> = Vec::new();
        match self {
            N1Refusal::Unreachable { file, what } => {
                append_str(&mut out, "el fragmento de ");
                append_str(&mut out, file.as_str());
                append_str(&mut out, " ");
                append_str(&mut out, what.as_str());
                append_str(&mut out, ", y su vecindario no se puede alcanzar: el nivel 1 sale de una firma, y ahí no hay una que sea la suya.\n       Capturar el contrato con --as, o renunciar al vecindario con --decline-n1.");
            },
            N1Refusal::WouldLower => {
                append_str(&mut out, "--decline-n1 acá baja un vecindario que ya estaba aceptado.\n       Conservarlo: aceptar sin --decline-n1. Bajarlo a propósito: --decline-n1 --force.");
            },
            N1Refusal::Unwatched { file, lang } => {
                append_str(&mut out, "la firma de ");
                append_str(&mut out, file.as_str());
                append_str(&mut out, " tiene nivel 1, y --no-ask-n1 no le pregunta a nadie.\n       Aceptar así deja los tipos que la firma menciona sin vigilar, y el baseline no lo diría.\n       Levantar el daemon con `lspd start --wait --lang ");
                append_str(&mut out, lang.as_str());
                append_str(&mut out, "`, o renunciar al nivel 1 con --decline-n1.");
            },
            N1Refusal::SignatureMoved { lang } => {
                append_str(&mut out, "ya hay un vecindario aceptado, y la firma cambió.\n       Conservarlo mentiría: el conjunto de vecinos pudo cambiar con la firma, y --no-ask-n1 no le pregunta a nadie.\n       Levantar el daemon con `lspd start --wait --lang ");
                append_str(&mut out, lang.as_str());
                append_str(&mut out, "`, o bajarlo a propósito con --decline-n1 --force.");
            },
        }
        string_of(out.as_slice())
    }
}

/// **Not asking can neither lower a link's coverage nor claim one that nobody
/// looked at**: without asking and without declining, what `accept` writes in `n`
/// is what was there, or nothing at all (it refuses).
pub proof fn lemma_not_asking_keeps(reach: Reach, had: Had, what: What, signature_changed: bool, file: Seq<char>)
    requires
        !what.decline_n1,
    ensures
        n1_decision(reach, had, false, what, signature_changed, file) matches Ok(o) ==> o is Keep,
        what.content && reach is At && had == Had::Nothing ==> n1_decision(reach, had, false, what, signature_changed, file) is Err,
{
}

/// **Lowering an acquired neighbourhood is asked for whole**: declining it takes
/// `--force`, whatever the signature did.
pub proof fn lemma_lowering_needs_force(v: Vec<usize>, what: What, asked: bool, signature_changed: bool, file: Seq<char>)
    requires
        what.content,
        what.decline_n1,
    ensures
        n1_decision(Reach::At(v), Had::Acquired, asked, what, signature_changed, file) is Err <==> !what.force,
{
}


// ─── who approves ────────────────────────────────────────────────────────────

/// The texts of a list of strings.
pub open spec fn names(v: Seq<String>) -> Seq<Seq<char>> {
    v.map_values(|s: String| s@)
}

/// The names in an entry's `agree`.
pub open spec fn agree_view(a: Accepted) -> Seq<Seq<char>> {
    names(a.agree@)
}

/// Two neighbourhood decisions with the same values.
pub open spec fn n_eq(a: Option<N>, b: Option<N>) -> bool {
    match (a, b) {
        (None, None) => true,
        (Some(N::Declined), Some(N::Declined)) => true,
        (Some(N::Level1(x)), Some(N::Level1(y))) => x.link@ == y.link@ && x.hash@ == y.hash@
            && match (x.hash_ast, y.hash_ast) {
                (None, None) => true,
                (Some(p), Some(q)) => p@ == q@,
                _ => false,
            },
        _ => false,
    }
}

/// Two entries with the same values: the whole tuple, not who approved it.
pub open spec fn same_values_of(a: Accepted, b: Accepted) -> bool {
    &&& link_view(a.link) == link_view(b.link)
    &&& a.hash@ == b.hash@
    &&& crate::refmsg::opt_view(a.hash_ast) == crate::refmsg::opt_view(b.hash_ast)
    &&& n_eq(a.n, b.n)
    &&& dims_view(a.dimensions@) == dims_view(b.dimensions@)
}

/// The first entry with the values of `acc`.
pub open spec fn first_match(prev: Seq<Accepted>, acc: Accepted) -> Option<int>
    decreases prev.len(),
{
    if prev.len() == 0 {
        None
    } else {
        match first_match(prev.drop_last(), acc) {
            Some(i) => Some(i),
            None => if same_values_of(prev.last(), acc) {
                Some(prev.len() - 1)
            } else {
                None
            },
        }
    }
}

/// Every `agree` of the list is a set.
pub open spec fn agree_sets(v: Seq<Accepted>) -> bool {
    forall|k: int| 0 <= k < v.len() ==> strictly_sorted(#[trigger] agree_view(v[k]))
}

/// `out` is `prev` after `signer` approves the values of `acc`; `at` is the entry
/// approved, and `wrote` whether the file changes.
///
/// **Coinciding with an entry**, the signer joins its `agree` and the other entries
/// stay: joining one side does not settle a disagreement. **Coinciding with none**,
/// a new entry opens with the signer alone, and the entries that approved other
/// values go: who approved the old values did not approve these.
pub open spec fn signs(prev: Seq<Accepted>, acc: Accepted, signer: Seq<char>, out: Seq<Accepted>, at: Option<usize>, wrote: bool) -> bool {
    match first_match(prev, acc) {
        Some(i) => {
            &&& at == Some(i as usize)
            &&& out.len() == prev.len()
            &&& forall|j: int| 0 <= j < prev.len() && j != i ==> #[trigger] out[j] == prev[j]
            &&& out[i].link == prev[i].link
            &&& out[i].hash == prev[i].hash
            &&& out[i].hash_ast == prev[i].hash_ast
            &&& out[i].n == prev[i].n
            &&& out[i].dimensions == prev[i].dimensions
            &&& agree_view(out[i]).to_set() == agree_view(prev[i]).to_set().insert(signer)
            &&& wrote == !agree_view(prev[i]).contains(signer)
        },
        None => {
            &&& at is None
            &&& out.len() == 1
            &&& out[0].link == acc.link
            &&& out[0].hash == acc.hash
            &&& out[0].hash_ast == acc.hash_ast
            &&& out[0].n == acc.n
            &&& out[0].dimensions == acc.dimensions
            &&& agree_view(out[0]) == seq![signer]
            &&& wrote
        },
    }
}

fn contains_name(v: &Vec<String>, s: &str) -> (b: bool)
    ensures
        b == names(v@).contains(s@),
{
    let mut i: usize = 0;
    while i < v.len()
        invariant
            i <= v.len(),
            forall|k: int| 0 <= k < i ==> v@[k]@ != s@,
        decreases v.len() - i,
    {
        if same_text(v[i].as_str(), s) {
            assert(names(v@)[i as int] == s@);
            return true;
        }
        i = i + 1;
    }
    proof {
        if names(v@).contains(s@) {
            let k = choose|k: int| 0 <= k < v.len() && #[trigger] names(v@)[k] == s@;
            assert(v@[k]@ == s@);
        }
    }
    false
}

fn same_n(a: &Option<N>, b: &Option<N>) -> (r: bool)
    ensures
        r == n_eq(*a, *b),
{
    match (a, b) {
        (None, None) => true,
        (Some(N::Declined), Some(N::Declined)) => true,
        (Some(N::Level1(x)), Some(N::Level1(y))) => {
            same_text(x.link.as_str(), y.link.as_str()) && same_text(x.hash.as_str(), y.hash.as_str())
                && match (&x.hash_ast, &y.hash_ast) {
                (None, None) => true,
                (Some(p), Some(q)) => same_text(p.as_str(), q.as_str()),
                _ => false,
            }
        },
        _ => false,
    }
}

fn same_opt_text(a: &Option<String>, b: &Option<String>) -> (r: bool)
    ensures
        r == (crate::refmsg::opt_view(*a) == crate::refmsg::opt_view(*b)),
{
    match (a, b) {
        (None, None) => true,
        (Some(x), Some(y)) => same_text(x.as_str(), y.as_str()),
        _ => false,
    }
}

fn same_range(a: &Option<crate::link::ByteRange>, b: &Option<crate::link::ByteRange>) -> (r: bool)
    ensures
        r == (*a == *b),
{
    match (a, b) {
        (None, None) => true,
        (Some(x), Some(y)) => x.start == y.start && x.end == y.end,
        _ => false,
    }
}

/// Whether two endpoints are the same, value by value.
pub fn same_endpoint(a: &LinkEndpoint, b: &LinkEndpoint) -> (r: bool)
    ensures
        r == (a@ == b@),
{
    match (a, b) {
        (LinkEndpoint::Fragment(x), LinkEndpoint::Fragment(y)) => same_text(x.file.as_str(), y.file.as_str())
            && same_opt_text(&x.query, &y.query) && same_range(&x.range, &y.range),
        (LinkEndpoint::Layer(x), LinkEndpoint::Layer(y)) => same_text(x.as_str(), y.as_str()),
        (LinkEndpoint::Task(x), LinkEndpoint::Task(y)) => same_text(x.as_str(), y.as_str()),
        _ => false,
    }
}

pub fn same_link(a: &Option<LinkEndpoint>, b: &Option<LinkEndpoint>) -> (r: bool)
    ensures
        r == (link_view(*a) == link_view(*b)),
{
    match (a, b) {
        (None, None) => true,
        (Some(x), Some(y)) => same_endpoint(x, y),
        _ => false,
    }
}

fn same_dims(a: &Vec<(String, AcceptedDimension)>, b: &Vec<(String, AcceptedDimension)>) -> (r: bool)
    ensures
        r == (dims_view(a@) == dims_view(b@)),
{
    if a.len() != b.len() {
        assert(dims_view(a@).len() != dims_view(b@).len());
        return false;
    }
    let mut i: usize = 0;
    while i < a.len()
        invariant
            i <= a.len(),
            a.len() == b.len(),
            forall|k: int| 0 <= k < i ==> #[trigger] dims_view(a@)[k] == dims_view(b@)[k],
        decreases a.len() - i,
    {
        let x = &a[i];
        let y = &b[i];
        let eq = same_text(x.0.as_str(), y.0.as_str()) && same_text(x.1.query.as_str(), y.1.query.as_str())
            && same_text(x.1.hash.as_str(), y.1.hash.as_str()) && same_opt_text(&x.1.hash_ast, &y.1.hash_ast);
        if !eq {
            assert(dims_view(a@)[i as int] != dims_view(b@)[i as int]);
            return false;
        }
        i = i + 1;
    }
    assert(dims_view(a@) =~= dims_view(b@));
    true
}

impl Accepted {
    /// The same values, whoever approved them.
    pub fn same_values(&self, other: &Accepted) -> (r: bool)
        ensures
            r == same_values_of(*self, *other),
    {
        same_link(&self.link, &other.link) && same_text(self.hash.as_str(), other.hash.as_str())
            && same_opt_text(&self.hash_ast, &other.hash_ast) && same_n(&self.n, &other.n) && same_dims(
            &self.dimensions,
            &other.dimensions,
        )
    }
}

fn position(prev: &Vec<Accepted>, acc: &Accepted) -> (r: Option<usize>)
    ensures
        r matches Some(k) ==> first_match(prev@, *acc) == Some(k as int),
        r is None ==> first_match(prev@, *acc) is None,
{
    let mut i: usize = 0;
    while i < prev.len()
        invariant
            i <= prev.len(),
            first_match(prev@.take(i as int), *acc) is None,
        decreases prev.len() - i,
    {
        assert(prev@.take(i as int + 1).drop_last() =~= prev@.take(i as int));
        if prev[i].same_values(acc) {
            proof {
                lemma_first_match_prefix(prev@, *acc, i as int + 1);
            }
            return Some(i);
        }
        i = i + 1;
    }
    assert(prev@.take(i as int) =~= prev@);
    None
}

/// The first match is an entry of the list, with the same values.
proof fn lemma_first_match_bounds(v: Seq<Accepted>, acc: Accepted)
    ensures
        first_match(v, acc) matches Some(i) ==> 0 <= i < v.len() && same_values_of(v[i], acc),
    decreases v.len(),
{
    if v.len() > 0 {
        lemma_first_match_bounds(v.drop_last(), acc);
    }
}

/// A match found in a prefix is the first match of the whole list.
proof fn lemma_first_match_prefix(v: Seq<Accepted>, acc: Accepted, k: int)
    requires
        0 <= k <= v.len(),
        first_match(v.take(k), acc) is Some,
    ensures
        first_match(v, acc) == first_match(v.take(k), acc),
    decreases v.len() - k,
{
    if k < v.len() {
        assert(v.take(k + 1).drop_last() =~= v.take(k));
        lemma_first_match_prefix(v, acc, k + 1);
    } else {
        assert(v.take(k) =~= v);
    }
}

/// `signer` approves the values of `accepted` over the entries `prev`: see
/// [`signs`]. Returns the new entries, the entry that matched, and whether the file
/// changes.
pub fn sign(prev: Vec<Accepted>, accepted: Accepted, signer: String) -> (r: (Vec<Accepted>, Option<usize>, bool))
    requires
        agree_sets(prev@),
    ensures
        agree_sets(r.0@),
        signs(prev@, accepted, signer@, r.0@, r.1, r.2),
{
    let ghost p = prev@;
    proof {
        lemma_first_match_bounds(p, accepted);
    }
    match position(&prev, &accepted) {
        Some(i) => {
            let mut v = prev;
            let mut e = v.remove(i);
            assert(e == p[i as int]);
            assert(strictly_sorted(agree_view(p[i as int])));
            let had_it = contains_name(&e.agree, signer.as_str());
            let ghost s0 = signer@;
            let ghost e0 = e;
            insert_unique(&mut e.agree, signer);
            assert(agree_view(e).to_set() == agree_view(e0).to_set().insert(s0));
            v.insert(i, e);
            proof {
                assert(v@ =~= p.update(i as int, v@[i as int]));
                assert forall|k: int| 0 <= k < v@.len() implies strictly_sorted(#[trigger] agree_view(v@[k])) by {
                    if k != i {
                        assert(v@[k] == p[k]);
                    }
                }
                assert(v@[i as int] == e);
                assert(first_match(p, accepted) == Some(i as int));
                assert(had_it == agree_view(p[i as int]).contains(s0));
            }
            (v, Some(i), !had_it)
        },
        None => {
            let mut agree: Vec<String> = Vec::new();
            agree.push(signer);
            let e = Accepted {
                agree,
                link: accepted.link,
                hash: accepted.hash,
                hash_ast: accepted.hash_ast,
                n: accepted.n,
                dimensions: accepted.dimensions,
            };
            let mut v: Vec<Accepted> = Vec::new();
            v.push(e);
            assert(agree_view(v@[0]) =~= seq![signer@]);
            assert(strictly_sorted(agree_view(v@[0])));
            (v, None, true)
        },
    }
}


/// Which entry matches depends on the entries' values alone, not on who approved.
proof fn lemma_first_match_by_values(a: Seq<Accepted>, b: Seq<Accepted>, acc: Accepted)
    requires
        a.len() == b.len(),
        forall|k: int| 0 <= k < a.len() ==> same_values_of(#[trigger] a[k], acc) == same_values_of(b[k], acc),
    ensures
        first_match(a, acc) == first_match(b, acc),
    decreases a.len(),
{
    if a.len() > 0 {
        assert forall|k: int| 0 <= k < a.drop_last().len() implies same_values_of(#[trigger] a.drop_last()[k], acc) == same_values_of(b.drop_last()[k], acc) by {
            assert(a.drop_last()[k] == a[k] && b.drop_last()[k] == b[k]);
        }
        lemma_first_match_by_values(a.drop_last(), b.drop_last(), acc);
        assert(same_values_of(a[a.len() - 1], acc) == same_values_of(b[b.len() - 1], acc));
    }
}

/// **Approving the same values twice writes once.** The second time whoever signs
/// is already in the set of the entry that matches: nothing is added, and there is
/// no commit to write.
pub proof fn lemma_signing_again_writes_nothing(
    prev: Seq<Accepted>,
    acc: Accepted,
    signer: Seq<char>,
    mid: Seq<Accepted>,
    at1: Option<usize>,
    w1: bool,
    out: Seq<Accepted>,
    at2: Option<usize>,
    w2: bool,
)
    requires
        prev.len() <= usize::MAX,
        signs(prev, acc, signer, mid, at1, w1),
        signs(mid, acc, signer, out, at2, w2),
    ensures
        !w2,
        match at2 {
            Some(i) => out.len() == mid.len()
                && (forall|j: int| 0 <= j < mid.len() && j != i ==> #[trigger] out[j] == mid[j])
                && agree_view(out[i as int]).to_set() == agree_view(mid[i as int]).to_set(),
            None => false,
        },
{
    lemma_first_match_bounds(prev, acc);
    lemma_first_match_bounds(mid, acc);
    match first_match(prev, acc) {
        Some(i) => {
            assert forall|k: int| 0 <= k < prev.len() implies same_values_of(#[trigger] prev[k], acc) == same_values_of(mid[k], acc) by {
                if k != i {
                    assert(mid[k] == prev[k]);
                }
            }
            lemma_first_match_by_values(prev, mid, acc);
            assert(agree_view(mid[i]).to_set().contains(signer));
            assert(agree_view(mid[i]).contains(signer));
            assert(agree_view(mid[i]).to_set().insert(signer) =~= agree_view(mid[i]).to_set());
            assert(first_match(mid, acc) == Some(i));
            assert(at2 == Some(i as usize));
            assert(out.len() == mid.len());
            assert(agree_view(out[i]).to_set() == agree_view(mid[i]).to_set());
            assert forall|j: int| 0 <= j < mid.len() && j != (i as usize) implies #[trigger] out[j] == mid[j] by {
                assert(j != i);
            }
        },
        None => {
            assert(mid.drop_last().len() == 0);
            assert(first_match(mid.drop_last(), acc) is None);
            assert(same_values_of(mid[0], acc));
            assert(first_match(mid, acc) == Some(0int));
            assert(agree_view(mid[0]).contains(signer)) by {
                assert(agree_view(mid[0])[0] == signer);
            }
            assert(agree_view(mid[0]).to_set().insert(signer) =~= agree_view(mid[0]).to_set());
            assert(at2 == Some(0usize));
            assert(out.len() == mid.len());
            assert(agree_view(out[0]).to_set() == agree_view(mid[0]).to_set());
            assert forall|j: int| 0 <= j < mid.len() && j != (0usize) implies #[trigger] out[j] == mid[j] by {
                assert(j != 0);
            }
        },
    }
}


// ─── finding the bilink, and who signs ───────────────────────────────────────

/// The bilinks whose uuid starts with `prefix`, in order.
pub open spec fn prefixed(stems: Seq<String>, prefix: Seq<char>) -> Seq<String> {
    stems.filter(|s: String| starts_with(s@, prefix))
}

/// Why no single bilink answers to a prefix.
#[derive(Debug, Clone, PartialEq, Eq)]
pub enum FindError {
    NoMatch { prefix: String },
    Ambiguous { prefix: String, count: usize },
}

impl FindError {
    /// What the error says.
    pub fn message(&self) -> (r: String)
        ensures
            r@ == match *self {
                FindError::NoMatch { prefix } => "no hay bilink que empiece con '"@ + prefix@ + "'"@,
                FindError::Ambiguous { prefix, count } => "'"@ + prefix@ + "' es ambiguo: "@
                    + crate::refmsg::decimal(count as nat) + " bilinks coinciden"@,
            },
    {
        let mut out: Vec<char> = Vec::new();
        match self {
            FindError::NoMatch { prefix } => {
                append_str(&mut out, "no hay bilink que empiece con '");
                append_str(&mut out, prefix.as_str());
                append_str(&mut out, "'");
            },
            FindError::Ambiguous { prefix, count } => {
                append_str(&mut out, "'");
                append_str(&mut out, prefix.as_str());
                append_str(&mut out, "' es ambiguo: ");
                let d = crate::refmsg::decimal_of(*count as u64);
                crate::text::append(&mut out, d.as_slice());
                append_str(&mut out, " bilinks coinciden");
            },
        }
        string_of(out.as_slice())
    }
}

/// The uuid, among the layer's bilinks (`stems`), that starts with `prefix`:
/// exactly one has to.
pub fn find_bilink_path(stems: &Vec<String>, prefix: &str) -> (r: Result<String, FindError>)
    ensures
        match r {
            Ok(s) => prefixed(stems@, prefix@).len() == 1 && s@ == prefixed(stems@, prefix@)[0]@,
            Err(FindError::NoMatch { prefix: p }) => prefixed(stems@, prefix@).len() == 0 && p@ == prefix@,
            Err(FindError::Ambiguous { prefix: p, count }) => count == prefixed(stems@, prefix@).len() && count >= 2
                && p@ == prefix@,
        },
{
    let pv = chars_of(prefix);
    let ghost keep = |s: String| starts_with(s@, prefix@);
    let mut count: usize = 0;
    let mut first: Option<usize> = None;
    let mut i: usize = 0;
    assert(stems@.take(0).filter(keep) =~= Seq::<String>::empty());
    while i < stems.len()
        invariant
            i <= stems.len(),
            pv@ == prefix@,
            keep == (|s: String| starts_with(s@, prefix@)),
            count == stems@.take(i as int).filter(keep).len(),
            count <= i,
            match first {
                None => count == 0,
                Some(k) => count >= 1 && k < i && stems@[k as int]@ == stems@.take(i as int).filter(keep)[0]@,
            },
        decreases stems.len() - i,
    {
        let ghost prev = stems@.take(i as int);
        assert(stems@.take(i as int + 1) =~= prev.push(stems@[i as int]));
        proof {
            prev.lemma_filter_push(stems@[i as int], keep);
        }
        let sv = chars_of(stems[i].as_str());
        if starts_with_of(sv.as_slice(), pv.as_slice()) {
            if first.is_none() {
                first = Some(i);
                assert(prev.filter(keep).len() == 0);
                assert(prev.filter(keep).push(stems@[i as int])[0] == stems@[i as int]);
            } else {
                assert(prev.filter(keep).push(stems@[i as int])[0] == prev.filter(keep)[0]);
            }
            count = count + 1;
        }
        i = i + 1;
    }
    assert(stems@.take(i as int) =~= stems@);
    match first {
        None => Err(FindError::NoMatch { prefix: crate::text::owned(prefix) }),
        Some(k) => if count == 1 {
            Ok(stems[k].clone())
        } else {
            Err(FindError::Ambiguous { prefix: crate::text::owned(prefix), count })
        },
    }
}

/// The name in what `git var GIT_AUTHOR_IDENT` answered: everything before the
/// mail, which git always encloses.
pub open spec fn signer_in(ident: Seq<char>) -> Option<Seq<char>> {
    match split_once(trim(ident), " <"@) {
        Some((name, _)) => if trim(name).len() > 0 {
            Some(trim(name))
        } else {
            None
        },
        None => None,
    }
}

/// Git does not know what name to sign with.
#[derive(Debug, Clone, PartialEq, Eq)]
pub struct NoSigner;

impl NoSigner {
    /// What the error says, and how to mend it.
    pub fn message(&self) -> (r: String)
        ensures
            r@ == "git no sabe con qué nombre firmar, y `agree` dice quién aprueba.\n       Configurarlo: `git config user.name '<nombre>'`"@,
    {
        crate::text::owned("git no sabe con qué nombre firmar, y `agree` dice quién aprueba.\n       Configurarlo: `git config user.name '<nombre>'`")
    }
}

/// Who accepts: **the name git will put as the commit's author**, from what
/// `git var GIT_AUTHOR_IDENT` answered (`None` where git could not answer). If git
/// cannot answer, nobody accepts: nobody could commit either.
pub fn signer(ident: Option<&str>) -> (r: Result<String, NoSigner>)
    ensures
        match ident {
            None => r is Err,
            Some(i) => match signer_in(i@) {
                Some(n) => r matches Ok(s) && s@ == n,
                None => r is Err,
            },
        },
{
    let Some(ident) = ident else { return Err(NoSigner) };
    let all = chars_of(ident);
    let t = trim_of(all.as_slice());
    let sep = chars_of(" <");
    match split_once_of(t.as_slice(), sep.as_slice()) {
        Some((name, _)) => {
            let n = trim_of(name.as_slice());
            if n.len() > 0 {
                Ok(string_of(n.as_slice()))
            } else {
                Err(NoSigner)
            }
        },
        None => Err(NoSigner),
    }
}


// ─── the accepted block ─────────────────────────────────────────────────────

/// Why an endpoint cannot be accepted.
#[derive(Debug, Clone, Copy, PartialEq, Eq, Structural)]
pub enum AcceptError {
    /// The capture does not resolve: content that could not be located cannot be
    /// approved.
    Unresolved,
    /// The file has changes not committed: accepting fixes a content, and that
    /// content has to exist in the history.
    Uncommitted,
    /// Accepting only the place keeps the content, and there was none approved.
    NothingToKeep,
}

impl AcceptError {
    /// What the error says, of the file `file`.
    pub fn message(&self, file: &str) -> (r: String)
        ensures
            r@ == match *self {
                AcceptError::Unresolved => "el capture no resuelve: no se puede aprobar contenido que no se pudo localizar"@,
                AcceptError::Uncommitted => file@ + " tiene cambios sin commitear. Aceptar fija un contenido, y ese contenido tiene que existir en la historia."@,
                AcceptError::NothingToKeep => "no hay contenido previo que conservar: aceptar con --place exige que el endpoint ya tuviera algo aprobado"@,
            },
    {
        match self {
            AcceptError::Unresolved => crate::text::owned(
                "el capture no resuelve: no se puede aprobar contenido que no se pudo localizar",
            ),
            AcceptError::Uncommitted => {
                let mut out = chars_of(file);
                append_str(
                    &mut out,
                    " tiene cambios sin commitear. Aceptar fija un contenido, y ese contenido tiene que existir en la historia.",
                );
                string_of(out.as_slice())
            },
            AcceptError::NothingToKeep => crate::text::owned(
                "no hay contenido previo que conservar: aceptar con --place exige que el endpoint ya tuviera algo aprobado",
            ),
        }
    }
}

fn copy_opt_text(o: &Option<String>) -> (r: Option<String>)
    ensures
        crate::refmsg::opt_view(r) == crate::refmsg::opt_view(*o),
{
    match o {
        Some(x) => Some(crate::text::owned(x.as_str())),
        None => None,
    }
}

/// A copy of an endpoint, value by value.
pub fn copy_endpoint(e: &LinkEndpoint) -> (r: LinkEndpoint)
    ensures
        r@ == e@,
{
    match e {
        LinkEndpoint::Fragment(x) => LinkEndpoint::Fragment(
            crate::link::StructuralRef {
                file: crate::text::owned(x.file.as_str()),
                query: copy_opt_text(&x.query),
                range: x.range,
            },
        ),
        LinkEndpoint::Layer(p) => LinkEndpoint::Layer(crate::text::owned(p.as_str())),
        LinkEndpoint::Task(id) => LinkEndpoint::Task(crate::text::owned(id.as_str())),
    }
}

fn copy_dims(d: &Vec<(String, AcceptedDimension)>) -> (r: Vec<(String, AcceptedDimension)>)
    ensures
        dims_view(r@) == dims_view(d@),
{
    let mut out: Vec<(String, AcceptedDimension)> = Vec::new();
    let mut i: usize = 0;
    while i < d.len()
        invariant
            i <= d.len(),
            out@.len() == i,
            dims_view(out@) == dims_view(d@.take(i as int)),
        decreases d.len() - i,
    {
        let x = &d[i];
        let y = (
            crate::text::owned(x.0.as_str()),
            AcceptedDimension {
                query: crate::text::owned(x.1.query.as_str()),
                hash: crate::text::owned(x.1.hash.as_str()),
                hash_ast: copy_opt_text(&x.1.hash_ast),
            },
        );
        let ghost before = out@;
        out.push(y);
        assert(d@.take(i as int + 1) =~= d@.take(i as int).push(d@[i as int]));
        assert(out@ =~= before.push(y));
        assert(dims_view(out@)[i as int] == dims_view(d@.take(i as int + 1))[i as int]);
        assert forall|k: int| 0 <= k < i implies #[trigger] dims_view(out@)[k] == dims_view(d@.take(i as int + 1))[k] by {
            assert(dims_view(out@)[k] == dims_view(before)[k]);
            assert(dims_view(before)[k] == dims_view(d@.take(i as int))[k]);
        }
        assert(dims_view(out@) =~= dims_view(d@.take(i as int + 1)));
        i = i + 1;
    }
    assert(d@.take(i as int) =~= d@);
    out
}

/// The `accepted` entry an acceptance writes for an endpoint, from what was
/// resolved of it: whether its capture resolves, whether its file is committed,
/// the hashes of the fragment's text and tree today, the language, the
/// neighbourhood that `resolve_n1` settled and the dimensions of today.
///
/// **Approving the place is writing the current link**; approving the content is
/// writing today's hash, tree hash and dimensions. What is not approved is kept as
/// it was — but a tree hash is never kept where the grammar cannot produce one, or
/// it would survive every `--place` to lie. Who approved is set apart, by `sign`.
pub fn accepted_block(
    what: What,
    previous: Option<&Accepted>,
    link: &LinkEndpoint,
    resolved: bool,
    committed: bool,
    content_hash: String,
    ast_hash: Option<String>,
    lang: &str,
    n: Option<N>,
    dims: Vec<(String, AcceptedDimension)>,
) -> (r: Result<Accepted, AcceptError>)
    ensures
        !resolved ==> r == Err::<Accepted, AcceptError>(AcceptError::Unresolved),
        resolved && !committed ==> r == Err::<Accepted, AcceptError>(AcceptError::Uncommitted),
        resolved && committed && !what.content && previous is None ==> r == Err::<Accepted, AcceptError>(
            AcceptError::NothingToKeep,
        ),
        resolved && committed && (what.content || previous is Some) ==> (r matches Ok(a) && {
            &&& a.agree@.len() == 0
            &&& link_view(a.link) == (if what.place {
                Some(link@)
            } else {
                match previous {
                    Some(p) => link_view(p.link),
                    None => None,
                }
            })
            &&& a.hash@ == (if what.content { content_hash@ } else { previous->0.hash@ })
            &&& crate::refmsg::opt_view(a.hash_ast) == (if what.content {
                crate::refmsg::opt_view(ast_hash)
            } else if !(lang@ == "markdown"@ || lang@ == "text"@) {
                crate::refmsg::opt_view(previous->0.hash_ast)
            } else {
                None
            })
            &&& a.n == n
            &&& dims_view(a.dimensions@) == (if what.content {
                dims_view(dims@)
            } else {
                dims_view(previous->0.dimensions@)
            })
        }),
{
    if !resolved {
        return Err(AcceptError::Unresolved);
    }
    if !committed {
        return Err(AcceptError::Uncommitted);
    }
    let link_kept = if what.place {
        Some(copy_endpoint(link))
    } else {
        match previous {
            Some(p) => match &p.link {
                Some(l) => Some(copy_endpoint(l)),
                None => None,
            },
            None => None,
        }
    };
    let hash = if what.content {
        content_hash
    } else {
        match previous {
            Some(p) => crate::text::owned(p.hash.as_str()),
            None => return Err(AcceptError::NothingToKeep),
        }
    };
    let hash_ast = if what.content {
        ast_hash
    } else if crate::grammar::ast_discriminates_content(lang) {
        match previous {
            Some(p) => copy_opt_text(&p.hash_ast),
            None => None,
        }
    } else {
        None
    };
    let dimensions = if what.content {
        dims
    } else {
        match previous {
            Some(p) => copy_dims(&p.dimensions),
            None => Vec::new(),
        }
    };
    Ok(Accepted { agree: Vec::new(), link: link_kept, hash, hash_ast, n, dimensions })
}
} // verus!
