//! What a bilink's endpoints are made of: their state, and where they point.
use vstd::prelude::*;

use crate::text::{chars_of, owned, same_str, trim, trim_of, ws};

verus! {

/// The state of an endpoint: a closed vocabulary of words.
#[derive(Debug, Clone, Copy, PartialEq, Eq, Structural)]
pub enum EndpointState {
    Pending,
    /// As it was approved.
    Okay,
    Todo,
    Moved,
    Displaced,
    Reanchored,
    Expanded,
    Unanchored,
    Altered,
    Deleted,
    Broken,
    ChainDirty,
    /// Only the format changed: the same tokens, with other space between them.
    Restyled,
    /// The fragment is the same, somewhere else.
    Relocated,
    /// The capture the link names is not there, or does not resolve.
    Unresolved,
    /// More than one entry is accepted: two decisions that disagree.
    ConsensusDiverged,
    /// An abstract endpoint: nothing to compare against, never asks for anything.
    Open,
}

/// The word a state is written as.
pub open spec fn state_text(s: EndpointState) -> Seq<char> {
    match s {
        EndpointState::Pending => "PENDING"@,
        EndpointState::Okay => "OK"@,
        EndpointState::Todo => "TODO"@,
        EndpointState::Moved => "MOVED"@,
        EndpointState::Displaced => "DISPLACED"@,
        EndpointState::Reanchored => "REANCHORED"@,
        EndpointState::Expanded => "EXPANDED"@,
        EndpointState::Unanchored => "UNANCHORED"@,
        EndpointState::Altered => "ALTERED"@,
        EndpointState::Deleted => "DELETED"@,
        EndpointState::Broken => "BROKEN"@,
        EndpointState::ChainDirty => "CHAIN_DIRTY"@,
        EndpointState::Restyled => "RESTYLED"@,
        EndpointState::Relocated => "RELOCATED"@,
        EndpointState::Unresolved => "UNRESOLVED"@,
        EndpointState::ConsensusDiverged => "CONSENSUS_DIVERGED"@,
        EndpointState::Open => "OPEN"@,
    }
}

/// The state a word names, whitespace around it aside.
pub open spec fn state_named(text: Seq<char>) -> Option<EndpointState> {
    let t = trim(text);
    if t == "PENDING"@ {
        Some(EndpointState::Pending)
    } else if t == "OK"@ {
        Some(EndpointState::Okay)
    } else if t == "TODO"@ {
        Some(EndpointState::Todo)
    } else if t == "MOVED"@ {
        Some(EndpointState::Moved)
    } else if t == "DISPLACED"@ {
        Some(EndpointState::Displaced)
    } else if t == "REANCHORED"@ {
        Some(EndpointState::Reanchored)
    } else if t == "EXPANDED"@ {
        Some(EndpointState::Expanded)
    } else if t == "UNANCHORED"@ {
        Some(EndpointState::Unanchored)
    } else if t == "ALTERED"@ {
        Some(EndpointState::Altered)
    } else if t == "DELETED"@ {
        Some(EndpointState::Deleted)
    } else if t == "BROKEN"@ {
        Some(EndpointState::Broken)
    } else if t == "CHAIN_DIRTY"@ {
        Some(EndpointState::ChainDirty)
    } else if t == "RESTYLED"@ {
        Some(EndpointState::Restyled)
    } else if t == "RELOCATED"@ {
        Some(EndpointState::Relocated)
    } else if t == "UNRESOLVED"@ {
        Some(EndpointState::Unresolved)
    } else if t == "CONSENSUS_DIVERGED"@ {
        Some(EndpointState::ConsensusDiverged)
    } else if t == "OPEN"@ {
        Some(EndpointState::Open)
    } else {
        None
    }
}

/// A word outside the vocabulary of states.
#[derive(Debug, Clone, PartialEq)]
pub struct UnknownState {
    pub text: String,
}

impl EndpointState {
    /// The word this state is written as.
    pub fn text(&self) -> (r: String)
        ensures
            r@ == state_text(*self),
    {
        match self {
            EndpointState::Pending => owned("PENDING"),
            EndpointState::Okay => owned("OK"),
            EndpointState::Todo => owned("TODO"),
            EndpointState::Moved => owned("MOVED"),
            EndpointState::Displaced => owned("DISPLACED"),
            EndpointState::Reanchored => owned("REANCHORED"),
            EndpointState::Expanded => owned("EXPANDED"),
            EndpointState::Unanchored => owned("UNANCHORED"),
            EndpointState::Altered => owned("ALTERED"),
            EndpointState::Deleted => owned("DELETED"),
            EndpointState::Broken => owned("BROKEN"),
            EndpointState::ChainDirty => owned("CHAIN_DIRTY"),
            EndpointState::Restyled => owned("RESTYLED"),
            EndpointState::Relocated => owned("RELOCATED"),
            EndpointState::Unresolved => owned("UNRESOLVED"),
            EndpointState::ConsensusDiverged => owned("CONSENSUS_DIVERGED"),
            EndpointState::Open => owned("OPEN"),
        }
    }

    /// The state a word names; whitespace around the word does not count.
    pub fn parse(s: &str) -> (r: Result<EndpointState, UnknownState>)
        ensures
            match r {
                Ok(x) => state_named(s@) == Some(x),
                Err(e) => state_named(s@) is None && e.text@ == trim(s@),
            },
    {
        let v = chars_of(s);
        let t = trim_of(v.as_slice());
        let t = t.as_slice();
        if same_str(t, "PENDING") {
            Ok(EndpointState::Pending)
        } else if same_str(t, "OK") {
            Ok(EndpointState::Okay)
        } else if same_str(t, "TODO") {
            Ok(EndpointState::Todo)
        } else if same_str(t, "MOVED") {
            Ok(EndpointState::Moved)
        } else if same_str(t, "DISPLACED") {
            Ok(EndpointState::Displaced)
        } else if same_str(t, "REANCHORED") {
            Ok(EndpointState::Reanchored)
        } else if same_str(t, "EXPANDED") {
            Ok(EndpointState::Expanded)
        } else if same_str(t, "UNANCHORED") {
            Ok(EndpointState::Unanchored)
        } else if same_str(t, "ALTERED") {
            Ok(EndpointState::Altered)
        } else if same_str(t, "DELETED") {
            Ok(EndpointState::Deleted)
        } else if same_str(t, "BROKEN") {
            Ok(EndpointState::Broken)
        } else if same_str(t, "CHAIN_DIRTY") {
            Ok(EndpointState::ChainDirty)
        } else if same_str(t, "RESTYLED") {
            Ok(EndpointState::Restyled)
        } else if same_str(t, "RELOCATED") {
            Ok(EndpointState::Relocated)
        } else if same_str(t, "UNRESOLVED") {
            Ok(EndpointState::Unresolved)
        } else if same_str(t, "CONSENSUS_DIVERGED") {
            Ok(EndpointState::ConsensusDiverged)
        } else if same_str(t, "OPEN") {
            Ok(EndpointState::Open)
        } else {
            Err(UnknownState { text: crate::text::string_of(t) })
        }
    }

    /// Whether the endpoint is as it was approved.
    pub fn is_ok(&self) -> (b: bool)
        ensures
            b == (*self == EndpointState::Okay),
    {
        match self {
            EndpointState::Okay => true,
            _ => false,
        }
    }
}

impl core::str::FromStr for EndpointState {
    type Err = UnknownState;

    fn from_str(s: &str) -> (r: Result<EndpointState, UnknownState>)
        ensures
            match r {
                Ok(x) => state_named(s@) == Some(x),
                Err(e) => state_named(s@) is None && e.text@ == trim(s@),
            },
    {
        EndpointState::parse(s)
    }
}

/// The state as a word, or `NONE` while no state has been recorded.
pub fn state_str(state: &Option<EndpointState>) -> (r: String)
    ensures
        r@ == match state {
            Some(s) => state_text(*s),
            None => "NONE"@,
        },
{
    match state {
        Some(s) => s.text(),
        None => owned("NONE"),
    }
}

/// **A state written reads back as itself.** The words of the vocabulary are all
/// different, and each names its state.
#[verifier::spinoff_prover]
#[verifier::rlimit(60)]
pub proof fn lemma_state_round_trip(s: EndpointState)
    ensures
        state_named(state_text(s)) == Some(s),
{
    reveal_strlit("PENDING");
    reveal_strlit("OK");
    reveal_strlit("TODO");
    reveal_strlit("MOVED");
    reveal_strlit("DISPLACED");
    reveal_strlit("REANCHORED");
    reveal_strlit("EXPANDED");
    reveal_strlit("UNANCHORED");
    reveal_strlit("ALTERED");
    reveal_strlit("DELETED");
    reveal_strlit("BROKEN");
    reveal_strlit("CHAIN_DIRTY");
    reveal_strlit("RESTYLED");
    reveal_strlit("RELOCATED");
    reveal_strlit("UNRESOLVED");
    reveal_strlit("CONSENSUS_DIVERGED");
    reveal_strlit("OPEN");
    let t = state_text(s);
    assert(!ws(t[0]) && !ws(t.last()));
    crate::text::lemma_trim_fixed(t);
    match s {
        EndpointState::Pending => {},
        EndpointState::Okay => {},
        EndpointState::Todo => {},
        EndpointState::Moved => {},
        EndpointState::Displaced => {},
        EndpointState::Reanchored => {},
        EndpointState::Expanded => {},
        EndpointState::Unanchored => {},
        EndpointState::Altered => {},
        EndpointState::Deleted => {},
        EndpointState::Broken => {},
        EndpointState::ChainDirty => {},
        EndpointState::Restyled => {},
        EndpointState::Relocated => {},
        EndpointState::Unresolved => {
            assert(t[2] != "UNANCHORED"@[2]);
        },
        EndpointState::ConsensusDiverged => {},
        EndpointState::Open => {
            assert(t[0] != "TODO"@[0]);
        },
    }
}

/// The words of the vocabulary are plain: not empty, and without parentheses.
pub proof fn lemma_state_text_plain(s: EndpointState)
    ensures
        state_text(s).len() > 0,
        crate::text::lacks(state_text(s), '('),
{
    reveal_strlit("PENDING");
    reveal_strlit("OK");
    reveal_strlit("TODO");
    reveal_strlit("MOVED");
    reveal_strlit("DISPLACED");
    reveal_strlit("REANCHORED");
    reveal_strlit("EXPANDED");
    reveal_strlit("UNANCHORED");
    reveal_strlit("ALTERED");
    reveal_strlit("DELETED");
    reveal_strlit("BROKEN");
    reveal_strlit("CHAIN_DIRTY");
    reveal_strlit("RESTYLED");
    reveal_strlit("RELOCATED");
    reveal_strlit("UNRESOLVED");
    reveal_strlit("CONSENSUS_DIVERGED");
    reveal_strlit("OPEN");
}

/// Where an endpoint points inside a file: a byte range.
#[derive(Debug, Clone, Copy, PartialEq, Eq, Structural)]
pub struct ByteRange {
    pub start: usize,
    pub end: usize,
}

/// A structural reference: a file, optionally a query in it, optionally a range.
#[derive(Debug, Clone, PartialEq)]
pub struct StructuralRef {
    pub file: String,
    pub query: Option<String>,
    pub range: Option<ByteRange>,
}


/// Why a range does not read.
#[derive(Debug, Clone, Copy, PartialEq, Eq, Structural)]
pub enum RangeError {
    /// No `~` between the offsets.
    NoTilde,
    InvalidStart,
    InvalidEnd,
}

impl RangeError {
    /// What the error says.
    pub fn message(&self) -> (r: &'static str)
        ensures
            r@ == match *self {
                RangeError::NoTilde => "range must be `start~end`"@,
                RangeError::InvalidStart => "invalid start offset"@,
                RangeError::InvalidEnd => "invalid end offset"@,
            },
    {
        match self {
            RangeError::NoTilde => "range must be `start~end`",
            RangeError::InvalidStart => "invalid start offset",
            RangeError::InvalidEnd => "invalid end offset",
        }
    }
}

/// A range as `start~end` reads: two offsets around the first `~`, each trimmed.
pub open spec fn range_of(s: Seq<char>) -> Result<ByteRange, RangeError> {
    match crate::text::split_once(s, "~"@) {
        None => Err(RangeError::NoTilde),
        Some((a, b)) => match crate::preview::parse_usize(trim(a)) {
            None => Err(RangeError::InvalidStart),
            Some(x) => match crate::preview::parse_usize(trim(b)) {
                None => Err(RangeError::InvalidEnd),
                Some(y) => Ok(ByteRange { start: x, end: y }),
            },
        },
    }
}

/// A range written: `start~end`.
pub open spec fn range_text(r: ByteRange) -> Seq<char> {
    crate::refmsg::decimal(r.start as nat) + "~"@ + crate::refmsg::decimal(r.end as nat)
}

impl ByteRange {
    /// Reads `start~end`.
    pub fn parse(s: &str) -> (r: Result<ByteRange, RangeError>)
        ensures
            r == range_of(s@),
    {
        let v = chars_of(s);
        range_of_chars(v.as_slice())
    }

    /// The range written: `start~end`.
    pub fn text(&self) -> (r: String)
        ensures
            r@ == range_text(*self),
    {
        let v = range_chars(*self);
        crate::text::string_of(v.as_slice())
    }
}

/// Reads `start~end` from characters.
fn range_of_chars(v: &[char]) -> (r: Result<ByteRange, RangeError>)
    ensures
        r == range_of(v@),
{
    let tilde = chars_of("~");
    match crate::text::split_once_of(v, tilde.as_slice()) {
        None => Err(RangeError::NoTilde),
        Some((a, b)) => {
            let ta = trim_of(a.as_slice());
            match crate::preview::parse_usize_of(ta.as_slice()) {
                None => Err(RangeError::InvalidStart),
                Some(x) => {
                    let tb = trim_of(b.as_slice());
                    match crate::preview::parse_usize_of(tb.as_slice()) {
                        None => Err(RangeError::InvalidEnd),
                        Some(y) => Ok(ByteRange { start: x, end: y }),
                    }
                },
            }
        },
    }
}

/// The characters of a range written: `start~end`.
fn range_chars(r: ByteRange) -> (v: Vec<char>)
    ensures
        v@ == range_text(r),
{
    let mut out = crate::refmsg::decimal_of(r.start as u64);
    crate::text::append_str(&mut out, "~");
    let e = crate::refmsg::decimal_of(r.end as u64);
    crate::text::append(&mut out, e.as_slice());
    out
}


/// A structural reference seen as plain values: file, query, range.
impl View for StructuralRef {
    type V = (Seq<char>, Option<Seq<char>>, Option<ByteRange>);

    open spec fn view(&self) -> (Seq<char>, Option<Seq<char>>, Option<ByteRange>) {
        (self.file@, crate::refmsg::opt_view(self.query), self.range)
    }
}

/// A structural reference as `file [:: query [:: start~end]]` reads: at most three
/// parts around `::`, each trimmed; the third, where there is one, a range.
pub open spec fn sref_read(s: Seq<char>) -> Result<
    (Seq<char>, Option<Seq<char>>, Option<ByteRange>),
    RangeError,
> {
    match crate::text::split_once(s, "::"@) {
        None => Ok((trim(s), None, None)),
        Some((a, rest)) => match crate::text::split_once(rest, "::"@) {
            None => Ok((trim(a), Some(trim(rest)), None)),
            Some((b, c)) => match range_of(trim(c)) {
                Ok(rg) => Ok((trim(a), Some(trim(b)), Some(rg))),
                Err(e) => Err(e),
            },
        },
    }
}

/// A structural reference written: the file, then ` :: query`, then ` :: start~end`;
/// the range is written only after a query.
pub open spec fn sref_text(v: (Seq<char>, Option<Seq<char>>, Option<ByteRange>)) -> Seq<char> {
    v.0 + match v.1 {
        None => Seq::<char>::empty(),
        Some(q) => " :: "@ + q + match v.2 {
            Some(r) => " :: "@ + range_text(r),
            None => Seq::<char>::empty(),
        },
    }
}

impl StructuralRef {
    /// Reads `file [:: query [:: start~end]]`.
    pub fn parse(s: &str) -> (r: Result<StructuralRef, RangeError>)
        ensures
            match r {
                Ok(x) => sref_read(s@) == Ok::<_, RangeError>(x@),
                Err(e) => sref_read(s@) == Err::<(Seq<char>, Option<Seq<char>>, Option<ByteRange>), _>(e),
            },
    {
        let v = chars_of(s);
        sref_of_chars(v.as_slice())
    }

    /// The reference written.
    pub fn text(&self) -> (r: String)
        ensures
            r@ == sref_text(self@),
    {
        let v = sref_chars(self);
        crate::text::string_of(v.as_slice())
    }
}

fn sref_of_chars(v: &[char]) -> (r: Result<StructuralRef, RangeError>)
    ensures
        match r {
            Ok(x) => sref_read(v@) == Ok::<_, RangeError>(x@),
            Err(e) => sref_read(v@) == Err::<(Seq<char>, Option<Seq<char>>, Option<ByteRange>), _>(e),
        },
{
    let sep = chars_of("::");
    match crate::text::split_once_of(v, sep.as_slice()) {
        None => {
            let f = trim_of(v);
            Ok(StructuralRef { file: crate::text::string_of(f.as_slice()), query: None, range: None })
        },
        Some((a, rest)) => {
            let f = trim_of(a.as_slice());
            let file = crate::text::string_of(f.as_slice());
            match crate::text::split_once_of(rest.as_slice(), sep.as_slice()) {
                None => {
                    let q = trim_of(rest.as_slice());
                    Ok(StructuralRef { file, query: Some(crate::text::string_of(q.as_slice())), range: None })
                },
                Some((b, c)) => {
                    let q = trim_of(b.as_slice());
                    let t = trim_of(c.as_slice());
                    match range_of_chars(t.as_slice()) {
                        Ok(rg) => Ok(
                            StructuralRef {
                                file,
                                query: Some(crate::text::string_of(q.as_slice())),
                                range: Some(rg),
                            },
                        ),
                        Err(e) => Err(e),
                    }
                },
            }
        },
    }
}

fn sref_chars(x: &StructuralRef) -> (v: Vec<char>)
    ensures
        v@ == sref_text(x@),
{
    let mut out = chars_of(x.file.as_str());
    match &x.query {
        None => {
            assert(out@ =~= sref_text(x@));
        },
        Some(q) => {
            crate::text::append_str(&mut out, " :: ");
            crate::text::append_str(&mut out, q.as_str());
            match x.range {
                Some(r) => {
                    crate::text::append_str(&mut out, " :: ");
                    let rv = range_chars(r);
                    crate::text::append(&mut out, rv.as_slice());
                },
                None => {},
            }
            assert(out@ =~= sref_text(x@));
        },
    }
    out
}

/// Where an endpoint of a bilink points.
#[derive(Debug, Clone, PartialEq)]
pub enum LinkEndpoint {
    /// A fragment of a file.
    Fragment(StructuralRef),
    /// A layer, by its path as written.
    Layer(String),
    /// `task <id>`: a task of the worklist.
    Task(String),
}

/// An endpoint seen as plain values.
pub enum EndpointView {
    Fragment((Seq<char>, Option<Seq<char>>, Option<ByteRange>)),
    Layer(Seq<char>),
    Task(Seq<char>),
}

impl View for LinkEndpoint {
    type V = EndpointView;

    open spec fn view(&self) -> EndpointView {
        match self {
            LinkEndpoint::Fragment(r) => EndpointView::Fragment(r@),
            LinkEndpoint::Layer(p) => EndpointView::Layer(p@),
            LinkEndpoint::Task(id) => EndpointView::Task(id@),
        }
    }
}

/// The last component of a path, as `Path::file_name` gives it: the last normal
/// component, and none where the path ends in `..` or has no component.
fn file_name_of(p: &[char]) -> (r: Option<Vec<char>>)
    ensures
        match r {
            Some(n) => crate::grammar::file_name(p@) == Some(n@),
            None => crate::grammar::file_name(p@) is None,
        },
{
    let cs = crate::grammar::components_of(p);
    if cs.len() == 0 {
        return None;
    }
    let last = crate::text::to_vec(cs[cs.len() - 1].as_slice());
    assert(crate::text::views(cs@).last() == last@);
    if crate::text::same_str(last.as_slice(), "..") {
        proof {
            reveal_strlit("..");
        }
        assert(last@ =~= seq!['.', '.']);
        None
    } else {
        proof {
            reveal_strlit("..");
            if last@ == seq!['.', '.'] {
                assert(last@ =~= ".."@);
            }
        }
        Some(last)
    }
}

/// The id of `task <id>`, where the text is one and the id is not blank.
pub open spec fn task_id(t: Seq<char>) -> Option<Seq<char>> {
    match crate::text::strip_prefix(t, "task "@) {
        Some(id) => if trim(id).len() > 0 {
            Some(trim(id))
        } else {
            None
        },
        None => None,
    }
}

/// Whether a path names a file: its last component has a `.` and is not `.` or `..`.
pub open spec fn looks_like_file(t: Seq<char>) -> bool {
    match crate::grammar::file_name(t) {
        Some(n) => !crate::text::lacks(n, '.') && n != "."@ && n != ".."@,
        None => false,
    }
}

/// How an endpoint reads, whitespace around it aside: a task; else, with a `::`,
/// a structural reference; else a file where the path looks like one; else a layer.
pub open spec fn endpoint_read(s: Seq<char>) -> Result<EndpointView, RangeError> {
    let t = trim(s);
    match task_id(t) {
        Some(id) => Ok(EndpointView::Task(id)),
        None => if crate::text::find(t, "::"@) is Some {
            match sref_read(t) {
                Ok(v) => Ok(EndpointView::Fragment(v)),
                Err(e) => Err(e),
            }
        } else if looks_like_file(t) {
            Ok(EndpointView::Fragment((t, None, None)))
        } else {
            Ok(EndpointView::Layer(t))
        },
    }
}

/// An endpoint written.
pub open spec fn endpoint_text(e: EndpointView) -> Seq<char> {
    match e {
        EndpointView::Fragment(v) => sref_text(v),
        EndpointView::Layer(p) => p,
        EndpointView::Task(id) => "task "@ + id,
    }
}

impl LinkEndpoint {
    /// Reads an endpoint. A layer path is kept as written: checking it against the
    /// grammar of layer paths is the layer tool's business.
    pub fn parse(s: &str) -> (r: Result<LinkEndpoint, RangeError>)
        ensures
            match r {
                Ok(x) => endpoint_read(s@) == Ok::<_, RangeError>(x@),
                Err(e) => endpoint_read(s@) == Err::<EndpointView, _>(e),
            },
    {
        let v = chars_of(s);
        let t = trim_of(v.as_slice());
        let task = chars_of("task ");
        match crate::text::strip_prefix_of(t.as_slice(), task.as_slice()) {
            Some(id) => {
                let id = trim_of(id.as_slice());
                if id.len() > 0 {
                    return Ok(LinkEndpoint::Task(crate::text::string_of(id.as_slice())));
                }
            },
            None => {},
        }
        let sep = chars_of("::");
        if crate::text::find_of(t.as_slice(), sep.as_slice()).is_some() {
            return match sref_of_chars(t.as_slice()) {
                Ok(x) => Ok(LinkEndpoint::Fragment(x)),
                Err(e) => Err(e),
            };
        }
        let path = crate::text::string_of(t.as_slice());
        let looks = match file_name_of(t.as_slice()) {
            Some(nv) => {
                crate::text::has_char(nv.as_slice(), '.') && !crate::text::same_str(nv.as_slice(), ".")
                    && !crate::text::same_str(nv.as_slice(), "..")
            },
            None => false,
        };
        if looks {
            Ok(LinkEndpoint::Fragment(StructuralRef { file: path, query: None, range: None }))
        } else {
            Ok(LinkEndpoint::Layer(path))
        }
    }

    /// The endpoint written.
    pub fn text(&self) -> (r: String)
        ensures
            r@ == endpoint_text(self@),
    {
        match self {
            LinkEndpoint::Fragment(x) => x.text(),
            LinkEndpoint::Layer(p) => p.clone(),
            LinkEndpoint::Task(id) => {
                let mut out = chars_of("task ");
                crate::text::append_str(&mut out, id.as_str());
                crate::text::string_of(out.as_slice())
            },
        }
    }

    /// Whether the endpoint is a fragment of a file.
    pub fn is_structural(&self) -> (b: bool)
        ensures
            b == (self is Fragment),
    {
        match self {
            LinkEndpoint::Fragment(_) => true,
            _ => false,
        }
    }
}


impl core::str::FromStr for LinkEndpoint {
    type Err = RangeError;

    fn from_str(s: &str) -> (r: Result<LinkEndpoint, RangeError>)
        ensures
            match r {
                Ok(x) => endpoint_read(s@) == Ok::<_, RangeError>(x@),
                Err(e) => endpoint_read(s@) == Err::<EndpointView, _>(e),
            },
    {
        LinkEndpoint::parse(s)
    }
}

// ─── reading back what was written ──────────────────────────────────────────

/// The endpoints whose text reads back as themselves: a task with an id; a layer
/// path and a file that read as what they are; a fragment with a query, whose file
/// and query hold no `::` and whose text does not open as a task. Each value has no
/// whitespace at its ends. A fragment with a range and no query is not among them:
/// its range is not written.
pub open spec fn endpoint_writable(e: EndpointView) -> bool {
    match e {
        EndpointView::Task(id) => id.len() > 0 && trim(id) == id,
        EndpointView::Layer(p) => trim(p) == p && task_id(p) is None && crate::text::find(p, "::"@) is None
            && !looks_like_file(p),
        EndpointView::Fragment((f, None, None)) => trim(f) == f && task_id(f) is None && crate::text::find(
            f,
            "::"@,
        ) is None && looks_like_file(f),
        EndpointView::Fragment((f, Some(q), _)) => f.len() > 0 && trim(f) == f && q.len() > 0 && trim(q) == q
            && crate::text::find(f, "::"@) is None && crate::text::find(q, "::"@) is None && task_id(
            endpoint_text(e),
        ) is None,
        EndpointView::Fragment((_, None, Some(_))) => false,
    }
}

/// Whitespace around a value with none at its ends goes when trimmed.
proof fn lemma_trim_padded(x: Seq<char>)
    requires
        x.len() > 0,
        trim(x) == x,
    ensures
        trim(" "@ + x + " "@) == x,
        trim(x + " "@) == x,
        trim(" "@ + x) == x,
{
    reveal_strlit(" ");
    crate::bilink::lemma_trimmed_ends(x);
    crate::bilink::lemma_trim_spaced(x);
    let xs = x + " "@;
    assert(xs.drop_last() =~= x);
    assert(crate::text::trim_start(xs) == xs);
    assert(crate::text::trim_end(xs) == crate::text::trim_end(x));
    crate::text::lemma_trim_fixed(x);
    let sx = " "@ + x + " "@;
    assert(sx.drop_first() =~= xs);
    assert(crate::text::trim_start(sx) == crate::text::trim_start(xs));
}

/// A text with no `::`, not ending in `:`, splits at the `::` put after it.
proof fn lemma_split_at_sep(a: Seq<char>, b: Seq<char>)
    requires
        crate::text::find(a, "::"@) is None,
        a.len() > 0 ==> a.last() != ':',
    ensures
        crate::text::split_once(a + "::"@ + b, "::"@) == Some((a, b)),
{
    reveal_strlit("::");
    let p = "::"@;
    let s = a + p + b;
    crate::text::lemma_find_from(a, p, 0);
    assert(s.subrange(a.len() as int, a.len() as int + 2) =~= p);
    assert forall|j: int| 0 <= j < a.len() implies !crate::text::occurs_at(s, j, p) by {
        if j + 2 <= a.len() {
            if crate::text::occurs_at(s, j, p) {
                assert(a.subrange(j, j + 2) =~= s.subrange(j, j + 2));
                assert(crate::text::occurs_at(a, j, p));
            }
        } else {
            assert(s[j] == a.last());
            if crate::text::occurs_at(s, j, p) {
                assert(s.subrange(j, j + 2)[0] == s[j]);
            }
        }
    }
    crate::text::lemma_find_first(s, p, 0, a.len() as int);
    assert(s.take(a.len() as int) =~= a);
    assert(s.skip(a.len() as int + 2) =~= b);
}

/// No `::` in a text with none, followed or preceded by a space.
proof fn lemma_no_sep_spaced(x: Seq<char>)
    requires
        crate::text::find(x, "::"@) is None,
    ensures
        crate::text::find(x + " "@, "::"@) is None,
        crate::text::find(" "@ + x, "::"@) is None,
        crate::text::find(" "@ + x + " "@, "::"@) is None,
{
    reveal_strlit("::");
    reveal_strlit(" ");
    let p = "::"@;
    crate::text::lemma_find_from(x, p, 0);
    let a = x + " "@;
    let b = " "@ + x;
    let c = " "@ + x + " "@;
    assert forall|j: int| 0 <= j implies !crate::text::occurs_at(a, j, p) by {
        if crate::text::occurs_at(a, j, p) {
            assert(a.subrange(j, j + 2)[0] == a[j] && a.subrange(j, j + 2)[1] == a[j + 1]);
            assert(a[x.len() as int] == ' ');
            assert(j + 1 < x.len());
            assert(x.subrange(j, j + 2) =~= a.subrange(j, j + 2));
            assert(crate::text::occurs_at(x, j, p));
        }
    }
    assert forall|j: int| 0 <= j implies !crate::text::occurs_at(b, j, p) by {
        if crate::text::occurs_at(b, j, p) {
            assert(b.subrange(j, j + 2)[0] == b[j] && b.subrange(j, j + 2)[1] == b[j + 1]);
            assert(b[0] == ' ');
            assert(j >= 1);
            assert(j < x.len());
            assert(x.subrange(j - 1, j + 1) =~= b.subrange(j, j + 2));
            assert(crate::text::occurs_at(x, j - 1, p));
        }
    }
    assert forall|j: int| 0 <= j implies !crate::text::occurs_at(c, j, p) by {
        if crate::text::occurs_at(c, j, p) {
            assert(c.subrange(j, j + 2)[0] == c[j] && c.subrange(j, j + 2)[1] == c[j + 1]);
            assert(c[0] == ' ');
            assert(c[x.len() as int + 1] == ' ');
            assert(j >= 1 && j < x.len());
            assert(x.subrange(j - 1, j + 1) =~= c.subrange(j, j + 2));
            assert(crate::text::occurs_at(x, j - 1, p));
        }
    }
    crate::text::lemma_find_none(a, p, 0);
    crate::text::lemma_find_none(b, p, 0);
    crate::text::lemma_find_none(c, p, 0);
}

/// **An endpoint written reads back as itself**, for the endpoints whose text can
/// carry them (`endpoint_writable`).
pub proof fn lemma_endpoint_reads_back(e: EndpointView)
    requires
        endpoint_writable(e),
    ensures
        endpoint_read(endpoint_text(e)) == Ok::<_, RangeError>(e),
{
    reveal_strlit("task ");
    reveal_strlit(" :: ");
    reveal_strlit("::");
    reveal_strlit(" ");
    match e {
        EndpointView::Task(id) => {
            let t = "task "@ + id;
            crate::bilink::lemma_trimmed_ends(id);
            assert(t[0] == 't');
            assert(t.last() == id.last());
            crate::text::lemma_trim_fixed(t);
            assert(t.take(5) =~= "task "@);
            assert(t.skip(5) =~= id);
        },
        EndpointView::Layer(p) => {},
        EndpointView::Fragment((f, None, None)) => {
            assert(endpoint_text(e) =~= f);
        },
        EndpointView::Fragment((f, Some(q), r)) => {
            let t = endpoint_text(e);
            crate::bilink::lemma_trimmed_ends(f);
            crate::bilink::lemma_trimmed_ends(q);
            lemma_trim_padded(f);
            lemma_trim_padded(q);
            lemma_no_sep_spaced(f);
            lemma_no_sep_spaced(q);
            let a = f + " "@;
            match r {
                None => {
                    let rest = " "@ + q;
                    assert(t =~= a + "::"@ + rest);
                    lemma_split_at_sep(a, rest);
                    assert(t.last() == q.last());
                    crate::text::lemma_trim_fixed(t);
                    assert(crate::text::split_once(rest, "::"@) is None);
                    assert(sref_read(t) == Ok::<_, RangeError>((f, Some(q), None::<ByteRange>)));
                },
                Some(rg) => {
                    crate::bilink::lemma_range_reads_back(rg);
                    let rt = range_text(rg);
                    crate::bilink::lemma_trimmed_ends(rt);
                    lemma_trim_padded(rt);
                    let b = " "@ + q + " "@;
                    let c = " "@ + rt;
                    let rest = b + "::"@ + c;
                    assert(t =~= a + "::"@ + rest);
                    lemma_split_at_sep(a, rest);
                    lemma_split_at_sep(b, c);
                    assert(t.last() == rt.last());
                    crate::text::lemma_trim_fixed(t);
                    assert(sref_read(t) == Ok::<_, RangeError>((f, Some(q), Some(rg))));
                },
            }
            assert(t[0] == f[0]);
            assert(crate::text::find(t, "::"@) is Some);
        },
        EndpointView::Fragment((_, None, Some(_))) => {},
    }
}
} // verus!
