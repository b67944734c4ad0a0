//! The `.bilink` file of the first format: `key: value` lines, with blank lines and
//! `#` comments between them. A link value may go on over the lines that follow it.
use vstd::prelude::*;

use crate::link::{
    endpoint_read, endpoint_text, range_of, range_text, state_named, state_text, ByteRange,
    EndpointState, EndpointView, LinkEndpoint, RangeError, UnknownState,
};
use crate::refmsg::opt_view;
use crate::text::{chars_of, lines, starts_with, string_of, trim, trim_of};

verus! {

/// How many keys a bilink file knows.
pub const KEY_COUNT: usize = 13;

/// The keys of a bilink file, in the order in which they are looked for.
pub open spec fn keys() -> Seq<Seq<char>> {
    seq![
        "link.0"@,
        "link.1"@,
        "hash.0"@,
        "hash_ast.0"@,
        "commit.0"@,
        "hash.1"@,
        "hash_ast.1"@,
        "commit.1"@,
        "range.0"@,
        "range.1"@,
        "state.0"@,
        "state.1"@,
        "resolved_at"@,
    ]
}

/// The key with the given place.
fn key(i: usize) -> (r: &'static str)
    requires
        i < KEY_COUNT,
    ensures
        r@ == keys()[i as int],
{
    match i {
        0 => "link.0",
        1 => "link.1",
        2 => "hash.0",
        3 => "hash_ast.0",
        4 => "commit.0",
        5 => "hash.1",
        6 => "hash_ast.1",
        7 => "commit.1",
        8 => "range.0",
        9 => "range.1",
        10 => "state.0",
        11 => "state.1",
        _ => "resolved_at",
    }
}

/// The first key, from place `i` on, that the line opens with, a `:` right after it.
pub open spec fn key_from(line: Seq<char>, i: int) -> Option<int>
    decreases KEY_COUNT - i,
{
    if i < 0 || i >= KEY_COUNT {
        None
    } else if starts_with(line, keys()[i] + ":"@) {
        Some(i)
    } else {
        key_from(line, i + 1)
    }
}

/// The key a line sets, if it sets one.
pub open spec fn key_of(line: Seq<char>) -> Option<int> {
    key_from(line, 0)
}

/// A blank line or a comment: it ends whatever value was going on.
pub open spec fn is_gap(line: Seq<char>) -> bool {
    let t = trim(line);
    t.len() == 0 || t[0] == '#'
}

/// The value a key line sets: what follows the key and its `:`, trimmed.
pub open spec fn value_of(line: Seq<char>, k: int) -> Seq<char> {
    trim(line.skip(keys()[k].len() as int + 1))
}

/// What a value holds so far: nothing where it was never set.
pub open spec fn so_far(o: Option<Seq<char>>) -> Seq<char> {
    match o {
        Some(v) => v,
        None => Seq::<char>::empty(),
    }
}

/// One line read: the values so far, and the link value that a line may go on with.
/// A gap ends it; a key line sets its key, and a link key opens a value that goes
/// on; any other line goes on with the open value, after a space, trimmed.
pub open spec fn step(values: Seq<Option<Seq<char>>>, current: Option<int>, line: Seq<char>) -> (
    Seq<Option<Seq<char>>>,
    Option<int>,
) {
    if is_gap(line) {
        (values, None)
    } else {
        match key_of(line) {
            Some(k) => (
                values.update(k, Some(value_of(line, k))),
                if k < 2 {
                    Some(k)
                } else {
                    None
                },
            ),
            None => match current {
                Some(k) => (values.update(k, Some(so_far(values[k]) + " "@ + trim(line))), current),
                None => (values, None),
            },
        }
    }
}

/// The values after reading the lines `ls`.
pub open spec fn scan(
    values: Seq<Option<Seq<char>>>,
    current: Option<int>,
    ls: Seq<Seq<char>>,
) -> Seq<Option<Seq<char>>>
    decreases ls.len(),
{
    if ls.len() == 0 {
        values
    } else {
        let (v, c) = step(values, current, ls[0]);
        scan(v, c, ls.drop_first())
    }
}

/// No key set yet.
pub open spec fn unset() -> Seq<Option<Seq<char>>> {
    Seq::new(KEY_COUNT as nat, |i: int| None::<Seq<char>>)
}

/// The value of each key in a bilink file's text, by the key's place.
pub open spec fn fields(text: Seq<char>) -> Seq<Option<Seq<char>>> {
    scan(unset(), None, lines(text))
}

/// Values held as characters, seen as sequences.
pub open spec fn opt_chars(v: Seq<Option<Vec<char>>>) -> Seq<Option<Seq<char>>> {
    Seq::new(
        v.len(),
        |i: int|
            match v[i] {
                Some(x) => Some(x@),
                None => None,
            },
    )
}

/// The key a line sets.
fn key_of_line(line: &[char]) -> (r: Option<usize>)
    ensures
        match r {
            Some(k) => key_of(line@) == Some(k as int) && k < KEY_COUNT && starts_with(
                line@,
                keys()[k as int] + ":"@,
            ),
            None => key_of(line@) is None,
        },
{
    let mut i: usize = 0;
    while i < KEY_COUNT
        invariant
            i <= KEY_COUNT,
            key_of(line@) == key_from(line@, i as int),
        decreases KEY_COUNT - i,
    {
        let mut needle = chars_of(key(i));
        needle.push(':');
        assert(needle@ =~= keys()[i as int] + ":"@) by {
            reveal_strlit(":");
        }
        if crate::text::starts_with_of(line, needle.as_slice()) {
            return Some(i);
        }
        i = i + 1;
    }
    None
}

/// Reads the lines of a bilink file: the value of each key, by the key's place.
#[verifier::spinoff_prover]
pub fn scan_fields(text: &[char]) -> (r: Vec<Option<Vec<char>>>)
    ensures
        opt_chars(r@) == fields(text@),
        r@.len() == KEY_COUNT,
{
    let ls = crate::text::lines_of(text);
    let mut values: Vec<Option<Vec<char>>> = Vec::new();
    let mut n: usize = 0;
    while n < KEY_COUNT
        invariant
            n <= KEY_COUNT,
            values.len() == n,
            forall|j: int| 0 <= j < n ==> values@[j] is None,
        decreases KEY_COUNT - n,
    {
        values.push(None);
        n = n + 1;
    }
    assert(opt_chars(values@) =~= unset());
    let mut current: Option<usize> = None;
    let mut i: usize = 0;
    assert(crate::text::views(ls@).skip(0) =~= lines(text@));
    while i < ls.len()
        invariant
            i <= ls.len(),
            crate::text::views(ls@) == lines(text@),
            values.len() == KEY_COUNT,
            current matches Some(k) ==> k < 2,
            scan(
                opt_chars(values@),
                match current {
                    Some(k) => Some(k as int),
                    None => None,
                },
                crate::text::views(ls@).skip(i as int),
            ) == fields(text@),
        decreases ls.len() - i,
    {
        let ghost before = opt_chars(values@);
        let ghost cur = match current {
            Some(k) => Some(k as int),
            None => None::<int>,
        };
        let ghost rest = crate::text::views(ls@).skip(i as int);
        let line = ls[i].as_slice();
        assert(rest[0] == line@);
        assert(rest.drop_first() =~= crate::text::views(ls@).skip(i as int + 1));
        let t = trim_of(line);
        if t.len() == 0 || t[0] == '#' {
            current = None;
        } else {
            match key_of_line(line) {
                Some(k) => {
                    let kl = chars_of(key(k)).len();
                    assert(line@.len() >= kl + 1) by {
                        reveal_strlit(":");
                    }
                    assert(kl < line.len());
                    let after = crate::text::slice_of(line, kl + 1, line.len());
                    assert(after@ =~= line@.skip(keys()[k as int].len() as int + 1));
                    let v = trim_of(after.as_slice());
                    values.set(k, Some(v));
                    assert(opt_chars(values@) =~= before.update(k as int, Some(value_of(line@, k as int))));
                    current = if k < 2 {
                        Some(k)
                    } else {
                        None
                    };
                },
                None => {
                    match current {
                        Some(k) => {
                            let mut v = match &values[k] {
                                Some(x) => crate::text::to_vec(x.as_slice()),
                                None => Vec::new(),
                            };
                            assert(v@ == so_far(before[k as int]));
                            v.push(' ');
                            crate::text::append(&mut v, t.as_slice());
                            assert(v@ =~= so_far(before[k as int]) + " "@ + trim(line@)) by {
                                reveal_strlit(" ");
                            }
                            values.set(k, Some(v));
                            assert(opt_chars(values@) =~= before.update(
                                k as int,
                                Some(so_far(before[k as int]) + " "@ + trim(line@)),
                            ));
                        },
                        None => {},
                    }
                },
            }
        }
        i = i + 1;
    }
    assert(crate::text::views(ls@).skip(i as int).len() == 0);
    values
}


/// A bilink of the first format.
#[derive(Debug, Clone)]
pub struct BiLinkFile {
    pub uuid: String,
    pub link0: LinkEndpoint,
    pub link1: LinkEndpoint,
    pub hash0: Option<String>,
    pub hash_ast0: Option<String>,
    pub commit0: Option<String>,
    pub hash1: Option<String>,
    pub hash_ast1: Option<String>,
    pub commit1: Option<String>,
    pub range0: Option<ByteRange>,
    pub range1: Option<ByteRange>,
    pub state0: Option<EndpointState>,
    pub state1: Option<EndpointState>,
    pub resolved_at: Option<String>,
}

/// A bilink seen as plain values.
pub struct BiLinkView {
    pub uuid: Seq<char>,
    pub link0: EndpointView,
    pub link1: EndpointView,
    pub hash0: Option<Seq<char>>,
    pub hash_ast0: Option<Seq<char>>,
    pub commit0: Option<Seq<char>>,
    pub hash1: Option<Seq<char>>,
    pub hash_ast1: Option<Seq<char>>,
    pub commit1: Option<Seq<char>>,
    pub range0: Option<ByteRange>,
    pub range1: Option<ByteRange>,
    pub state0: Option<EndpointState>,
    pub state1: Option<EndpointState>,
    pub resolved_at: Option<Seq<char>>,
}

impl View for BiLinkFile {
    type V = BiLinkView;

    open spec fn view(&self) -> BiLinkView {
        BiLinkView {
            uuid: self.uuid@,
            link0: self.link0@,
            link1: self.link1@,
            hash0: opt_view(self.hash0),
            hash_ast0: opt_view(self.hash_ast0),
            commit0: opt_view(self.commit0),
            hash1: opt_view(self.hash1),
            hash_ast1: opt_view(self.hash_ast1),
            commit1: opt_view(self.commit1),
            range0: self.range0,
            range1: self.range1,
            state0: self.state0,
            state1: self.state1,
            resolved_at: opt_view(self.resolved_at),
        }
    }
}

/// Why a bilink file does not read. The endpoint is `0` or `1`.
#[derive(Debug, Clone, PartialEq)]
pub enum ParseError {
    /// Its `link.N` key is not there.
    MissingLink(u8),
    /// Its `link.N` does not read as an endpoint.
    BadLink(u8, RangeError),
    /// Its `range.N` does not read as a range.
    BadRange(u8, RangeError),
    /// Its `state.N` names no state.
    BadState(u8, UnknownState),
}

/// Why a bilink file does not read, as plain values.
pub enum Fault {
    MissingLink(u8),
    BadLink(u8, RangeError),
    BadRange(u8, RangeError),
    BadState(u8, Seq<char>),
}

impl View for ParseError {
    type V = Fault;

    open spec fn view(&self) -> Fault {
        match self {
            ParseError::MissingLink(n) => Fault::MissingLink(*n),
            ParseError::BadLink(n, e) => Fault::BadLink(*n, *e),
            ParseError::BadRange(n, e) => Fault::BadRange(*n, *e),
            ParseError::BadState(n, u) => Fault::BadState(*n, u.text@),
        }
    }
}

/// The key that an error is about.
pub open spec fn fault_key(f: Fault) -> Seq<char> {
    match f {
        Fault::MissingLink(n) => keys()[n as int],
        Fault::BadLink(n, _) => keys()[n as int],
        Fault::BadRange(n, _) => keys()[8 + n],
        Fault::BadState(n, _) => keys()[10 + n],
    }
}

/// What an error says.
pub open spec fn fault_text(f: Fault) -> Seq<char> {
    match f {
        Fault::MissingLink(_) => "missing '"@ + fault_key(f) + "' field"@,
        _ => "parsing "@ + fault_key(f),
    }
}

impl ParseError {
    /// What the error says.
    pub fn message(&self) -> (r: String)
        requires
            match self {
                ParseError::MissingLink(n) => *n < 2,
                ParseError::BadLink(n, _) => *n < 2,
                ParseError::BadRange(n, _) => *n < 2,
                ParseError::BadState(n, _) => *n < 2,
            },
        ensures
            r@ == fault_text(self@),
    {
        let mut out: Vec<char> = Vec::new();
        match self {
            ParseError::MissingLink(n) => {
                crate::text::append_str(&mut out, "missing '");
                crate::text::append_str(&mut out, key(*n as usize));
                crate::text::append_str(&mut out, "' field");
            },
            ParseError::BadLink(n, _) => {
                crate::text::append_str(&mut out, "parsing ");
                crate::text::append_str(&mut out, key(*n as usize));
            },
            ParseError::BadRange(n, _) => {
                crate::text::append_str(&mut out, "parsing ");
                crate::text::append_str(&mut out, key(8 + *n as usize));
            },
            ParseError::BadState(n, _) => {
                crate::text::append_str(&mut out, "parsing ");
                crate::text::append_str(&mut out, key(10 + *n as usize));
            },
        }
        assert(out@ =~= fault_text(self@));
        string_of(out.as_slice())
    }
}

/// A link value read: missing, or an endpoint, or why it is none.
pub open spec fn link_read(o: Option<Seq<char>>, n: u8) -> Result<EndpointView, Fault> {
    match o {
        None => Err(Fault::MissingLink(n)),
        Some(t) => match endpoint_read(t) {
            Ok(e) => Ok(e),
            Err(e) => Err(Fault::BadLink(n, e)),
        },
    }
}

/// A range value read, where there is one.
pub open spec fn opt_range(o: Option<Seq<char>>) -> Result<Option<ByteRange>, RangeError> {
    match o {
        None => Ok(None),
        Some(t) => match range_of(t) {
            Ok(r) => Ok(Some(r)),
            Err(e) => Err(e),
        },
    }
}

/// A state value read, where there is one; what failed to name a state otherwise.
pub open spec fn opt_state(o: Option<Seq<char>>) -> Result<Option<EndpointState>, Seq<char>> {
    match o {
        None => Ok(None),
        Some(t) => match state_named(t) {
            Some(x) => Ok(Some(x)),
            None => Err(trim(t)),
        },
    }
}

/// A bilink file read: its values, taken in the order link.0, link.1, range.0,
/// range.1, state.0, state.1, the first that fails deciding the error.
pub open spec fn bilink_read(text: Seq<char>, uuid: Seq<char>) -> Result<BiLinkView, Fault> {
    let f = fields(text);
    match link_read(f[0], 0) {
        Err(x) => Err(x),
        Ok(l0) => match link_read(f[1], 1) {
            Err(x) => Err(x),
            Ok(l1) => match opt_range(f[8]) {
                Err(e) => Err(Fault::BadRange(0, e)),
                Ok(r0) => match opt_range(f[9]) {
                    Err(e) => Err(Fault::BadRange(1, e)),
                    Ok(r1) => match opt_state(f[10]) {
                        Err(t) => Err(Fault::BadState(0, t)),
                        Ok(s0) => match opt_state(f[11]) {
                            Err(t) => Err(Fault::BadState(1, t)),
                            Ok(s1) => Ok(
                                BiLinkView {
                                    uuid,
                                    link0: l0,
                                    link1: l1,
                                    hash0: f[2],
                                    hash_ast0: f[3],
                                    commit0: f[4],
                                    hash1: f[5],
                                    hash_ast1: f[6],
                                    commit1: f[7],
                                    range0: r0,
                                    range1: r1,
                                    state0: s0,
                                    state1: s1,
                                    resolved_at: f[12],
                                },
                            ),
                        },
                    },
                },
            },
        },
    }
}

/// A `key: value` line.
pub open spec fn field_line(key: Seq<char>, value: Seq<char>) -> Seq<char> {
    key + ": "@ + value + "\n"@
}

/// A `key: value` line where there is a value; nothing otherwise.
pub open spec fn opt_line(key: Seq<char>, o: Option<Seq<char>>) -> Seq<char> {
    match o {
        Some(v) => field_line(key, v),
        None => Seq::<char>::empty(),
    }
}

/// A range written, where there is one.
pub open spec fn range_value(o: Option<ByteRange>) -> Option<Seq<char>> {
    match o {
        Some(r) => Some(range_text(r)),
        None => None,
    }
}

/// A state written, where there is one.
pub open spec fn state_value(o: Option<EndpointState>) -> Option<Seq<char>> {
    match o {
        Some(x) => Some(state_text(x)),
        None => None,
    }
}

/// Whether a bilink has anything in its cache section: a hash, an AST hash, a
/// state, a range or a resolution time. The commits alone do not count.
pub open spec fn has_cache(v: BiLinkView) -> bool {
    ||| v.hash0 is Some
    ||| v.hash1 is Some
    ||| v.hash_ast0 is Some
    ||| v.hash_ast1 is Some
    ||| v.state0 is Some
    ||| v.state1 is Some
    ||| v.range0 is Some
    ||| v.range1 is Some
    ||| v.resolved_at is Some
}

/// The cached values of the first endpoint: hash, AST hash, commit, range.
pub open spec fn cache_first(v: BiLinkView) -> Seq<char> {
    opt_line(keys()[2], v.hash0) + opt_line(keys()[3], v.hash_ast0) + opt_line(keys()[4], v.commit0)
        + opt_line(keys()[8], range_value(v.range0))
}

/// The cached values of the second endpoint: hash, AST hash, commit, range.
pub open spec fn cache_second(v: BiLinkView) -> Seq<char> {
    opt_line(keys()[5], v.hash1) + opt_line(keys()[6], v.hash_ast1) + opt_line(keys()[7], v.commit1)
        + opt_line(keys()[9], range_value(v.range1))
}

/// The states and the resolution time.
pub open spec fn cache_last(v: BiLinkView) -> Seq<char> {
    opt_line(keys()[10], state_value(v.state0)) + opt_line(keys()[11], state_value(v.state1))
        + opt_line(keys()[12], v.resolved_at)
}

/// The cache section: its heading, then each value that is there.
pub open spec fn cache_text(v: BiLinkView) -> Seq<char> {
    "\n# Cache\n"@ + cache_first(v) + cache_second(v) + cache_last(v)
}

/// A bilink written: its two links, then the cache section where it has one.
pub open spec fn bilink_text(v: BiLinkView) -> Seq<char> {
    field_line(keys()[0], endpoint_text(v.link0)) + field_line(keys()[1], endpoint_text(v.link1))
        + if has_cache(v) {
        cache_text(v)
    } else {
        Seq::<char>::empty()
    }
}

/// Appends a `key: value` line.
fn push_field(out: &mut Vec<char>, k: &str, value: &[char])
    ensures
        final(out)@ == old(out)@ + field_line(k@, value@),
{
    crate::text::append_str(out, k);
    crate::text::append_str(out, ": ");
    crate::text::append(out, value);
    out.push('\n');
    assert(out@ =~= old(out)@ + field_line(k@, value@)) by {
        reveal_strlit("\n");
    }
}

/// Appends a `key: value` line where there is a value.
fn push_opt(out: &mut Vec<char>, k: &str, value: &Option<String>)
    ensures
        final(out)@ == old(out)@ + opt_line(k@, opt_view(*value)),
{
    match value {
        Some(v) => {
            let c = chars_of(v.as_str());
            push_field(out, k, c.as_slice());
        },
        None => {
            assert(out@ =~= old(out)@ + opt_line(k@, opt_view(*value)));
        },
    }
}

/// A value read, as an owned string.
fn owned_value(o: &Option<Vec<char>>) -> (r: Option<String>)
    ensures
        opt_view(r) == match o {
            Some(x) => Some(x@),
            None => None::<Seq<char>>,
        },
{
    match o {
        Some(x) => Some(string_of(x.as_slice())),
        None => None,
    }
}

/// A link value read.
fn read_link(o: &Option<Vec<char>>, n: u8) -> (r: Result<LinkEndpoint, ParseError>)
    ensures
        match r {
            Ok(e) => link_read(
                match o {
                    Some(x) => Some(x@),
                    None => None,
                },
                n,
            ) == Ok::<_, Fault>(e@),
            Err(e) => link_read(
                match o {
                    Some(x) => Some(x@),
                    None => None,
                },
                n,
            ) == Err::<EndpointView, _>(e@),
        },
{
    match o {
        None => Err(ParseError::MissingLink(n)),
        Some(x) => {
            let s = string_of(x.as_slice());
            match LinkEndpoint::parse(s.as_str()) {
                Ok(e) => Ok(e),
                Err(e) => Err(ParseError::BadLink(n, e)),
            }
        },
    }
}

/// A range value read, where there is one.
fn read_range(o: &Option<Vec<char>>) -> (r: Result<Option<ByteRange>, RangeError>)
    ensures
        r == opt_range(
            match o {
                Some(x) => Some(x@),
                None => None,
            },
        ),
{
    match o {
        None => Ok(None),
        Some(x) => {
            let s = string_of(x.as_slice());
            match ByteRange::parse(s.as_str()) {
                Ok(r) => Ok(Some(r)),
                Err(e) => Err(e),
            }
        },
    }
}

/// A state value read, where there is one.
fn read_state(o: &Option<Vec<char>>) -> (r: Result<Option<EndpointState>, UnknownState>)
    ensures
        match r {
            Ok(x) => opt_state(
                match o {
                    Some(v) => Some(v@),
                    None => None,
                },
            ) == Ok::<_, Seq<char>>(x),
            Err(u) => opt_state(
                match o {
                    Some(v) => Some(v@),
                    None => None,
                },
            ) == Err::<Option<EndpointState>, _>(u.text@),
        },
{
    match o {
        None => Ok(None),
        Some(x) => {
            let s = string_of(x.as_slice());
            match EndpointState::parse(s.as_str()) {
                Ok(st) => Ok(Some(st)),
                Err(u) => Err(u),
            }
        },
    }
}

/// Appends the cached values of the first endpoint.
fn push_first(out: &mut Vec<char>, b: &BiLinkFile)
    ensures
        final(out)@ == old(out)@ + cache_first(b@),
{
    push_opt(out, key(2), &b.hash0);
    push_opt(out, key(3), &b.hash_ast0);
    push_opt(out, key(4), &b.commit0);
    let r = match b.range0 {
        Some(r) => Some(r.text()),
        None => None,
    };
    push_opt(out, key(8), &r);
    assert(out@ =~= old(out)@ + cache_first(b@));
}

/// Appends the cached values of the second endpoint.
fn push_second(out: &mut Vec<char>, b: &BiLinkFile)
    ensures
        final(out)@ == old(out)@ + cache_second(b@),
{
    push_opt(out, key(5), &b.hash1);
    push_opt(out, key(6), &b.hash_ast1);
    push_opt(out, key(7), &b.commit1);
    let r = match b.range1 {
        Some(r) => Some(r.text()),
        None => None,
    };
    push_opt(out, key(9), &r);
    assert(out@ =~= old(out)@ + cache_second(b@));
}

/// Appends the states and the resolution time.
fn push_last(out: &mut Vec<char>, b: &BiLinkFile)
    ensures
        final(out)@ == old(out)@ + cache_last(b@),
{
    let s0 = match b.state0 {
        Some(x) => Some(x.text()),
        None => None,
    };
    push_opt(out, key(10), &s0);
    let s1 = match b.state1 {
        Some(x) => Some(x.text()),
        None => None,
    };
    push_opt(out, key(11), &s1);
    push_opt(out, key(12), &b.resolved_at);
    assert(out@ =~= old(out)@ + cache_last(b@));
}

impl BiLinkFile {
    /// A bilink just made: two endpoints and an empty cache.
    pub fn new(uuid: String, link0: LinkEndpoint, link1: LinkEndpoint) -> (r: BiLinkFile)
        ensures
            r@ == (BiLinkView {
                uuid: uuid@,
                link0: link0@,
                link1: link1@,
                hash0: None,
                hash_ast0: None,
                commit0: None,
                hash1: None,
                hash_ast1: None,
                commit1: None,
                range0: None,
                range1: None,
                state0: None,
                state1: None,
                resolved_at: None,
            }),
    {
        BiLinkFile {
            uuid,
            link0,
            link1,
            hash0: None,
            hash_ast0: None,
            commit0: None,
            hash1: None,
            hash_ast1: None,
            commit1: None,
            range0: None,
            range1: None,
            state0: None,
            state1: None,
            resolved_at: None,
        }
    }

    /// Reads a bilink file's text; the id is the file's stem.
    pub fn parse(text: &str, uuid: &str) -> (r: Result<BiLinkFile, ParseError>)
        ensures
            match r {
                Ok(b) => bilink_read(text@, uuid@) == Ok::<_, Fault>(b@),
                Err(e) => bilink_read(text@, uuid@) == Err::<BiLinkView, _>(e@),
            },
    {
        let v = chars_of(text);
        let f = scan_fields(v.as_slice());
        assert(f@.len() == KEY_COUNT);
        proof {
            assert(opt_chars(f@)[0] == fields(text@)[0]);
        }
        let link0 = match read_link(&f[0], 0) {
            Ok(e) => e,
            Err(e) => return Err(e),
        };
        let link1 = match read_link(&f[1], 1) {
            Ok(e) => e,
            Err(e) => return Err(e),
        };
        let range0 = match read_range(&f[8]) {
            Ok(r) => r,
            Err(e) => return Err(ParseError::BadRange(0, e)),
        };
        let range1 = match read_range(&f[9]) {
            Ok(r) => r,
            Err(e) => return Err(ParseError::BadRange(1, e)),
        };
        let state0 = match read_state(&f[10]) {
            Ok(x) => x,
            Err(u) => return Err(ParseError::BadState(0, u)),
        };
        let state1 = match read_state(&f[11]) {
            Ok(x) => x,
            Err(u) => return Err(ParseError::BadState(1, u)),
        };
        let b = BiLinkFile {
            uuid: crate::text::owned(uuid),
            link0,
            link1,
            hash0: owned_value(&f[2]),
            hash_ast0: owned_value(&f[3]),
            commit0: owned_value(&f[4]),
            hash1: owned_value(&f[5]),
            hash_ast1: owned_value(&f[6]),
            commit1: owned_value(&f[7]),
            range0,
            range1,
            state0,
            state1,
            resolved_at: owned_value(&f[12]),
        };
        Ok(b)
    }

    /// The text of the bilink file.
    pub fn text(&self) -> (r: String)
        ensures
            r@ == bilink_text(self@),
    {
        let mut out: Vec<char> = Vec::new();
        let l0 = chars_of(self.link0.text().as_str());
        push_field(&mut out, key(0), l0.as_slice());
        let l1 = chars_of(self.link1.text().as_str());
        push_field(&mut out, key(1), l1.as_slice());
        let ghost head = out@;
        let has = self.hash0.is_some() || self.hash1.is_some() || self.hash_ast0.is_some()
            || self.hash_ast1.is_some() || self.state0.is_some() || self.state1.is_some()
            || self.range0.is_some() || self.range1.is_some() || self.resolved_at.is_some();
        if has {
            crate::text::append_str(&mut out, "\n# Cache\n");
            push_first(&mut out, self);
            push_second(&mut out, self);
            push_last(&mut out, self);
            assert(out@ =~= head + cache_text(self@));
        }
        assert(out@ =~= bilink_text(self@));
        string_of(out.as_slice())
    }

    /// Endpoint `n`: `0` or, for anything else, `1`.
    pub fn link(&self, n: u8) -> (r: &LinkEndpoint)
        ensures
            *r == if n == 0 {
                self.link0
            } else {
                self.link1
            },
    {
        if n == 0 {
            &self.link0
        } else {
            &self.link1
        }
    }

    /// The state of endpoint `n`.
    pub fn state(&self, n: u8) -> (r: &Option<EndpointState>)
        ensures
            *r == if n == 0 {
                self.state0
            } else {
                self.state1
            },
    {
        if n == 0 {
            &self.state0
        } else {
            &self.state1
        }
    }

    /// Sets the state of endpoint `n`, leaving the rest as it was.
    pub fn set_state(&mut self, n: u8, s: Option<EndpointState>)
        ensures
            final(self)@ == (if n == 0 {
                BiLinkView { state0: s, ..old(self)@ }
            } else {
                BiLinkView { state1: s, ..old(self)@ }
            }),
    {
        if n == 0 {
            self.state0 = s;
        } else {
            self.state1 = s;
        }
    }

    /// The accepted hash of endpoint `n`.
    pub fn hash(&self, n: u8) -> (r: Option<&str>)
        ensures
            match r {
                Some(h) => (if n == 0 { self@.hash0 } else { self@.hash1 }) == Some(h@),
                None => (if n == 0 { self@.hash0 } else { self@.hash1 }) is None,
            },
    {
        if n == 0 {
            as_deref(&self.hash0)
        } else {
            as_deref(&self.hash1)
        }
    }

    /// The accepted AST hash of endpoint `n`.
    pub fn hash_ast(&self, n: u8) -> (r: Option<&str>)
        ensures
            match r {
                Some(h) => (if n == 0 { self@.hash_ast0 } else { self@.hash_ast1 }) == Some(h@),
                None => (if n == 0 { self@.hash_ast0 } else { self@.hash_ast1 }) is None,
            },
    {
        if n == 0 {
            as_deref(&self.hash_ast0)
        } else {
            as_deref(&self.hash_ast1)
        }
    }

    /// The commit endpoint `n` was accepted at.
    pub fn commit(&self, n: u8) -> (r: Option<&str>)
        ensures
            match r {
                Some(h) => (if n == 0 { self@.commit0 } else { self@.commit1 }) == Some(h@),
                None => (if n == 0 { self@.commit0 } else { self@.commit1 }) is None,
            },
    {
        if n == 0 {
            as_deref(&self.commit0)
        } else {
            as_deref(&self.commit1)
        }
    }

    /// The endpoint that is a fragment of a file: the first such, if any.
    pub fn structural_n(&self) -> (r: Option<u8>)
        ensures
            r == if self.link0 is Fragment {
                Some(0u8)
            } else if self.link1 is Fragment {
                Some(1u8)
            } else {
                None
            },
    {
        if self.link0.is_structural() {
            Some(0)
        } else if self.link1.is_structural() {
            Some(1)
        } else {
            None
        }
    }

    /// The accepted hash of the fragment endpoint.
    pub fn structural_hash(&self) -> (r: Option<&str>)
        ensures
            match r {
                Some(h) => (self.link0 is Fragment && self@.hash0 == Some(h@)) || (!(self.link0 is Fragment)
                    && self.link1 is Fragment && self@.hash1 == Some(h@)),
                None => (self.link0 is Fragment ==> self@.hash0 is None) && (!(self.link0 is Fragment)
                    && self.link1 is Fragment ==> self@.hash1 is None),
            },
    {
        match self.structural_n() {
            Some(n) => self.hash(n),
            None => None,
        }
    }

    /// The commit the fragment endpoint was accepted at.
    pub fn structural_commit(&self) -> (r: Option<&str>)
        ensures
            match r {
                Some(h) => (self.link0 is Fragment && self@.commit0 == Some(h@)) || (!(self.link0 is Fragment)
                    && self.link1 is Fragment && self@.commit1 == Some(h@)),
                None => (self.link0 is Fragment ==> self@.commit0 is None) && (!(self.link0 is Fragment)
                    && self.link1 is Fragment ==> self@.commit1 is None),
            },
    {
        match self.structural_n() {
            Some(n) => self.commit(n),
            None => None,
        }
    }
}

/// A held string, lent as a `&str`.
fn as_deref(o: &Option<String>) -> (r: Option<&str>)
    ensures
        match r {
            Some(h) => opt_view(*o) == Some(h@),
            None => o is None,
        },
{
    match o {
        Some(s) => Some(s.as_str()),
        None => None,
    }
}


/// Whether a bilink answers to an id: the id is its uuid, or the start of it.
pub open spec fn answers_to(uuid: Seq<char>, id: Seq<char>) -> bool {
    starts_with(uuid, id)
}

impl BiLinkFile {
    /// The first of the bilinks found that answers to `id`: its uuid is `id` or
    /// starts with it.
    pub fn find_by_id(found: &Vec<BiLinkFile>, id: &str) -> (r: Option<usize>)
        ensures
            match r {
                Some(i) => i < found.len() && answers_to(found@[i as int].uuid@, id@) && forall|j: int|
                    0 <= j < i ==> !answers_to(#[trigger] found@[j].uuid@, id@),
                None => forall|j: int| 0 <= j < found.len() ==> !answers_to(#[trigger] found@[j].uuid@, id@),
            },
    {
        let idv = chars_of(id);
        let mut i: usize = 0;
        while i < found.len()
            invariant
                i <= found.len(),
                idv@ == id@,
                forall|j: int| 0 <= j < i ==> !answers_to(#[trigger] found@[j].uuid@, id@),
            decreases found.len() - i,
        {
            let u = chars_of(found[i].uuid.as_str());
            if crate::text::starts_with_of(u.as_slice(), idv.as_slice()) {
                return Some(i);
            }
            i = i + 1;
        }
        None
    }
}


// ─── reading back what was written ──────────────────────────────────────────

/// Lines, each closed by a `\n`.
pub open spec fn with_newlines(ls: Seq<Seq<char>>) -> Seq<char>
    decreases ls.len(),
{
    if ls.len() == 0 {
        Seq::<char>::empty()
    } else {
        ls[0] + "\n"@ + with_newlines(ls.drop_first())
    }
}

/// A line that `str::lines` gives back as it is: no line break in it, no `\r` at its end.
pub open spec fn whole_line(l: Seq<char>) -> bool {
    crate::text::lacks(l, '\n') && (l.len() > 0 ==> l.last() != '\r')
}

proof fn lemma_with_newlines_concat(a: Seq<Seq<char>>, b: Seq<Seq<char>>)
    ensures
        with_newlines(a + b) == with_newlines(a) + with_newlines(b),
    decreases a.len(),
{
    if a.len() == 0 {
        assert(a + b =~= b);
    } else {
        assert((a + b).drop_first() =~= a.drop_first() + b);
        lemma_with_newlines_concat(a.drop_first(), b);
    }
}

proof fn lemma_lines_of_with_newlines(ls: Seq<Seq<char>>)
    requires
        forall|i: int| 0 <= i < ls.len() ==> whole_line(#[trigger] ls[i]),
    ensures
        lines(with_newlines(ls)) == ls,
    decreases ls.len(),
{
    reveal_strlit("\n");
    if ls.len() > 0 {
        let a = ls[0];
        assert(whole_line(ls[0]));
        let b = with_newlines(ls.drop_first());
        assert(with_newlines(ls) =~= a + seq!['\n'] + b);
        crate::text::lemma_lines_split(a, b, seq![]);
        assert(Seq::<char>::empty() + a =~= a);
        assert(crate::text::strip_cr(a) == a);
        assert forall|i: int| 0 <= i < ls.drop_first().len() implies whole_line(
            #[trigger] ls.drop_first()[i],
        ) by {
            assert(ls.drop_first()[i] == ls[i + 1]);
        }
        lemma_lines_of_with_newlines(ls.drop_first());
        assert(lines(with_newlines(ls)) =~= seq![a] + ls.drop_first());
        assert(seq![a] + ls.drop_first() =~= ls);
    } else {
        assert(with_newlines(ls) =~= Seq::<char>::empty());
    }
}


/// The keys have no `:` in them, and no two are alike.
proof fn lemma_keys()
    ensures
        keys().len() == KEY_COUNT,
        forall|j: int| 0 <= j < KEY_COUNT ==> crate::text::lacks(#[trigger] keys()[j], ':'),
        forall|j: int| 0 <= j < KEY_COUNT ==> crate::text::lacks(#[trigger] keys()[j], '\n'),
        forall|j: int| 0 <= j < KEY_COUNT ==> (#[trigger] keys()[j]).len() > 0 && !crate::text::ws(keys()[j][0]) && keys()[j][0] != '#',
        forall|i: int, j: int| 0 <= i < KEY_COUNT && 0 <= j < KEY_COUNT && i != j ==> #[trigger] keys()[i] != #[trigger] keys()[j],
{
    reveal_strlit("link.0");
    reveal_strlit("link.1");
    reveal_strlit("hash.0");
    reveal_strlit("hash_ast.0");
    reveal_strlit("commit.0");
    reveal_strlit("hash.1");
    reveal_strlit("hash_ast.1");
    reveal_strlit("commit.1");
    reveal_strlit("range.0");
    reveal_strlit("range.1");
    reveal_strlit("state.0");
    reveal_strlit("state.1");
    reveal_strlit("resolved_at");
    let k = keys();
    assert forall|i: int, j: int| 0 <= i < KEY_COUNT && 0 <= j < KEY_COUNT && i != j implies #[trigger] k[i] != #[trigger] k[j] by {
        if k[i].len() == k[j].len() {
            assert(k[i][k[i].len() - 1] != k[j][k[j].len() - 1] || k[i][0] != k[j][0] || k[i][4] != k[j][4]);
        }
    }
}

/// Two keys that a line opens with, each followed by `:`, are the same key.
proof fn lemma_one_key(line: Seq<char>, a: Seq<char>, b: Seq<char>)
    requires
        crate::text::lacks(a, ':'),
        crate::text::lacks(b, ':'),
        starts_with(line, a + ":"@),
        starts_with(line, b + ":"@),
    ensures
        a == b,
{
    reveal_strlit(":");
    assert(line.take((a.len() + 1) as int) == a + ":"@);
    assert(line.take((b.len() + 1) as int) == b + ":"@);
    if a.len() < b.len() {
        assert(line[a.len() as int] == (a + ":"@)[a.len() as int]);
        assert(line[a.len() as int] == (b + ":"@)[a.len() as int]);
        assert(b[a.len() as int] == ':');
    } else if b.len() < a.len() {
        assert(line[b.len() as int] == (b + ":"@)[b.len() as int]);
        assert(line[b.len() as int] == (a + ":"@)[b.len() as int]);
        assert(a[b.len() as int] == ':');
    } else {
        assert forall|i: int| 0 <= i < a.len() implies a[i] == b[i] by {
            assert(line[i] == (a + ":"@)[i]);
            assert(line[i] == (b + ":"@)[i]);
        }
        assert(a =~= b);
    }
}

/// A line that opens with a key and `:` sets that key.
proof fn lemma_key_of(k: int, rest: Seq<char>)
    requires
        0 <= k < KEY_COUNT,
    ensures
        key_of(keys()[k] + ":"@ + rest) == Some(k),
{
    lemma_keys();
    let line = keys()[k] + ":"@ + rest;
    assert(line.take((keys()[k] + ":"@).len() as int) =~= keys()[k] + ":"@);
    lemma_key_from(line, k, 0);
}

proof fn lemma_key_from(line: Seq<char>, k: int, i: int)
    requires
        0 <= i <= k < KEY_COUNT,
        starts_with(line, keys()[k] + ":"@),
    ensures
        key_from(line, i) == Some(k),
    decreases k - i,
{
    lemma_keys();
    if i < k {
        if starts_with(line, keys()[i] + ":"@) {
            lemma_one_key(line, keys()[i], keys()[k]);
        }
        lemma_key_from(line, k, i + 1);
    }
}

/// A value with no whitespace at its ends reads back from after the `: `.
pub(crate) proof fn lemma_trim_spaced(x: Seq<char>)
    requires
        trim(x) == x,
    ensures
        trim(" "@ + x) == x,
{
    reveal_strlit(" ");
    let s = " "@ + x;
    assert(s.drop_first() =~= x);
    assert(crate::text::trim_start(s) == crate::text::trim_start(x));
}

/// What opens with a character that is not whitespace keeps that character first
/// once trimmed.
proof fn lemma_trim_keeps_first(s: Seq<char>)
    requires
        s.len() > 0,
        !crate::text::ws(s[0]),
    ensures
        trim(s).len() > 0,
        trim(s)[0] == s[0],
{
    assert(crate::text::trim_start(s) == s);
    lemma_trim_end_keeps_first(s);
}

proof fn lemma_trim_end_keeps_first(s: Seq<char>)
    requires
        s.len() > 0,
        !crate::text::ws(s[0]),
    ensures
        crate::text::trim_end(s).len() > 0,
        crate::text::trim_end(s)[0] == s[0],
    decreases s.len(),
{
    if ws_last(s) {
        assert(s.len() > 1);
        assert(s.drop_last()[0] == s[0]);
        lemma_trim_end_keeps_first(s.drop_last());
    }
}

spec fn ws_last(s: Seq<char>) -> bool {
    s.len() > 0 && crate::text::ws(s.last())
}

/// The line `key: value`.
pub open spec fn key_line(k: int, x: Seq<char>) -> Seq<char> {
    keys()[k] + ": "@ + x
}

/// A value that fits on its line: no line break, no whitespace at its ends.
pub open spec fn fits(x: Seq<char>) -> bool {
    crate::text::lacks(x, '\n') && trim(x) == x
}

/// A key line is no gap, sets its key, and sets it to its value.
proof fn lemma_key_line(k: int, x: Seq<char>)
    requires
        0 <= k < KEY_COUNT,
        fits(x),
    ensures
        !is_gap(key_line(k, x)),
        key_of(key_line(k, x)) == Some(k),
        value_of(key_line(k, x), k) == x,
        whole_line(key_line(k, x)),
{
    reveal_strlit(": ");
    reveal_strlit(":");
    reveal_strlit(" ");
    lemma_keys();
    let l = key_line(k, x);
    assert(l =~= keys()[k] + ":"@ + (" "@ + x));
    lemma_key_of(k, " "@ + x);
    assert(l[0] == keys()[k][0]);
    lemma_trim_keeps_first(l);
    assert(l.skip(keys()[k].len() as int + 1) =~= " "@ + x);
    lemma_trim_spaced(x);
    assert forall|i: int| 0 <= i < l.len() implies #[trigger] l[i] != '\n' by {
        if i < keys()[k].len() {
            assert(l[i] == keys()[k][i]);
        } else if i < keys()[k].len() + 2 {
            assert(l[i] == (": "@)[i - keys()[k].len()]);
        } else {
            assert(l[i] == x[i - keys()[k].len() - 2]);
        }
    }
    if x.len() > 0 {
        assert(l.last() == x.last());
        assert(trim(x).len() > 0);
        assert(!crate::text::ws(x.last())) by {
            assert(crate::text::trim_end(crate::text::trim_start(x)) == x);
            lemma_trimmed_ends(x);
        }
    }
}

/// What trimming leaves alone has no whitespace at its ends.
pub(crate) proof fn lemma_trimmed_ends(x: Seq<char>)
    requires
        trim(x) == x,
        x.len() > 0,
    ensures
        !crate::text::ws(x[0]),
        !crate::text::ws(x.last()),
{
    lemma_trim_len(x);
    if crate::text::ws(x[0]) {
        lemma_trim_start_len(x.drop_first());
        lemma_trim_end_len(crate::text::trim_start(x));
        assert(crate::text::trim_start(x) == crate::text::trim_start(x.drop_first()));
    }
    if crate::text::ws(x.last()) {
        lemma_trim_end_len(crate::text::trim_start(x));
        if crate::text::trim_start(x) == x {
            assert(crate::text::trim_end(x) == crate::text::trim_end(x.drop_last()));
            lemma_trim_end_len(x.drop_last());
        } else {
            lemma_trim_start_len(x);
        }
    }
}

proof fn lemma_trim_len(x: Seq<char>)
    ensures
        trim(x).len() <= x.len(),
{
    lemma_trim_start_len(x);
    lemma_trim_end_len(crate::text::trim_start(x));
}

proof fn lemma_trim_start_len(x: Seq<char>)
    ensures
        crate::text::trim_start(x).len() <= x.len(),
        crate::text::trim_start(x).len() < x.len() <== (x.len() > 0 && crate::text::ws(x[0])),
    decreases x.len(),
{
    if x.len() > 0 && crate::text::ws(x[0]) {
        lemma_trim_start_len(x.drop_first());
    }
}

proof fn lemma_trim_end_len(x: Seq<char>)
    ensures
        crate::text::trim_end(x).len() <= x.len(),
        crate::text::trim_end(x).len() < x.len() <== (x.len() > 0 && crate::text::ws(x.last())),
    decreases x.len(),
{
    if x.len() > 0 && crate::text::ws(x.last()) {
        lemma_trim_end_len(x.drop_last());
    }
}


/// Lines that are each a gap or a key line: none goes on with a value.
pub open spec fn plain(ls: Seq<Seq<char>>) -> bool {
    forall|i: int| 0 <= i < ls.len() ==> is_gap(#[trigger] ls[i]) || key_of(ls[i]) is Some
}

/// The values after lines that are each a gap or a key line: each key line sets its key.
pub open spec fn assign(values: Seq<Option<Seq<char>>>, ls: Seq<Seq<char>>) -> Seq<Option<Seq<char>>>
    decreases ls.len(),
{
    if ls.len() == 0 {
        values
    } else if is_gap(ls[0]) {
        assign(values, ls.drop_first())
    } else {
        match key_of(ls[0]) {
            Some(k) => assign(values.update(k, Some(value_of(ls[0], k))), ls.drop_first()),
            None => assign(values, ls.drop_first()),
        }
    }
}

proof fn lemma_scan_plain(values: Seq<Option<Seq<char>>>, current: Option<int>, ls: Seq<Seq<char>>)
    requires
        plain(ls),
    ensures
        scan(values, current, ls) == assign(values, ls),
    decreases ls.len(),
{
    if ls.len() > 0 {
        assert(is_gap(ls[0]) || key_of(ls[0]) is Some);
        let (v, c) = step(values, current, ls[0]);
        assert forall|i: int| 0 <= i < ls.drop_first().len() implies is_gap(
            #[trigger] ls.drop_first()[i],
        ) || key_of(ls.drop_first()[i]) is Some by {
            assert(ls.drop_first()[i] == ls[i + 1]);
        }
        lemma_scan_plain(v, c, ls.drop_first());
    }
}

proof fn lemma_assign_concat(values: Seq<Option<Seq<char>>>, a: Seq<Seq<char>>, b: Seq<Seq<char>>)
    ensures
        assign(values, a + b) == assign(assign(values, a), b),
    decreases a.len(),
{
    if a.len() == 0 {
        assert(a + b =~= b);
    } else {
        assert((a + b)[0] == a[0]);
        assert((a + b).drop_first() =~= a.drop_first() + b);
        if is_gap(a[0]) {
            lemma_assign_concat(values, a.drop_first(), b);
        } else {
            match key_of(a[0]) {
                Some(k) => lemma_assign_concat(
                    values.update(k, Some(value_of(a[0], k))),
                    a.drop_first(),
                    b,
                ),
                None => lemma_assign_concat(values, a.drop_first(), b),
            }
        }
    }
}

/// The key line of a value, where there is one.
pub open spec fn opt_key_line(k: int, o: Option<Seq<char>>) -> Seq<Seq<char>> {
    match o {
        Some(x) => seq![key_line(k, x)],
        None => Seq::<Seq<char>>::empty(),
    }
}

/// A value set where there is one.
pub open spec fn set_opt(values: Seq<Option<Seq<char>>>, k: int, o: Option<Seq<char>>) -> Seq<
    Option<Seq<char>>,
> {
    match o {
        Some(x) => values.update(k, Some(x)),
        None => values,
    }
}

/// Whether a value that may be missing fits on its line.
pub open spec fn opt_fits(o: Option<Seq<char>>) -> bool {
    o matches Some(x) ==> fits(x)
}

proof fn lemma_opt_key_line(values: Seq<Option<Seq<char>>>, k: int, o: Option<Seq<char>>)
    requires
        0 <= k < KEY_COUNT,
        opt_fits(o),
    ensures
        assign(values, opt_key_line(k, o)) == set_opt(values, k, o),
        with_newlines(opt_key_line(k, o)) == opt_line(keys()[k], o),
        plain(opt_key_line(k, o)),
        forall|i: int| 0 <= i < opt_key_line(k, o).len() ==> whole_line(#[trigger] opt_key_line(k, o)[i]),
{
    reveal_strlit(": ");
    reveal_strlit("\n");
    match o {
        Some(x) => {
            lemma_key_line(k, x);
            let ls = opt_key_line(k, o);
            assert(ls.drop_first() =~= Seq::<Seq<char>>::empty());
            assert(ls[0] == key_line(k, x));
            assert(with_newlines(ls.drop_first()) == Seq::<char>::empty());
            assert(assign(values.update(k, Some(x)), ls.drop_first()) == values.update(k, Some(x)));
            assert(with_newlines(ls) =~= key_line(k, x) + "\n"@);
            assert(field_line(keys()[k], x) =~= key_line(k, x) + "\n"@);
        },
        None => {
        },
    }
}

/// The lines of the first endpoint's cached values.
pub open spec fn first_lines(v: BiLinkView) -> Seq<Seq<char>> {
    opt_key_line(2, v.hash0) + opt_key_line(3, v.hash_ast0) + opt_key_line(4, v.commit0)
        + opt_key_line(8, range_value(v.range0))
}

/// The lines of the second endpoint's cached values.
pub open spec fn second_lines(v: BiLinkView) -> Seq<Seq<char>> {
    opt_key_line(5, v.hash1) + opt_key_line(6, v.hash_ast1) + opt_key_line(7, v.commit1)
        + opt_key_line(9, range_value(v.range1))
}

/// The lines of the states and the resolution time.
pub open spec fn last_lines(v: BiLinkView) -> Seq<Seq<char>> {
    opt_key_line(10, state_value(v.state0)) + opt_key_line(11, state_value(v.state1))
        + opt_key_line(12, v.resolved_at)
}

/// The lines of the cache section.
pub open spec fn cache_lines(v: BiLinkView) -> Seq<Seq<char>> {
    seq![Seq::<char>::empty(), "# Cache"@] + first_lines(v) + second_lines(v) + last_lines(v)
}

/// The lines of a bilink's text.
pub open spec fn written_lines(v: BiLinkView) -> Seq<Seq<char>> {
    seq![key_line(0, endpoint_text(v.link0)), key_line(1, endpoint_text(v.link1))] + if has_cache(v) {
        cache_lines(v)
    } else {
        Seq::<Seq<char>>::empty()
    }
}

/// Lines that read back one by one, none going on with a value.
pub open spec fn good(ls: Seq<Seq<char>>) -> bool {
    plain(ls) && forall|i: int| 0 <= i < ls.len() ==> whole_line(#[trigger] ls[i])
}

proof fn lemma_good_concat(a: Seq<Seq<char>>, b: Seq<Seq<char>>)
    requires
        good(a),
        good(b),
    ensures
        good(a + b),
{
    assert forall|i: int| 0 <= i < (a + b).len() implies is_gap(#[trigger] (a + b)[i]) || key_of((a + b)[i]) is Some by {
        if i < a.len() {
            assert((a + b)[i] == a[i]);
        } else {
            assert((a + b)[i] == b[i - a.len()]);
        }
    }
    assert forall|i: int| 0 <= i < (a + b).len() implies whole_line(#[trigger] (a + b)[i]) by {
        if i < a.len() {
            assert((a + b)[i] == a[i]);
        } else {
            assert((a + b)[i] == b[i - a.len()]);
        }
    }
}

/// Four optional key lines in a row: their text, their values, and that they read back.
proof fn lemma_four(
    values: Seq<Option<Seq<char>>>,
    k1: int, o1: Option<Seq<char>>,
    k2: int, o2: Option<Seq<char>>,
    k3: int, o3: Option<Seq<char>>,
    k4: int, o4: Option<Seq<char>>,
)
    requires
        0 <= k1 < KEY_COUNT, 0 <= k2 < KEY_COUNT, 0 <= k3 < KEY_COUNT, 0 <= k4 < KEY_COUNT,
        opt_fits(o1), opt_fits(o2), opt_fits(o3), opt_fits(o4),
    ensures
        ({
            let ls = opt_key_line(k1, o1) + opt_key_line(k2, o2) + opt_key_line(k3, o3) + opt_key_line(k4, o4);
            &&& good(ls)
            &&& with_newlines(ls) == opt_line(keys()[k1], o1) + opt_line(keys()[k2], o2) + opt_line(keys()[k3], o3) + opt_line(keys()[k4], o4)
            &&& assign(values, ls) == set_opt(set_opt(set_opt(set_opt(values, k1, o1), k2, o2), k3, o3), k4, o4)
        }),
{
    let a = opt_key_line(k1, o1);
    let b = opt_key_line(k2, o2);
    let c = opt_key_line(k3, o3);
    let d = opt_key_line(k4, o4);
    let v1 = set_opt(values, k1, o1);
    let v2 = set_opt(v1, k2, o2);
    let v3 = set_opt(v2, k3, o3);
    lemma_opt_key_line(values, k1, o1);
    lemma_opt_key_line(v1, k2, o2);
    lemma_opt_key_line(v2, k3, o3);
    lemma_opt_key_line(v3, k4, o4);
    lemma_good_concat(a, b);
    lemma_good_concat(a + b, c);
    lemma_good_concat(a + b + c, d);
    lemma_with_newlines_concat(a, b);
    lemma_with_newlines_concat(a + b, c);
    lemma_with_newlines_concat(a + b + c, d);
    lemma_assign_concat(values, a, b);
    lemma_assign_concat(values, a + b, c);
    lemma_assign_concat(values, a + b + c, d);
}

/// Three optional key lines in a row: their text, their values, and that they read back.
proof fn lemma_three(
    values: Seq<Option<Seq<char>>>,
    k1: int, o1: Option<Seq<char>>,
    k2: int, o2: Option<Seq<char>>,
    k3: int, o3: Option<Seq<char>>,
)
    requires
        0 <= k1 < KEY_COUNT, 0 <= k2 < KEY_COUNT, 0 <= k3 < KEY_COUNT,
        opt_fits(o1), opt_fits(o2), opt_fits(o3),
    ensures
        ({
            let ls = opt_key_line(k1, o1) + opt_key_line(k2, o2) + opt_key_line(k3, o3);
            &&& good(ls)
            &&& with_newlines(ls) == opt_line(keys()[k1], o1) + opt_line(keys()[k2], o2) + opt_line(keys()[k3], o3)
            &&& assign(values, ls) == set_opt(set_opt(set_opt(values, k1, o1), k2, o2), k3, o3)
        }),
{
    let a = opt_key_line(k1, o1);
    let b = opt_key_line(k2, o2);
    let c = opt_key_line(k3, o3);
    let v1 = set_opt(values, k1, o1);
    let v2 = set_opt(v1, k2, o2);
    lemma_opt_key_line(values, k1, o1);
    lemma_opt_key_line(v1, k2, o2);
    lemma_opt_key_line(v2, k3, o3);
    lemma_good_concat(a, b);
    lemma_good_concat(a + b, c);
    lemma_with_newlines_concat(a, b);
    lemma_with_newlines_concat(a + b, c);
    lemma_assign_concat(values, a, b);
    lemma_assign_concat(values, a + b, c);
}

/// The values a bilink's text holds, by the key's place.
pub open spec fn written_values(v: BiLinkView) -> Seq<Option<Seq<char>>> {
    seq![
        Some(endpoint_text(v.link0)),
        Some(endpoint_text(v.link1)),
        v.hash0,
        v.hash_ast0,
        v.commit0,
        v.hash1,
        v.hash_ast1,
        v.commit1,
        range_value(v.range0),
        range_value(v.range1),
        state_value(v.state0),
        state_value(v.state1),
        v.resolved_at,
    ]
}


/// A range written fits on its line and reads back as itself.
pub(crate) proof fn lemma_range_reads_back(r: ByteRange)
    ensures
        fits(range_text(r)),
        range_of(range_text(r)) == Ok::<_, RangeError>(r),
{
    reveal_strlit("~");
    let a = crate::refmsg::decimal(r.start as nat);
    let b = crate::refmsg::decimal(r.end as nat);
    crate::index::lemma_decimal(r.start as nat);
    crate::index::lemma_decimal(r.end as nat);
    let t = range_text(r);
    assert(t =~= a + "~"@ + b);
    assert(crate::text::occurs_at(t, a.len() as int, "~"@)) by {
        assert(t.subrange(a.len() as int, a.len() as int + 1) =~= "~"@);
    }
    assert forall|j: int| 0 <= j < a.len() implies !crate::text::occurs_at(t, j, "~"@) by {
        assert(t[j] == a[j]);
        assert(crate::index::is_digit(a[j]));
        if crate::text::occurs_at(t, j, "~"@) {
            assert(t.subrange(j, j + 1)[0] == t[j]);
        }
    }
    crate::text::lemma_find_first(t, "~"@, 0, a.len() as int);
    assert(t.take(a.len() as int) =~= a);
    assert(t.skip(a.len() as int + 1) =~= b);
    assert(crate::index::is_digit(a[0]) && crate::index::is_digit(a.last()));
    assert(crate::index::is_digit(b[0]) && crate::index::is_digit(b.last()));
    crate::text::lemma_trim_fixed(a);
    crate::text::lemma_trim_fixed(b);
    assert(crate::index::unsigned_part(a) == a);
    assert(crate::index::unsigned_part(b) == b);
    assert(t[0] == a[0]);
    assert(t.last() == b.last());
    crate::text::lemma_trim_fixed(t);
    assert forall|i: int| 0 <= i < t.len() implies #[trigger] t[i] != '\n' by {
        if i < a.len() {
            assert(t[i] == a[i]);
        } else if i > a.len() {
            assert(t[i] == b[i - a.len() - 1]);
        }
    }
}

/// A state written fits on its line.
proof fn lemma_state_fits(x: EndpointState)
    ensures
        fits(state_text(x)),
{
    reveal_strlit("PENDING");
    reveal_strlit("OK");
    reveal_strlit("TODO");
    reveal_strlit("MOVED");
    reveal_strlit("DISPLACED");
    reveal_strlit("REANCHORED");
    reveal_strlit("EXPANDED");
    reveal_strlit("UNANCHORED");
    reveal_strlit("ALTERED");
    reveal_strlit("DELETED");
    reveal_strlit("BROKEN");
    reveal_strlit("CHAIN_DIRTY");
    reveal_strlit("RESTYLED");
    reveal_strlit("RELOCATED");
    reveal_strlit("UNRESOLVED");
    reveal_strlit("CONSENSUS_DIVERGED");
    reveal_strlit("OPEN");
    let t = state_text(x);
    assert(t.len() > 0 && 'A' <= t[0] <= 'Z' && 'A' <= t.last() <= 'Z');
    crate::text::lemma_trim_fixed(t);
    assert forall|i: int| 0 <= i < t.len() implies #[trigger] t[i] != '\n' by {
        assert(t[i] == '_' || ('A' <= t[i] <= 'Z'));
    }
}

/// The blank line and the heading of the cache section.
proof fn lemma_heading(values: Seq<Option<Seq<char>>>)
    ensures
        good(seq![Seq::<char>::empty(), "# Cache"@]),
        with_newlines(seq![Seq::<char>::empty(), "# Cache"@]) == "\n# Cache\n"@,
        assign(values, seq![Seq::<char>::empty(), "# Cache"@]) == values,
{
    reveal_strlit("# Cache");
    reveal_strlit("\n");
    reveal_strlit("\n# Cache\n");
    let h = seq![Seq::<char>::empty(), "# Cache"@];
    let c = "# Cache"@;
    crate::text::lemma_trim_fixed(c);
    assert(is_gap(Seq::<char>::empty()));
    assert(is_gap(c));
    assert(whole_line(c));
    assert(h[0] == Seq::<char>::empty() && h[1] == c);
    assert(h.drop_first() =~= seq![c]);
    assert(h.drop_first().drop_first() =~= Seq::<Seq<char>>::empty());
    assert(with_newlines(h.drop_first().drop_first()) == Seq::<char>::empty());
    assert(with_newlines(h.drop_first()) =~= c + "\n"@);
    assert(with_newlines(h) =~= "\n# Cache\n"@);
    assert(assign(values, h.drop_first().drop_first()) == values);
    assert(assign(values, h.drop_first()) == values);
}

/// The conditions under which a bilink's text reads back as the bilink.
pub open spec fn writable(v: BiLinkView) -> bool {
    &&& fits(endpoint_text(v.link0))
    &&& fits(endpoint_text(v.link1))
    &&& crate::link::endpoint_writable(v.link0)
    &&& crate::link::endpoint_writable(v.link1)
    &&& opt_fits(v.hash0)
    &&& opt_fits(v.hash_ast0)
    &&& opt_fits(v.commit0)
    &&& opt_fits(v.hash1)
    &&& opt_fits(v.hash_ast1)
    &&& opt_fits(v.commit1)
    &&& opt_fits(v.resolved_at)
    &&& (v.commit0 is Some || v.commit1 is Some) ==> has_cache(v)
}

proof fn lemma_value_fits(v: BiLinkView)
    ensures
        opt_fits(range_value(v.range0)),
        opt_fits(range_value(v.range1)),
        opt_fits(state_value(v.state0)),
        opt_fits(state_value(v.state1)),
{
    if let Some(r) = v.range0 {
        lemma_range_reads_back(r);
    }
    if let Some(r) = v.range1 {
        lemma_range_reads_back(r);
    }
    if let Some(x) = v.state0 {
        lemma_state_fits(x);
    }
    if let Some(x) = v.state1 {
        lemma_state_fits(x);
    }
}

/// The cache section's lines: their text, and the values they set.
proof fn lemma_cache_lines(v: BiLinkView, values: Seq<Option<Seq<char>>>)
    requires
        writable(v),
    ensures
        good(cache_lines(v)),
        with_newlines(cache_lines(v)) == cache_text(v),
        assign(values, cache_lines(v)) == set_opt(set_opt(set_opt(set_opt(set_opt(set_opt(set_opt(
            set_opt(set_opt(set_opt(set_opt(values, 2, v.hash0), 3, v.hash_ast0), 4, v.commit0), 8, range_value(v.range0)),
            5, v.hash1), 6, v.hash_ast1), 7, v.commit1), 9, range_value(v.range1)), 10, state_value(v.state0)), 11,
            state_value(v.state1)), 12, v.resolved_at),
{
    lemma_value_fits(v);
    let h = seq![Seq::<char>::empty(), "# Cache"@];
    let a = first_lines(v);
    let b = second_lines(v);
    let c = last_lines(v);
    lemma_heading(values);
    let v1 = set_opt(set_opt(set_opt(set_opt(values, 2, v.hash0), 3, v.hash_ast0), 4, v.commit0), 8, range_value(v.range0));
    let v2 = set_opt(set_opt(set_opt(set_opt(v1, 5, v.hash1), 6, v.hash_ast1), 7, v.commit1), 9, range_value(v.range1));
    lemma_four(values, 2, v.hash0, 3, v.hash_ast0, 4, v.commit0, 8, range_value(v.range0));
    lemma_four(v1, 5, v.hash1, 6, v.hash_ast1, 7, v.commit1, 9, range_value(v.range1));
    lemma_three(v2, 10, state_value(v.state0), 11, state_value(v.state1), 12, v.resolved_at);
    lemma_good_concat(h, a);
    lemma_good_concat(h + a, b);
    lemma_good_concat(h + a + b, c);
    lemma_with_newlines_concat(h, a);
    lemma_with_newlines_concat(h + a, b);
    lemma_with_newlines_concat(h + a + b, c);
    lemma_assign_concat(values, h, a);
    lemma_assign_concat(values, h + a, b);
    lemma_assign_concat(values, h + a + b, c);
    assert(with_newlines(cache_lines(v)) =~= cache_text(v));
}


/// The values the text of a bilink sets, key by key.
proof fn lemma_fields_written(v: BiLinkView)
    requires
        writable(v),
    ensures
        fields(bilink_text(v)) == written_values(v),
{
    let t0 = endpoint_text(v.link0);
    let t1 = endpoint_text(v.link1);
    let l = opt_key_line(0, Some(t0)) + opt_key_line(1, Some(t1));
    let w0 = set_opt(unset(), 0, Some(t0));
    let w = set_opt(w0, 1, Some(t1));
    lemma_opt_key_line(unset(), 0, Some(t0));
    lemma_opt_key_line(w0, 1, Some(t1));
    lemma_good_concat(opt_key_line(0, Some(t0)), opt_key_line(1, Some(t1)));
    lemma_with_newlines_concat(opt_key_line(0, Some(t0)), opt_key_line(1, Some(t1)));
    lemma_assign_concat(unset(), opt_key_line(0, Some(t0)), opt_key_line(1, Some(t1)));
    assert(l =~= seq![key_line(0, t0), key_line(1, t1)]);
    let ls = written_lines(v);
    if has_cache(v) {
        lemma_cache_lines(v, w);
        lemma_good_concat(l, cache_lines(v));
        lemma_with_newlines_concat(l, cache_lines(v));
        lemma_assign_concat(unset(), l, cache_lines(v));
        assert(ls == l + cache_lines(v));
        assert(with_newlines(ls) =~= bilink_text(v));
    } else {
        assert(ls =~= l);
        assert(with_newlines(ls) =~= bilink_text(v));
    }
    lemma_lines_of_with_newlines(ls);
    lemma_scan_plain(unset(), None, ls);
    assert(fields(bilink_text(v)) == assign(unset(), ls));
    lemma_values_set(v);
}

/// Setting a value that was not set: it holds the value after, the rest as before.
proof fn lemma_set_opt(values: Seq<Option<Seq<char>>>, k: int, o: Option<Seq<char>>)
    requires
        0 <= k < values.len(),
        values[k] is None,
    ensures
        set_opt(values, k, o).len() == values.len(),
        set_opt(values, k, o)[k] == o,
        forall|i: int| 0 <= i < values.len() && i != k ==> set_opt(values, k, o)[i] == values[i],
{
}

/// The links set, then the cached values where there is a cache section: the values
/// of the bilink, key by key.
#[verifier::spinoff_prover]
proof fn lemma_values_set(v: BiLinkView)
    requires
        writable(v),
    ensures
        ({
            let w = set_opt(set_opt(unset(), 0, Some(endpoint_text(v.link0))), 1, Some(endpoint_text(v.link1)));
            if has_cache(v) {
                set_opt(set_opt(set_opt(set_opt(set_opt(set_opt(set_opt(
                    set_opt(set_opt(set_opt(set_opt(w, 2, v.hash0), 3, v.hash_ast0), 4, v.commit0), 8, range_value(v.range0)),
                    5, v.hash1), 6, v.hash_ast1), 7, v.commit1), 9, range_value(v.range1)), 10, state_value(v.state0)), 11,
                    state_value(v.state1)), 12, v.resolved_at) == written_values(v)
            } else {
                w == written_values(v)
            }
        }),
{
    let u = unset();
    let w0 = set_opt(u, 0, Some(endpoint_text(v.link0)));
    lemma_set_opt(u, 0, Some(endpoint_text(v.link0)));
    let w = set_opt(w0, 1, Some(endpoint_text(v.link1)));
    lemma_set_opt(w0, 1, Some(endpoint_text(v.link1)));
    if has_cache(v) {
        let c2 = set_opt(w, 2, v.hash0);
        lemma_set_opt(w, 2, v.hash0);
        let c3 = set_opt(c2, 3, v.hash_ast0);
        lemma_set_opt(c2, 3, v.hash_ast0);
        let c4 = set_opt(c3, 4, v.commit0);
        lemma_set_opt(c3, 4, v.commit0);
        let c8 = set_opt(c4, 8, range_value(v.range0));
        lemma_set_opt(c4, 8, range_value(v.range0));
        let c5 = set_opt(c8, 5, v.hash1);
        lemma_set_opt(c8, 5, v.hash1);
        let c6 = set_opt(c5, 6, v.hash_ast1);
        lemma_set_opt(c5, 6, v.hash_ast1);
        let c7 = set_opt(c6, 7, v.commit1);
        lemma_set_opt(c6, 7, v.commit1);
        let c9 = set_opt(c7, 9, range_value(v.range1));
        lemma_set_opt(c7, 9, range_value(v.range1));
        let c10 = set_opt(c9, 10, state_value(v.state0));
        lemma_set_opt(c9, 10, state_value(v.state0));
        let c11 = set_opt(c10, 11, state_value(v.state1));
        lemma_set_opt(c10, 11, state_value(v.state1));
        let c12 = set_opt(c11, 12, v.resolved_at);
        lemma_set_opt(c11, 12, v.resolved_at);
        assert(c12 =~= written_values(v));
    } else {
        assert(w =~= written_values(v));
    }
}

/// **A bilink written reads back as itself.** Where each value fits on its line (no
/// line break in it, no whitespace at its ends), each link is an endpoint that its
/// text carries (`endpoint_writable`), and the commits are written only along with
/// the cache section, reading the text of a bilink gives back the same bilink, under
/// the id it is read with.
pub proof fn lemma_text_reads_back(v: BiLinkView)
    requires
        writable(v),
    ensures
        bilink_read(bilink_text(v), v.uuid) == Ok::<_, Fault>(v),
{
    lemma_fields_written(v);
    crate::link::lemma_endpoint_reads_back(v.link0);
    crate::link::lemma_endpoint_reads_back(v.link1);
    let f = fields(bilink_text(v));
    if let Some(r) = v.range0 {
        lemma_range_reads_back(r);
    }
    if let Some(r) = v.range1 {
        lemma_range_reads_back(r);
    }
    if let Some(x) = v.state0 {
        crate::link::lemma_state_round_trip(x);
    }
    if let Some(x) = v.state1 {
        crate::link::lemma_state_round_trip(x);
    }
    assert(link_read(f[0], 0) == Ok::<_, Fault>(v.link0));
    assert(link_read(f[1], 1) == Ok::<_, Fault>(v.link1));
    assert(opt_range(f[8]) == Ok::<_, RangeError>(v.range0));
    assert(opt_range(f[9]) == Ok::<_, RangeError>(v.range1));
    assert(opt_state(f[10]) == Ok::<_, Seq<char>>(v.state0));
    assert(opt_state(f[11]) == Ok::<_, Seq<char>>(v.state1));
}

} // verus!
