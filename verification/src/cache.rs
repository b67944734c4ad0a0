//! `.bilink/cache/state`: everything that can be rebuilt.
//!
//! **If a value can be recomputed, it does not go in the bilink.** What stays
//! versioned is what nobody can rebuild — the declaration and the decision. The
//! cache is not in git, so being cold is a **normal** state: a fresh clone, another
//! branch, another machine. Reading and writing the file is the caller's; this is
//! what the cache holds and how it answers.
use vstd::prelude::*;

use crate::link::{state_named, state_text, EndpointState};
use crate::refmsg::decimal;
use crate::state::{capture_named, CaptureState};
use crate::text::{append, append_str, chars_of, lines, lines_of, owned, same_str, string_of, strip_prefix, trim, trim_of, views};

verus! {

/// What `check` knows of a capture: where it fell, and whether it resolves.
#[derive(Debug, Clone, PartialEq)]
pub struct CaptureCache {
    /// The ranges of the fragment, `start~end` separated by commas.
    pub range: Option<String>,
    pub state: Option<String>,
}

/// What is known of an endpoint.
#[derive(Debug, Clone, PartialEq)]
pub struct EndpointCache {
    /// Acceptance state. `check` writes it.
    pub state: Option<String>,
    /// The commit where the fragment got the accepted content. `accept` writes it.
    pub commit: Option<String>,
    /// What the fragment is called in the vocabulary of its generator.
    pub alias: Option<String>,
}

/// The cache of a layer. One file, not one per bilink.
#[derive(Debug, Clone, PartialEq)]
pub struct Cache {
    /// The commit of `refs/bilink/<branch>` it came from. **With this the cache
    /// invalidates itself**: a cache of another branch is never read.
    pub ref_commit: Option<String>,
    /// By capture id.
    pub captures: Vec<(String, CaptureCache)>,
    /// By `<uuid>.<N>`.
    pub endpoints: Vec<(String, EndpointCache)>,
}

impl Default for Cache {
    fn default() -> (r: Cache)
        ensures
            r.ref_commit is None,
            r.captures@.len() == 0,
            r.endpoints@.len() == 0,
    {
        Cache { ref_commit: None, captures: Vec::new(), endpoints: Vec::new() }
    }
}

/// The value under `k`: the last entry with that key.
pub open spec fn lookup<V>(v: Seq<(String, V)>, k: Seq<char>) -> Option<V>
    decreases v.len(),
{
    if v.len() == 0 {
        None
    } else if v.last().0@ == k {
        Some(v.last().1)
    } else {
        lookup(v.drop_last(), k)
    }
}

/// No key occurs twice.
pub open spec fn keys_unique<V>(v: Seq<(String, V)>) -> bool {
    forall|i: int, j: int| 0 <= i < j < v.len() ==> #[trigger] v[i].0@ != #[trigger] v[j].0@
}

/// The key of an endpoint: `<uuid>.<N>`.
pub open spec fn endpoint_key(uuid: Seq<char>, n: u8) -> Seq<char> {
    uuid + "."@ + decimal(n as nat)
}

/// An endpoint's entry, as character sequences.
pub open spec fn entry_view(e: EndpointCache) -> (Option<Seq<char>>, Option<Seq<char>>, Option<Seq<char>>) {
    (opt(e.state), opt(e.commit), opt(e.alias))
}

/// The view of an optional string.
pub open spec fn opt(o: Option<String>) -> Option<Seq<char>> {
    match o {
        Some(s) => Some(s@),
        None => None,
    }
}

/// The entry of an endpoint, as character sequences.
pub open spec fn endpoint_entry(eps: Seq<(String, EndpointCache)>, key: Seq<char>) -> Option<
    (Option<Seq<char>>, Option<Seq<char>>, Option<Seq<char>>),
> {
    match lookup(eps, key) {
        Some(e) => Some(entry_view(e)),
        None => None,
    }
}

/// The endpoint's entry, or an empty one where there is none.
pub open spec fn entry_or_empty(eps: Seq<(String, EndpointCache)>, key: Seq<char>) -> (
    Option<Seq<char>>,
    Option<Seq<char>>,
    Option<Seq<char>>,
) {
    match endpoint_entry(eps, key) {
        Some(e) => e,
        None => (None, None, None),
    }
}

/// The state recorded for an endpoint, when it names one.
pub open spec fn endpoint_state_of(eps: Seq<(String, EndpointCache)>, key: Seq<char>) -> Option<
    EndpointState,
> {
    match endpoint_entry(eps, key) {
        Some((Some(s), _, _)) => state_named(s),
        _ => None,
    }
}

/// The last entry with key `k` is at `i`.
proof fn lemma_lookup_at<V>(v: Seq<(String, V)>, k: Seq<char>, i: int)
    requires
        0 <= i < v.len(),
        v[i].0@ == k,
        forall|j: int| i < j < v.len() ==> #[trigger] v[j].0@ != k,
    ensures
        lookup(v, k) == Some(v[i].1),
    decreases v.len(),
{
    if i < v.len() - 1 {
        assert(v.drop_last()[i] == v[i]);
        assert forall|j: int| i < j < v.len() - 1 implies #[trigger] v.drop_last()[j].0@ != k by {
            assert(v.drop_last()[j] == v[j]);
        }
        lemma_lookup_at(v.drop_last(), k, i);
    }
}

/// No entry with key `k`.
proof fn lemma_lookup_none<V>(v: Seq<(String, V)>, k: Seq<char>)
    requires
        forall|j: int| 0 <= j < v.len() ==> #[trigger] v[j].0@ != k,
    ensures
        lookup(v, k) is None,
    decreases v.len(),
{
    if v.len() > 0 {
        assert forall|j: int| 0 <= j < v.len() - 1 implies #[trigger] v.drop_last()[j].0@ != k by {
            assert(v.drop_last()[j] == v[j]);
        }
        lemma_lookup_none(v.drop_last(), k);
    }
}

/// Changing the value at `i` changes what its key answers and nothing else.
proof fn lemma_lookup_update<V>(v: Seq<(String, V)>, i: int, val: V, k2: Seq<char>)
    requires
        0 <= i < v.len(),
        forall|j: int| i < j < v.len() ==> #[trigger] v[j].0@ != v[i].0@,
    ensures
        lookup(v.update(i, (v[i].0, val)), k2) == if k2 == v[i].0@ {
            Some(val)
        } else {
            lookup(v, k2)
        },
    decreases v.len(),
{
    let w = v.update(i, (v[i].0, val));
    if i < v.len() - 1 {
        assert(w.drop_last() =~= v.drop_last().update(i, (v[i].0, val)));
        assert(v.drop_last()[i] == v[i]);
        assert forall|j: int| i < j < v.len() - 1 implies #[trigger] v.drop_last()[j].0@
            != v.drop_last()[i].0@ by {
            assert(v.drop_last()[j] == v[j]);
        }
        lemma_lookup_update(v.drop_last(), i, val, k2);
        assert(w.last() == v.last());
    } else {
        assert(w.drop_last() =~= v.drop_last());
    }
}

/// The place of the last entry with key `key`.
fn find_key<V>(v: &Vec<(String, V)>, key: &[char]) -> (r: Option<usize>)
    ensures
        match r {
            Some(i) => i < v@.len() && v@[i as int].0@ == key@ && forall|j: int|
                i < j < v@.len() ==> #[trigger] v@[j].0@ != key@,
            None => forall|j: int| 0 <= j < v@.len() ==> #[trigger] v@[j].0@ != key@,
        },
{
    let mut i = v.len();
    while i > 0
        invariant
            i <= v@.len(),
            forall|j: int| i <= j < v@.len() ==> #[trigger] v@[j].0@ != key@,
        decreases i,
    {
        let k = chars_of(v[i - 1].0.as_str());
        if crate::text::same(k.as_slice(), key) {
            return Some(i - 1);
        }
        i = i - 1;
    }
    None
}

/// A copy of an optional string.
fn copy_opt(o: &Option<String>) -> (r: Option<String>)
    ensures
        r == *o,
{
    match o {
        Some(s) => Some(s.clone()),
        None => None,
    }
}

/// The key of an endpoint, `<uuid>.<N>`.
fn key(uuid: &str, n: u8) -> (r: Vec<char>)
    ensures
        r@ == endpoint_key(uuid@, n),
{
    let mut k = chars_of(uuid);
    append_str(&mut k, ".");
    let d = crate::refmsg::decimal_of(n as u64);
    append(&mut k, d.as_slice());
    k
}

/// `path` joined with `name`, as `Path::join` does for a relative name.
pub open spec fn path_join(path: Seq<char>, name: Seq<char>) -> Seq<char> {
    if path.len() == 0 {
        name
    } else if path.last() == '/' {
        path + name
    } else {
        path + seq!['/'] + name
    }
}

pub(crate) fn path_join_of(path: &[char], name: &str) -> (r: Vec<char>)
    ensures
        r@ == path_join(path@, name@),
{
    let mut out = crate::text::to_vec(path);
    if path.len() > 0 && path[path.len() - 1] != '/' {
        out.push('/');
    }
    append_str(&mut out, name);
    out
}

/// The line `commit <c>` of a `head` text: `c`, trimmed.
pub open spec fn first_commit_line(ls: Seq<Seq<char>>) -> Option<Seq<char>>
    decreases ls.len(),
{
    if ls.len() == 0 {
        None
    } else {
        match strip_prefix(ls[0], "commit "@) {
            Some(c) => Some(trim(c)),
            None => first_commit_line(ls.drop_first()),
        }
    }
}

impl Cache {
    /// Where a layer's cache lives: `<layer>/.bilink/cache/state`.
    pub fn path_in(layer: &str) -> (r: String)
        ensures
            r@ == path_join(path_join(path_join(layer@, ".bilink"@), "cache"@), "state"@),
    {
        let l = chars_of(layer);
        let a = path_join_of(l.as_slice(), ".bilink");
        let b = path_join_of(a.as_slice(), "cache");
        let c = path_join_of(b.as_slice(), "state");
        string_of(c.as_slice())
    }

    /// The commit of the ref a `head` text names: its first line `commit <c>`.
    pub fn ref_commit_of(head: &str) -> (r: Option<String>)
        ensures
            opt(r) == first_commit_line(lines(head@)),
    {
        let v = chars_of(head);
        let ls = lines_of(v.as_slice());
        let prefix = chars_of("commit ");
        let mut i: usize = 0;
        assert(views(ls@).skip(0) =~= views(ls@));
        while i < ls.len()
            invariant
                i <= ls.len(),
                prefix@ == "commit "@,
                views(ls@) == lines(head@),
                first_commit_line(lines(head@)) == first_commit_line(views(ls@).skip(i as int)),
            decreases ls.len() - i,
        {
            assert(views(ls@).skip(i as int)[0] == ls@[i as int]@);
            match crate::text::strip_prefix_of(ls[i].as_slice(), prefix.as_slice()) {
                Some(c) => {
                    return Some(string_of(trim_of(c.as_slice()).as_slice()));
                },
                None => {},
            }
            assert(views(ls@).skip(i as int).drop_first() =~= views(ls@).skip(i as int + 1));
            i = i + 1;
        }
        assert(views(ls@).skip(i as int) =~= Seq::<Seq<char>>::empty());
        None
    }

    /// The cache loaded, only if it corresponds to this commit of the ref: if it
    /// names another one it is discarded whole, since it describes another branch.
    pub fn load_for(loaded: Cache, ref_commit: Option<&str>) -> (r: Cache)
        ensures
            match (loaded.ref_commit, ref_commit) {
                (Some(a), Some(b)) => if a@ != b@ {
                    r.ref_commit is None && r.captures@.len() == 0 && r.endpoints@.len() == 0
                } else {
                    r == loaded
                },
                _ => r == loaded,
            },
    {
        let stale = match (&loaded.ref_commit, ref_commit) {
            (Some(a), Some(b)) => !crate::text::same_text(a.as_str(), b),
            _ => false,
        };
        if stale {
            Cache::default()
        } else {
            loaded
        }
    }

    /// The state recorded for a capture, when it names one.
    pub fn capture_state(&self, id: &str) -> (r: Option<CaptureState>)
        ensures
            r == match lookup(self.captures@, id@) {
                Some(c) => match c.state {
                    Some(s) => capture_named(s@),
                    None => None,
                },
                None => None,
            },
    {
        let k = chars_of(id);
        match find_key(&self.captures, k.as_slice()) {
            None => {
                proof {
                    lemma_lookup_none(self.captures@, id@);
                }
                None
            },
            Some(i) => {
                proof {
                    lemma_lookup_at(self.captures@, id@, i as int);
                }
                match &self.captures[i].1.state {
                    Some(s) => CaptureState::parse(s.as_str()),
                    None => None,
                }
            },
        }
    }

    /// The place of an endpoint's entry.
    fn endpoint_at(&self, uuid: &str, n: u8) -> (r: (Vec<char>, Option<usize>))
        ensures
            r.0@ == endpoint_key(uuid@, n),
            match r.1 {
                Some(i) => i < self.endpoints@.len() && lookup(self.endpoints@, endpoint_key(uuid@, n))
                    == Some(self.endpoints@[i as int].1) && self.endpoints@[i as int].0@ == r.0@
                    && forall|j: int| i < j < self.endpoints@.len() ==> #[trigger] self.endpoints@[j].0@
                    != r.0@,
                None => lookup(self.endpoints@, endpoint_key(uuid@, n)) is None && forall|j: int|
                    0 <= j < self.endpoints@.len() ==> #[trigger] self.endpoints@[j].0@ != r.0@,
            },
    {
        let k = key(uuid, n);
        let found = find_key(&self.endpoints, k.as_slice());
        proof {
            match found {
                Some(i) => lemma_lookup_at(self.endpoints@, k@, i as int),
                None => lemma_lookup_none(self.endpoints@, k@),
            }
        }
        (k, found)
    }

    /// The state recorded for an endpoint, when it names one.
    pub fn endpoint_state(&self, uuid: &str, n: u8) -> (r: Option<EndpointState>)
        ensures
            r == endpoint_state_of(self.endpoints@, endpoint_key(uuid@, n)),
    {
        let (_, at) = self.endpoint_at(uuid, n);
        match at {
            None => None,
            Some(i) => match &self.endpoints[i].1.state {
                Some(s) => match EndpointState::parse(s.as_str()) {
                    Ok(x) => Some(x),
                    Err(_) => None,
                },
                None => None,
            },
        }
    }

    /// The alias of an endpoint, if its generator could name it at the last `check`.
    pub fn alias(&self, uuid: &str, n: u8) -> (r: Option<&str>)
        ensures
            match r {
                Some(a) => entry_or_empty(self.endpoints@, endpoint_key(uuid@, n)).2 == Some(a@),
                None => entry_or_empty(self.endpoints@, endpoint_key(uuid@, n)).2 is None,
            },
    {
        let (_, at) = self.endpoint_at(uuid, n);
        match at {
            None => None,
            Some(i) => match &self.endpoints[i].1.alias {
                Some(a) => Some(a.as_str()),
                None => None,
            },
        }
    }

    /// The commit of the accepted content of an endpoint, when the cache has it.
    pub fn commit(&self, uuid: &str, n: u8) -> (r: Option<&str>)
        ensures
            match r {
                Some(c) => entry_or_empty(self.endpoints@, endpoint_key(uuid@, n)).1 == Some(c@),
                None => entry_or_empty(self.endpoints@, endpoint_key(uuid@, n)).1 is None,
            },
    {
        let (_, at) = self.endpoint_at(uuid, n);
        match at {
            None => None,
            Some(i) => match &self.endpoints[i].1.commit {
                Some(c) => Some(c.as_str()),
                None => None,
            },
        }
    }

    /// Writes an endpoint's entry: `change` applied to the entry there was, or to an
    /// empty one.
    fn put_endpoint(&mut self, uuid: &str, n: u8, state: Option<Option<String>>, commit: Option<Option<String>>, alias: Option<Option<String>>)
        requires
            keys_unique(old(self).endpoints@),
        ensures
            keys_unique(final(self).endpoints@),
            final(self).ref_commit == old(self).ref_commit,
            final(self).captures == old(self).captures,
            ({
                let k = endpoint_key(uuid@, n);
                let before = entry_or_empty(old(self).endpoints@, k);
                &&& endpoint_entry(final(self).endpoints@, k) == Some((
                    match state { Some(s) => opt(s), None => before.0 },
                    match commit { Some(c) => opt(c), None => before.1 },
                    match alias { Some(a) => opt(a), None => before.2 },
                ))
                &&& forall|k2: Seq<char>| k2 != k ==> #[trigger] lookup(final(self).endpoints@, k2)
                    == lookup(old(self).endpoints@, k2)
            }),
    {
        let (k, at) = self.endpoint_at(uuid, n);
        let ghost kv = k@;
        let ghost v = self.endpoints@;
        match at {
            Some(i) => {
                let e = self.endpoints.remove(i);
                let new_state = match state {
                    Some(s) => s,
                    None => copy_opt(&e.1.state),
                };
                let new_commit = match commit {
                    Some(c) => c,
                    None => copy_opt(&e.1.commit),
                };
                let new_alias = match alias {
                    Some(a) => a,
                    None => copy_opt(&e.1.alias),
                };
                let entry = EndpointCache { state: new_state, commit: new_commit, alias: new_alias };
                self.endpoints.insert(i, (e.0, entry));
                proof {
                    assert(self.endpoints@ =~= v.update(i as int, (v[i as int].0, entry)));
                    assert forall|k2: Seq<char>| true implies #[trigger] lookup(self.endpoints@, k2)
                        == if k2 == v[i as int].0@ { Some(entry) } else { lookup(v, k2) } by {
                        lemma_lookup_update(v, i as int, entry, k2);
                    }
                    assert forall|a: int, b: int| 0 <= a < b < self.endpoints@.len() implies
                        #[trigger] self.endpoints@[a].0@ != #[trigger] self.endpoints@[b].0@ by {
                        assert(self.endpoints@[a].0 == v[a].0);
                        assert(self.endpoints@[b].0 == v[b].0);
                    }
                }
            },
            None => {
                let entry = EndpointCache {
                    state: match state { Some(s) => s, None => None },
                    commit: match commit { Some(c) => c, None => None },
                    alias: match alias { Some(a) => a, None => None },
                };
                let ks = string_of(k.as_slice());
                self.endpoints.push((ks, entry));
                proof {
                    let w = self.endpoints@;
                    assert(w.drop_last() =~= v);
                    assert forall|a: int, b: int| 0 <= a < b < w.len() implies
                        #[trigger] w[a].0@ != #[trigger] w[b].0@ by {
                        if b == w.len() - 1 {
                            assert(w[a] == v[a]);
                        } else {
                            assert(w[a] == v[a]);
                            assert(w[b] == v[b]);
                        }
                    }
                }
            },
        }
    }

    /// Records the state of an endpoint; `check` writes it.
    pub fn set_endpoint_state(&mut self, uuid: &str, n: u8, state: EndpointState)
        requires
            keys_unique(old(self).endpoints@),
        ensures
            keys_unique(final(self).endpoints@),
            final(self).ref_commit == old(self).ref_commit,
            final(self).captures == old(self).captures,
            ({
                let k = endpoint_key(uuid@, n);
                let before = entry_or_empty(old(self).endpoints@, k);
                &&& endpoint_entry(final(self).endpoints@, k) == Some(
                    (Some(state_text(state)), before.1, before.2),
                )
                &&& forall|k2: Seq<char>| k2 != k ==> #[trigger] lookup(final(self).endpoints@, k2)
                    == lookup(old(self).endpoints@, k2)
            }),
    {
        let t = state.text();
        self.put_endpoint(uuid, n, Some(Some(t)), None, None);
    }

    /// Records the alias; `check` writes it with the state. `None` erases it: a
    /// generator that no longer knows how to name cannot leave the old label.
    pub fn set_alias(&mut self, uuid: &str, n: u8, alias: Option<String>)
        requires
            keys_unique(old(self).endpoints@),
        ensures
            keys_unique(final(self).endpoints@),
            final(self).ref_commit == old(self).ref_commit,
            final(self).captures == old(self).captures,
            ({
                let k = endpoint_key(uuid@, n);
                let before = entry_or_empty(old(self).endpoints@, k);
                &&& endpoint_entry(final(self).endpoints@, k) == Some((before.0, before.1, opt(alias)))
                &&& forall|k2: Seq<char>| k2 != k ==> #[trigger] lookup(final(self).endpoints@, k2)
                    == lookup(old(self).endpoints@, k2)
            }),
    {
        self.put_endpoint(uuid, n, None, None, Some(alias));
    }

    /// Records the commit of the accepted content; `accept` writes it.
    pub fn set_commit(&mut self, uuid: &str, n: u8, commit: &str)
        requires
            keys_unique(old(self).endpoints@),
        ensures
            keys_unique(final(self).endpoints@),
            final(self).ref_commit == old(self).ref_commit,
            final(self).captures == old(self).captures,
            ({
                let k = endpoint_key(uuid@, n);
                let before = entry_or_empty(old(self).endpoints@, k);
                &&& endpoint_entry(final(self).endpoints@, k) == Some((before.0, Some(commit@), before.2))
                &&& forall|k2: Seq<char>| k2 != k ==> #[trigger] lookup(final(self).endpoints@, k2)
                    == lookup(old(self).endpoints@, k2)
            }),
    {
        self.put_endpoint(uuid, n, None, Some(Some(owned(commit))), None);
    }
}

/// **What is written is what is read.** After recording an endpoint's state, its
/// state reads back as that state; what any other endpoint answers is untouched.
pub proof fn lemma_state_read_after_write(
    before: Seq<(String, EndpointCache)>,
    after: Seq<(String, EndpointCache)>,
    key: Seq<char>,
    state: EndpointState,
    other: Seq<char>,
)
    requires
        endpoint_entry(after, key) == Some(
            (Some(state_text(state)), entry_or_empty(before, key).1, entry_or_empty(before, key).2),
        ),
        forall|k2: Seq<char>| k2 != key ==> #[trigger] lookup(after, k2) == lookup(before, k2),
        other != key,
    ensures
        endpoint_state_of(after, key) == Some(state),
        endpoint_state_of(after, other) == endpoint_state_of(before, other),
{
    crate::link::lemma_state_round_trip(state);
    assert(lookup(after, other) == lookup(before, other));
}


/// **Distinct endpoints have distinct keys.** The number after the last `.` is
/// written in decimal, which has no `.`, so the key gives back both its uuid and its
/// number.
pub proof fn lemma_endpoint_key_injective(u1: Seq<char>, n1: u8, u2: Seq<char>, n2: u8)
    ensures
        endpoint_key(u1, n1) == endpoint_key(u2, n2) ==> u1 == u2 && n1 == n2,
{
    reveal_strlit(".");
    if endpoint_key(u1, n1) == endpoint_key(u2, n2) {
        let d1 = decimal(n1 as nat);
        let d2 = decimal(n2 as nat);
        crate::index::lemma_decimal(n1 as nat);
        crate::index::lemma_decimal(n2 as nat);
        assert(endpoint_key(u1, n1) =~= u1 + seq!['.'] + d1);
        assert(endpoint_key(u2, n2) =~= u2 + seq!['.'] + d2);
        crate::text::lemma_rfind_last(u1, '.', d1);
        crate::text::lemma_rfind_last(u2, '.', d2);
        let k = endpoint_key(u1, n1);
        assert(u1.len() == u2.len());
        assert(u1 =~= k.take(u1.len() as int));
        assert(u2 =~= k.take(u2.len() as int));
        assert(d1 =~= k.skip(u1.len() as int + 1));
        assert(d2 =~= k.skip(u2.len() as int + 1));
    }
}

/// **Setting one endpoint's state leaves every other endpoint as it was**: after
/// `set_endpoint_state(uuid, n, state)`, the endpoint reads back `state`, and any
/// other `(uuid2, n2)` reads what it read before.
pub proof fn lemma_setting_one_endpoint(
    before: Seq<(String, EndpointCache)>,
    after: Seq<(String, EndpointCache)>,
    uuid: Seq<char>,
    n: u8,
    state: EndpointState,
    uuid2: Seq<char>,
    n2: u8,
)
    requires
        endpoint_entry(after, endpoint_key(uuid, n)) == Some(
            (
                Some(state_text(state)),
                entry_or_empty(before, endpoint_key(uuid, n)).1,
                entry_or_empty(before, endpoint_key(uuid, n)).2,
            ),
        ),
        forall|k2: Seq<char>| k2 != endpoint_key(uuid, n) ==> #[trigger] lookup(after, k2) == lookup(before, k2),
        uuid2 != uuid || n2 != n,
    ensures
        endpoint_state_of(after, endpoint_key(uuid, n)) == Some(state),
        endpoint_state_of(after, endpoint_key(uuid2, n2)) == endpoint_state_of(before, endpoint_key(uuid2, n2)),
        endpoint_entry(after, endpoint_key(uuid2, n2)) == endpoint_entry(before, endpoint_key(uuid2, n2)),
{
    lemma_endpoint_key_injective(uuid, n, uuid2, n2);
    lemma_state_read_after_write(before, after, endpoint_key(uuid, n), state, endpoint_key(uuid2, n2));
    assert(lookup(after, endpoint_key(uuid2, n2)) == lookup(before, endpoint_key(uuid2, n2)));
}
} // verus!
