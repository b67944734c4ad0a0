//! The parts of a fragment's content, and how they qualify the endpoint's state.
//!
//! **The state stays one word.** What the filter by state, the exit code and the
//! grouping of `status` consume is an [`EndpointState`], and its vocabulary is
//! closed. The names of the parts belong to the generator, so they go beside the
//! word, as a qualification, and never inside it.
use vstd::prelude::*;

use crate::link::{state_named, state_text, EndpointState};
use vstd::string::StringSliceAdditionalSpecFns;
use crate::text::{append_str, find, join, lemma_find_first, lemma_find_none, occurs_at, string_of};

verus! {

/// The state of each part, by name.
pub type DimensionStates = Vec<(String, EndpointState)>;

/// How serious a state of the content is, by the fix it asks for: `ALTERED` asks
/// for a review and fails, `EXPANDED` asks for a review and does not fail,
/// `RESTYLED` only asks to be accepted.
pub open spec fn severity_of(s: EndpointState) -> u8 {
    match s {
        EndpointState::Okay => 0,
        EndpointState::Restyled => 1,
        EndpointState::Expanded => 2,
        _ => 3,
    }
}

/// The states of the parts, without their names.
pub open spec fn states(dims: Seq<(String, EndpointState)>) -> Seq<EndpointState> {
    dims.map_values(|d: (String, EndpointState)| d.1)
}

/// The most serious of the states, the last one among equals; `OK` without any.
pub open spec fn word_of(ss: Seq<EndpointState>) -> EndpointState
    decreases ss.len(),
{
    if ss.len() == 0 {
        EndpointState::Okay
    } else if severity_of(ss.last()) >= severity_of(word_of(ss.drop_last())) {
        ss.last()
    } else {
        word_of(ss.drop_last())
    }
}

/// The parts whose state is not `OK`, in their order.
pub open spec fn not_ok(dims: Seq<(String, EndpointState)>) -> Seq<(String, EndpointState)>
    decreases dims.len(),
{
    if dims.len() == 0 {
        seq![]
    } else {
        not_ok(dims.drop_last()) + if dims.last().1 == EndpointState::Okay {
            seq![]
        } else {
            seq![dims.last()]
        }
    }
}

/// How serious a state is.
fn severity(s: EndpointState) -> (r: u8)
    ensures
        r == severity_of(s),
{
    match s {
        EndpointState::Okay => 0,
        EndpointState::Restyled => 1,
        EndpointState::Expanded => 2,
        _ => 3,
    }
}

/// What the word of a list of states is: one of them, or `OK` for none, and no
/// state of the list more serious.
pub proof fn lemma_word_is_the_most_serious(ss: Seq<EndpointState>)
    ensures
        ss.len() == 0 ==> word_of(ss) == EndpointState::Okay,
        ss.len() > 0 ==> ss.contains(word_of(ss)),
        forall|i: int| 0 <= i < ss.len() ==> severity_of(#[trigger] ss[i]) <= severity_of(word_of(ss)),
    decreases ss.len(),
{
    if ss.len() > 0 {
        let front = ss.drop_last();
        lemma_word_is_the_most_serious(front);
        assert forall|i: int| 0 <= i < ss.len() implies severity_of(#[trigger] ss[i]) <= severity_of(
            word_of(ss),
        ) by {
            if i < front.len() {
                assert(ss[i] == front[i]);
            }
        }
        if severity_of(ss.last()) >= severity_of(word_of(front)) {
            assert(ss[ss.len() - 1] == ss.last());
        } else {
            let k = choose|k: int| 0 <= k < front.len() && front[k] == word_of(front);
            assert(ss[k] == front[k]);
        }
    }
}

/// The endpoint's word: that of its most serious part, and `OK` without any.
pub fn word(dims: &DimensionStates) -> (r: EndpointState)
    ensures
        r == word_of(states(dims@)),
        dims.len() == 0 ==> r == EndpointState::Okay,
        dims.len() > 0 ==> states(dims@).contains(r),
        forall|i: int| 0 <= i < dims.len() ==> severity_of(#[trigger] dims@[i].1) <= severity_of(r),
{
    let mut best = EndpointState::Okay;
    let mut i: usize = 0;
    while i < dims.len()
        invariant
            i <= dims.len(),
            best == word_of(states(dims@).take(i as int)),
        decreases dims.len() - i,
    {
        let s = dims[i].1;
        let ghost prev = states(dims@).take(i as int);
        let ghost next = states(dims@).take(i as int + 1);
        assert(next.drop_last() =~= prev);
        assert(next.last() == s);
        if severity(s) >= severity(best) {
            best = s;
        }
        i = i + 1;
    }
    assert(states(dims@).take(i as int) =~= states(dims@));
    proof {
        lemma_word_is_the_most_serious(states(dims@));
        assert forall|i: int| 0 <= i < dims.len() implies severity_of(#[trigger] dims@[i].1)
            <= severity_of(best) by {
            assert(states(dims@)[i] == dims@[i].1);
        }
    }
    best
}

/// The parts that qualify the word: those that are not `OK`, **also those that do
/// not fail**. Accepting approves every part at once, so whoever reviews a changed
/// one has to know that another was reformatted.
pub fn qualifying(dims: DimensionStates) -> (r: DimensionStates)
    ensures
        r@ == not_ok(dims@),
{
    let mut out: DimensionStates = Vec::new();
    let mut rest = dims;
    let ghost all = rest@;
    let ghost n = all.len();
    assert(out@ =~= not_ok(all.take(0)));
    assert(rest@ =~= all.skip(0));
    while rest.len() > 0
        invariant
            n == all.len(),
            rest@.len() <= n,
            rest@ == all.skip(n - rest@.len()),
            out@ == not_ok(all.take(n - rest@.len())),
        decreases rest.len(),
    {
        let ghost i = n - rest@.len();
        let d = rest.remove(0);
        assert(d == all[i]);
        assert(rest@ =~= all.skip(i + 1));
        let ghost next = all.take(i + 1);
        assert(next.drop_last() =~= all.take(i));
        assert(next.last() == d);
        if !d.1.is_ok() {
            out.push(d);
        }
        assert(out@ =~= not_ok(next));
    }
    assert(all.take(n as int) =~= all);
    out
}

/// The views of the names.
pub open spec fn name_views(names: Seq<&str>) -> Seq<Seq<char>> {
    names.map_values(|n: &str| n@)
}

/// The word with its parts beside it: `ALTERED(body, route)`.
pub open spec fn qualified_text(state: EndpointState, names: Seq<Seq<char>>) -> Seq<char> {
    if names.len() == 0 {
        state_text(state)
    } else {
        state_text(state) + "("@ + join(names, ", "@) + ")"@
    }
}

/// The word with its parts beside it: `ALTERED(body, route)`, and the bare word
/// without any.
pub fn qualified(state: EndpointState, names: &[&str]) -> (r: String)
    ensures
        r@ == qualified_text(state, name_views(names@)),
{
    let word = state.text();
    if names.len() == 0 {
        return word;
    }
    let mut out = crate::text::chars_of(word.as_str());
    append_str(&mut out, "(");
    let ghost head = out@;
    let mut i: usize = 0;
    while i < names.len()
        invariant
            i <= names.len(),
            out@ == head + join(name_views(names@).take(i as int), ", "@),
        decreases names.len() - i,
    {
        let ghost prev = name_views(names@).take(i as int);
        let ghost next = name_views(names@).take(i as int + 1);
        assert(next.drop_last() =~= prev);
        assert(next.last() == names@[i as int]@);
        if i > 0 {
            append_str(&mut out, ", ");
        }
        append_str(&mut out, names[i]);
        assert(out@ =~= head + join(next, ", "@));
        i = i + 1;
    }
    assert(name_views(names@).take(i as int) =~= name_views(names@));
    append_str(&mut out, ")");
    string_of(out.as_slice())
}

/// **The qualified word is still its word.** What comes before the first `(` of a
/// qualified word parses back as the state it qualifies.
pub proof fn lemma_qualified_word_parses(state: EndpointState, names: Seq<Seq<char>>)
    ensures
        ({
            let t = qualified_text(state, names);
            let w = match find(t, seq!['(']) {
                Some(i) => t.take(i),
                None => t,
            };
            state_named(w) == Some(state)
        }),
{
    crate::link::lemma_state_text_plain(state);
    crate::link::lemma_state_round_trip(state);
    let st = state_text(state);
    let t = qualified_text(state, names);
    let open: Seq<char> = seq!['('];
    assert forall|j: int| 0 <= j < st.len() implies !occurs_at(t, j, open) by {
        if occurs_at(t, j, open) {
            assert(t.subrange(j, j + 1)[0] == t[j]);
            assert(t[j] == st[j]);
        }
    }
    if names.len() == 0 {
        assert forall|j: int| 0 <= j implies !occurs_at(t, j, open) by {
            if occurs_at(t, j, open) {
                assert(t.subrange(j, j + 1)[0] == t[j]);
            }
        }
        lemma_find_none(t, open, 0);
    } else {
        reveal_strlit("(");
        assert(t.subrange(st.len() as int, st.len() as int + 1) =~= open);
        lemma_find_first(t, open, 0, st.len() as int);
        assert(t.take(st.len() as int) =~= st);
    }
}


/// Whether the text of today `t` holds the approved text `a` and more: `a` is not
/// empty, `t` is longer in bytes, and `a` occurs in `t`.
pub open spec fn grew_around(t: &str, a: &str) -> bool {
    a@.len() > 0 && t.spec_bytes().len() > a.spec_bytes().len() && find(t@, a@) is Some
}

/// The state of one part, by what is known of it today.
///
/// - `both`: it is both declared and approved. A part on one side only is `ALTERED`:
///   what is watched changed, and nobody approved the change.
/// - `found`: its text and s-expression today, where its query still finds it. Not
///   found, what was approved is no longer where it was: `ALTERED`.
/// - `hash`, `hash_ast`: what was approved of it.
/// - `approved`: the approved text, where it could be recovered.
///
/// The same hash is `OK`; today's text holding the approved text and more is
/// `EXPANDED`; the same tree, in a language whose tree tells content apart, is
/// `RESTYLED`; anything else is `ALTERED`.
pub fn dimension_state(
    both: bool,
    found: Option<(&str, &str)>,
    hash: &str,
    hash_ast: Option<&str>,
    approved: Option<&str>,
    lang: &str,
) -> (r: EndpointState)
    ensures
        r == if !both {
            EndpointState::Altered
        } else {
            match found {
                None => EndpointState::Altered,
                Some((t, x)) => if crate::hash::hex_text(crate::hash::sha256_of(t.spec_bytes())) == hash@ {
                    EndpointState::Okay
                } else if approved matches Some(a) && grew_around(t, a) {
                    EndpointState::Expanded
                } else if !(lang@ == "markdown"@ || lang@ == "text"@) && (hash_ast matches Some(h) && h@
                    == crate::hash::hex_text(crate::hash::sha256_of(x.spec_bytes()))) {
                    EndpointState::Restyled
                } else {
                    EndpointState::Altered
                },
            }
        },
{
    if !both {
        return EndpointState::Altered;
    }
    let (t, x) = match found {
        None => return EndpointState::Altered,
        Some(f) => f,
    };
    let h = crate::hash::sha256(t.as_bytes());
    if crate::text::same_text(h.as_str(), hash) {
        return EndpointState::Okay;
    }
    match approved {
        Some(a) => {
            if grows_around(t, a) {
                return EndpointState::Expanded;
            }
        },
        None => {},
    }
    if crate::grammar::ast_discriminates_content(lang) {
        match hash_ast {
            Some(ha) => {
                let hx = crate::hash::sha256(x.as_bytes());
                if crate::text::same_text(ha, hx.as_str()) {
                    return EndpointState::Restyled;
                }
            },
            None => {},
        }
    }
    EndpointState::Altered
}

fn grows_around(t: &str, a: &str) -> (b: bool)
    ensures
        b == grew_around(t, a),
{
    let tv = crate::text::chars_of(t);
    let av = crate::text::chars_of(a);
    av.len() > 0 && t.as_bytes().len() > a.as_bytes().len() && crate::text::find_of(tv.as_slice(), av.as_slice()).is_some()
}

/// The names of the parts to compare: those declared and those approved, each once,
/// in order.
pub fn part_names(declared: &Vec<String>, accepted: &Vec<String>) -> (r: Vec<String>)
    ensures
        crate::text::strictly_sorted(r@.map_values(|s: String| s@)),
        r@.map_values(|s: String| s@).to_set() == declared@.map_values(|s: String| s@).to_set().union(
            accepted@.map_values(|s: String| s@).to_set(),
        ),
{
    let mut out: Vec<String> = Vec::new();
    let ghost d = declared@.map_values(|s: String| s@);
    let ghost a = accepted@.map_values(|s: String| s@);
    assert(out@.map_values(|s: String| s@).to_set() =~= Set::<Seq<char>>::empty());
    let mut i: usize = 0;
    while i < declared.len()
        invariant
            i <= declared.len(),
            d == declared@.map_values(|s: String| s@),
            crate::text::strictly_sorted(out@.map_values(|s: String| s@)),
            out@.map_values(|s: String| s@).to_set() == d.take(i as int).to_set(),
        decreases declared.len() - i,
    {
        let ghost before = out@.map_values(|s: String| s@).to_set();
        crate::text::insert_unique(&mut out, declared[i].clone());
        assert(d.take(i as int + 1) =~= d.take(i as int).push(d[i as int]));
        proof {
            d.take(i as int).lemma_push_to_set_commute(d[i as int]);
        }
        i = i + 1;
    }
    assert(d.take(i as int) =~= d);
    let mut j: usize = 0;
    while j < accepted.len()
        invariant
            j <= accepted.len(),
            d == declared@.map_values(|s: String| s@),
            a == accepted@.map_values(|s: String| s@),
            crate::text::strictly_sorted(out@.map_values(|s: String| s@)),
            out@.map_values(|s: String| s@).to_set() == d.to_set().union(a.take(j as int).to_set()),
        decreases accepted.len() - j,
    {
        crate::text::insert_unique(&mut out, accepted[j].clone());
        assert(a.take(j as int + 1) =~= a.take(j as int).push(a[j as int]));
        proof {
            a.take(j as int).lemma_push_to_set_commute(a[j as int]);
        }
        assert(out@.map_values(|s: String| s@).to_set() =~= d.to_set().union(a.take(j as int + 1).to_set()));
        j = j + 1;
    }
    assert(a.take(j as int) =~= a);
    out
}

/// The content of a whole fragment against what was approved, as far as its hash
/// tells: no range today is `UNRESOLVED`, the same hash is `OK`. Anything else is
/// drift, and only then is the approved text worth recovering (`None`).
pub fn content_by_hash(fragment: Option<&str>, hash: &str) -> (r: Option<EndpointState>)
    ensures
        r == match fragment {
            None => Some(EndpointState::Unresolved),
            Some(t) => if crate::hash::hex_text(crate::hash::sha256_of(t.spec_bytes())) == hash@ {
                Some(EndpointState::Okay)
            } else {
                None
            },
        },
{
    match fragment {
        None => Some(EndpointState::Unresolved),
        Some(t) => {
            let h = crate::hash::sha256(t.as_bytes());
            if crate::text::same_text(h.as_str(), hash) {
                Some(EndpointState::Okay)
            } else {
                None
            }
        },
    }
}

/// What a drifted fragment (`fragment`, whose hash is not the approved one) is:
/// holding the approved text (`approved`, where it could be recovered) and more is
/// `EXPANDED`; the same tree as approved (`sexp`: its s-expression today, where the
/// capture's query still finds it), in a language whose tree tells content apart,
/// is `RESTYLED`; anything else is `ALTERED`. The grammar is asked before the kept
/// `hash_ast`, so one kept for prose stays inert instead of lying.
pub fn content_drift(
    fragment: &str,
    approved: Option<&str>,
    lang: &str,
    hash_ast: Option<&str>,
    sexp: Option<&str>,
) -> (r: EndpointState)
    ensures
        r == if approved matches Some(a) && grew_around(fragment, a) {
            EndpointState::Expanded
        } else if !(lang@ == "markdown"@ || lang@ == "text"@) && (hash_ast matches Some(h) && sexp matches Some(x)
            && h@ == crate::hash::hex_text(crate::hash::sha256_of(x.spec_bytes()))) {
            EndpointState::Restyled
        } else {
            EndpointState::Altered
        },
{
    match approved {
        Some(a) => {
            if grows_around(fragment, a) {
                return EndpointState::Expanded;
            }
        },
        None => {},
    }
    if crate::grammar::ast_discriminates_content(lang) {
        match (hash_ast, sexp) {
            (Some(ha), Some(x)) => {
                let hx = crate::hash::sha256(x.as_bytes());
                if crate::text::same_text(ha, hx.as_str()) {
                    return EndpointState::Restyled;
                }
            },
            _ => {},
        }
    }
    EndpointState::Altered
}

} // verus!
