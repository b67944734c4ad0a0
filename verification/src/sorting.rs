//! Sorting the small lists the views order: pairs of offsets, and names by where
//! they first appear.
use vstd::prelude::*;
use vstd::relations::{sorted_by, total_ordering};

use crate::text::{lex_lt, lex_lt_of};

verus! {

broadcast use vstd::seq_lib::group_to_multiset_ensures;

/// Pairs of offsets in order: by the first, then by the second.
pub open spec fn pair_leq() -> spec_fn((usize, usize), (usize, usize)) -> bool {
    |a: (usize, usize), b: (usize, usize)| a.0 < b.0 || (a.0 == b.0 && a.1 <= b.1)
}

/// The order of pairs is total.
pub proof fn lemma_pair_leq_total()
    ensures
        total_ordering(pair_leq()),
{
    let r = pair_leq();
    assert forall|a: (usize, usize), b: (usize, usize)| #[trigger] r(a, b) && #[trigger] r(b, a) implies a == b by {}
    assert forall|a: (usize, usize), b: (usize, usize), c: (usize, usize)| #[trigger] r(a, b) && #[trigger] r(b, c) implies r(a, c) by {}
    assert forall|a: (usize, usize), b: (usize, usize)| #[trigger] r(a, b) || r(b, a) by {}
    assert forall|a: (usize, usize)| #[trigger] r(a, a) by {}
}

/// Where `x` goes in a sorted list: before the first item that comes after it.
fn pair_place(v: &Vec<(usize, usize)>, x: (usize, usize)) -> (i: usize)
    ensures
        i <= v.len(),
        forall|k: int| 0 <= k < i ==> (pair_leq())(#[trigger] v@[k], x),
        i < v.len() ==> !(pair_leq())(v@[i as int], x),
{
    let mut i: usize = 0;
    while i < v.len() && (v[i].0 < x.0 || (v[i].0 == x.0 && v[i].1 <= x.1))
        invariant
            i <= v.len(),
            forall|k: int| 0 <= k < i ==> (pair_leq())(#[trigger] v@[k], x),
        decreases v.len() - i,
    {
        i = i + 1;
    }
    i
}

/// The pairs, sorted.
pub fn sort_pairs(v: &Vec<(usize, usize)>) -> (r: Vec<(usize, usize)>)
    ensures
        r@ == v@.sort_by(pair_leq()),
{
    let ghost leq = pair_leq();
    proof {
        lemma_pair_leq_total();
    }
    let mut out: Vec<(usize, usize)> = Vec::new();
    let mut j: usize = 0;
    while j < v.len()
        invariant
            j <= v.len(),
            leq == pair_leq(),
            total_ordering(leq),
            sorted_by(out@, leq),
            out@.to_multiset() == v@.take(j as int).to_multiset(),
        decreases v.len() - j,
    {
        let x = v[j];
        let i = pair_place(&out, x);
        let ghost before = out@;
        out.insert(i, x);
        proof {
            assert(out@ == before.insert(i as int, x));
            lemma_insert_sorted(before, i as int, x, leq);
            assert(v@.take(j as int + 1) =~= v@.take(j as int).push(x));
        }
        j = j + 1;
    }
    proof {
        assert(v@.take(j as int) =~= v@);
        v@.lemma_sort_by_ensures(leq);
        vstd::seq_lib::lemma_sorted_unique(out@, v@.sort_by(leq), leq);
    }
    out
}

/// Putting an item after those not after it and before those after it keeps a list
/// sorted.
proof fn lemma_insert_sorted<T>(v: Seq<T>, i: int, x: T, leq: spec_fn(T, T) -> bool)
    requires
        0 <= i <= v.len(),
        total_ordering(leq),
        sorted_by(v, leq),
        forall|k: int| 0 <= k < i ==> leq(#[trigger] v[k], x),
        i < v.len() ==> !leq(v[i], x),
    ensures
        sorted_by(v.insert(i, x), leq),
{
    let w = v.insert(i, x);
    if i < v.len() {
        assert(leq(x, v[i]));
        assert forall|k: int| i <= k < v.len() implies leq(x, #[trigger] v[k]) by {
            if k > i {
                assert(leq(v[i], v[k]));
            }
        }
    }
    assert forall|a: int, b: int| 0 <= a < b < w.len() implies #[trigger] leq(w[a], w[b]) by {
        if b < i {
            assert(w[a] == v[a] && w[b] == v[b]);
        } else if b == i {
            assert(w[a] == v[a]);
        } else if a == i {
            assert(w[b] == v[b - 1]);
        } else if a < i {
            assert(w[a] == v[a] && w[b] == v[b - 1]);
            assert(leq(v[a], x));
            assert(leq(x, v[b - 1]));
        } else {
            assert(w[a] == v[a - 1] && w[b] == v[b - 1]);
        }
    }
}

/// A name with the place where it first appears, as plain values.
pub open spec fn named_views(v: Seq<(usize, String)>) -> Seq<(usize, Seq<char>)> {
    v.map_values(|t: (usize, String)| (t.0, t.1@))
}

/// Names in order: by the place where they appear, then by the name.
pub open spec fn named_leq() -> spec_fn((usize, Seq<char>), (usize, Seq<char>)) -> bool {
    |a: (usize, Seq<char>), b: (usize, Seq<char>)| a.0 < b.0 || (a.0 == b.0 && (a.1 == b.1 || lex_lt(a.1, b.1)))
}

/// The order of names is total.
pub proof fn lemma_named_leq_total()
    ensures
        total_ordering(named_leq()),
{
    let r = named_leq();
    assert forall|a: (usize, Seq<char>), b: (usize, Seq<char>)| #[trigger] r(a, b) && #[trigger] r(b, a) implies a == b by {
        crate::text::lemma_lex_total(a.1, b.1);
    }
    assert forall|a: (usize, Seq<char>), b: (usize, Seq<char>), c: (usize, Seq<char>)| #[trigger] r(a, b) && #[trigger] r(b, c) implies r(a, c) by {
        if a.0 == b.0 && b.0 == c.0 && a.1 != b.1 && b.1 != c.1 {
            crate::text::lemma_lex_transitive(a.1, b.1, c.1);
        }
    }
    assert forall|a: (usize, Seq<char>), b: (usize, Seq<char>)| #[trigger] r(a, b) || r(b, a) by {
        crate::text::lemma_lex_total(a.1, b.1);
    }
    assert forall|a: (usize, Seq<char>)| #[trigger] r(a, a) by {}
}

fn named_place(v: &Vec<(usize, String)>, x: &(usize, String)) -> (i: usize)
    ensures
        i <= v.len(),
        forall|k: int| 0 <= k < i ==> (named_leq())(#[trigger] named_views(v@)[k], (x.0, x.1@)),
        i < v.len() ==> !(named_leq())(named_views(v@)[i as int], (x.0, x.1@)),
{
    let xv = crate::text::chars_of(x.1.as_str());
    let mut i: usize = 0;
    while i < v.len()
        invariant
            i <= v.len(),
            xv@ == x.1@,
            forall|k: int| 0 <= k < i ==> (named_leq())(#[trigger] named_views(v@)[k], (x.0, x.1@)),
        decreases v.len() - i,
    {
        let yv = crate::text::chars_of(v[i].1.as_str());
        let le = v[i].0 < x.0 || (v[i].0 == x.0 && (crate::text::same(yv.as_slice(), xv.as_slice())
            || lex_lt_of(yv.as_slice(), xv.as_slice())));
        assert(named_views(v@)[i as int] == (v@[i as int].0, v@[i as int].1@));
        if !le {
            return i;
        }
        i = i + 1;
    }
    i
}

/// The names, sorted.
pub fn sort_named(v: &Vec<(usize, String)>) -> (r: Vec<(usize, String)>)
    ensures
        named_views(r@) == named_views(v@).sort_by(named_leq()),
{
    let ghost leq = named_leq();
    proof {
        lemma_named_leq_total();
    }
    let mut out: Vec<(usize, String)> = Vec::new();
    let mut j: usize = 0;
    assert(named_views(out@) =~= Seq::<(usize, Seq<char>)>::empty());
    while j < v.len()
        invariant
            j <= v.len(),
            leq == named_leq(),
            total_ordering(leq),
            sorted_by(named_views(out@), leq),
            named_views(out@).to_multiset() == named_views(v@).take(j as int).to_multiset(),
        decreases v.len() - j,
    {
        let x = (v[j].0, v[j].1.clone());
        let i = named_place(&out, &x);
        let ghost before = named_views(out@);
        out.insert(i, x);
        proof {
            assert(named_views(out@) =~= before.insert(i as int, (x.0, x.1@)));
            lemma_insert_sorted(before, i as int, (x.0, x.1@), leq);
            assert(named_views(v@)[j as int] == (x.0, x.1@));
            assert(named_views(v@).take(j as int + 1) =~= named_views(v@).take(j as int).push((x.0, x.1@)));
        }
        j = j + 1;
    }
    proof {
        assert(named_views(v@).take(j as int) =~= named_views(v@));
        named_views(v@).lemma_sort_by_ensures(leq);
        vstd::seq_lib::lemma_sorted_unique(named_views(out@), named_views(v@).sort_by(leq), leq);
    }
    out
}

} // verus!
