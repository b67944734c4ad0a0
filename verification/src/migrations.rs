//! Migrations of bilinker's metadata. Each is idempotent; which ones ran is kept
//! in the repo's ledger, outside this library.
use vstd::prelude::*;

use crate::link::{range_text, ByteRange, StructuralRef};

verus! {

/// What tells two references apart when they are split into captures: the file,
/// the query and the range, each written, with a separator that text does not hold.
pub open spec fn ref_key(r: (Seq<char>, Option<Seq<char>>, Option<ByteRange>)) -> Seq<char> {
    r.0 + seq!['\u{1}'] + match r.1 {
        Some(q) => q,
        None => Seq::<char>::empty(),
    } + seq!['\u{1}'] + match r.2 {
        Some(x) => range_text(x),
        None => Seq::<char>::empty(),
    }
}

/// The keys of the references.
pub open spec fn keys_of(refs: Seq<StructuralRef>) -> Seq<Seq<char>> {
    refs.map_values(|r: StructuralRef| ref_key(r@))
}

/// Each key once, in the order in which it first comes.
pub open spec fn distinct(keys: Seq<Seq<char>>) -> Seq<Seq<char>>
    decreases keys.len(),
{
    if keys.len() == 0 {
        seq![]
    } else {
        let d = distinct(keys.drop_last());
        if d.contains(keys.last()) {
            d
        } else {
            d.push(keys.last())
        }
    }
}

/// **One capture per place**: the keys that get a capture hold none twice, and
/// every reference's key is among them.
pub proof fn lemma_distinct_has_no_repeats(keys: Seq<Seq<char>>)
    ensures
        distinct(keys).no_duplicates(),
        forall|i: int| 0 <= i < keys.len() ==> distinct(keys).contains(#[trigger] keys[i]),
    decreases keys.len(),
{
    if keys.len() > 0 {
        let rest = keys.drop_last();
        let d = distinct(rest);
        let x = keys.last();
        lemma_distinct_has_no_repeats(rest);
        if !d.contains(x) {
            let p = d.push(x);
            assert forall|a: int, b: int| 0 <= a < p.len() && 0 <= b < p.len() && a != b implies p[a] != p[b] by {
                if a == d.len() {
                    assert(p[b] == d[b]);
                } else if b == d.len() {
                    assert(p[a] == d[a]);
                } else {
                    assert(p[a] == d[a] && p[b] == d[b]);
                }
            }
            assert(p[d.len() as int] == x);
        }
        assert forall|i: int| 0 <= i < keys.len() implies distinct(keys).contains(#[trigger] keys[i]) by {
            if i < keys.len() - 1 {
                assert(rest[i] == keys[i]);
                assert(d.contains(rest[i]));
                if !d.contains(x) {
                    let j = choose|j: int| 0 <= j < d.len() && d[j] == rest[i];
                    assert(d.push(x)[j] == keys[i]);
                }
            } else {
                assert(keys[i] == x);
                if !d.contains(x) {
                    assert(d.push(x)[d.len() as int] == x);
                }
            }
        }
    }
}

fn ref_key_of(r: &StructuralRef) -> (k: Vec<char>)
    ensures
        k@ == ref_key(r@),
{
    let mut out = crate::text::chars_of(r.file.as_str());
    out.push('\u{1}');
    match &r.query {
        Some(q) => crate::text::append_str(&mut out, q.as_str()),
        None => {},
    }
    out.push('\u{1}');
    match r.range {
        Some(x) => {
            let t = x.text();
            crate::text::append_str(&mut out, t.as_str());
        },
        None => {},
    }
    assert(out@ =~= ref_key(r@));
    out
}

/// Splits the references embedded in bilinks into captures: **identical references
/// describe the same place, so they share a capture** — without this the
/// duplication already there would stay frozen. Gives, for each reference, the
/// capture it goes to (captures numbered in the order they are created), how many
/// captures are created and how many references reuse one.
pub fn split_references(refs: &Vec<StructuralRef>) -> (r: (Vec<usize>, usize, usize))
    ensures
        r.0@.len() == refs@.len(),
        r.1 == distinct(keys_of(refs@)).len(),
        r.2 == refs@.len() - r.1,
        forall|i: int| 0 <= i < refs@.len() ==> #[trigger] r.0@[i] < r.1 && distinct(keys_of(refs@))[r.0@[i] as int]
            == keys_of(refs@)[i],
{
    let ghost keys = keys_of(refs@);
    let mut seen: Vec<Vec<char>> = Vec::new();
    let mut slots: Vec<usize> = Vec::new();
    let mut reused: usize = 0;
    let mut i: usize = 0;
    while i < refs.len()
        invariant
            i <= refs.len(),
            keys == keys_of(refs@),
            crate::text::views(seen@) == distinct(keys.take(i as int)),
            slots@.len() == i,
            reused + seen@.len() == i,
            forall|j: int| 0 <= j < i ==> #[trigger] slots@[j] < seen@.len() && distinct(keys.take(i as int))[slots@[j] as int]
                == keys[j],
        decreases refs.len() - i,
    {
        let k = ref_key_of(&refs[i]);
        assert(k@ == keys[i as int]);
        assert(keys.take(i as int + 1).drop_last() =~= keys.take(i as int));
        assert(keys.take(i as int + 1).last() == keys[i as int]);
        let ghost d = distinct(keys.take(i as int));
        let mut p: usize = 0;
        while p < seen.len() && !crate::text::same(seen[p].as_slice(), k.as_slice())
            invariant
                p <= seen@.len(),
                crate::text::views(seen@) == d,
                forall|q: int| 0 <= q < p ==> d[q] != k@,
            decreases seen.len() - p,
        {
            assert(crate::text::views(seen@)[p as int] == seen@[p as int]@);
            p = p + 1;
        }
        if p < seen.len() {
            assert(crate::text::views(seen@)[p as int] == seen@[p as int]@);
            assert(d.contains(k@));
            slots.push(p);
            reused = reused + 1;
        } else {
            assert(!d.contains(k@));
            slots.push(seen.len());
            proof {
                crate::text::lemma_views_push(seen@, k);
            }
            seen.push(k);
        }
        i = i + 1;
    }
    assert(keys.take(i as int) =~= keys);
    (slots, seen.len(), reused)
}

/// A line of one of the fields that no longer exist.
pub open spec fn is_subgraph_line(l: Seq<char>) -> bool {
    crate::text::starts_with(l, "subgraph.0:"@) || crate::text::starts_with(l, "subgraph.1:"@)
}

/// How many lines a legacy bilink holds of the fields that no longer exist:
/// `subgraph.0:` and `subgraph.1:`. The parser drops them silently, so they are
/// counted to be reported.
pub fn dropped_subgraph_lines(text: &str) -> (r: usize)
    ensures
        r == crate::text::lines(text@).filter(|l: Seq<char>| is_subgraph_line(l)).len(),
{
    let v = crate::text::chars_of(text);
    let ls = crate::text::lines_of(v.as_slice());
    let a = crate::text::chars_of("subgraph.0:");
    let b = crate::text::chars_of("subgraph.1:");
    let ghost keep = |l: Seq<char>| is_subgraph_line(l);
    let ghost all = crate::text::lines(text@);
    let mut n: usize = 0;
    let mut i: usize = 0;
    assert(all.take(0).filter(keep) =~= Seq::<Seq<char>>::empty());
    while i < ls.len()
        invariant
            i <= ls.len(),
            crate::text::views(ls@) == all,
            a@ == "subgraph.0:"@,
            b@ == "subgraph.1:"@,
            forall|l: Seq<char>| #[trigger] keep(l) == is_subgraph_line(l),
            n == all.take(i as int).filter(keep).len(),
            n <= i,
        decreases ls.len() - i,
    {
        assert(crate::text::views(ls@)[i as int] == ls@[i as int]@);
        proof {
            assert(all.take(i as int + 1) =~= all.take(i as int).push(all[i as int]));
            all.take(i as int).lemma_filter_push(all[i as int], keep);
        }
        let hit = crate::text::starts_with_of(ls[i].as_slice(), a.as_slice())
            || crate::text::starts_with_of(ls[i].as_slice(), b.as_slice());
        assert(ls@[i as int]@ == all[i as int]);
        assert(hit == is_subgraph_line(all[i as int]));
        proof {
            assert(keep(all[i as int]) == hit);
            if hit {
                assert(all.take(i as int + 1).filter(keep) == all.take(i as int).filter(keep).push(all[i as int]));
            } else {
                assert(all.take(i as int + 1).filter(keep) == all.take(i as int).filter(keep));
            }
        }
        if hit {
            n = n + 1;
        }
        i = i + 1;
    }
    assert(all.take(i as int) =~= all);
    n
}

} // verus!
