//! Content hashes: SHA-256, written in lowercase hexadecimal.
use vstd::prelude::*;

verus! {

broadcast use {
    vstd::multiset::group_multiset_axioms,
    vstd::multiset::group_multiset_properties,
    vstd::seq_lib::group_to_multiset_ensures,
};

/// The SHA-256 digest of `content` (FIPS 180-4), as `sha2::Sha256` computes it.
pub uninterp spec fn sha256_of(content: Seq<u8>) -> Seq<u8>;

/// The SHA-256 digest of `content`, by `sha2::Sha256` (`new`, `update`,
/// `finalize`): the digest the standard defines for those bytes, which depends on
/// them alone, and whose output is 32 bytes (`U32` is the output size of
/// `Sha256`). Nothing else about it is claimed.
#[verifier::external_body]
fn sha256_digest(content: &[u8]) -> (r: Vec<u8>)
    ensures
        r@ == sha256_of(content@),
        r@.len() == 32,
{
    let mut hasher = <sha2::Sha256 as sha2::Digest>::new();
    sha2::Digest::update(&mut hasher, content);
    sha2::Digest::finalize(hasher).to_vec()
}

/// The lowercase hexadecimal digit of a value below 16.
pub open spec fn hex_digit(v: u8) -> char {
    if v < 10 {
        ((v + 48) as u8) as char
    } else {
        ((v + 87) as u8) as char
    }
}

/// Bytes written in lowercase hexadecimal, two digits each, high half first.
pub open spec fn hex_text(bytes: Seq<u8>) -> Seq<char>
    decreases bytes.len(),
{
    if bytes.len() == 0 {
        seq![]
    } else {
        hex_text(bytes.drop_last()) + seq![hex_digit(bytes.last() / 16), hex_digit(bytes.last() % 16)]
    }
}

fn hex_digit_of(v: u8) -> (c: char)
    requires
        v < 16,
    ensures
        c == hex_digit(v),
{
    if v < 10 {
        ((v + 48) as u8) as char
    } else {
        ((v + 87) as u8) as char
    }
}

/// Bytes in lowercase hexadecimal.
pub fn hex_encode(bytes: &[u8]) -> (r: String)
    ensures
        r@ == hex_text(bytes@),
{
    let mut out: Vec<char> = Vec::new();
    let mut i: usize = 0;
    while i < bytes.len()
        invariant
            i <= bytes.len(),
            out@ == hex_text(bytes@.take(i as int)),
        decreases bytes.len() - i,
    {
        let b = bytes[i];
        assert(bytes@.take(i as int + 1).drop_last() =~= bytes@.take(i as int));
        out.push(hex_digit_of(b / 16));
        out.push(hex_digit_of(b % 16));
        assert(out@ =~= hex_text(bytes@.take(i as int + 1)));
        i = i + 1;
    }
    assert(bytes@.take(i as int) =~= bytes@);
    crate::text::string_of(out.as_slice())
}

/// The SHA-256 of `content`, in lowercase hexadecimal: 64 characters.
pub fn sha256(content: &[u8]) -> (r: String)
    ensures
        r@ == hex_text(sha256_of(content@)),
{
    let d = sha256_digest(content);
    hex_encode(d.as_slice())
}

/// A hex text has two characters per byte.
pub proof fn lemma_hex_length(bytes: Seq<u8>)
    ensures
        hex_text(bytes).len() == 2 * bytes.len(),
    decreases bytes.len(),
{
    if bytes.len() > 0 {
        lemma_hex_length(bytes.drop_last());
    }
}


// ─── how alike two fragments are ─────────────────────────────────────────────

/// How many items two lists share, each item of one paired with at most one equal
/// item of the other: the size of the intersection of their multisets.
pub open spec fn shared(a: Seq<Seq<char>>, b: Seq<Seq<char>>) -> nat {
    a.to_multiset().intersection_with(b.to_multiset()).len()
}

/// The lines of a text that hold something, trimmed.
pub open spec fn filled_lines(s: Seq<char>) -> Seq<Seq<char>> {
    crate::text::lines(s).map_values(|l: Seq<char>| crate::text::trim(l)).filter(|l: Seq<char>| l.len() > 0)
}

/// The pairs of neighbouring characters of a text, in order.
pub open spec fn bigrams(s: Seq<char>) -> Seq<Seq<char>> {
    Seq::new(if s.len() > 0 { (s.len() - 1) as nat } else { 0 }, |i: int| s.subrange(i, i + 2))
}

/// How alike two fragments are, before the ratio is taken: the ratio is
/// `2·common / (left + right)`, Dice's coefficient.
#[derive(Debug, Clone, Copy, PartialEq, Eq, Structural)]
pub enum Likeness {
    /// The same text: the ratio is 1.
    Identical,
    /// Nothing to compare: the ratio is 0.
    Unrelated,
    /// `common` items shared between lists of `left` and `right` items.
    Shared { common: usize, left: usize, right: usize },
}

/// Two lists compared.
pub open spec fn shared_of(a: Seq<Seq<char>>, b: Seq<Seq<char>>) -> Likeness {
    Likeness::Shared { common: shared(a, b) as usize, left: a.len() as usize, right: b.len() as usize }
}

/// How alike two fragments are: by their filled lines when both have more than one,
/// by their bigrams otherwise (a one-line fragment, a heading or a signature, says
/// nothing line by line).
pub open spec fn likeness_of(a: Seq<char>, b: Seq<char>) -> Likeness {
    if a == b {
        Likeness::Identical
    } else if a.len() == 0 || b.len() == 0 {
        Likeness::Unrelated
    } else if filled_lines(a).len() > 1 && filled_lines(b).len() > 1 {
        shared_of(filled_lines(a), filled_lines(b))
    } else if bigrams(a).len() == 0 || bigrams(b).len() == 0 {
        Likeness::Unrelated
    } else {
        shared_of(bigrams(a), bigrams(b))
    }
}

/// How alike two fragments are. The same idea git uses to detect renames, so a
/// threshold of one half means here what it means for `git diff -M`.
pub fn likeness(a: &str, b: &str) -> (r: Likeness)
    ensures
        r == likeness_of(a@, b@),
{
    if crate::text::same_text(a, b) {
        return Likeness::Identical;
    }
    let av = crate::text::chars_of(a);
    let bv = crate::text::chars_of(b);
    if av.len() == 0 || bv.len() == 0 {
        return Likeness::Unrelated;
    }
    let la = filled_lines_of(av.as_slice());
    let lb = filled_lines_of(bv.as_slice());
    if la.len() > 1 && lb.len() > 1 {
        let c = common_count(&la, &lb);
        return Likeness::Shared { common: c, left: la.len(), right: lb.len() };
    }
    let ba = bigrams_of(av.as_slice());
    let bb = bigrams_of(bv.as_slice());
    if ba.len() == 0 || bb.len() == 0 {
        return Likeness::Unrelated;
    }
    let c = common_count(&ba, &bb);
    Likeness::Shared { common: c, left: ba.len(), right: bb.len() }
}

fn filled_lines_of(s: &[char]) -> (r: Vec<Vec<char>>)
    ensures
        crate::text::views(r@) == filled_lines(s@),
{
    let ls = crate::text::lines_of(s);
    let ghost trimmed = crate::text::lines(s@).map_values(|l: Seq<char>| crate::text::trim(l));
    let mut out: Vec<Vec<char>> = Vec::new();
    let mut i: usize = 0;
    proof {
        assert(trimmed.take(0).filter(|l: Seq<char>| l.len() > 0) =~= Seq::<Seq<char>>::empty());
    }
    while i < ls.len()
        invariant
            i <= ls.len(),
            crate::text::views(ls@) == crate::text::lines(s@),
            trimmed == crate::text::lines(s@).map_values(|l: Seq<char>| crate::text::trim(l)),
            crate::text::views(out@) == trimmed.take(i as int).filter(|l: Seq<char>| l.len() > 0),
        decreases ls.len() - i,
    {
        let t = crate::text::trim_of(ls[i].as_slice());
        assert(t@ == trimmed[i as int]);
        proof {
            assert(trimmed.take(i as int + 1) =~= trimmed.take(i as int).push(trimmed[i as int]));
            trimmed.take(i as int).lemma_filter_push(trimmed[i as int], |l: Seq<char>| l.len() > 0);
        }
        if t.len() > 0 {
            proof {
                crate::text::lemma_views_push(out@, t);
            }
            out.push(t);
        }
        i = i + 1;
    }
    assert(trimmed.take(i as int) =~= trimmed);
    out
}

fn bigrams_of(s: &[char]) -> (r: Vec<Vec<char>>)
    ensures
        crate::text::views(r@) == bigrams(s@),
{
    let mut out: Vec<Vec<char>> = Vec::new();
    if s.len() < 2 {
        assert(crate::text::views(out@) =~= bigrams(s@));
        return out;
    }
    let mut i: usize = 0;
    while i + 1 < s.len()
        invariant
            s.len() >= 2,
            i + 1 <= s.len(),
            crate::text::views(out@) == bigrams(s@).take(i as int),
        decreases s.len() - i,
    {
        let p = crate::text::slice_of(s, i, i + 2);
        proof {
            crate::text::lemma_views_push(out@, p);
            assert(bigrams(s@).take(i as int + 1) =~= bigrams(s@).take(i as int).push(p@));
        }
        out.push(p);
        i = i + 1;
    }
    assert(bigrams(s@).take(i as int) =~= bigrams(s@));
    out
}

/// Where `x` is among `pool`.
fn position_in(pool: &Vec<Vec<char>>, x: &[char]) -> (r: Option<usize>)
    ensures
        match r {
            Some(p) => p < pool.len() && pool@[p as int]@ == x@,
            None => forall|j: int| 0 <= j < pool.len() ==> pool@[j]@ != x@,
        },
{
    let mut j: usize = 0;
    while j < pool.len()
        invariant
            j <= pool.len(),
            forall|k: int| 0 <= k < j ==> pool@[k]@ != x@,
        decreases pool.len() - j,
    {
        if crate::text::same(pool[j].as_slice(), x) {
            return Some(j);
        }
        j = j + 1;
    }
    None
}

/// How many items of `a` find an equal item of `b` still unpaired.
fn common_count(a: &Vec<Vec<char>>, b: &Vec<Vec<char>>) -> (r: usize)
    ensures
        r == shared(crate::text::views(a@), crate::text::views(b@)),
{
    let ghost va = crate::text::views(a@);
    let ghost vb = crate::text::views(b@);
    let mut pool: Vec<Vec<char>> = b.clone();
    let mut common: usize = 0;
    let mut i: usize = 0;
    proof {
        assert(crate::text::views(pool@) =~= vb) by {
            assert forall|k: int| 0 <= k < pool.len() implies pool@[k]@ == b@[k]@ by {}
        }
        assert(va.take(0) =~= Seq::<Seq<char>>::empty());
        assert(vb.to_multiset().difference_with(va.take(0).to_multiset()) =~= vb.to_multiset());
        assert(va.take(0).to_multiset().intersection_with(vb.to_multiset()) =~= vstd::multiset::Multiset::empty());
    }
    while i < a.len()
        invariant
            i <= a.len(),
            va == crate::text::views(a@),
            vb == crate::text::views(b@),
            common <= i,
            crate::text::views(pool@).to_multiset() == vb.to_multiset().difference_with(va.take(i as int).to_multiset()),
            common == va.take(i as int).to_multiset().intersection_with(vb.to_multiset()).len(),
        decreases a.len() - i,
    {
        let ghost x = va[i as int];
        let ghost mi = va.take(i as int).to_multiset();
        let ghost pv = crate::text::views(pool@);
        proof {
            assert(va.take(i as int + 1) =~= va.take(i as int).push(x));
            broadcast use vstd::seq_lib::group_to_multiset_ensures;
            assert(va.take(i as int + 1).to_multiset() =~= mi.insert(x));
        }
        match position_in(&pool, a[i].as_slice()) {
            Some(p) => {
                proof {
                    assert(pv[p as int] == x);
                    broadcast use vstd::seq_lib::group_to_multiset_ensures;
                    assert(pv.to_multiset().count(x) > 0);
                    assert(vb.to_multiset().count(x) > mi.count(x));
                    assert(crate::text::views(pool@.remove(p as int)) =~= pv.remove(p as int));
                    assert(pv.remove(p as int).to_multiset() =~= pv.to_multiset().remove(x));
                    assert(pv.to_multiset().remove(x) =~= vb.to_multiset().difference_with(mi.insert(x)));
                    assert(mi.insert(x).intersection_with(vb.to_multiset()) =~= mi.intersection_with(
                        vb.to_multiset(),
                    ).insert(x));
                }
                pool.remove(p);
                common = common + 1;
            },
            None => {
                proof {
                    broadcast use vstd::seq_lib::group_to_multiset_ensures;
                    if pv.to_multiset().count(x) > 0 {
                        let k = choose|k: int| 0 <= k < pv.len() && pv[k] == x;
                        assert(pool@[k]@ == x);
                    }
                    assert(vb.to_multiset().count(x) <= mi.count(x));
                    assert(pv.to_multiset() =~= vb.to_multiset().difference_with(mi.insert(x)));
                    assert(mi.insert(x).intersection_with(vb.to_multiset()) =~= mi.intersection_with(
                        vb.to_multiset(),
                    ));
                }
            },
        }
        i = i + 1;
    }
    proof {
        assert(va.take(i as int) =~= va);
    }
    common
}
} // verus!
