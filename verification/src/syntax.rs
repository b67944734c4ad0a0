//! Syntax trees and queries: what tree-sitter says of a source, as plain values,
//! and what bilinker builds on it — the fragments a query names, and the shape of a
//! node with the text of its tokens, which is what an AST hash covers.
use streaming_iterator::StreamingIterator;
use vstd::prelude::*;
use vstd::string::StringSliceAdditionalSpecFns;

use crate::text::{same_text, string_of, trim, trim_of};

verus! {

broadcast use vstd::utf8::encode_utf8_decode_utf8, vstd::utf8::encode_utf8_valid_utf8;

#[verifier::external_type_specification]
#[verifier::external_body]
pub struct ExLanguage(tree_sitter::Language);

/// A tree-sitter grammar, with the name the library gives its language. Only
/// `Grammar::of` makes one, so the name always says which grammar it holds.
pub struct Grammar {
    name: String,
    language: tree_sitter::Language,
}

/// The languages that have a grammar.
pub open spec fn has_grammar(lang: Seq<char>) -> bool {
    lang == "java"@ || lang == "rust"@ || lang == "yaml"@ || lang == "markdown"@ || lang == "typescript"@
        || lang == "tsx"@
}

/// The grammar of tree-sitter-java.
#[verifier::external_body]
fn java_language() -> tree_sitter::Language {
    tree_sitter_java::LANGUAGE.into()
}

/// The grammar of tree-sitter-rust.
#[verifier::external_body]
fn rust_language() -> tree_sitter::Language {
    tree_sitter_rust::LANGUAGE.into()
}

/// The grammar of tree-sitter-yaml.
#[verifier::external_body]
fn yaml_language() -> tree_sitter::Language {
    tree_sitter_yaml::LANGUAGE.into()
}

/// The block grammar of tree-sitter-md.
#[verifier::external_body]
fn markdown_language() -> tree_sitter::Language {
    tree_sitter_md::LANGUAGE.into()
}

/// The TypeScript grammar of tree-sitter-typescript.
#[verifier::external_body]
fn typescript_language() -> tree_sitter::Language {
    tree_sitter_typescript::LANGUAGE_TYPESCRIPT.into()
}

/// The TSX grammar of tree-sitter-typescript.
#[verifier::external_body]
fn tsx_language() -> tree_sitter::Language {
    tree_sitter_typescript::LANGUAGE_TSX.into()
}

impl Grammar {
    /// The name of the grammar's language.
    pub closed spec fn lang(&self) -> Seq<char> {
        self.name@
    }

    /// The grammar of a language, where it has one.
    pub fn of(lang: &str) -> (r: Option<Grammar>)
        ensures
            match r {
                Some(g) => g.lang() == lang@ && has_grammar(lang@),
                None => !has_grammar(lang@),
            },
    {
        proof {
            reveal_strlit("java");
            reveal_strlit("rust");
            reveal_strlit("yaml");
            reveal_strlit("markdown");
            reveal_strlit("typescript");
            reveal_strlit("tsx");
        }
        let language = if same_text(lang, "java") {
            java_language()
        } else if same_text(lang, "rust") {
            rust_language()
        } else if same_text(lang, "yaml") {
            yaml_language()
        } else if same_text(lang, "markdown") {
            markdown_language()
        } else if same_text(lang, "typescript") {
            typescript_language()
        } else if same_text(lang, "tsx") {
            tsx_language()
        } else {
            return None;
        };
        Some(Grammar { name: crate::text::owned(lang), language })
    }

    /// The name of the grammar's language.
    pub fn name(&self) -> (r: &str)
        ensures
            r@ == self.lang(),
    {
        self.name.as_str()
    }
}

// ─── what tree-sitter says ──────────────────────────────────────────────────

/// A node of a syntax tree, as plain values: its kind, the field its parent holds
/// it under, its bytes, its parent's place in the list, and whether the grammar
/// names it (a keyword or a bracket is not named).
#[derive(Debug, Clone, PartialEq, Eq)]
pub struct SyntaxNode {
    pub kind: String,
    pub field: Option<String>,
    pub start: usize,
    pub end: usize,
    pub parent: Option<usize>,
    pub named: bool,
}

/// A node as plain values.
pub open spec fn node_view(n: SyntaxNode) -> (Seq<char>, Option<Seq<char>>, nat, nat, Option<nat>, bool) {
    (
        n.kind@,
        match n.field {
            Some(f) => Some(f@),
            None => None,
        },
        n.start as nat,
        n.end as nat,
        match n.parent {
            Some(p) => Some(p as nat),
            None => None,
        },
        n.named,
    )
}

/// The tree tree-sitter parses from `source` with the grammar of `lang`: every node,
/// named or not, in document order (a node before its children, children in their
/// order); `None` where it gives no tree.
pub uninterp spec fn syntax_tree(lang: Seq<char>, source: Seq<char>) -> Option<
    Seq<(Seq<char>, Option<Seq<char>>, nat, nat, Option<nat>, bool)>,
>;

/// Each match of `query` over the tree of `source`, in the order tree-sitter gives
/// them, with its text predicates applied: each capture as the index of its name,
/// the kind of the node and its bytes. `None` where the query is not valid for the
/// grammar or there is no tree.
pub uninterp spec fn query_matches(lang: Seq<char>, source: Seq<char>, query: Seq<char>) -> Option<
    Seq<Seq<(nat, Seq<char>, nat, nat)>>,
>;

/// The names of the captures of `query`, by index; `None` where the query is not
/// valid for the grammar.
pub uninterp spec fn query_capture_names(lang: Seq<char>, query: Seq<char>) -> Option<Seq<Seq<char>>>;

/// A capture as plain values.
pub open spec fn capture_view(c: (usize, String, usize, usize)) -> (nat, Seq<char>, nat, nat) {
    (c.0 as nat, c.1@, c.2 as nat, c.3 as nat)
}

/// A match as plain values.
pub open spec fn match_view(m: Vec<(usize, String, usize, usize)>) -> Seq<(nat, Seq<char>, nat, nat)> {
    m@.map_values(|c: (usize, String, usize, usize)| capture_view(c))
}

/// The nodes of a tree as plain values.
pub open spec fn tree_view(t: Seq<SyntaxNode>) -> Seq<(Seq<char>, Option<Seq<char>>, nat, nat, Option<nat>, bool)> {
    t.map_values(|n: SyntaxNode| node_view(n))
}

/// `tree_sitter::Parser::parse` with the grammar, walked from the root: each node's
/// `kind`, the parent's `field_name_for_child`, `start_byte`, `end_byte`, where its
/// parent stands in the list, and `is_named`. The result is the named `syntax_tree`.
#[verifier::external_body]
pub fn parse_tree(g: &Grammar, source: &str) -> (r: Option<Vec<SyntaxNode>>)
    ensures
        match r {
            Some(t) => syntax_tree(g.lang(), source@) == Some(tree_view(t@)),
            None => syntax_tree(g.lang(), source@) is None,
        },
{
    let mut parser = tree_sitter::Parser::new();
    parser.set_language(&g.language).ok()?;
    let tree = parser.parse(source, None)?;
    let mut out = Vec::new();
    let mut stack = vec![(tree.root_node(), None, None)];
    while let Some((n, parent, field)) = stack.pop() {
        for i in (0..n.child_count()).rev() {
            stack.push((n.child(i)?, Some(out.len()), n.field_name_for_child(i as u32).map(String::from)));
        }
        out.push(SyntaxNode { kind: n.kind().into(), field, start: n.start_byte(), end: n.end_byte(), parent, named: n.is_named() });
    }
    Some(out)
}

/// `tree_sitter::Query::new` with the grammar, and its `capture_names`. The result
/// is the named `query_capture_names`.
#[verifier::external_body]
pub fn capture_names(g: &Grammar, query: &str) -> (r: Option<Vec<String>>)
    ensures
        match r {
            Some(v) => query_capture_names(g.lang(), query@) == Some(v@.map_values(|x: String| x@)),
            None => query_capture_names(g.lang(), query@) is None,
        },
{
    let q = tree_sitter::Query::new(&g.language, query).ok()?;
    Some(q.capture_names().iter().map(|n| n.to_string()).collect())
}

/// The matches of `QueryCursor::matches` for the query over the parsed tree, with
/// the source as text for its predicates: each capture's `index`, and its node's
/// `kind`, `start_byte` and `end_byte`. The result is the named `query_matches`.
#[verifier::external_body]
pub fn run_query(g: &Grammar, source: &str, query: &str) -> (r: Option<Vec<Vec<(usize, String, usize, usize)>>>)
    ensures
        match r {
            Some(v) => query_matches(g.lang(), source@, query@) == Some(
                v@.map_values(|m: Vec<(usize, String, usize, usize)>| match_view(m)),
            ),
            None => query_matches(g.lang(), source@, query@) is None,
        },
{
    let mut parser = tree_sitter::Parser::new();
    parser.set_language(&g.language).ok()?;
    let tree = parser.parse(source, None)?;
    let q = tree_sitter::Query::new(&g.language, query).ok()?;
    let mut cursor = tree_sitter::QueryCursor::new();
    let mut ms = cursor.matches(&q, tree.root_node(), source.as_bytes());
    let mut out = Vec::new();
    while let Some(m) = ms.next() {
        out.push(m.captures.iter().map(|c| (c.index as usize, c.node.kind().to_string(), c.node.start_byte(), c.node.end_byte())).collect());
    }
    Some(out)
}


// ─── the shape of a node, with its tokens ───────────────────────────────────

/// The text between two byte offsets, as `&source[a..e]` reads it, where both fall
/// between characters; nothing otherwise.
pub open spec fn text_between(b: Seq<u8>, a: int, e: int) -> Seq<char> {
    if 0 <= a <= e <= b.len() && vstd::utf8::is_char_boundary(b, a) && vstd::utf8::is_char_boundary(b, e) {
        vstd::utf8::decode_utf8(b.subrange(a, e))
    } else {
        seq![]
    }
}

/// What a stretch of text between nodes adds to a shape: nothing when it is only
/// whitespace, else a space and the text without the whitespace around it.
pub open spec fn gap(b: Seq<u8>, a: int, e: int) -> Seq<char> {
    let t = trim(text_between(b, a, e));
    if t.len() > 0 {
        seq![' '] + t
    } else {
        seq![]
    }
}

/// **The shape of a node and the text of each token**: `(kind`, then for each
/// child, in order, the text before it that no child covers and the child's own
/// shape after a space, then the text after the last child, and `)`. In a leaf the
/// uncovered text is the whole token; in an inner node it is what hangs between
/// children, such as a comment's body. Two fragments agree when they have the same
/// tokens in the same order and the same structure: only the space between tokens
/// may differ.
pub open spec fn shape(t: Seq<SyntaxNode>, b: Seq<u8>, i: int) -> Seq<char>
    decreases t.len() - i, 1int,
{
    if 0 <= i < t.len() {
        seq!['('] + t[i].kind@ + shape_rest(t, b, i, i + 1, t[i].start as int) + seq![')']
    } else {
        seq![]
    }
}

/// The part of `i`'s shape from node `j` on, the text covered up to `at`.
pub open spec fn shape_rest(t: Seq<SyntaxNode>, b: Seq<u8>, i: int, j: int, at: int) -> Seq<char>
    decreases t.len() - j, 2int,
{
    if j < 0 || j >= t.len() || i < 0 || i >= t.len() {
        if 0 <= i < t.len() {
            gap(b, at, t[i].end as int)
        } else {
            seq![]
        }
    } else if t[j].parent == Some(i as usize) {
        gap(b, at, t[j].start as int) + seq![' '] + shape(t, b, j) + shape_rest(t, b, i, j + 1, t[j].end as int)
    } else {
        shape_rest(t, b, i, j + 1, at)
    }
}

/// The text between two byte offsets.
fn text_between_of(source: &str, a: usize, e: usize) -> (r: Vec<char>)
    ensures
        r@ == text_between(source.spec_bytes(), a as int, e as int),
{
    broadcast use vstd::utf8::is_char_boundary_iff_not_is_continuation_byte,
        vstd::utf8::is_char_boundary_start_end_of_seq;

    let ghost b = source.spec_bytes();
    let bytes = source.as_bytes();
    let ok = a <= e && e <= bytes.len();
    let ba = ok && source.is_char_boundary(a);
    let be = ba && source.is_char_boundary(e);
    if be {
        let (_, tail) = source.split_at(a);
        let ghost tb = tail.spec_bytes();
        proof {
            assert(tb =~= b.subrange(a as int, b.len() as int));
            vstd::utf8::encode_utf8_valid_utf8(source@);
            vstd::utf8::encode_utf8_valid_utf8(tail@);
            if e < b.len() {
                assert(tb[e - a] == b[e as int]);
                vstd::utf8::is_char_boundary_iff_not_is_continuation_byte(tb, e - a);
                vstd::utf8::is_char_boundary_iff_not_is_continuation_byte(b, e as int);
            } else {
                vstd::utf8::is_char_boundary_start_end_of_seq(tb);
            }
        }
        let (mid, _) = tail.split_at(e - a);
        proof {
            assert(mid.spec_bytes() =~= b.subrange(a as int, e as int));
            vstd::utf8::encode_utf8_decode_utf8(mid@);
            assert(mid.spec_bytes() == vstd::utf8::encode_utf8(mid@));
            assert(vstd::utf8::decode_utf8(b.subrange(a as int, e as int)) == mid@);
        }
        let r = crate::text::chars_of(mid);
        assert(r@ == text_between(b, a as int, e as int));
        r
    } else {
        let r: Vec<char> = Vec::new();
        assert(r@ =~= text_between(b, a as int, e as int));
        r
    }
}

fn gap_of(source: &str, a: usize, e: usize) -> (r: Vec<char>)
    ensures
        r@ == gap(source.spec_bytes(), a as int, e as int),
{
    let x = text_between_of(source, a, e);
    let t = trim_of(x.as_slice());
    if t.len() > 0 {
        let mut out = vec![' '];
        crate::text::append(&mut out, t.as_slice());
        out
    } else {
        Vec::new()
    }
}

/// The shape of node `i` with the text of its tokens.
pub fn shape_of(t: &Vec<SyntaxNode>, source: &str, i: usize) -> (r: Vec<char>)
    requires
        i < t@.len(),
    ensures
        r@ == shape(t@, source.spec_bytes(), i as int),
    decreases t@.len() - i,
{
    let ghost b = source.spec_bytes();
    let mut out = vec!['('];
    crate::text::append_str(&mut out, t[i].kind.as_str());
    let mut at = t[i].start;
    let n = t.len();
    let mut j = i + 1;
    assert(shape(t@, b, i as int) == out@ + shape_rest(t@, b, i as int, j as int, at as int) + seq![')']);
    while j < t.len()
        invariant
            i < j <= t@.len(),
            b == source.spec_bytes(),
            shape(t@, b, i as int) == out@ + shape_rest(t@, b, i as int, j as int, at as int) + seq![')'],
        decreases t@.len() - j,
    {
        let ghost before = out@;
        let is_child = match t[j].parent {
            Some(p) => p == i,
            None => false,
        };
        if is_child {
            let g = gap_of(source, at, t[j].start);
            crate::text::append(&mut out, g.as_slice());
            out.push(' ');
            let sub = shape_of(t, source, j);
            crate::text::append(&mut out, sub.as_slice());
            at = t[j].end;
        }
        j = j + 1;
    }
    let g = gap_of(source, at, t[i].end);
    crate::text::append(&mut out, g.as_slice());
    out.push(')');
    out
}


// ─── what a query names ─────────────────────────────────────────────────────

/// A capture of a match: the index of its name, its node's kind, start and end.
pub type Capture = (usize, String, usize, usize);

/// What a query names in a match: its parts (trimmed, in file order) and the
/// shapes of their nodes, joined by a line break.
#[derive(Debug, Clone, PartialEq, Eq)]
pub struct Fragment {
    pub ranges: Vec<crate::link::ByteRange>,
    pub sexp: String,
}

/// A match of a query: its fragment, and the text of its last name capture where
/// the query has one.
#[derive(Debug, Clone, PartialEq, Eq)]
pub struct TargetMatch {
    pub fragment: Fragment,
    pub name: Option<String>,
}

/// Why a query gives no fragments.
#[derive(Debug, Clone, Copy, PartialEq, Eq, Structural)]
pub enum QueryError {
    /// The grammar gave no tree, or the query is not valid for it.
    Unreadable,
    /// The query has no `@target` capture.
    NoTarget,
}

/// Whether capture index `i` has the name `text`.
pub open spec fn named(names: Seq<String>, i: usize, text: Seq<char>) -> bool {
    (i as int) < names.len() && names[i as int]@ == text
}

/// The first index whose name is `text`, looking from `k` on.
pub open spec fn index_from(names: Seq<String>, text: Seq<char>, k: int) -> Option<usize>
    decreases names.len() - k,
{
    if k < 0 || k >= names.len() {
        None
    } else if names[k]@ == text {
        Some(k as usize)
    } else {
        index_from(names, text, k + 1)
    }
}

/// The name `nK` of the K-th name capture.
pub open spec fn name_capture(k: nat) -> Seq<char> {
    seq!['n'] + crate::refmsg::decimal(k)
}

/// The index of `nK` for the largest K such that `n0` … `nK` are all captures of
/// the query, looking from `k` on: the last name capture names the fragment, as
/// `@n0` names the outermost ancestor.
pub open spec fn name_run(names: Seq<String>, k: nat) -> Option<usize>
    decreases names.len() + 1 - k,
{
    if k > names.len() {
        None
    } else {
        match index_from(names, name_capture(k), 0) {
            None => None,
            Some(i) => match name_run(names, k + 1) {
                Some(j) => Some(j),
                None => Some(i),
            },
        }
    }
}

/// The targets of a match, in the order of the match.
pub open spec fn targets_of(names: Seq<String>, m: Seq<Capture>) -> Seq<Capture> {
    m.filter(|c: Capture| named(names, c.0, "target"@))
}

/// Sorted pairs without repeats next to each other.
pub open spec fn dedup(s: Seq<(usize, usize)>) -> Seq<(usize, usize)>
    decreases s.len(),
{
    if s.len() <= 1 {
        s
    } else {
        let d = dedup(s.drop_last());
        if s.last() == s[s.len() - 2] {
            d
        } else {
            d.push(s.last())
        }
    }
}

/// The byte ranges of a match's targets, in file order, each once.
pub open spec fn part_pairs(names: Seq<String>, m: Seq<Capture>) -> Seq<(usize, usize)> {
    dedup(targets_of(names, m).map_values(|c: Capture| (c.2, c.3)).sort_by(crate::sorting::pair_leq()))
}

/// The kind of the first target with this range.
pub open spec fn kind_for(cs: Seq<Capture>, p: (usize, usize)) -> Seq<char>
    decreases cs.len(),
{
    if cs.len() == 0 {
        seq![]
    } else if cs[0].2 == p.0 && cs[0].3 == p.1 {
        cs[0].1@
    } else {
        kind_for(cs.drop_first(), p)
    }
}

/// The first node, from `k` on, of this kind and range; -1 where there is none.
pub open spec fn node_from(t: Seq<SyntaxNode>, kind: Seq<char>, s: usize, e: usize, k: int) -> int
    decreases t.len() - k,
{
    if k < 0 || k >= t.len() {
        -1
    } else if t[k].kind@ == kind && t[k].start == s && t[k].end == e {
        k
    } else {
        node_from(t, kind, s, e, k + 1)
    }
}

/// The shapes of a match's parts, in file order.
pub open spec fn part_shapes(t: Seq<SyntaxNode>, b: Seq<u8>, names: Seq<String>, m: Seq<Capture>) -> Seq<Seq<char>> {
    part_pairs(names, m).map_values(
        |p: (usize, usize)| shape(t, b, node_from(t, kind_for(targets_of(names, m), p), p.0, p.1, 0)),
    )
}

/// The text of the first capture of index `k`.
pub open spec fn capture_text(b: Seq<u8>, m: Seq<Capture>, k: usize) -> Option<Seq<char>>
    decreases m.len(),
{
    if m.len() == 0 {
        None
    } else if m[0].0 == k {
        Some(text_between(b, m[0].2 as int, m[0].3 as int))
    } else {
        capture_text(b, m.drop_first(), k)
    }
}

/// A name that may be there, as a plain value.
pub open spec fn opt_text(o: Option<String>) -> Option<Seq<char>> {
    match o {
        Some(x) => Some(x@),
        None => None,
    }
}

/// `r` is what match `m` names: its parts trimmed, the shapes of their nodes
/// joined by a line break, and the text of the last name capture.
pub open spec fn names_match(t: Seq<SyntaxNode>, b: Seq<u8>, names: Seq<String>, m: Seq<Capture>, r: TargetMatch) -> bool {
    let pp = part_pairs(names, m);
    &&& r.fragment.ranges@.len() == pp.len()
    &&& forall|i: int| 0 <= i < pp.len() ==> crate::query::trimmed_to(b, pp[i].0, pp[i].1, (#[trigger] r.fragment.ranges@[i].start, r.fragment.ranges@[i].end))
    &&& r.fragment.sexp@ == crate::text::join(part_shapes(t, b, names, m), seq!['\n'])
    &&& opt_text(r.name) == match name_run(names, 0) {
        Some(k) => capture_text(b, m, k),
        None => None,
    }
}

/// The matches that name something: those with at least one target.
pub open spec fn naming(names: Seq<String>, ms: Seq<Vec<Capture>>) -> Seq<Vec<Capture>> {
    ms.filter(|m: Vec<Capture>| targets_of(names, m@).len() > 0)
}

fn index_of_name(names: &Vec<String>, text: &str) -> (r: Option<usize>)
    ensures
        r == index_from(names@, text@, 0),
{
    let mut k: usize = 0;
    while k < names.len()
        invariant
            k <= names@.len(),
            index_from(names@, text@, 0) == index_from(names@, text@, k as int),
        decreases names.len() - k,
    {
        if same_text(names[k].as_str(), text) {
            return Some(k);
        }
        k = k + 1;
    }
    None
}

/// The index of the last name capture of a query with these capture names.
pub fn last_name_capture(names: &Vec<String>) -> (r: Option<usize>)
    ensures
        r == name_run(names@, 0),
{
    let mut k: usize = 0;
    let mut last: Option<usize> = None;
    while k <= names.len()
        invariant
            k <= names@.len() + 1,
            k == 0 ==> last is None,
            k > 0 ==> last is Some,
            name_run(names@, 0) == match name_run(names@, k as nat) {
                Some(j) => Some(j),
                None => last,
            },
        decreases names@.len() + 1 - k,
    {
        let mut want = vec!['n'];
        let d = crate::refmsg::decimal_of(k as u64);
        crate::text::append(&mut want, d.as_slice());
        let w = string_of(want.as_slice());
        assert(w@ == name_capture(k as nat));
        match index_of_name(names, w.as_str()) {
            None => {
                return last;
            },
            Some(i) => {
                last = Some(i);
            },
        }
        if k == names.len() {
            assert(name_run(names@, k as nat + 1) is None);
            assert(name_run(names@, k as nat) == last);
            return last;
        }
        k = k + 1;
    }
    last
}

fn dedup_of(v: &Vec<(usize, usize)>) -> (r: Vec<(usize, usize)>)
    ensures
        r@ == dedup(v@),
{
    let mut out: Vec<(usize, usize)> = Vec::new();
    let mut i: usize = 0;
    while i < v.len()
        invariant
            i <= v@.len(),
            out@ == dedup(v@.take(i as int)),
            i > 0 ==> out@.len() > 0 && out@.last() == v@[i - 1],
        decreases v.len() - i,
    {
        proof {
            lemma_dedup_last(v@.take(i as int));
            assert(v@.take(i as int + 1).drop_last() =~= v@.take(i as int));
        }
        if i == 0 || v[i].0 != v[i - 1].0 || v[i].1 != v[i - 1].1 {
            out.push(v[i]);
        }
        i = i + 1;
    }
    assert(v@.take(i as int) =~= v@);
    out
}

proof fn lemma_dedup_last(s: Seq<(usize, usize)>)
    ensures
        s.len() > 0 ==> dedup(s).len() > 0 && dedup(s).last() == s.last(),
    decreases s.len(),
{
    if s.len() > 1 {
        lemma_dedup_last(s.drop_last());
    }
}

fn kind_for_of(cs: &Vec<Capture>, p: (usize, usize)) -> (r: String)
    ensures
        r@ == kind_for(cs@, p),
{
    let mut k: usize = 0;
    assert(cs@.skip(0) =~= cs@);
    while k < cs.len()
        invariant
            k <= cs@.len(),
            kind_for(cs@, p) == kind_for(cs@.skip(k as int), p),
        decreases cs.len() - k,
    {
        assert(cs@.skip(k as int)[0] == cs@[k as int]);
        assert(cs@.skip(k as int).drop_first() =~= cs@.skip(k as int + 1));
        if cs[k].2 == p.0 && cs[k].3 == p.1 {
            return cs[k].1.clone();
        }
        k = k + 1;
    }
    assert(cs@.skip(k as int).len() == 0);
    String::new()
}

fn node_from_of(t: &Vec<SyntaxNode>, kind: &str, s: usize, e: usize) -> (r: Option<usize>)
    ensures
        match r {
            Some(i) => node_from(t@, kind@, s, e, 0) == i && i < t@.len(),
            None => node_from(t@, kind@, s, e, 0) == -1,
        },
{
    let mut k: usize = 0;
    while k < t.len()
        invariant
            k <= t@.len(),
            node_from(t@, kind@, s, e, 0) == node_from(t@, kind@, s, e, k as int),
        decreases t.len() - k,
    {
        if t[k].start == s && t[k].end == e && same_text(t[k].kind.as_str(), kind) {
            return Some(k);
        }
        k = k + 1;
    }
    None
}

fn capture_text_of(source: &str, m: &Vec<Capture>, k: usize) -> (r: Option<String>)
    ensures
        opt_text(r) == capture_text(source.spec_bytes(), m@, k),
{
    let mut j: usize = 0;
    assert(m@.skip(0) =~= m@);
    while j < m.len()
        invariant
            j <= m@.len(),
            capture_text(source.spec_bytes(), m@, k) == capture_text(source.spec_bytes(), m@.skip(j as int), k),
        decreases m.len() - j,
    {
        assert(m@.skip(j as int)[0] == m@[j as int]);
        assert(m@.skip(j as int).drop_first() =~= m@.skip(j as int + 1));
        if m[j].0 == k {
            let x = text_between_of(source, m[j].2, m[j].3);
            return Some(string_of(x.as_slice()));
        }
        j = j + 1;
    }
    assert(m@.skip(j as int).len() == 0);
    None
}


fn copy_capture(c: &Capture) -> (r: Capture)
    ensures
        r == *c,
{
    (c.0, c.1.clone(), c.2, c.3)
}

/// What match `m` names, the last name capture being `name_idx`.
fn match_fragment(source: &str, t: &Vec<SyntaxNode>, names: &Vec<String>, m: &Vec<Capture>, name_idx: Option<usize>) -> (r:
    TargetMatch)
    requires
        name_idx == name_run(names@, 0),
    ensures
        names_match(t@, source.spec_bytes(), names@, m@, r),
{
    let ghost b = source.spec_bytes();
    let ghost keep = |c: Capture| named(names@, c.0, "target"@);
    // the targets, in match order
    let mut targets: Vec<Capture> = Vec::new();
    let mut i: usize = 0;
    proof {
        reveal_strlit("target");
    }
    assert(m@.take(0).filter(keep) =~= Seq::<Capture>::empty());
    while i < m.len()
        invariant
            i <= m@.len(),
            forall|c: Capture| #[trigger] keep(c) == named(names@, c.0, "target"@),
            targets@ == m@.take(i as int).filter(keep),
        decreases m.len() - i,
    {
        proof {
            assert(m@.take(i as int + 1) =~= m@.take(i as int).push(m@[i as int]));
            m@.take(i as int).lemma_filter_push(m@[i as int], keep);
        }
        let is_target = m[i].0 < names.len() && same_text(names[m[i].0].as_str(), "target");
        assert(is_target == keep(m@[i as int]));
        if is_target {
            targets.push(copy_capture(&m[i]));
        }
        i = i + 1;
    }
    assert(m@.take(i as int) =~= m@);
    assert(targets@ == targets_of(names@, m@));
    // their ranges, in file order, each once
    let mut pairs: Vec<(usize, usize)> = Vec::new();
    let mut k: usize = 0;
    while k < targets.len()
        invariant
            k <= targets@.len(),
            pairs@ == targets@.take(k as int).map_values(|c: Capture| (c.2, c.3)),
        decreases targets.len() - k,
    {
        pairs.push((targets[k].2, targets[k].3));
        k = k + 1;
        assert(pairs@ =~= targets@.take(k as int).map_values(|c: Capture| (c.2, c.3)));
    }
    assert(targets@.take(k as int) =~= targets@);
    let sorted = crate::sorting::sort_pairs(&pairs);
    let pp = dedup_of(&sorted);
    assert(pp@ == part_pairs(names@, m@));
    // each part: its trimmed range and its node's shape
    let ghost f = |p: (usize, usize)| shape(t@, b, node_from(t@, kind_for(targets_of(names@, m@), p), p.0, p.1, 0));
    let mut ranges: Vec<crate::link::ByteRange> = Vec::new();
    let mut shapes: Vec<Vec<char>> = Vec::new();
    let mut j: usize = 0;
    while j < pp.len()
        invariant
            j <= pp@.len(),
            b == source.spec_bytes(),
            pp@ == part_pairs(names@, m@),
            targets@ == targets_of(names@, m@),
            forall|p: (usize, usize)| #[trigger] f(p) == shape(t@, b, node_from(t@, kind_for(targets_of(names@, m@), p), p.0, p.1, 0)),
            ranges@.len() == j,
            forall|x: int| 0 <= x < j ==> crate::query::trimmed_to(b, pp@[x].0, pp@[x].1, (#[trigger] ranges@[x].start, ranges@[x].end)),
            crate::text::views(shapes@) == pp@.take(j as int).map_values(f),
        decreases pp.len() - j,
    {
        let p = pp[j];
        let (s0, e0) = crate::query::trim_edges(source, p.0, p.1);
        ranges.push(crate::link::ByteRange { start: s0, end: e0 });
        let kind = kind_for_of(&targets, p);
        let sh = match node_from_of(t, kind.as_str(), p.0, p.1) {
            Some(x) => shape_of(t, source, x),
            None => Vec::new(),
        };
        assert(sh@ == f(p));
        let ghost before = crate::text::views(shapes@);
        shapes.push(sh);
        j = j + 1;
        assert(crate::text::views(shapes@) =~= before.push(f(p)));
        assert(pp@.take(j as int).map_values(f) =~= pp@.take(j as int - 1).map_values(f).push(f(p)));
    }
    assert(pp@.take(j as int) =~= pp@);
    assert(part_shapes(t@, b, names@, m@) =~= pp@.map_values(f));
    let nl = vec!['\n'];
    let joined = crate::text::join_of(&shapes, nl.as_slice());
    let name = match name_idx {
        Some(x) => capture_text_of(source, m, x),
        None => None,
    };
    let sexp = string_of(joined.as_slice());
    assert(nl@ =~= seq!['\n']);
    assert(crate::text::views(shapes@) == pp@.map_values(f));
    assert(sexp@ == crate::text::join(part_shapes(t@, b, names@, m@), seq!['\n']));
    assert(opt_text(name) == match name_run(names@, 0) {
        Some(k) => capture_text(b, m@, k),
        None => None,
    });
    TargetMatch { fragment: Fragment { ranges, sexp }, name }
}

/// `r` is what the matches `ms` name: nothing where no capture is `@target`; else
/// each match with a target, in order (only the first when `first_only`).
pub open spec fn targets_result(
    t: Seq<SyntaxNode>,
    b: Seq<u8>,
    names: Seq<String>,
    ms: Seq<Vec<Capture>>,
    first_only: bool,
    r: Result<Vec<TargetMatch>, QueryError>,
) -> bool {
    if index_from(names, "target"@, 0) is None {
        r == Err::<Vec<TargetMatch>, QueryError>(QueryError::NoTarget)
    } else {
        let all = naming(names, ms);
        let want = if first_only && all.len() > 1 { all.take(1) } else { all };
        r matches Ok(v) && v@.len() == want.len() && forall|j: int| 0 <= j < want.len() ==> names_match(
            t,
            b,
            names,
            #[trigger] want[j]@,
            v@[j],
        )
    }
}

/// What each match names, given the tree of `source`, the query's capture names
/// and its matches.
pub fn targets_from(source: &str, t: &Vec<SyntaxNode>, names: &Vec<String>, ms: &Vec<Vec<Capture>>, first_only: bool) -> (r:
    Result<Vec<TargetMatch>, QueryError>)
    ensures
        targets_result(t@, source.spec_bytes(), names@, ms@, first_only, r),
{
    proof {
        reveal_strlit("target");
    }
    if index_of_name(names, "target").is_none() {
        return Err(QueryError::NoTarget);
    }
    assert(index_from(names@, "target"@, 0) is Some);
    let name_idx = last_name_capture(names);
    let ghost keep = |m: Vec<Capture>| targets_of(names@, m@).len() > 0;
    let mut out: Vec<TargetMatch> = Vec::new();
    let mut i: usize = 0;
    assert(ms@.take(0).filter(keep) =~= Seq::<Vec<Capture>>::empty());
    while i < ms.len()
        invariant
            i <= ms@.len(),
            name_idx == name_run(names@, 0),
            forall|m: Vec<Capture>| #[trigger] keep(m) == (targets_of(names@, m@).len() > 0),
            keep == (|m: Vec<Capture>| targets_of(names@, m@).len() > 0),
            index_from(names@, "target"@, 0) is Some,
            out@.len() == ms@.take(i as int).filter(keep).len(),
            first_only ==> out@.len() == 0,
            forall|j: int| 0 <= j < out@.len() ==> names_match(t@, source.spec_bytes(), names@, #[trigger] ms@.take(i as int).filter(keep)[j]@, out@[j]),
        decreases ms.len() - i,
    {
        let ghost pre = ms@.take(i as int).filter(keep);
        proof {
            assert(ms@.take(i as int + 1) =~= ms@.take(i as int).push(ms@[i as int]));
            ms@.take(i as int).lemma_filter_push(ms@[i as int], keep);
        }
        let tm = match_fragment(source, t, names, &ms[i], name_idx);
        let has = tm.fragment.ranges.len() > 0;
        proof {
            assert(part_pairs(names@, ms@[i as int]@).len() > 0 <==> targets_of(names@, ms@[i as int]@).len() > 0) by {
                lemma_parts_iff_targets(names@, ms@[i as int]@);
            }
        }
        if has {
            let ghost before = out@;
            out.push(tm);
            i = i + 1;
            assert forall|j: int| 0 <= j < out@.len() implies names_match(t@, source.spec_bytes(), names@, #[trigger] ms@.take(i as int).filter(keep)[j]@, out@[j]) by {
                if j < before.len() {
                    assert(ms@.take(i as int).filter(keep)[j] == pre[j]);
                }
            }
            if first_only {
                proof {
                    lemma_first_only(ms@, keep, i as int);
                    assert(naming(names@, ms@) =~= ms@.filter(keep));
                    let all = naming(names@, ms@);
                    if all.len() == 1 {
                        assert(all.take(1) =~= all);
                    }
                    let want = if all.len() > 1 { all.take(1) } else { all };
                    assert(want =~= ms@.take(i as int).filter(keep));
                }
                return Ok(out);
            }
        } else {
            i = i + 1;
        }
    }
    assert(ms@.take(i as int) =~= ms@);
    assert(naming(names@, ms@) =~= ms@.filter(keep));
    Ok(out)
}

/// A match has parts exactly when it has targets.
proof fn lemma_parts_iff_targets(names: Seq<String>, m: Seq<Capture>)
    ensures
        part_pairs(names, m).len() > 0 <==> targets_of(names, m).len() > 0,
{
    let ps = targets_of(names, m).map_values(|c: Capture| (c.2, c.3));
    let sorted = ps.sort_by(crate::sorting::pair_leq());
    ps.lemma_sort_by_ensures(crate::sorting::pair_leq());
    assert(sorted.len() == ps.len()) by {
        broadcast use vstd::seq_lib::group_to_multiset_ensures;
        assert(sorted.to_multiset().len() == ps.to_multiset().len());
    };
    lemma_dedup_last(sorted);
    if sorted.len() == 0 {
        assert(dedup(sorted) == sorted);
    }
}

/// Once the first match with a target is in, the ones after it are not wanted.
proof fn lemma_first_only(ms: Seq<Vec<Capture>>, keep: spec_fn(Vec<Capture>) -> bool, i: int)
    requires
        0 <= i <= ms.len(),
        ms.take(i).filter(keep).len() == 1,
    ensures
        ms.filter(keep).len() >= 1,
        ms.filter(keep).take(1) == ms.take(i).filter(keep),
{
    let rest = ms.skip(i);
    assert(ms =~= ms.take(i) + rest);
    Seq::filter_distributes_over_add(ms.take(i), rest, keep);
    assert(ms.filter(keep).take(1) =~= ms.take(i).filter(keep));
}


// ─── asking a grammar ───────────────────────────────────────────────────────

/// A fragment as plain values: its ranges and its shape.
pub open spec fn fragment_view(f: Fragment) -> (Seq<crate::link::ByteRange>, Seq<char>) {
    (f.ranges@, f.sexp@)
}

fn copy_fragment(f: &Fragment) -> (r: Fragment)
    ensures
        fragment_view(r) == fragment_view(*f),
{
    let mut ranges: Vec<crate::link::ByteRange> = Vec::new();
    let mut i: usize = 0;
    while i < f.ranges.len()
        invariant
            i <= f.ranges@.len(),
            ranges@ == f.ranges@.take(i as int),
        decreases f.ranges.len() - i,
    {
        ranges.push(f.ranges[i]);
        i = i + 1;
        assert(ranges@ =~= f.ranges@.take(i as int));
    }
    assert(f.ranges@.take(i as int) =~= f.ranges@);
    let r = Fragment { ranges, sexp: f.sexp.clone() };
    assert(r.ranges@ == f.ranges@);
    r
}

/// `r` answers what a query names in `source`, with the grammar of `lang`, as
/// tree-sitter parses and matches them: `Unreadable` where it gives no tree or the
/// query is not valid; else what the matches name.
pub open spec fn query_result(
    lang: Seq<char>,
    source: Seq<char>,
    query: Seq<char>,
    first_only: bool,
    r: Result<Vec<TargetMatch>, QueryError>,
) -> bool {
    match (syntax_tree(lang, source), query_capture_names(lang, query), query_matches(lang, source, query)) {
        (Some(tv), Some(nv), Some(mv)) => exists|t: Seq<SyntaxNode>, names: Seq<String>, ms: Seq<Vec<Capture>>|
            #![trigger targets_result(t, vstd::utf8::encode_utf8(source), names, ms, first_only, r)]
            tree_view(t) == tv && names.map_values(|x: String| x@) == nv && ms.map_values(
                |m: Vec<Capture>| match_view(m),
            ) == mv && targets_result(t, vstd::utf8::encode_utf8(source), names, ms, first_only, r),
        _ => r == Err::<Vec<TargetMatch>, QueryError>(QueryError::Unreadable),
    }
}

/// What the tree-sitter answers for `source` and `query` are, read once.
fn ask(g: &Grammar, source: &str, query: &str) -> (r: Option<(Vec<SyntaxNode>, Vec<String>, Vec<Vec<Capture>>)>)
    ensures
        match r {
            Some((t, names, ms)) => syntax_tree(g.lang(), source@) == Some(tree_view(t@))
                && query_capture_names(g.lang(), query@) == Some(names@.map_values(|x: String| x@))
                && query_matches(g.lang(), source@, query@) == Some(
                ms@.map_values(|m: Vec<Capture>| match_view(m)),
            ),
            None => syntax_tree(g.lang(), source@) is None || query_capture_names(g.lang(), query@) is None
                || query_matches(g.lang(), source@, query@) is None,
        },
{
    let t = match parse_tree(g, source) {
        Some(t) => t,
        None => return None,
    };
    let names = match capture_names(g, query) {
        Some(n) => n,
        None => return None,
    };
    let ms = match run_query(g, source, query) {
        Some(m) => m,
        None => return None,
    };
    Some((t, names, ms))
}

fn targets_with(g: &Grammar, source: &str, query: &str, first_only: bool) -> (r: Result<Vec<TargetMatch>, QueryError>)
    ensures
        query_result(g.lang(), source@, query@, first_only, r),
{
    match ask(g, source, query) {
        None => Err(QueryError::Unreadable),
        Some((t, names, ms)) => {
            let r = targets_from(source, &t, &names, &ms, first_only);
            assert(targets_result(t@, vstd::utf8::encode_utf8(source@), names@, ms@, first_only, r));
            r
        },
    }
}

/// **Every match of a query**, each with all its parts: what the search for a
/// renamed anchor walks, and what tells a query that matches twice, which
/// identifies nothing.
pub fn find_all_targets(g: &Grammar, source: &str, query: &str) -> (r: Result<Vec<TargetMatch>, QueryError>)
    ensures
        query_result(g.lang(), source@, query@, false, r),
{
    targets_with(g, source, query, false)
}

/// The fragments of every match of a query.
pub fn find_all_fragments(g: &Grammar, source: &str, query: &str) -> (r: Result<Vec<Fragment>, QueryError>)
    ensures
        exists|all: Result<Vec<TargetMatch>, QueryError>|
            #![trigger query_result(g.lang(), source@, query@, false, all)]
            query_result(g.lang(), source@, query@, false, all) && match (all, r) {
                (Ok(v), Ok(f)) => f@.map_values(|x: Fragment| fragment_view(x)) == v@.map_values(
                    |x: TargetMatch| fragment_view(x.fragment),
                ),
                (Err(e), Err(e2)) => e == e2,
                _ => false,
            },
{
    let all = targets_with(g, source, query, false);
    match all {
        Ok(v) => {
            let mut out: Vec<Fragment> = Vec::new();
            let mut i: usize = 0;
            while i < v.len()
                invariant
                    i <= v@.len(),
                    out@.len() == i,
                    forall|j: int| 0 <= j < i ==> fragment_view(#[trigger] out@[j]) == fragment_view(v@[j].fragment),
                decreases v.len() - i,
            {
                out.push(copy_fragment(&v[i].fragment));
                i = i + 1;
            }
            assert(out@.map_values(|x: Fragment| fragment_view(x)) =~= v@.map_values(
                |x: TargetMatch| fragment_view(x.fragment),
            ));
            let r = Ok(out);
            assert(query_result(g.lang(), source@, query@, false, Ok::<Vec<TargetMatch>, QueryError>(v)));
            r
        },
        Err(e) => Err(e),
    }
}

/// **The fragment a query names**: all the `@target`s of its first match that has
/// any, in file order. A query carries predicates that make it unique, so more
/// than one match means it does not.
pub fn find_fragment(g: &Grammar, source: &str, query: &str) -> (r: Result<Option<Fragment>, QueryError>)
    ensures
        exists|first: Result<Vec<TargetMatch>, QueryError>|
            #![trigger query_result(g.lang(), source@, query@, true, first)]
            query_result(g.lang(), source@, query@, true, first) && match (first, r) {
                (Ok(v), Ok(f)) => if v@.len() == 0 {
                    f is None
                } else {
                    f matches Some(x) && fragment_view(x) == fragment_view(v@[0].fragment)
                },
                (Err(e), Err(e2)) => e == e2,
                _ => false,
            },
{
    let first = targets_with(g, source, query, true);
    match first {
        Ok(v) => {
            let r = if v.len() == 0 { None } else { Some(copy_fragment(&v[0].fragment)) };
            assert(query_result(g.lang(), source@, query@, true, Ok::<Vec<TargetMatch>, QueryError>(v)));
            Ok(r)
        },
        Err(e) => Err(e),
    }
}


/// **The shape of a node with the text of its tokens**, as a string: what an AST
/// hash covers. Reformatting does not change it; renaming, a literal or a comment
/// does.
pub fn shape_and_tokens(t: &Vec<SyntaxNode>, source: &str, i: usize) -> (r: String)
    requires
        i < t@.len(),
    ensures
        r@ == shape(t@, source.spec_bytes(), i as int),
{
    let v = shape_of(t, source, i);
    string_of(v.as_slice())
}

/// The node tree-sitter's `descendant_for_byte_range` gives, from the root of the
/// tree of `source`, for `start..end`: its kind and bytes. `None` where there is no
/// tree or no such node.
pub uninterp spec fn descendant_for(lang: Seq<char>, source: Seq<char>, start: nat, end: nat) -> Option<
    (Seq<char>, nat, nat),
>;

/// `Parser::parse` with the grammar, then `Node::descendant_for_byte_range` from
/// the root: the node's `kind`, `start_byte` and `end_byte`. The result is the
/// named `descendant_for`.
#[verifier::external_body]
pub fn descendant(g: &Grammar, source: &str, start: usize, end: usize) -> (r: Option<(String, usize, usize)>)
    ensures
        match r {
            Some((k, s, e)) => descendant_for(g.lang(), source@, start as nat, end as nat) == Some(
                (k@, s as nat, e as nat),
            ),
            None => descendant_for(g.lang(), source@, start as nat, end as nat) is None,
        },
{
    let mut parser = tree_sitter::Parser::new();
    parser.set_language(&g.language).ok()?;
    let tree = parser.parse(source, None)?;
    let n = tree.root_node().descendant_for_byte_range(start, end)?;
    Some((n.kind().to_string(), n.start_byte(), n.end_byte()))
}

/// The shape, with its tokens, of the smallest node that covers `start..end`: how
/// the fold of a neighbourhood sees a neighbour. `None` where there is no tree or
/// no such node; the node is looked up in the tree by its kind and bytes.
pub fn covering_shape(g: &Grammar, source: &str, start: usize, end: usize) -> (r: Option<String>)
    ensures
        match (syntax_tree(g.lang(), source@), descendant_for(g.lang(), source@, start as nat, end as nat)) {
            (Some(tv), Some((k, s, e))) => exists|t: Seq<SyntaxNode>|
                #![trigger tree_view(t)]
                tree_view(t) == tv && s <= usize::MAX && e <= usize::MAX && match r {
                    Some(x) => x@ == shape(t, vstd::utf8::encode_utf8(source@), node_from(t, k, s as usize, e as usize, 0)),
                    None => false,
                },
            _ => r is None,
        },
{
    let t = match parse_tree(g, source) {
        Some(t) => t,
        None => return None,
    };
    let (k, s, e) = match descendant(g, source, start, end) {
        Some(d) => d,
        None => return None,
    };
    let sh = match node_from_of(&t, k.as_str(), s, e) {
        Some(i) => shape_of(&t, source, i),
        None => Vec::new(),
    };
    assert(tree_view(t@) == tree_view(t@));
    Some(string_of(sh.as_slice()))
}

// ─── the declaration around an anchor ───────────────────────────────────────

/// The first capture of index `k` in a match.
pub open spec fn first_capture(m: Seq<Capture>, k: usize) -> Option<Capture>
    decreases m.len(),
{
    if m.len() == 0 {
        None
    } else if m[0].0 == k {
        Some(m[0])
    } else {
        first_capture(m.drop_first(), k)
    }
}

/// The bytes of the parent of the node a capture names, where it has one.
pub open spec fn parent_range(t: Seq<SyntaxNode>, c: Capture) -> Option<(usize, usize)> {
    let i = node_from(t, c.1@, c.2, c.3, 0);
    if 0 <= i < t.len() {
        match t[i].parent {
            Some(p) => if (p as int) < t.len() {
                Some((t[p as int].start, t[p as int].end))
            } else {
                None
            },
            None => None,
        }
    } else {
        None
    }
}

/// `r` is the declaration around the anchor `a` (the capture of the query's last
/// name predicate): nothing where the query has no such capture, no match, or the
/// anchor's node has no parent; else the ranges of the first fragment and the
/// parent's bytes, trimmed. A query without `@target` fails as the fragment does.
pub open spec fn declaration_of(
    t: Seq<SyntaxNode>,
    b: Seq<u8>,
    names: Seq<String>,
    ms: Seq<Vec<Capture>>,
    a: Seq<char>,
    r: Result<Option<(Vec<crate::link::ByteRange>, crate::link::ByteRange)>, QueryError>,
) -> bool {
    match index_from(names, a, 0) {
        None => r == Ok::<Option<(Vec<crate::link::ByteRange>, crate::link::ByteRange)>, QueryError>(None),
        Some(k) => if ms.len() == 0 {
            r == Ok::<Option<(Vec<crate::link::ByteRange>, crate::link::ByteRange)>, QueryError>(None)
        } else {
            match first_capture(ms[0]@, k) {
                None => r == Ok::<Option<(Vec<crate::link::ByteRange>, crate::link::ByteRange)>, QueryError>(None),
                Some(c) => match parent_range(t, c) {
                    None => r == Ok::<Option<(Vec<crate::link::ByteRange>, crate::link::ByteRange)>, QueryError>(None),
                    Some((ps, pe)) => exists|first: Result<Vec<TargetMatch>, QueryError>|
                        #![trigger targets_result(t, b, names, ms, true, first)]
                        targets_result(t, b, names, ms, true, first) && match first {
                            Err(e) => r == Err::<Option<(Vec<crate::link::ByteRange>, crate::link::ByteRange)>, QueryError>(e),
                            Ok(v) => if v@.len() == 0 {
                                r == Ok::<Option<(Vec<crate::link::ByteRange>, crate::link::ByteRange)>, QueryError>(None)
                            } else {
                                r matches Ok(Some((rs, d))) && rs@ == v@[0].fragment.ranges@
                                    && crate::query::trimmed_to(b, ps, pe, (d.start, d.end))
                            },
                        },
                },
            }
        },
    }
}

fn first_capture_of(m: &Vec<Capture>, k: usize) -> (r: Option<Capture>)
    ensures
        r == first_capture(m@, k),
{
    let mut j: usize = 0;
    assert(m@.skip(0) =~= m@);
    while j < m.len()
        invariant
            j <= m@.len(),
            first_capture(m@, k) == first_capture(m@.skip(j as int), k),
        decreases m.len() - j,
    {
        assert(m@.skip(j as int)[0] == m@[j as int]);
        assert(m@.skip(j as int).drop_first() =~= m@.skip(j as int + 1));
        if m[j].0 == k {
            return Some(copy_capture(&m[j]));
        }
        j = j + 1;
    }
    assert(m@.skip(j as int).len() == 0);
    None
}

/// `r` is the declaration the query names in the tree `t`, with capture names
/// `names` and matches `ms`, which are what tree-sitter gives for `source`.
#[verifier::opaque]
pub open spec fn declaration_by(
    lang: Seq<char>,
    source: Seq<char>,
    query: Seq<char>,
    t: Seq<SyntaxNode>,
    names: Seq<String>,
    ms: Seq<Vec<Capture>>,
    r: Result<Option<(Vec<crate::link::ByteRange>, crate::link::ByteRange)>, QueryError>,
) -> bool {
    &&& syntax_tree(lang, source) == Some(tree_view(t))
    &&& query_capture_names(lang, query) == Some(names.map_values(|x: String| x@))
    &&& query_matches(lang, source, query) == Some(ms.map_values(|m: Vec<Capture>| match_view(m)))
    &&& crate::query::anchor_capture_of(query) matches Some(a) && declaration_of(
        t,
        vstd::utf8::encode_utf8(source),
        names,
        ms,
        a,
        r,
    )
}

/// `r` is the declaration a query names in `source` with the grammar of `lang`, as
/// tree-sitter parses and matches them.
pub open spec fn declaration_result(
    lang: Seq<char>,
    source: Seq<char>,
    query: Seq<char>,
    r: Result<Option<(Vec<crate::link::ByteRange>, crate::link::ByteRange)>, QueryError>,
) -> bool {
    if crate::query::anchor_capture_of(query) is None {
        r == Ok::<Option<(Vec<crate::link::ByteRange>, crate::link::ByteRange)>, QueryError>(None)
    } else if syntax_tree(lang, source) is Some && query_capture_names(lang, query) is Some && query_matches(
        lang,
        source,
        query,
    ) is Some {
        exists|t: Seq<SyntaxNode>, names: Seq<String>, ms: Seq<Vec<Capture>>|
            #[trigger] declaration_by(lang, source, query, t, names, ms, r)
    } else {
        r == Err::<Option<(Vec<crate::link::ByteRange>, crate::link::ByteRange)>, QueryError>(QueryError::Unreadable)
    }
}

/// **The declaration around a query's anchor**: the ranges of its fragment, and
/// the bytes of the node that wraps the anchor — the node that holds what lies
/// between a fragment's parts, such as a method between its route and its body.
#[verifier::spinoff_prover]
#[verifier::rlimit(50)]
pub fn declaration(g: &Grammar, source: &str, query: &str) -> (r: Result<
    Option<(Vec<crate::link::ByteRange>, crate::link::ByteRange)>,
    QueryError,
>)
    ensures
        declaration_result(g.lang(), source@, query@, r),
{
    let a = match crate::query::anchor_capture(query) {
        Some(a) => a,
        None => return Ok(None),
    };
    let (t, names, ms) = match ask(g, source, query) {
        Some(x) => x,
        None => return Err(QueryError::Unreadable),
    };
    let astr = a.as_str();
    assert(astr@ == a@);
    let r = declaration_from(source, &t, &names, &ms, astr);
    assert(crate::query::anchor_capture_of(query@) == Some(a@));
    assert(declaration_of(t@, vstd::utf8::encode_utf8(source@), names@, ms@, a@, r));
    assert(syntax_tree(g.lang(), source@) == Some(tree_view(t@)));
    assert(query_capture_names(g.lang(), query@) == Some(names@.map_values(|x: String| x@)));
    assert(query_matches(g.lang(), source@, query@) == Some(ms@.map_values(|m: Vec<Capture>| match_view(m))));
    proof {
        reveal(declaration_by);
        assert(declaration_by(g.lang(), source@, query@, t@, names@, ms@, r));
    }
    r
}


fn declaration_from(source: &str, t: &Vec<SyntaxNode>, names: &Vec<String>, ms: &Vec<Vec<Capture>>, a: &str) -> (r: Result<
    Option<(Vec<crate::link::ByteRange>, crate::link::ByteRange)>,
    QueryError,
>)
    ensures
        declaration_of(t@, source.spec_bytes(), names@, ms@, a@, r),
{
    let ghost b = source.spec_bytes();
    let k = match index_of_name(names, a) {
        Some(k) => k,
        None => {
            assert(declaration_of(t@, b, names@, ms@, a@, Ok(None)));
            return Ok(None);
        },
    };
    if ms.len() == 0 {
        assert(declaration_of(t@, b, names@, ms@, a@, Ok(None)));
        return Ok(None);
    }
    let c = match first_capture_of(&ms[0], k) {
        Some(c) => c,
        None => {
            assert(declaration_of(t@, b, names@, ms@, a@, Ok(None)));
            return Ok(None);
        },
    };
    let (ps, pe) = match node_from_of(t, c.1.as_str(), c.2, c.3) {
        None => {
            assert(declaration_of(t@, b, names@, ms@, a@, Ok(None)));
            return Ok(None);
        },
        Some(i) => match t[i].parent {
            Some(p) => if p < t.len() {
                (t[p].start, t[p].end)
            } else {
                assert(declaration_of(t@, b, names@, ms@, a@, Ok(None)));
                return Ok(None);
            },
            None => {
                assert(declaration_of(t@, b, names@, ms@, a@, Ok(None)));
                return Ok(None);
            },
        },
    };
    assert(parent_range(t@, c) == Some((ps, pe)));
    let first = targets_from(source, t, names, ms, true);
    match first {
        Err(e) => {
            let r = Err(e);
            assert(declaration_of(t@, b, names@, ms@, a@, r));
            r
        },
        Ok(v) => {
            if v.len() == 0 {
                assert(declaration_of(t@, b, names@, ms@, a@, Ok(None)));
                return Ok(None);
            }
            let f = copy_fragment(&v[0].fragment);
            let (ds, de) = crate::query::trim_edges(source, ps, pe);
            let r = Ok(Some((f.ranges, crate::link::ByteRange { start: ds, end: de })));
            assert(declaration_of(t@, b, names@, ms@, a@, r));
            r
        },
    }
}


// ─── the pattern that names a node ──────────────────────────────────────────

/// The text of node `j`.
pub open spec fn node_text(t: Seq<SyntaxNode>, b: Seq<u8>, j: usize) -> Seq<char> {
    text_between(b, t[j as int].start as int, t[j as int].end as int)
}

/// The first child of `i`, from node `j` on, that hangs from it under `field`.
pub open spec fn field_child(t: Seq<SyntaxNode>, i: usize, field: Seq<char>, j: int) -> Option<usize>
    decreases t.len() - j,
{
    if j < 0 || j >= t.len() {
        None
    } else if t[j].parent == Some(i) && (t[j].field matches Some(f) && f@ == field) {
        Some(j as usize)
    } else {
        field_child(t, i, field, j + 1)
    }
}

/// The first child of `i`, from node `j` on, of `kind`.
pub open spec fn kind_child(t: Seq<SyntaxNode>, i: usize, kind: Seq<char>, j: int) -> Option<usize>
    decreases t.len() - j,
{
    if j < 0 || j >= t.len() {
        None
    } else if t[j].parent == Some(i) && t[j].kind@ == kind {
        Some(j as usize)
    } else {
        kind_child(t, i, kind, j + 1)
    }
}

/// `field: ` before a child that hangs under a field; nothing otherwise.
pub open spec fn field_part(field: Option<Seq<char>>) -> Seq<char> {
    match field {
        Some(f) => f + ": "@,
        None => seq![],
    }
}

/// A predicate on a name: the child's kind, captured as `@nC`, equal to its text.
pub open spec fn pred_text(field: Option<Seq<char>>, ckind: Seq<char>, c: nat, text: Seq<char>) -> Seq<char> {
    "\n  "@ + field_part(field) + "("@ + ckind + ") @n"@ + crate::refmsg::decimal(c) + " (#eq? @n"@
        + crate::refmsg::decimal(c) + " \""@ + crate::query::escaped(text) + "\")"@
}

/// The first child of `h`, from node `j` on, whose kind has `inline` in it.
pub open spec fn inline_child(t: Seq<SyntaxNode>, h: usize, j: int) -> Option<usize>
    decreases t.len() - j,
{
    if j < 0 || j >= t.len() {
        None
    } else if t[j].parent == Some(h) && crate::text::find(t[j].kind@, "inline"@) is Some {
        Some(j as usize)
    } else {
        inline_child(t, h, j + 1)
    }
}

/// The first child of section `i`, from node `j` on, that is a heading (its kind
/// has `heading` in it) with an inline child; with that child.
pub open spec fn heading_inline(t: Seq<SyntaxNode>, i: usize, j: int) -> Option<(usize, usize)>
    decreases t.len() - j,
{
    if j < 0 || j >= t.len() {
        None
    } else if t[j].parent == Some(i) && crate::text::find(t[j].kind@, "heading"@) is Some && inline_child(
        t,
        j as usize,
        j + 1,
    ) is Some {
        Some((j as usize, inline_child(t, j as usize, j + 1)->0))
    } else {
        heading_inline(t, i, j + 1)
    }
}

/// A section by its heading: the heading's kind, and its inline text captured as
/// `@nC` and equal to it.
pub open spec fn section_text(hkind: Seq<char>, c: nat, text: Seq<char>) -> Seq<char> {
    "\n  ("@ + hkind + " (inline) @n"@ + crate::refmsg::decimal(c) + " (#eq? @n"@ + crate::refmsg::decimal(c)
        + " \""@ + crate::query::escaped(text) + "\"))"@
}

/// `s` without `c` at either end, however many times it repeats there.
pub open spec fn strip_all(s: Seq<char>, c: char) -> Seq<char>
    decreases s.len(),
{
    if s.len() > 0 && s[0] == c {
        strip_all(s.drop_first(), c)
    } else if s.len() > 0 && s.last() == c {
        strip_all(s.drop_last(), c)
    } else {
        s
    }
}

/// A YAML value without the space and the quotes around it.
pub open spec fn unquoted(s: Seq<char>) -> Seq<char> {
    strip_all(strip_all(trim(s), '"'), '\'')
}

/// **The `id:` of a YAML sequence item**, looked for from node `n` down, children in
/// order: a pair stops the search below it, and gives its value where its key is
/// `id` and the value is not empty.
pub open spec fn yaml_id_node(t: Seq<SyntaxNode>, b: Seq<u8>, n: usize) -> Option<Seq<char>>
    decreases t.len() - n, 1int,
{
    if n >= t.len() {
        None
    } else if t[n as int].kind@ == "block_mapping_pair"@ {
        match field_child(t, n, "key"@, n + 1) {
            Some(k) => if trim(node_text(t, b, k)) == "id"@ {
                match field_child(t, n, "value"@, n + 1) {
                    Some(v) => if unquoted(node_text(t, b, v)).len() > 0 {
                        Some(unquoted(node_text(t, b, v)))
                    } else {
                        None
                    },
                    None => None,
                }
            } else {
                None
            },
            None => None,
        }
    } else {
        yaml_id_kids(t, b, n, n + 1)
    }
}

/// The `id:` found under the children of `n` from node `j` on.
pub open spec fn yaml_id_kids(t: Seq<SyntaxNode>, b: Seq<u8>, n: usize, j: int) -> Option<Seq<char>>
    decreases t.len() - j, 2int,
{
    if j < 0 || j >= t.len() || j > usize::MAX {
        None
    } else if t[j].parent == Some(n) {
        match yaml_id_node(t, b, j as usize) {
            Some(x) => Some(x),
            None => yaml_id_kids(t, b, n, j + 1),
        }
    } else {
        yaml_id_kids(t, b, n, j + 1)
    }
}

/// A YAML sequence item by the value of its `id:`.
pub open spec fn yaml_item_text(c: nat, id: Seq<char>) -> Seq<char> {
    " (block_node (block_mapping (block_mapping_pair\n  key: (flow_node) @_ (#eq? @_ \"id\")\n  value: (flow_node) @n"@
        + crate::refmsg::decimal(c) + " (#eq? @n"@ + crate::refmsg::decimal(c) + " \""@ + crate::query::escaped(id)
        + "\"))))"@
}

/// **What tells node `i` apart from its siblings**, with the captures numbered from
/// `c`: the predicate, where it goes among the node's parts, and how many captures it
/// took. A markdown section by its heading, a table row by its first cell, a YAML
/// sequence item by its `id:`, a YAML pair by its key, a Rust `impl` by its
/// trait and type, and any other node by the child under the field that holds its
/// name (`name` where the grammar names none).
pub open spec fn name_pred(t: Seq<SyntaxNode>, b: Seq<u8>, lang: Seq<char>, i: usize, c: nat) -> (Seq<char>, int, nat) {
    let k = t[i as int].kind@;
    let at = t[i as int].start as int;
    let cell = kind_child(t, i, "pipe_table_cell"@, i + 1);
    let key = field_child(t, i, "key"@, i + 1);
    let tr = field_child(t, i, "trait"@, i + 1);
    let ty = field_child(t, i, "type"@, i + 1);
    let hd = heading_inline(t, i, i + 1);
    if k == "section"@ && hd is Some {
        let (h, x) = hd->0;
        (section_text(t[h as int].kind@, c, trim(node_text(t, b, x))), at, 1)
    } else if k == "pipe_table_row"@ && cell is Some && trim(node_text(t, b, cell->0)).len() > 0 {
        (pred_text(None, "pipe_table_cell"@, c, node_text(t, b, cell->0)), at, 1)
    } else if k == "block_sequence_item"@ && yaml_id_node(t, b, i) is Some {
        (yaml_item_text(c, yaml_id_node(t, b, i)->0), at, 1)
    } else if k == "block_mapping_pair"@ && key is Some && trim(node_text(t, b, key->0)).len() > 0 {
        (pred_text(Some("key"@), t[key->0 as int].kind@, c, trim(node_text(t, b, key->0))), at, 1)
    } else if lang == "rust"@ && k == "impl_item"@ && (tr is Some || ty is Some) {
        let first = match tr {
            Some(j) => pred_text(Some("trait"@), t[j as int].kind@, c, node_text(t, b, j)),
            None => seq![],
        };
        let n: nat = if tr is Some { 1 } else { 0 };
        let second = match ty {
            Some(j) => pred_text(Some("type"@), t[j as int].kind@, c + n, node_text(t, b, j)),
            None => seq![],
        };
        (first + second, at, n + if ty is Some { 1nat } else { 0nat })
    } else {
        let f = match crate::grammar::name_field_of(lang, k) {
            Some(f) => f,
            None => "name"@,
        };
        match field_child(t, i, f, i + 1) {
            Some(j) => (pred_text(Some(f), t[j as int].kind@, c, node_text(t, b, j)), t[j as int].start as int, 1),
            None => (seq![], at, 0),
        }
    }
}

/// The nearest node, from `i` up, whose kind is a stable anchor.
pub open spec fn anchor_at(t: Seq<SyntaxNode>, i: usize, anchors: Seq<Seq<char>>) -> Option<usize>
    decreases i,
{
    if i >= t.len() {
        None
    } else if anchors.contains(t[i as int].kind@) {
        Some(i)
    } else {
        match t[i as int].parent {
            Some(p) => if p < i {
                anchor_at(t, p, anchors)
            } else {
                None
            },
            None => None,
        }
    }
}

/// The nodes from `r` down to `i`, each the parent of the next.
pub open spec fn chain_up(t: Seq<SyntaxNode>, i: usize, r: usize) -> Option<Seq<usize>>
    decreases i,
{
    if i >= t.len() {
        None
    } else if i == r {
        Some(seq![r])
    } else {
        match t[i as int].parent {
            Some(p) => if p < i {
                match chain_up(t, p, r) {
                    Some(s) => Some(s.push(i)),
                    None => None,
                }
            } else {
                None
            },
            None => None,
        }
    }
}

/// `x` put among parts ordered by their place in the file, after those at the
/// same place: the parts of a pattern go in the order of the file, as the grammar
/// asks.
pub open spec fn insert_part(s: Seq<(int, Seq<char>)>, x: (int, Seq<char>)) -> Seq<(int, Seq<char>)>
    decreases s.len(),
{
    if s.len() == 0 {
        seq![x]
    } else if s.last().0 <= x.0 {
        s.push(x)
    } else {
        insert_part(s.drop_last(), x).push(s.last())
    }
}

/// The texts of the parts, one after the other.
pub open spec fn concat_parts(p: Seq<(int, Seq<char>)>) -> Seq<char>
    decreases p.len(),
{
    if p.len() == 0 {
        seq![]
    } else {
        concat_parts(p.drop_last()) + p.last().1
    }
}

/// The name of a node: the child under `name`.
pub open spec fn name_child(t: Seq<SyntaxNode>, o: usize) -> Option<usize> {
    field_child(t, o, "name"@, o + 1)
}

/// **An overloaded Java method**: another method of its class has its name.
pub open spec fn overloaded(t: Seq<SyntaxNode>, b: Seq<u8>, m: usize) -> bool {
    match (t[m as int].parent, name_child(t, m)) {
        (Some(p), Some(nm)) => exists|o: usize|
            o < t.len() && o != m && t[o as int].parent == Some(p) && t[o as int].kind@ == "method_declaration"@
                && (#[trigger] name_child(t, o) matches Some(x) && node_text(t, b, x) == node_text(t, b, nm)),
        _ => false,
    }
}

/// A parameter by the text of its type.
pub open spec fn param_text(c: nat, ty: Seq<char>) -> Seq<char> {
    "(formal_parameter type: (_) @n"@ + crate::refmsg::decimal(c) + " (#match? @n"@ + crate::refmsg::decimal(c)
        + " \"^"@ + crate::query::escaped(crate::capture::regex_literal_of(ty)) + "$\"))"@
}

/// The named children of `p` from node `j` on, as the parts of a parameter list
/// (captures numbered from `c`), and how many captures they took.
pub open spec fn param_parts(t: Seq<SyntaxNode>, b: Seq<u8>, p: usize, j: int, c: nat) -> (Seq<Seq<char>>, nat)
    decreases t.len() - j,
{
    if j < 0 || j >= t.len() {
        (seq![], 0)
    } else if t[j].parent == Some(p) && t[j].named {
        let ty = field_child(t, j as usize, "type"@, j + 1);
        let one = if t[j].kind@ == "formal_parameter"@ && ty is Some {
            param_text(c, node_text(t, b, ty->0))
        } else {
            "("@ + t[j].kind@ + ")"@
        };
        let used: nat = if t[j].kind@ == "formal_parameter"@ && ty is Some { 1 } else { 0 };
        let rest = param_parts(t, b, p, j + 1, c + used);
        (seq![one] + rest.0, used + rest.1)
    } else {
        param_parts(t, b, p, j + 1, c)
    }
}

/// **What tells apart an overload**: the types of its parameters, in order and with
/// nothing between them; with where it goes and how many captures it took. Only
/// for a Java method whose name repeats in its class.
pub open spec fn overload(t: Seq<SyntaxNode>, b: Seq<u8>, lang: Seq<char>, i: usize, c: nat) -> Option<(Seq<char>, int, nat)> {
    if lang == "java"@ && t[i as int].kind@ == "method_declaration"@ && overloaded(t, b, i) {
        match field_child(t, i, "parameters"@, i + 1) {
            Some(ps) => {
                let (kids, used) = param_parts(t, b, ps, ps + 1, c);
                let text = if kids.len() == 0 {
                    "parameters: (formal_parameters)"@
                } else {
                    "parameters: (formal_parameters\n    .\n    "@ + crate::text::join(kids, "\n    .\n    "@) + "\n    .)"@
                };
                Some((text, t[ps as int].start as int, used))
            },
            None => None,
        }
    } else {
        None
    }
}

/// The pattern of the `j`-th node of a path, captures numbered from `c`, and how
/// many captures it took: `(kind`, then its name predicate, the pattern of the next
/// node (under its field) and, for an overload, its parameters, in the order of
/// the file; `)`, and ` @target` on the last node.
pub open spec fn emit(t: Seq<SyntaxNode>, b: Seq<u8>, lang: Seq<char>, path: Seq<usize>, j: int, c: nat) -> (Seq<char>, nat)
    decreases path.len() - j,
{
    if j < 0 || j >= path.len() {
        (seq![], 0)
    } else {
        let i = path[j];
        let (pred, pos, used) = name_pred(t, b, lang, i, c);
        let first: Seq<(int, Seq<char>)> = if pred.len() > 0 { seq![(pos, pred)] } else { seq![] };
        let kid = if j + 1 < path.len() {
            emit(t, b, lang, path, j + 1, c + used)
        } else {
            (seq![], 0)
        };
        let second: Seq<(int, Seq<char>)> = if j + 1 < path.len() {
            seq![(t[path[j + 1] as int].start as int, "\n  "@ + field_part(opt_text(t[path[j + 1] as int].field)) + kid.0)]
        } else {
            seq![]
        };
        let ov = overload(t, b, lang, i, c + used + kid.1);
        let third: Seq<(int, Seq<char>)> = match ov {
            Some((text, at, _)) => seq![(at, "\n  "@ + text)],
            None => seq![],
        };
        let total = used + kid.1 + match ov {
            Some((_, _, u)) => u,
            None => 0,
        };
        let with_kid = if j + 1 < path.len() {
            insert_part(first, second[0])
        } else {
            first
        };
        let parts = match ov {
            Some(_) => insert_part(with_kid, third[0]),
            None => with_kid,
        };
        let p = "("@ + t[i as int].kind@ + concat_parts(parts) + ")"@;
        (if j == path.len() - 1 {
            p + " @target"@
        } else {
            p
        }, total)
    }
}

/// The pattern of the `j`-th node of a path; see [`emit`].
pub open spec fn pattern_at(t: Seq<SyntaxNode>, b: Seq<u8>, lang: Seq<char>, path: Seq<usize>, j: int, c: nat) -> Seq<char> {
    emit(t, b, lang, path, j, c).0
}

/// Where the pattern of node `i` starts: the node itself where it stands alone,
/// else the nearest anchor above it, else the node.
pub open spec fn pattern_root(t: Seq<SyntaxNode>, i: usize, anchors: Seq<Seq<char>>, standalone: bool) -> usize {
    if standalone {
        i
    } else {
        match t[i as int].parent {
            Some(p) => match anchor_at(t, p, anchors) {
                Some(a) => a,
                None => i,
            },
            None => i,
        }
    }
}

/// **The pattern that names node `i`**, anchored at the stable anchor around it.
pub open spec fn pattern_of(t: Seq<SyntaxNode>, b: Seq<u8>, lang: Seq<char>, anchors: Seq<Seq<char>>, i: usize, standalone: bool) -> Seq<char> {
    let r = pattern_root(t, i, anchors, standalone);
    let path = match chain_up(t, i, r) {
        Some(s) => s,
        None => seq![r],
    };
    pattern_at(t, b, lang, path, 0, 0)
}

fn field_child_of(t: &Vec<SyntaxNode>, i: usize, field: &str) -> (r: Option<usize>)
    requires
        i < t@.len(),
    ensures
        r == field_child(t@, i, field@, i + 1),
        r matches Some(j) ==> j < t@.len(),
{
    let n = t.len();
    let mut j = i + 1;
    while j < t.len()
        invariant
            i < j <= t@.len(),
            field_child(t@, i, field@, i + 1) == field_child(t@, i, field@, j as int),
        decreases t@.len() - j,
    {
        let hit = match (&t[j].parent, &t[j].field) {
            (Some(p), Some(f)) => *p == i && same_text(f.as_str(), field),
            _ => false,
        };
        if hit {
            return Some(j);
        }
        j = j + 1;
    }
    None
}

fn kind_child_of(t: &Vec<SyntaxNode>, i: usize, kind: &str) -> (r: Option<usize>)
    requires
        i < t@.len(),
    ensures
        r == kind_child(t@, i, kind@, i + 1),
        r matches Some(j) ==> j < t@.len(),
{
    let n = t.len();
    let mut j = i + 1;
    while j < t.len()
        invariant
            i < j <= t@.len(),
            kind_child(t@, i, kind@, i + 1) == kind_child(t@, i, kind@, j as int),
        decreases t@.len() - j,
    {
        let hit = match &t[j].parent {
            Some(p) => *p == i && same_text(t[j].kind.as_str(), kind),
            None => false,
        };
        if hit {
            return Some(j);
        }
        j = j + 1;
    }
    None
}

fn pred_of(field: Option<&str>, ckind: &str, c: u64, text: &[char]) -> (r: Vec<char>)
    ensures
        r@ == pred_text(
            match field {
                Some(f) => Some(f@),
                None => None,
            },
            ckind@,
            c as nat,
            text@,
        ),
{
    let mut out: Vec<char> = Vec::new();
    crate::text::append_str(&mut out, "\n  ");
    match field {
        Some(f) => {
            crate::text::append_str(&mut out, f);
            crate::text::append_str(&mut out, ": ");
        },
        None => {},
    }
    crate::text::append_str(&mut out, "(");
    crate::text::append_str(&mut out, ckind);
    crate::text::append_str(&mut out, ") @n");
    let d = crate::refmsg::decimal_of(c);
    crate::text::append(&mut out, d.as_slice());
    crate::text::append_str(&mut out, " (#eq? @n");
    crate::text::append(&mut out, d.as_slice());
    crate::text::append_str(&mut out, " \"");
    let txt = string_of(text);
    let e = crate::query::escape_query_string(txt.as_str());
    crate::text::append_str(&mut out, e.as_str());
    crate::text::append_str(&mut out, "\")");
    out
}

fn has_word(kind: &str, w: &str) -> (b: bool)
    ensures
        b == (crate::text::find(kind@, w@) is Some),
{
    let k = crate::text::chars_of(kind);
    let p = crate::text::chars_of(w);
    crate::text::find_of(k.as_slice(), p.as_slice()).is_some()
}

fn inline_child_of(t: &Vec<SyntaxNode>, h: usize) -> (r: Option<usize>)
    requires
        h < t@.len(),
    ensures
        r == inline_child(t@, h, h + 1),
        r matches Some(j) ==> j < t@.len(),
{
    let n = t.len();
    let mut j = h + 1;
    while j < t.len()
        invariant
            h < j <= t@.len(),
            inline_child(t@, h, h + 1) == inline_child(t@, h, j as int),
        decreases t@.len() - j,
    {
        let hit = match &t[j].parent {
            Some(p) => *p == h && has_word(t[j].kind.as_str(), "inline"),
            None => false,
        };
        if hit {
            return Some(j);
        }
        j = j + 1;
    }
    None
}

fn heading_inline_of(t: &Vec<SyntaxNode>, i: usize) -> (r: Option<(usize, usize)>)
    requires
        i < t@.len(),
    ensures
        r == heading_inline(t@, i, i + 1),
        r matches Some((h, j)) ==> h < t@.len() && j < t@.len(),
{
    let n = t.len();
    let mut j = i + 1;
    while j < t.len()
        invariant
            i < j <= t@.len(),
            heading_inline(t@, i, i + 1) == heading_inline(t@, i, j as int),
        decreases t@.len() - j,
    {
        let child = match &t[j].parent {
            Some(p) => *p == i && has_word(t[j].kind.as_str(), "heading"),
            None => false,
        };
        if child {
            match inline_child_of(t, j) {
                Some(x) => {
                    return Some((j, x));
                },
                None => {},
            }
        }
        j = j + 1;
    }
    None
}

fn section_of(hkind: &str, c: u64, text: &[char]) -> (r: Vec<char>)
    ensures
        r@ == section_text(hkind@, c as nat, text@),
{
    let mut out: Vec<char> = Vec::new();
    crate::text::append_str(&mut out, "\n  (");
    crate::text::append_str(&mut out, hkind);
    crate::text::append_str(&mut out, " (inline) @n");
    let d = crate::refmsg::decimal_of(c);
    crate::text::append(&mut out, d.as_slice());
    crate::text::append_str(&mut out, " (#eq? @n");
    crate::text::append(&mut out, d.as_slice());
    crate::text::append_str(&mut out, " \"");
    let txt = string_of(text);
    let e = crate::query::escape_query_string(txt.as_str());
    crate::text::append_str(&mut out, e.as_str());
    crate::text::append_str(&mut out, "\"))");
    out
}

fn strip_all_of(s: &[char], c: char) -> (r: Vec<char>)
    ensures
        r@ == strip_all(s@, c),
{
    let mut a: usize = 0;
    let mut e: usize = s.len();
    assert(s@.subrange(0, e as int) =~= s@);
    while a < e && s[a] == c
        invariant
            a <= e == s@.len(),
            strip_all(s@, c) == strip_all(s@.subrange(a as int, e as int), c),
        decreases e - a,
    {
        let ghost x = s@.subrange(a as int, e as int);
        assert(x.drop_first() =~= s@.subrange(a as int + 1, e as int));
        a = a + 1;
    }
    while a < e && s[e - 1] == c
        invariant
            a <= e <= s@.len(),
            strip_all(s@, c) == strip_all(s@.subrange(a as int, e as int), c),
            a < e ==> s@[a as int] != c,
        decreases e - a,
    {
        let ghost x = s@.subrange(a as int, e as int);
        assert(x.drop_last() =~= s@.subrange(a as int, e as int - 1));
        assert(x[0] == s@[a as int]);
        e = e - 1;
    }
    let r = crate::text::slice_of(s, a, e);
    proof {
        let x = s@.subrange(a as int, e as int);
        if x.len() > 0 {
            assert(x[0] == s@[a as int]);
            assert(x.last() == s@[e - 1]);
        }
    }
    r
}

fn yaml_id_of(t: &Vec<SyntaxNode>, source: &str, n: usize) -> (r: Option<Vec<char>>)
    ensures
        match r {
            Some(x) => yaml_id_node(t@, source.spec_bytes(), n) == Some(x@),
            None => yaml_id_node(t@, source.spec_bytes(), n) is None,
        },
    decreases t@.len() - n, 1int,
{
    let ghost bs = source.spec_bytes();
    if n >= t.len() {
        return None;
    }
    if same_text(t[n].kind.as_str(), "block_mapping_pair") {
        let k = match field_child_of(t, n, "key") {
            Some(k) => k,
            None => return None,
        };
        let kt = node_text_of(t, source, k);
        let kt = trim_of(kt.as_slice());
        let idw = crate::text::chars_of("id");
        if !crate::text::same(kt.as_slice(), idw.as_slice()) {
            return None;
        }
        let v = match field_child_of(t, n, "value") {
            Some(v) => v,
            None => return None,
        };
        let vt = node_text_of(t, source, v);
        let vt = trim_of(vt.as_slice());
        let vt = strip_all_of(vt.as_slice(), '"');
        let vt = strip_all_of(vt.as_slice(), '\'');
        if vt.len() > 0 {
            return Some(vt);
        }
        return None;
    }
    let len = t.len();
    let mut j = n + 1;
    assert(t@[n as int].kind@ != "block_mapping_pair"@);
    assert(yaml_id_node(t@, bs, n) == yaml_id_kids(t@, bs, n, n + 1));
    while j < t.len()
        invariant
            n < j <= t@.len(),
            bs == source.spec_bytes(),
            yaml_id_node(t@, bs, n) == yaml_id_kids(t@, bs, n, n + 1),
            yaml_id_kids(t@, bs, n, n + 1) == yaml_id_kids(t@, bs, n, j as int),
        decreases t@.len() - j,
    {
        let child = match t[j].parent {
            Some(p) => p == n,
            None => false,
        };
        if child {
            match yaml_id_of(t, source, j) {
                Some(x) => {
                    assert(yaml_id_kids(t@, bs, n, j as int) == Some(x@));
                    return Some(x);
                },
                None => {},
            }
        }
        j = j + 1;
    }
    None
}

fn yaml_item_of(c: u64, id: &[char]) -> (r: Vec<char>)
    ensures
        r@ == yaml_item_text(c as nat, id@),
{
    let mut out: Vec<char> = Vec::new();
    crate::text::append_str(&mut out, " (block_node (block_mapping (block_mapping_pair\n  key: (flow_node) @_ (#eq? @_ \"id\")\n  value: (flow_node) @n");
    let d = crate::refmsg::decimal_of(c);
    crate::text::append(&mut out, d.as_slice());
    crate::text::append_str(&mut out, " (#eq? @n");
    crate::text::append(&mut out, d.as_slice());
    crate::text::append_str(&mut out, " \"");
    let txt = string_of(id);
    let e = crate::query::escape_query_string(txt.as_str());
    crate::text::append_str(&mut out, e.as_str());
    crate::text::append_str(&mut out, "\"))))");
    out
}

fn node_text_of(t: &Vec<SyntaxNode>, source: &str, j: usize) -> (r: Vec<char>)
    requires
        j < t@.len(),
    ensures
        r@ == node_text(t@, source.spec_bytes(), j),
{
    text_between_of(source, t[j].start, t[j].end)
}

fn name_pred_of(t: &Vec<SyntaxNode>, source: &str, lang: &str, i: usize, c: u64) -> (r: (Vec<char>, usize, usize))
    requires
        i < t@.len(),
        c + 2 < u64::MAX,
    ensures
        r.0@ == name_pred(t@, source.spec_bytes(), lang@, i, c as nat).0,
        r.1 as int == name_pred(t@, source.spec_bytes(), lang@, i, c as nat).1,
        r.2 as nat == name_pred(t@, source.spec_bytes(), lang@, i, c as nat).2,
        r.2 <= 2,
{
    let k = t[i].kind.as_str();
    let at = t[i].start;
    if same_text(k, "section") {
        if let Some((h, j)) = heading_inline_of(t, i) {
            let x = node_text_of(t, source, j);
            let tx = trim_of(x.as_slice());
            return (section_of(t[h].kind.as_str(), c, tx.as_slice()), at, 1);
        }
    }
    if same_text(k, "pipe_table_row") {
        if let Some(j) = kind_child_of(t, i, "pipe_table_cell") {
            let x = node_text_of(t, source, j);
            let tx = trim_of(x.as_slice());
            if tx.len() > 0 {
                return (pred_of(None, "pipe_table_cell", c, x.as_slice()), at, 1);
            }
        }
    }
    if same_text(k, "block_sequence_item") {
        if let Some(id) = yaml_id_of(t, source, i) {
            return (yaml_item_of(c, id.as_slice()), at, 1);
        }
    }
    if same_text(k, "block_mapping_pair") {
        if let Some(j) = field_child_of(t, i, "key") {
            let x = node_text_of(t, source, j);
            let tx = trim_of(x.as_slice());
            if tx.len() > 0 {
                return (pred_of(Some("key"), t[j].kind.as_str(), c, tx.as_slice()), at, 1);
            }
        }
    }
    if same_text(lang, "rust") && same_text(k, "impl_item") {
        let tr = field_child_of(t, i, "trait");
        let ty = field_child_of(t, i, "type");
        if tr.is_some() || ty.is_some() {
            let mut out: Vec<char> = Vec::new();
            let mut n: u64 = 0;
            if let Some(j) = tr {
                let x = node_text_of(t, source, j);
                out = pred_of(Some("trait"), t[j].kind.as_str(), c, x.as_slice());
                n = 1;
            }
            if let Some(j) = ty {
                let x = node_text_of(t, source, j);
                let p = pred_of(Some("type"), t[j].kind.as_str(), c + n, x.as_slice());
                crate::text::append(&mut out, p.as_slice());
                n = n + 1;
            }
            return (out, at, n as usize);
        }
    }
    let f = match crate::grammar::name_field(lang, k) {
        Some(f) => f,
        None => "name",
    };
    match field_child_of(t, i, f) {
        Some(j) => {
            let x = node_text_of(t, source, j);
            (pred_of(Some(f), t[j].kind.as_str(), c, x.as_slice()), t[j].start, 1)
        },
        None => (Vec::new(), at, 0),
    }
}

fn kind_in(anchors: &[&str], kind: &str) -> (b: bool)
    ensures
        b == crate::grammar::kinds_view(anchors@).contains(kind@),
{
    let mut k: usize = 0;
    while k < anchors.len()
        invariant
            k <= anchors@.len(),
            forall|m: int| 0 <= m < k ==> crate::grammar::kinds_view(anchors@)[m] != kind@,
        decreases anchors@.len() - k,
    {
        if same_text(anchors[k], kind) {
            assert(crate::grammar::kinds_view(anchors@)[k as int] == kind@);
            return true;
        }
        k = k + 1;
    }
    false
}

fn anchor_of(t: &Vec<SyntaxNode>, i: usize, anchors: &[&str]) -> (r: Option<usize>)
    ensures
        r == anchor_at(t@, i, crate::grammar::kinds_view(anchors@)),
        r matches Some(a) ==> a < t@.len(),
    decreases i,
{
    if i >= t.len() {
        None
    } else if kind_in(anchors, t[i].kind.as_str()) {
        Some(i)
    } else {
        match t[i].parent {
            Some(p) => if p < i {
                anchor_of(t, p, anchors)
            } else {
                None
            },
            None => None,
        }
    }
}

fn chain_of(t: &Vec<SyntaxNode>, i: usize, r: usize) -> (s: Option<Vec<usize>>)
    ensures
        match s {
            Some(v) => chain_up(t@, i, r) == Some(v@) && v@.len() <= i + 1 && v@.len() >= 1,
            None => chain_up(t@, i, r) is None,
        },
    decreases i,
{
    if i >= t.len() {
        None
    } else if i == r {
        Some(vec![r])
    } else {
        match t[i].parent {
            Some(p) => if p < i {
                match chain_of(t, p, r) {
                    Some(mut v) => {
                        v.push(i);
                        Some(v)
                    },
                    None => None,
                }
            } else {
                None
            },
            None => None,
        }
    }
}

/// The parts as plain values.
pub open spec fn parts_view(v: Seq<(usize, Vec<char>)>) -> Seq<(int, Seq<char>)> {
    v.map_values(|p: (usize, Vec<char>)| (p.0 as int, p.1@))
}

fn insert_part_of(s: Vec<(usize, Vec<char>)>, x: (usize, Vec<char>)) -> (r: Vec<(usize, Vec<char>)>)
    ensures
        parts_view(r@) == insert_part(parts_view(s@), (x.0 as int, x.1@)),
    decreases s@.len(),
{
    let mut s = s;
    let ghost s0 = s@;
    if s.len() == 0 {
        proof {
            assert(parts_view(s0) =~= Seq::<(int, Seq<char>)>::empty());
        }
        let r = vec![x];
        assert(parts_view(r@) =~= seq![(x.0 as int, x.1@)]);
        return r;
    }
    let last = s.pop().unwrap();
    proof {
        assert(parts_view(s@) =~= parts_view(s0).drop_last());
        assert(parts_view(s0).last() == (last.0 as int, last.1@));
    }
    if last.0 <= x.0 {
        let ghost xv = (x.0 as int, x.1@);
        s.push(last);
        s.push(x);
        assert(parts_view(s@) =~= parts_view(s0).push(xv));
        s
    } else {
        let ghost lv = (last.0 as int, last.1@);
        let mut r = insert_part_of(s, x);
        let ghost r0 = parts_view(r@);
        r.push(last);
        assert(parts_view(r@) =~= r0.push(lv));
        r
    }
}

fn concat_of(p: &Vec<(usize, Vec<char>)>) -> (r: Vec<char>)
    ensures
        r@ == concat_parts(parts_view(p@)),
{
    let mut out: Vec<char> = Vec::new();
    let mut k: usize = 0;
    while k < p.len()
        invariant
            k <= p@.len(),
            out@ == concat_parts(parts_view(p@).take(k as int)),
        decreases p@.len() - k,
    {
        assert(parts_view(p@).take(k as int + 1).drop_last() =~= parts_view(p@).take(k as int));
        crate::text::append(&mut out, p[k].1.as_slice());
        k = k + 1;
    }
    assert(parts_view(p@).take(k as int) =~= parts_view(p@));
    out
}

fn name_text_is(t: &Vec<SyntaxNode>, source: &str, o: usize, want: &[char]) -> (b: bool)
    requires
        o < t@.len(),
    ensures
        b == (name_child(t@, o) matches Some(x) && node_text(t@, source.spec_bytes(), x) == want@),
{
    match field_child_of(t, o, "name") {
        Some(x) => {
            let tx = node_text_of(t, source, x);
            crate::text::same(tx.as_slice(), want)
        },
        None => false,
    }
}

fn overloaded_of(t: &Vec<SyntaxNode>, source: &str, m: usize) -> (b: bool)
    requires
        m < t@.len(),
    ensures
        b == overloaded(t@, source.spec_bytes(), m),
{
    let ghost bs = source.spec_bytes();
    let p = match t[m].parent {
        Some(p) => p,
        None => return false,
    };
    let nm = match field_child_of(t, m, "name") {
        Some(x) => x,
        None => return false,
    };
    let want = node_text_of(t, source, nm);
    let mut o: usize = 0;
    while o < t.len()
        invariant
            o <= t@.len(),
            m < t@.len(),
            t@[m as int].parent == Some(p),
            name_child(t@, m) == Some(nm),
            want@ == node_text(t@, bs, nm),
            bs == source.spec_bytes(),
            forall|q: usize| q < o ==> !(q != m && t@[q as int].parent == Some(p) && t@[q as int].kind@
                == "method_declaration"@ && (#[trigger] name_child(t@, q) matches Some(x) && node_text(t@, bs, x)
                == node_text(t@, bs, nm))),
        decreases t@.len() - o,
    {
        let sibling = o != m && match t[o].parent {
            Some(q) => q == p,
            None => false,
        } && same_text(t[o].kind.as_str(), "method_declaration");
        if sibling && name_text_is(t, source, o, want.as_slice()) {
            return true;
        }
        o = o + 1;
    }
    false
}

fn param_text_of(c: u64, ty: &[char]) -> (r: Vec<char>)
    ensures
        r@ == param_text(c as nat, ty@),
{
    let mut out: Vec<char> = Vec::new();
    crate::text::append_str(&mut out, "(formal_parameter type: (_) @n");
    let d = crate::refmsg::decimal_of(c);
    crate::text::append(&mut out, d.as_slice());
    crate::text::append_str(&mut out, " (#match? @n");
    crate::text::append(&mut out, d.as_slice());
    crate::text::append_str(&mut out, " \"^");
    let txt = string_of(ty);
    let lit = crate::capture::regex_literal(txt.as_str());
    let e = crate::query::escape_query_string(lit.as_str());
    crate::text::append_str(&mut out, e.as_str());
    crate::text::append_str(&mut out, "$\"))");
    out
}

proof fn lemma_param_parts_bounded(t: Seq<SyntaxNode>, b: Seq<u8>, p: usize, j: int, c: nat)
    ensures
        param_parts(t, b, p, j, c).1 <= if j < 0 { t.len() as int } else if j > t.len() { 0 } else { t.len() - j },
    decreases t.len() - j,
{
    if j < 0 || j >= t.len() {
    } else if t[j].parent == Some(p) && t[j].named {
        let ty = field_child(t, j as usize, "type"@, j + 1);
        let used: nat = if t[j].kind@ == "formal_parameter"@ && ty is Some { 1 } else { 0 };
        lemma_param_parts_bounded(t, b, p, j + 1, c + used);
    } else {
        lemma_param_parts_bounded(t, b, p, j + 1, c);
    }
}

fn param_parts_of(t: &Vec<SyntaxNode>, source: &str, p: usize, c: u64) -> (r: (Vec<Vec<char>>, u64))
    requires
        p < t@.len(),
        c + t@.len() < u64::MAX,
    ensures
        crate::text::views(r.0@) == param_parts(t@, source.spec_bytes(), p, p + 1, c as nat).0,
        r.1 as nat == param_parts(t@, source.spec_bytes(), p, p + 1, c as nat).1,
        r.1 <= t@.len(),
{
    let ghost bs = source.spec_bytes();
    let mut kids: Vec<Vec<char>> = Vec::new();
    let mut used: u64 = 0;
    let n = t.len();
    let mut j = p + 1;
    proof {
        lemma_param_parts_bounded(t@, bs, p, p + 1, c as nat);
    }
    while j < t.len()
        invariant
            p < j <= t@.len(),
            bs == source.spec_bytes(),
            used <= j - (p + 1),
            c + t@.len() < u64::MAX,
            ({
                let rest = param_parts(t@, bs, p, j as int, (c + used) as nat);
                let all = param_parts(t@, bs, p, p + 1, c as nat);
                all.0 == crate::text::views(kids@) + rest.0 && all.1 == used + rest.1
            }),
        decreases t@.len() - j,
    {
        let ghost before = crate::text::views(kids@);
        let is_kid = match t[j].parent {
            Some(q) => q == p,
            None => false,
        } && t[j].named;
        if is_kid {
            let ty = if same_text(t[j].kind.as_str(), "formal_parameter") {
                field_child_of(t, j, "type")
            } else {
                None
            };
            let one = match ty {
                Some(x) => {
                    let tx = node_text_of(t, source, x);
                    param_text_of(c + used, tx.as_slice())
                },
                None => {
                    let mut o: Vec<char> = Vec::new();
                    crate::text::append_str(&mut o, "(");
                    crate::text::append_str(&mut o, t[j].kind.as_str());
                    crate::text::append_str(&mut o, ")");
                    o
                },
            };
            let ghost ov = one@;
            kids.push(one);
            proof {
                assert(crate::text::views(kids@) =~= before.push(ov));
                assert(seq![ov] + param_parts(t@, bs, p, j as int + 1, (c + used + if ty is Some { 1nat } else { 0nat }) as nat).0
                    == param_parts(t@, bs, p, j as int, (c + used) as nat).0);
                assert(before + param_parts(t@, bs, p, j as int, (c + used) as nat).0 =~= before.push(ov)
                    + param_parts(t@, bs, p, j as int + 1, (c + used + if ty is Some { 1nat } else { 0nat }) as nat).0);
            }
            if ty.is_some() {
                used = used + 1;
            }
        }
        j = j + 1;
    }
    proof {
        assert(crate::text::views(kids@) + Seq::<Seq<char>>::empty() =~= crate::text::views(kids@));
    }
    (kids, used)
}

fn overload_of(t: &Vec<SyntaxNode>, source: &str, lang: &str, i: usize, c: u64) -> (r: Option<(Vec<char>, usize, u64)>)
    requires
        i < t@.len(),
        c + t@.len() < u64::MAX,
    ensures
        match (r, overload(t@, source.spec_bytes(), lang@, i, c as nat)) {
            (Some((x, at, u)), Some((y, aty, uy))) => x@ == y && at as int == aty && u as nat == uy && u <= t@.len(),
            (None, None) => true,
            _ => false,
        },
{
    if !(same_text(lang, "java") && same_text(t[i].kind.as_str(), "method_declaration") && overloaded_of(t, source, i)) {
        return None;
    }
    let ps = match field_child_of(t, i, "parameters") {
        Some(ps) => ps,
        None => return None,
    };
    let (kids, used) = param_parts_of(t, source, ps, c);
    let mut out: Vec<char> = Vec::new();
    if kids.len() == 0 {
        crate::text::append_str(&mut out, "parameters: (formal_parameters)");
    } else {
        crate::text::append_str(&mut out, "parameters: (formal_parameters\n    .\n    ");
        let sep = crate::text::chars_of("\n    .\n    ");
        let joined = crate::text::join_of(&kids, sep.as_slice());
        crate::text::append(&mut out, joined.as_slice());
        crate::text::append_str(&mut out, "\n    .)");
    }
    Some((out, t[ps].start, used))
}

/// The most captures the part of a path from `j` on can take.
pub open spec fn emit_bound(t: Seq<SyntaxNode>, path: Seq<usize>, j: int) -> int {
    (path.len() - j) * (t.len() + 2)
}

proof fn lemma_emit_bound_step(n: int, p: int, j: int)
    requires
        0 <= j < p,
        0 <= n,
    ensures
        (p - j) * (n + 2) == (p - (j + 1)) * (n + 2) + n + 2,
        (p - (j + 1)) * (n + 2) >= 0,
{
    assert((p - j) * (n + 2) == (p - (j + 1)) * (n + 2) + n + 2) by (nonlinear_arith);
    assert((p - (j + 1)) * (n + 2) >= 0) by (nonlinear_arith)
        requires
            p - (j + 1) >= 0,
            n + 2 >= 0,
    ;
}

#[verifier::spinoff_prover]
#[verifier::rlimit(60)]
fn emit_of(t: &Vec<SyntaxNode>, source: &str, lang: &str, path: &Vec<usize>, j: usize, c: u64) -> (r: (Vec<char>, u64))
    requires
        j < path@.len(),
        forall|k: int| 0 <= k < path@.len() ==> #[trigger] path@[k] < t@.len(),
        c + emit_bound(t@, path@, j as int) < u64::MAX,
    ensures
        r.0@ == emit(t@, source.spec_bytes(), lang@, path@, j as int, c as nat).0,
        r.1 as nat == emit(t@, source.spec_bytes(), lang@, path@, j as int, c as nat).1,
        r.1 <= emit_bound(t@, path@, j as int),
    decreases path@.len() - j,
{
    proof {
        lemma_emit_bound_step(t@.len() as int, path@.len() as int, j as int);
    }
    let ghost bs = source.spec_bytes();
    let i = path[j];
    let (pred, pos, used) = name_pred_of(t, source, lang, i, c);
    let ghost np = name_pred(t@, bs, lang@, i, c as nat);
    let used = used as u64;
    let mut parts: Vec<(usize, Vec<char>)> = Vec::new();
    if pred.len() > 0 {
        parts.push((pos, pred));
    }
    let ghost first: Seq<(int, Seq<char>)> = if np.0.len() > 0 {
        seq![(np.1, np.0)]
    } else {
        seq![]
    };
    assert(parts_view(parts@) =~= first);
    let ghost kid_spec = if j + 1 < path@.len() {
        emit(t@, bs, lang@, path@, j as int + 1, c as nat + used as nat)
    } else {
        (Seq::<char>::empty(), 0nat)
    };
    let mut total: u64 = used;
    if j < path.len() - 1 {
        let kid = path[j + 1];
        let mut kp: Vec<char> = Vec::new();
        crate::text::append_str(&mut kp, "\n  ");
        match &t[kid].field {
            Some(f) => {
                crate::text::append_str(&mut kp, f.as_str());
                crate::text::append_str(&mut kp, ": ");
            },
            None => {},
        }
        assert(kp@ == "\n  "@ + field_part(opt_text(t@[kid as int].field)));
        let (inner, u) = emit_of(t, source, lang, path, j + 1, c + used);
        crate::text::append(&mut kp, inner.as_slice());
        let ghost kv = (t@[kid as int].start as int, kp@);
        parts = insert_part_of(parts, (t[kid].start, kp));
        assert(parts_view(parts@) == insert_part(first, kv));
        total = total + u;
    }
    let ghost with_kid = parts_view(parts@);
    assert(total as nat == used as nat + kid_spec.1);
    let ghost ov = overload(t@, bs, lang@, i, c as nat + used as nat + kid_spec.1);
    match overload_of(t, source, lang, i, c + total) {
        Some((text, at, u)) => {
            let mut x: Vec<char> = Vec::new();
            crate::text::append_str(&mut x, "\n  ");
            crate::text::append(&mut x, text.as_slice());
            let ghost xv = (at as int, x@);
            parts = insert_part_of(parts, (at, x));
            assert(parts_view(parts@) == insert_part(with_kid, xv));
            total = total + u;
        },
        None => {},
    }
    let body = concat_of(&parts);
    let mut out: Vec<char> = Vec::new();
    crate::text::append_str(&mut out, "(");
    crate::text::append_str(&mut out, t[i].kind.as_str());
    crate::text::append(&mut out, body.as_slice());
    crate::text::append_str(&mut out, ")");
    if j == path.len() - 1 {
        crate::text::append_str(&mut out, " @target");
    }
    (out, total)
}

/// **The pattern that names node `i` of the tree of `source`**: rooted at the
/// stable anchor around it (at the node itself where it stands alone, as a YAML
/// sequence item does), it goes down the path to the node, each step under its
/// field, and names each node on the way by its own name, so that it finds this
/// node and not another of its kind.
pub fn pattern_for(ctx: &crate::capture::GenCtx, t: &Vec<SyntaxNode>, i: usize) -> (r: String)
    requires
        i < t@.len(),
        t@.len() < 0x4000_0000,
    ensures
        r@ == pattern_of(t@, ctx.source.spec_bytes(), ctx.lang@, crate::grammar::kinds_view(ctx.anchors@), i, ctx.standalone),
{
    let source = ctx.source;
    let lang = ctx.lang;
    let anchors = ctx.anchors;
    let standalone = ctx.standalone;
    let root = if standalone {
        i
    } else {
        match t[i].parent {
            Some(p) => match anchor_of(t, p, anchors) {
                Some(a) => a,
                None => i,
            },
            None => i,
        }
    };
    let path = match chain_of(t, i, root) {
        Some(v) => v,
        None => vec![root],
    };
    proof {
        assert forall|k: int| 0 <= k < path@.len() implies #[trigger] path@[k] < t@.len() by {
            lemma_chain_in_tree(t@, i, root, k);
        }
    }
    proof {
        let n = t@.len() as int;
        let m = path@.len() as int;
        assert(m <= n);
        assert(m * (n + 2) <= n * (n + 2)) by (nonlinear_arith)
            requires
                0 <= m <= n,
        ;
        assert(n * (n + 2) < 0x8000_0000_0000_0000) by (nonlinear_arith)
            requires
                0 <= n < 0x4000_0000,
        ;
        assert(emit_bound(t@, path@, 0) == m * (n + 2));
    }
    let (v, _) = emit_of(t, source, lang, &path, 0, 0);
    string_of(v.as_slice())
}

proof fn lemma_chain_in_tree(t: Seq<SyntaxNode>, i: usize, r: usize, k: int)
    requires
        i < t.len(),
        r < t.len(),
    ensures
        ({
            let path = match chain_up(t, i, r) {
                Some(s) => s,
                None => seq![r],
            };
            0 <= k < path.len() ==> path[k] < t.len()
        }),
    decreases i,
{
    match chain_up(t, i, r) {
        Some(s) => {
            if i != r {
                let p = t[i as int].parent->0;
                if k < s.len() - 1 {
                    lemma_chain_in_tree(t, p, r, k);
                }
            }
        },
        None => {},
    }
}


/// **The node a selection names**, from the node `i` found at it: the nearest
/// stable anchor around it, and whether that node must stand alone as the root of
/// its pattern — a YAML sequence item, which its `id:` names and whose ancestor is
/// the whole sequence.
pub open spec fn target_of(t: Seq<SyntaxNode>, i: usize, anchors: Seq<Seq<char>>) -> (usize, bool) {
    let target = match anchor_at(t, i, anchors) {
        Some(a) => a,
        None => i,
    };
    if t[target as int].kind@ == "block_sequence_item"@ {
        (target, true)
    } else {
        match t[target as int].parent {
            Some(p) => match anchor_at(t, p, anchors) {
                Some(a) => if t[a as int].kind@ == "block_sequence_item"@ {
                    (a, true)
                } else {
                    (target, false)
                },
                None => (target, false),
            },
            None => (target, false),
        }
    }
}

/// The node a selection names, and whether it stands alone; see [`target_of`].
pub fn target_node(t: &Vec<SyntaxNode>, i: usize, anchors: &[&str]) -> (r: (usize, bool))
    requires
        i < t@.len(),
    ensures
        r == target_of(t@, i, crate::grammar::kinds_view(anchors@)),
        r.0 < t@.len(),
{
    let target = match anchor_of(t, i, anchors) {
        Some(a) => a,
        None => i,
    };
    if same_text(t[target].kind.as_str(), "block_sequence_item") {
        return (target, true);
    }
    match t[target].parent {
        Some(p) => match anchor_of(t, p, anchors) {
            Some(a) => if same_text(t[a].kind.as_str(), "block_sequence_item") {
                (a, true)
            } else {
                (target, false)
            },
            None => (target, false),
        },
        None => (target, false),
    }
}

/// Why a generated pattern cannot be the capture of a node.
#[derive(Debug, Clone, PartialEq, Eq)]
pub enum Unidentified {
    /// There is no tree, or the pattern is not a query.
    Unreadable,
    /// It matches nothing.
    NoMatch,
    /// It matches once, another node: its parts.
    OtherNode(Vec<(usize, usize)>),
    /// It matches this many times: the anchor has nothing to tell it apart.
    Many(usize),
}

/// The bytes of a fragment's parts.
pub open spec fn part_bytes(f: Fragment) -> Seq<(usize, usize)> {
    f.ranges@.map_values(|r: crate::link::ByteRange| (r.start, r.end))
}

/// **A pattern identifies the node when it matches exactly once, there.** What the
/// matches of a pattern say of node `want` (its bytes, trimmed): the one fragment,
/// or why not.
pub fn identifies(hits: &Vec<Fragment>, want: (usize, usize)) -> (r: Result<Fragment, Unidentified>)
    ensures
        hits@.len() == 0 <==> r == Err::<Fragment, Unidentified>(Unidentified::NoMatch),
        hits@.len() > 1 <==> r == Err::<Fragment, Unidentified>(Unidentified::Many(hits@.len() as usize)),
        (hits@.len() == 1 && part_bytes(hits@[0]) == seq![want]) <==> r is Ok,
        r matches Ok(f) ==> fragment_view(f) == fragment_view(hits@[0]),
        r matches Err(Unidentified::OtherNode(got)) ==> hits@.len() == 1 && part_bytes(hits@[0]) != seq![want]
            && got@ == part_bytes(hits@[0]),
        !(r matches Err(Unidentified::Unreadable)),
{
    if hits.len() == 0 {
        return Err(Unidentified::NoMatch);
    }
    if hits.len() > 1 {
        return Err(Unidentified::Many(hits.len()));
    }
    let f = &hits[0];
    let mut got: Vec<(usize, usize)> = Vec::new();
    let mut k: usize = 0;
    while k < f.ranges.len()
        invariant
            k <= f.ranges@.len(),
            got@ == part_bytes(*f).take(k as int),
        decreases f.ranges@.len() - k,
    {
        got.push((f.ranges[k].start, f.ranges[k].end));
        assert(part_bytes(*f).take(k as int + 1) =~= part_bytes(*f).take(k as int).push(
            (f.ranges@[k as int].start, f.ranges@[k as int].end),
        ));
        k = k + 1;
    }
    assert(part_bytes(*f).take(k as int) =~= part_bytes(*f));
    if got.len() == 1 && got[0].0 == want.0 && got[0].1 == want.1 {
        assert(part_bytes(*f) =~= seq![want]);
        Ok(copy_fragment(f))
    } else {
        assert(part_bytes(*f) != seq![want]);
        Err(Unidentified::OtherNode(got))
    }
}

/// **The capture of node `i`**: the pattern that names it and the fragment it
/// resolves to, where the pattern matches that node and no other. The pattern is
/// always [`pattern_of`] the node; what it matches is what running it finds.
pub fn capture_node(g: &Grammar, t: &Vec<SyntaxNode>, source: &str, anchors: &[&str], i: usize, standalone: bool) -> (r:
    Result<(String, Fragment), Unidentified>)
    requires
        i < t@.len(),
        t@.len() < 0x4000_0000,
    ensures
        match r {
            Ok((q, f)) => q@ == pattern_of(t@, source.spec_bytes(), g.lang(), crate::grammar::kinds_view(anchors@), i, standalone)
                && exists|want: (usize, usize)|
                    #![trigger crate::query::trimmed_to(source.spec_bytes(), t@[i as int].start, t@[i as int].end, want)]
                    crate::query::trimmed_to(source.spec_bytes(), t@[i as int].start, t@[i as int].end, want)
                        && part_bytes(f) == seq![want],
            Err(_) => true,
        },
{
    let ctx = crate::capture::GenCtx { source, lang: g.name(), anchors, standalone };
    let query = pattern_for(&ctx, t, i);
    let want = crate::query::trim_edges(source, t[i].start, t[i].end);
    let hits = match find_all_fragments(g, source, query.as_str()) {
        Ok(h) => h,
        Err(_) => return Err(Unidentified::Unreadable),
    };
    match identifies(&hits, want) {
        Ok(f) => {
            assert(part_bytes(f) == part_bytes(hits@[0]));
            Ok((query, f))
        },
        Err(e) => Err(e),
    }
}


/// The deepest named node among the first `n` that covers `start..end`: in
/// preorder, the last one that does.
pub open spec fn covering_node(t: Seq<SyntaxNode>, start: usize, end: usize, n: int) -> Option<usize>
    decreases n,
{
    if n <= 0 || n > t.len() {
        None
    } else if t[n - 1].named && t[n - 1].start <= start && end <= t[n - 1].end {
        Some((n - 1) as usize)
    } else {
        covering_node(t, start, end, n - 1)
    }
}

/// **The node at a selection**: the deepest named node of the tree that covers
/// `start..end`.
pub fn node_at(t: &Vec<SyntaxNode>, start: usize, end: usize) -> (r: Option<usize>)
    ensures
        r == covering_node(t@, start, end, t@.len() as int),
        r matches Some(i) ==> i < t@.len(),
{
    let mut n = t.len();
    while n > 0
        invariant
            n <= t@.len(),
            covering_node(t@, start, end, t@.len() as int) == covering_node(t@, start, end, n as int),
        decreases n,
    {
        if t[n - 1].named && t[n - 1].start <= start && end <= t[n - 1].end {
            return Some(n - 1);
        }
        n = n - 1;
    }
    None
}


/// Node `x` comes no later than node `y`: by where it starts, then where it ends.
pub open spec fn not_after(t: Seq<SyntaxNode>, x: usize, y: usize) -> bool {
    t[x as int].start < t[y as int].start || (t[x as int].start == t[y as int].start && t[x as int].end
        <= t[y as int].end)
}

/// Why the positions of a selection do not name one node.
#[derive(Debug, Clone, PartialEq, Eq)]
pub enum Selection {
    /// There is no position.
    Empty,
    /// They fall on two nodes: the first two, in the order of the file.
    TwoNodes(usize, usize),
}

/// **A capture is one node.** From the node each position of a selection names
/// (with whether it stands alone): that node, standing alone where any position
/// says so; or, where they fall on different nodes, the first two of them in the
/// order of the file — two nodes are two contracts.
pub fn one_node(t: &Vec<SyntaxNode>, targets: &Vec<(usize, bool)>) -> (r: Result<(usize, bool), Selection>)
    requires
        forall|k: int| 0 <= k < targets@.len() ==> #[trigger] targets@[k].0 < t@.len(),
    ensures
        match r {
            Ok((i, alone)) => targets@.len() > 0 && (forall|k: int| 0 <= k < targets@.len() ==> #[trigger] targets@[k].0
                == i) && alone == (exists|k: int| 0 <= k < targets@.len() && #[trigger] targets@[k].1),
            Err(Selection::Empty) => targets@.len() == 0,
            Err(Selection::TwoNodes(a, b)) => a != b && (exists|k: int| 0 <= k < targets@.len() && #[trigger] targets@[k].0 == a)
                && (exists|k: int| 0 <= k < targets@.len() && #[trigger] targets@[k].0 == b) && (forall|k: int|
                0 <= k < targets@.len() ==> not_after(t@, a, #[trigger] targets@[k].0)) && (forall|k: int|
                0 <= k < targets@.len() && #[trigger] targets@[k].0 != a ==> not_after(t@, b, targets@[k].0)),
        },
{
    if targets.len() == 0 {
        return Err(Selection::Empty);
    }
    let mut a = targets[0].0;
    let mut ka: usize = 0;
    let mut k: usize = 1;
    while k < targets.len()
        invariant
            1 <= k <= targets@.len(),
            ka < k,
            targets@[ka as int].0 == a,
            forall|m: int| 0 <= m < targets@.len() ==> #[trigger] targets@[m].0 < t@.len(),
            forall|m: int| 0 <= m < k ==> not_after(t@, a, #[trigger] targets@[m].0),
        decreases targets@.len() - k,
    {
        let x = targets[k].0;
        if t[x].start < t[a].start || (t[x].start == t[a].start && t[x].end < t[a].end) {
            a = x;
            ka = k;
        }
        k = k + 1;
    }
    let mut b: Option<usize> = None;
    let mut alone = false;
    let mut k: usize = 0;
    while k < targets.len()
        invariant
            k <= targets@.len(),
            targets@.len() > 0,
            targets@[ka as int].0 == a,
            ka < targets@.len(),
            forall|m: int| 0 <= m < targets@.len() ==> #[trigger] targets@[m].0 < t@.len(),
            forall|m: int| 0 <= m < targets@.len() ==> not_after(t@, a, #[trigger] targets@[m].0),
            alone == (exists|m: int| 0 <= m < k && #[trigger] targets@[m].1),
            match b {
                None => forall|m: int| 0 <= m < k ==> #[trigger] targets@[m].0 == a,
                Some(y) => y != a && (exists|m: int| 0 <= m < k && #[trigger] targets@[m].0 == y) && (forall|m: int|
                    0 <= m < k && #[trigger] targets@[m].0 != a ==> not_after(t@, y, targets@[m].0)),
            },
        decreases targets@.len() - k,
    {
        let x = targets[k].0;
        if targets[k].1 {
            alone = true;
        }
        if x != a {
            match b {
                None => {
                    b = Some(x);
                },
                Some(y) => {
                    if t[x].start < t[y].start || (t[x].start == t[y].start && t[x].end < t[y].end) {
                        b = Some(x);
                    }
                },
            }
        }
        proof {
            assert(targets@[k as int].1 ==> (exists|m: int| 0 <= m < k + 1 && #[trigger] targets@[m].1));
        }
        k = k + 1;
    }
    match b {
        None => Ok((a, alone)),
        Some(y) => Err(Selection::TwoNodes(a, y)),
    }
}

} // verus!
