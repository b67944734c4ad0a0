use bilinker::capture::GenCtx;
use bilinker::link::ByteRange;
use bilinker::syntax::{
    capture_node, covering_shape, declaration, find_all_fragments, find_all_targets, find_fragment, identifies, parse_tree,
    pattern_for, shape_and_tokens, target_node, Fragment, Grammar, QueryError, Unidentified,
};

fn rust() -> Grammar {
    Grammar::of("rust").expect("rust has a grammar")
}

fn text(ranges: &[ByteRange], src: &str) -> String {
    ranges.iter().map(|r| &src[r.start..r.end]).collect::<Vec<_>>().join("\n")
}

fn frag(src: &str, query: &str) -> Fragment {
    find_fragment(&rust(), src, query).unwrap().expect("the query should resolve")
}

const SRC: &str = "fn f(a: u8) -> u8 {\n    let x = a;\n    x\n}\n";

#[test]
fn one_target_is_the_node_and_nothing_else() {
    let f = frag(SRC, r#"(function_item name: (identifier) @n0 (#eq? @n0 "f")) @target"#);
    assert_eq!(f.ranges.len(), 1);
    assert_eq!(text(&f.ranges, SRC), SRC.trim_end());
}

#[test]
fn several_targets_make_a_fragment_of_several_parts() {
    let q = r#"(function_item
                  name: (identifier) @target
                  return_type: (primitive_type) @target) @fn"#;
    let f = frag(SRC, q);
    assert_eq!(f.ranges.len(), 2);
    assert_eq!(text(&f.ranges, SRC), "f\nu8");
}

#[test]
fn a_relaxed_candidate_carries_every_part() {
    let q = r#"(function_item
                  name: (identifier) @n0
                  parameters: (parameters) @target
                  return_type: (primitive_type) @target)"#;
    let all = find_all_targets(&rust(), SRC, q).unwrap();
    assert_eq!(all.len(), 1);
    assert_eq!(text(&all[0].fragment.ranges, SRC), "(a: u8)\nu8");
    assert_eq!(all[0].name.as_deref(), Some("f"));
}

#[test]
fn the_separator_is_a_newline() {
    let q = r#"(function_item
                  name: (identifier) @target
                  return_type: (primitive_type) @target) @fn"#;
    let f = frag(SRC, q);
    assert_eq!(text(&f.ranges, SRC), ["f", "u8"].join("\n"));
}

#[test]
fn the_signature_survives_a_change_in_the_body() {
    let q = r#"(function_item
                  name: (identifier) @target
                  parameters: (parameters) @target
                  return_type: (primitive_type) @target) @fn"#;
    let otro = "fn f(a: u8) -> u8 {\n    a + 1\n}\n";
    assert_eq!(text(&frag(SRC, q).ranges, SRC), text(&frag(otro, q).ranges, otro));
}

#[test]
fn the_signature_changes_when_the_return_type_does() {
    let q = r#"(function_item
                  name: (identifier) @target
                  parameters: (parameters) @target
                  return_type: (primitive_type) @target) @fn"#;
    let otro = "fn f(a: u8) -> u16 {\n    let x = a;\n    x\n}\n";
    assert_ne!(text(&frag(SRC, q).ranges, SRC), text(&frag(otro, q).ranges, otro));
}

#[test]
fn each_part_is_trimmed_on_its_own() {
    let f = frag(SRC, r#"(function_item
                            name: (identifier) @target
                            body: (block) @target) @fn"#);
    for r in &f.ranges {
        assert!(!SRC[r.start..r.end].starts_with(char::is_whitespace));
        assert!(!SRC[r.start..r.end].ends_with(char::is_whitespace));
    }
}

#[test]
fn the_fingerprint_is_one_sexp_per_node() {
    let f = frag(SRC, r#"(function_item
                            name: (identifier) @target
                            return_type: (primitive_type) @target) @fn"#);
    assert_eq!(f.sexp.split('\n').count(), 2);
}

fn fingerprint(src: &str) -> String {
    let t = parse_tree(&rust(), src).unwrap();
    shape_and_tokens(&t, src, 0)
}

#[test]
fn whitespace_does_not_change_the_fingerprint() {
    assert_eq!(fingerprint("fn f(a: u8) -> u8 { a }"), fingerprint("fn  f( a : u8 )  ->  u8\n{\n    a\n}\n"));
}

#[test]
fn renaming_an_identifier_changes_the_fingerprint() {
    assert_ne!(fingerprint("fn f(sref: u8) {}"), fingerprint("fn f(cap: u8) {}"));
}

#[test]
fn changing_a_literal_changes_the_fingerprint() {
    assert_ne!(fingerprint(r#"const V: &str = "0.1.0";"#), fingerprint(r#"const V: &str = "2.0.0";"#));
}

#[test]
fn editing_a_comment_changes_the_fingerprint() {
    assert_ne!(fingerprint("// antes\nfn f() {}"), fingerprint("// después\nfn f() {}"));
}

// ─── further cases ───────────────────────────────────────────────────────────

#[test]
fn the_shape_carries_the_kinds_and_the_tokens() {
    assert_eq!(
        fingerprint("fn f() {}"),
        "(source_file (function_item (fn fn) (identifier f) (parameters (( () () ))) (block ({ {) (} }))))"
    );
}

#[test]
fn a_query_without_a_target_or_that_does_not_parse_is_an_error() {
    assert_eq!(find_fragment(&rust(), SRC, "(function_item) @fn").unwrap_err(), QueryError::NoTarget);
    assert_eq!(find_fragment(&rust(), SRC, "(no_such_node) @target").unwrap_err(), QueryError::Unreadable);
    assert!(find_fragment(&rust(), SRC, r#"(function_item name: (identifier) @n0 (#eq? @n0 "g")) @target"#).unwrap().is_none());
}

#[test]
fn every_match_is_a_fragment() {
    let two = "fn a() {}\nfn b() {}\n";
    let all = find_all_fragments(&rust(), two, "(function_item) @target").unwrap();
    assert_eq!(all.len(), 2);
    assert_eq!(text(&all[1].ranges, two), "fn b() {}");
}

#[test]
fn the_declaration_wraps_the_anchor() {
    let q = r#"(function_item name: (identifier) @n0 (#eq? @n0 "f") return_type: (primitive_type) @target)"#;
    let (ranges, decl) = declaration(&rust(), SRC, q).unwrap().unwrap();
    assert_eq!(text(&ranges, SRC), "u8");
    assert_eq!(&SRC[decl.start..decl.end], SRC.trim_end());
    assert_eq!(declaration(&rust(), SRC, "(function_item) @target").unwrap(), None, "no anchor");
}

#[test]
fn the_covering_node_is_the_smallest() {
    let s = covering_shape(&rust(), SRC, 3, 4).unwrap();
    assert_eq!(s, "(identifier f)");
}

#[test]
fn only_known_languages_have_a_grammar() {
    assert!(Grammar::of("java").is_some());
    assert!(Grammar::of("tsx").is_some());
    assert!(Grammar::of("text").is_none());
    assert_eq!(Grammar::of("yaml").unwrap().name(), "yaml");
}

const IMPL: &str = "struct S;\nimpl S {\n    fn f(&self) -> u8 { 1 }\n    fn g(&self) -> u8 { 2 }\n}\n";

fn node_named(src: &str, kind: &str, starts: &str) -> usize {
    let t = parse_tree(&rust(), src).unwrap();
    t.iter().position(|n| n.kind == kind && src[n.start..n.end].starts_with(starts)).expect("the node is there")
}

#[test]
fn the_pattern_of_a_method_names_it_inside_its_impl() {
    let t = parse_tree(&rust(), IMPL).unwrap();
    let i = node_named(IMPL, "function_item", "fn g");
    let anchors = bilinker::grammar::stable_anchor_kinds("rust");
    let q = pattern_for(&GenCtx { source: IMPL, lang: "rust", anchors, standalone: false }, &t, i);
    assert_eq!(
        q,
        "(impl_item\n  type: (type_identifier) @n0 (#eq? @n0 \"S\")\n  body: (declaration_list\n  (function_item\n  name: (identifier) @n1 (#eq? @n1 \"g\")) @target))"
    );
    assert_eq!(q.matches("@target").count(), 1);
}

#[test]
fn the_capture_of_a_method_finds_it_and_nothing_else() {
    let t = parse_tree(&rust(), IMPL).unwrap();
    let i = node_named(IMPL, "function_item", "fn g");
    let anchors = bilinker::grammar::stable_anchor_kinds("rust");
    let (q, f) = capture_node(&rust(), &t, IMPL, anchors, i, false).expect("the pattern identifies the method");
    assert_eq!(text(&f.ranges, IMPL), "fn g(&self) -> u8 { 2 }");
    let again = find_fragment(&rust(), IMPL, &q).unwrap().unwrap();
    assert_eq!(again.ranges, f.ranges);
}

#[test]
fn a_renamed_method_is_no_longer_found_by_its_pattern() {
    let t = parse_tree(&rust(), IMPL).unwrap();
    let i = node_named(IMPL, "function_item", "fn g");
    let anchors = bilinker::grammar::stable_anchor_kinds("rust");
    let q = pattern_for(&GenCtx { source: IMPL, lang: "rust", anchors, standalone: false }, &t, i);
    let renamed = IMPL.replace("fn g", "fn h");
    assert!(find_fragment(&rust(), &renamed, &q).unwrap().is_none());
    let moved = IMPL.replace("    fn g(&self) -> u8 { 2 }\n", "").replace("impl S {\n", "impl S {\n    fn g(&self) -> u8 { 2 }\n");
    let f = find_fragment(&rust(), &moved, &q).unwrap().expect("a move keeps the capture");
    assert_eq!(text(&f.ranges, &moved), "fn g(&self) -> u8 { 2 }");
}

#[test]
fn a_node_inside_a_function_is_captured_as_the_function() {
    let t = parse_tree(&rust(), IMPL).unwrap();
    let lit = t.iter().position(|n| n.kind == "integer_literal" && &IMPL[n.start..n.end] == "2").unwrap();
    let anchors = bilinker::grammar::stable_anchor_kinds("rust");
    let (target, alone) = target_node(&t, lit, anchors);
    assert!(!alone);
    assert_eq!(target, node_named(IMPL, "function_item", "fn g"));
}

#[test]
fn a_yaml_sequence_item_stands_alone() {
    let y = Grammar::of("yaml").unwrap();
    let src = "items:\n  - id: uno\n    valor: 1\n  - id: dos\n    valor: 2\n";
    let t = parse_tree(&y, src).unwrap();
    let v = t.iter().position(|n| n.kind == "block_mapping_pair" && src[n.start..n.end].starts_with("valor: 2")).unwrap();
    let anchors = bilinker::grammar::stable_anchor_kinds("yaml");
    let (target, alone) = target_node(&t, v, anchors);
    assert!(alone);
    assert_eq!(t[target].kind, "block_sequence_item");
    let q = pattern_for(&GenCtx { source: src, lang: "yaml", anchors, standalone: alone }, &t, target);
    assert_eq!(
        q,
        "(block_sequence_item (block_node (block_mapping (block_mapping_pair\n  key: (flow_node) @_ (#eq? @_ \"id\")\n  value: (flow_node) @n0 (#eq? @n0 \"dos\"))))) @target"
    );
    let (_, f) = capture_node(&y, &t, src, anchors, target, alone).expect("the id tells the item apart");
    assert_eq!(text(&f.ranges, src), "- id: dos\n    valor: 2");
}

fn hit(a: usize, b: usize) -> Fragment {
    Fragment { ranges: vec![ByteRange { start: a, end: b }], sexp: String::new() }
}

#[test]
fn a_pattern_that_matches_nothing_or_twice_identifies_nothing() {
    assert_eq!(identifies(&vec![], (3, 5)).unwrap_err(), Unidentified::NoMatch);
    assert_eq!(identifies(&vec![hit(3, 5), hit(7, 9)], (3, 5)).unwrap_err(), Unidentified::Many(2));
    assert_eq!(identifies(&vec![hit(7, 9)], (3, 5)).unwrap_err(), Unidentified::OtherNode(vec![(7, 9)]));
    assert_eq!(identifies(&vec![hit(3, 5)], (3, 5)).unwrap().ranges, vec![ByteRange { start: 3, end: 5 }]);
}

#[test]
fn a_markdown_section_is_named_by_its_heading() {
    let md = Grammar::of("markdown").unwrap();
    let src = "# Uno\n\ntexto\n\n# Dos\n\nmás\n";
    let t = parse_tree(&md, src).unwrap();
    let i = t.iter().position(|n| n.kind == "section" && src[n.start..n.end].starts_with("# Dos")).unwrap();
    let anchors = bilinker::grammar::stable_anchor_kinds("markdown");
    let q = pattern_for(&GenCtx { source: src, lang: "markdown", anchors, standalone: false }, &t, i);
    assert_eq!(q, "(section\n  (atx_heading (inline) @n0 (#eq? @n0 \"Dos\"))) @target");
    let (_, f) = capture_node(&md, &t, src, anchors, i, false).expect("the heading tells the section apart");
    assert_eq!(text(&f.ranges, src), "# Dos\n\nmás");
}

const DASHBOARD: &str = "\
public class Dashboard {
    public AlertaDto alertas(Short idJur) {
        return svc.alertas(idJur);
    }

    public List<AccionDto> alertas(Integer idUs, List<Long> anios) {
        return svc.acciones(idUs, anios);
    }

    public int otro(int c) {
        return c;
    }
}
";

fn java_capture(src: &str, line: u32, col: usize) -> (String, Fragment) {
    let g = Grammar::of("java").unwrap();
    let t = parse_tree(&g, src).unwrap();
    let at = bilinker::impact::line_to_byte_start(src, line - 1) + col - 1;
    let i = bilinker::syntax::node_at(&t, at, at).expect("a node at the position");
    let anchors = bilinker::grammar::stable_anchor_kinds("java");
    let (target, alone) = target_node(&t, i, anchors);
    capture_node(&g, &t, src, anchors, target, alone).expect("the query identifies the node")
}

#[test]
fn an_overloaded_method_anchors_on_its_parameter_types() {
    let (q, f) = java_capture(DASHBOARD, 6, 5);
    assert!(q.contains(r#""^Integer$""#) && q.contains(r#""^List<Long>$""#), "{q}");
    assert_eq!(q.matches("@target").count(), 1, "one node:\n{q}");
    let last_eq = q.lines().filter(|l| l.contains("#eq?")).last().unwrap_or("");
    assert!(last_eq.contains(r#""alertas""#), "the last #eq? is the name:\n{q}");
    assert!(text(&f.ranges, DASHBOARD).contains("svc.acciones"), "the whole method");
}

#[test]
fn a_method_that_is_not_overloaded_anchors_on_its_name() {
    let (q, _) = java_capture(DASHBOARD, 10, 5);
    assert!(!q.contains("#match?"));
}

fn java_targets(src: &str, at: &[(u32, usize)]) -> (Vec<bilinker::syntax::SyntaxNode>, Vec<(usize, bool)>) {
    let g = Grammar::of("java").unwrap();
    let t = parse_tree(&g, src).unwrap();
    let anchors = bilinker::grammar::stable_anchor_kinds("java");
    let v = at
        .iter()
        .map(|(l, c)| {
            let b = bilinker::impact::line_to_byte_start(src, *l - 1) + c - 1;
            target_node(&t, bilinker::syntax::node_at(&t, b, b).unwrap(), anchors)
        })
        .collect();
    (t, v)
}

#[test]
fn positions_in_distinct_nodes_are_refused() {
    let (t, v) = java_targets(DASHBOARD, &[(2, 5), (10, 5)]);
    match bilinker::syntax::one_node(&t, &v) {
        Err(bilinker::syntax::Selection::TwoNodes(a, b)) => {
            assert!(DASHBOARD[t[a].start..t[a].end].contains("Short idJur"));
            assert!(DASHBOARD[t[b].start..t[b].end].contains("int otro"));
        }
        other => panic!("two nodes are two contracts: {other:?}"),
    }
}

#[test]
fn positions_in_the_same_node_are_that_node() {
    let (t, dos) = java_targets(DASHBOARD, &[(10, 5), (11, 9)]);
    let (_, una) = java_targets(DASHBOARD, &[(10, 5)]);
    assert_eq!(bilinker::syntax::one_node(&t, &dos), bilinker::syntax::one_node(&t, &una));
    assert!(bilinker::syntax::one_node(&t, &dos).is_ok());
}
