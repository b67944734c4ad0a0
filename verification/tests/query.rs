use bilinker::query::{
    anchor_capture, anchor_name, escape_query_string, relax_name_predicates,
    rewrite_name_predicate, trim_edges, unescape_query_string,
};

#[test]
fn relax_removes_eq_predicate() {
    let q = r#"(function_item name: (identifier) @n0 (#eq? @n0 "foo")) @target"#;
    assert_eq!(relax_name_predicates(q), "(function_item name: (identifier) @n0 ) @target");
}

#[test]
fn relax_removes_several_predicates() {
    let q = r#"(class_declaration name: (identifier) @n0 (#eq? @n0 "A") body: (block (method name: (identifier) @n1 (#eq? @n1 "b")) @target))"#;
    let r = relax_name_predicates(q);
    assert!(!r.contains("#eq?"), "quedaron predicados: {r}");
    assert!(r.contains("@target"));
}

#[test]
fn a_backslash_in_the_name_survives_the_predicate() {
    let esc = escape_query_string("El separador es `\\n`");
    assert_eq!(esc, "El separador es `\\\\n`");
    assert_eq!(unescape_query_string(&esc), "El separador es `\\n`");
}

#[test]
fn a_quote_in_the_name_does_not_end_the_string() {
    let esc = escape_query_string("dice \"hola\"");
    assert_eq!(esc, "dice \\\"hola\\\"");
    assert_eq!(unescape_query_string(&esc), "dice \"hola\"");
}

#[test]
fn rewriting_escapes_the_same_way_as_writing() {
    let q = r#"(function_item name: (identifier) @n0 (#eq? @n0 "foo")) @target"#;
    let r = rewrite_name_predicate(q, r"a\b").unwrap();
    assert!(r.contains(r#"(#eq? @n0 "a\\b")"#), "{r}");
    assert_eq!(anchor_name(&r).as_deref(), Some(r"a\b"));
}

#[test]
fn relax_leaves_query_without_predicates_intact() {
    let q = "(source_file) @target";
    assert_eq!(relax_name_predicates(q), q);
}

#[test]
fn rewrites_the_anchor_name() {
    let q = r#"(function_item name: (identifier) @n0 (#eq? @n0 "foo")) @target"#;
    let r = rewrite_name_predicate(q, "bar").unwrap();
    assert!(r.contains(r#"(#eq? @n0 "bar")"#), "{r}");
    assert!(!r.contains("foo"));
}

#[test]
fn rewrites_the_innermost_predicate() {
    let q = r#"(class_declaration name: (identifier) @n0 (#eq? @n0 "A") body: (class_body (method_declaration name: (identifier) @n1 (#eq? @n1 "b")) @target))"#;
    let r = rewrite_name_predicate(q, "z").unwrap();
    assert!(r.contains(r#"(#eq? @n1 "z")"#), "{r}");
    assert!(r.contains(r#"(#eq? @n0 "A")"#), "el ancestro no debería cambiar: {r}");
}

#[test]
fn rewrites_a_nested_markdown_section() {
    let q = r#"(section (atx_heading (inline) @n0 (#eq? @n0 "Doc")) (section (atx_heading (inline) @n1 (#eq? @n1 "Auto-fix staging"))) @target)"#;
    let r = rewrite_name_predicate(q, "Auto-fix").unwrap();
    assert!(r.contains(r#"(#eq? @n1 "Auto-fix")"#), "{r}");
    assert!(r.contains(r#"(#eq? @n0 "Doc")"#), "el título del documento no cambió: {r}");
}

#[test]
fn returns_none_without_a_name_predicate() {
    assert!(rewrite_name_predicate("(source_file) @target", "x").is_none());
}

#[test]
fn reads_an_anchor_whose_value_has_escaped_quotes() {
    let q = "(annotation arguments: (annotation_argument_list) @n0 (#eq? @n0 \"(\\\"/report\\\")\")) @target";
    assert_eq!(anchor_name(q).as_deref(), Some("(\"/report\")"));
}

#[test]
fn rewrites_an_anchor_whose_value_has_escaped_quotes() {
    let q = "(annotation arguments: (annotation_argument_list) @n0 (#eq? @n0 \"(\\\"/report\\\")\")) @target";
    let r = rewrite_name_predicate(q, "(\"/informe\")").unwrap();
    assert_eq!(r, "(annotation arguments: (annotation_argument_list) @n0 (#eq? @n0 \"(\\\"/informe\\\")\")) @target");
}

// ─── further cases ───────────────────────────────────────────────────────────

#[test]
fn escaping_then_unescaping_gives_the_name_back() {
    for name in ["", "plain", "a\\b", "\\\"", "\"\\\"\\", "ñandú \\n \"x\""] {
        assert_eq!(unescape_query_string(&escape_query_string(name)), name);
    }
}

#[test]
fn the_anchor_of_a_rewritten_query_is_the_new_name() {
    let q = r#"(section (atx_heading (inline) @n0 (#eq? @n0 "Doc")) (section (atx_heading (inline) @n1 (#eq? @n1 "Viejo"))) @target)"#;
    for name in ["Nuevo", "con \"comillas\"", "barra \\ sola"] {
        let r = rewrite_name_predicate(q, name).unwrap();
        assert_eq!(anchor_name(&r).as_deref(), Some(name));
    }
}

#[test]
fn an_unclosed_predicate_keeps_the_rest() {
    // From an unclosed predicate on, the rest stays as it was.
    assert_eq!(relax_name_predicates("(a) (#eq? @n0 \"x\""), "(a) (#eq? @n0 \"x\"");
    assert_eq!(relax_name_predicates("(a (#eq? @n0 \"y\")) (b) (#eq? @n1 \"x\""), "(a ) (b) (#eq? @n1 \"x\"");
}

#[test]
fn the_edges_of_a_range_are_trimmed() {
    let src = "  fn f() {}\n\n";
    assert_eq!(trim_edges(src, 0, src.len()), (2, 11));
    assert_eq!(trim_edges(src, 0, 100), (2, 11));
    assert_eq!(trim_edges("   ", 0, 3), (3, 3));
    assert_eq!(trim_edges(src, 5, 3), (5, 3));
}

#[test]
fn the_anchor_capture_is_the_last_predicate_s() {
    let q = r#"(a (#eq? @n0 "x") (b (#eq? @n12 "y")))"#;
    assert_eq!(anchor_capture(q).as_deref(), Some("n12"));
    assert_eq!(anchor_capture("(source_file) @target"), None);
}
