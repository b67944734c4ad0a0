use bilinker::grammar::{
    ast_discriminates_content, body_field, language_for_file, name_field, name_node_type,
    signature_kinds, stable_anchor_kinds,
};

#[test]
fn prose_does_not_get_an_ast_hash() {
    assert!(!ast_discriminates_content("markdown"));
    assert!(!ast_discriminates_content("text"));
}

#[test]
fn code_gets_an_ast_hash() {
    for lang in ["rust", "java", "typescript", "tsx", "yaml"] {
        assert!(ast_discriminates_content(lang), "{lang} debería discriminar");
    }
}

// ─── further cases ───────────────────────────────────────────────────────────

#[test]
fn the_language_goes_by_the_extension() {
    assert_eq!(language_for_file("src/Foo.java"), "java");
    assert_eq!(language_for_file("src/lib.rs"), "rust");
    assert_eq!(language_for_file("a/b.yml"), "yaml");
    assert_eq!(language_for_file("docs/guide.md"), "markdown");
    assert_eq!(language_for_file("web/app.js"), "typescript");
    assert_eq!(language_for_file("web/App.jsx"), "tsx");
    assert_eq!(language_for_file("Makefile"), "text");
    assert_eq!(language_for_file(".rs"), "text");
    assert_eq!(language_for_file("dir.rs/"), "rust");
    assert_eq!(language_for_file("a/.."), "text");
}

#[test]
fn the_tables_answer_per_language() {
    assert_eq!(body_field("rust"), Some("body"));
    assert_eq!(body_field("markdown"), None);
    assert_eq!(stable_anchor_kinds("markdown"), &["section", "pipe_table_row"]);
    assert!(stable_anchor_kinds("text").is_empty());
    assert_eq!(signature_kinds("java"), &["method_declaration", "constructor_declaration"]);
    assert_eq!(name_field("rust", "impl_item"), Some("type"));
    assert_eq!(name_field("java", "field_declaration"), None);
    assert_eq!(name_node_type("tsx", "method_signature"), "property_identifier");
    assert_eq!(name_node_type("java", "class_declaration"), "identifier");
}
