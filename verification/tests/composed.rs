use bilinker::composed::is_composed;

const OLD: &str = r#"(class_declaration
  (modifiers
    (_
          name: (identifier) @n0 (#match? @n0 "^(RequestMapping)$")) @target)
  body: (class_body
    (method_declaration
      (modifiers
        (_
          name: (identifier) @n1 (#match? @n1 "^(GetMapping|PostMapping|PutMapping|DeleteMapping|PatchMapping|RequestMapping)$")) @target)
      type: (_) @target
      name: (identifier) @n2 (#eq? @n2 "getPermissions")
      parameters: (_) @target)))"#;

#[test]
fn a_query_with_several_targets_composes() {
    assert!(is_composed(OLD));
    assert!(!is_composed("(method_declaration) @target"));
}
