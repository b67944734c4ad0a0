use bilinker::frontier::{
    declared_aliases, deepen_step, ensure_ignored, sparse_set, verify_format_version, Deepen, FormatError, Provider,
    DEEPEN_CEILING,
};

#[test]
fn the_declaration_lives_beside_the_clone() {
    assert_eq!(Provider::declaration_path("capa", "core"), "capa/.bilink/.core.toml");
    assert_eq!(Provider::clone_path("capa", "core"), "capa/.bilink/core");
    let p = Provider { remote: "git@x:core.git".into(), branch: "main".into() };
    assert_eq!(p.ref_name(), "refs/bilink/main");
}

#[test]
fn a_format_not_understood_stops() {
    assert_eq!(verify_format_version(Some("4.2"), "4.0", "core"), Ok(()));
    let e = verify_format_version(Some("5.0"), "4.1", "core").unwrap_err();
    assert_eq!(e, FormatError::Incompatible { alias: "core".into(), theirs: "5.0".into(), ours: "4.1".into() });
    assert!(e.message().starts_with("el proveedor 'core' publica formato 5.0 y este binario lee 4.1."));
    let e = verify_format_version(None, "4.1", "core").unwrap_err();
    assert!(e.message().contains("no declara versión de formato"));
}

#[test]
fn deepening_stops_at_the_ceiling() {
    assert_eq!(deepen_step(Some("c".into()), 0), Deepen::Found("c".into()));
    assert_eq!(deepen_step(None, 0), Deepen::More(50));
    assert_eq!(deepen_step(None, DEEPEN_CEILING), Deepen::GiveUp);
}

#[test]
fn the_sparse_set_is_each_file_once() {
    let r = sparse_set(vec!["b.rs".into(), "a.rs".into(), "b.rs".into()]);
    assert_eq!(r, vec!["a.rs".to_string(), "b.rs".to_string()]);
}

#[test]
fn the_clone_is_ignored_once() {
    assert_eq!(ensure_ignored("cache/\nindex/", "core"), Some("cache/\nindex/\ncore/\n".to_string()));
    assert_eq!(ensure_ignored("", "core"), Some("core/\n".to_string()));
    assert_eq!(ensure_ignored("x\n core/ \n", "core"), None);
}

#[test]
fn aliases_come_from_dotfiles() {
    let names = vec![".core.toml".to_string(), "core".into(), ".a.toml".into(), "b.toml".into(), ".gitignore".into()];
    assert_eq!(declared_aliases(&names), vec!["a".to_string(), "core".to_string()]);
}
