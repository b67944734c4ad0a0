use bilinker::index::{build, index_is_valid, layer_roots, lookup_from_index, status, Dir, IndexEntry, IndexStatus};

fn entry(file: &str, uuid: &str, n: u8, cap: &str) -> IndexEntry {
    IndexEntry { file: file.into(), uuid: uuid.into(), n, capture: cap.into() }
}

#[test]
fn the_index_maps_a_file_to_its_endpoints() {
    let (text, count) = build(&vec![entry("src/lib.rs", "uuid1", 0, "abc")]);
    assert_eq!(count, 1);
    assert_eq!(lookup_from_index(&text, "src/lib.rs"), vec![("uuid1".to_string(), 0u8)]);
    assert!(lookup_from_index(&text, "otro.rs").is_empty());
}

#[test]
fn the_index_is_one_line_per_endpoint() {
    let (text, _) = build(&vec![entry("a.rs", "u1", 0, "c1"), entry("b.rs", "u1", 1, "c2"), entry("a.rs", "u2", 1, "c3")]);
    assert_eq!(text, "a.rs\tu1.0\tc1\nb.rs\tu1.1\tc2\na.rs\tu2.1\tc3\n");
    assert_eq!(lookup_from_index(&text, "a.rs"), vec![("u1".to_string(), 0u8), ("u2".to_string(), 1u8)]);
}

#[test]
fn comments_and_odd_lines_say_nothing() {
    let text = "# comentario\n\nsin tab\na.rs\tu.x.7\na.rs\tu.300\na.rs\tu.+2\tc\n";
    assert_eq!(lookup_from_index(text, "a.rs"), vec![("u.x".to_string(), 7u8), ("u".to_string(), 2u8)]);
}

#[test]
fn staleness_counts_the_newer_bilinks() {
    assert_eq!(status(None, &vec![Some(1)]), IndexStatus::Missing);
    assert_eq!(status(Some(10), &vec![Some(5), Some(10), None]), IndexStatus::Okay);
    assert_eq!(status(Some(10), &vec![Some(11), Some(3), Some(12)]), IndexStatus::Stale { stale_count: 2 });
    assert!(index_is_valid(Some(10), &vec![Some(10), None]));
    assert!(!index_is_valid(Some(10), &vec![Some(11)]));
    assert!(!index_is_valid(None, &vec![]));
}

#[test]
fn layers_are_not_looked_for_in_build_outputs() {
    let d = |p: &str, names: &[&str], b: bool| Dir {
        path: p.into(),
        names: names.iter().map(|s| s.to_string()).collect(),
        has_bilink: b,
    };
    let dirs = vec![
        d(".", &[], true),
        d("a", &["a"], true),
        d("target/x", &["target", "x"], true),
        d("b", &["b"], false),
        d("b/node_modules/y", &["b", "node_modules", "y"], true),
    ];
    assert_eq!(layer_roots(&dirs), vec![".".to_string(), "a".to_string()]);
}

#[test]
fn the_scan_answers_what_the_index_answers() {
    let e = |file: &str, uuid: &str, n: u8| bilinker::index::IndexEntry {
        file: file.to_string(),
        uuid: uuid.to_string(),
        n,
        capture: String::new(),
    };
    let entries = vec![e("src/lib.rs", "uuid1", 0), e("otro.rs", "uuid2", 1), e("src/lib.rs", "uuid3", 1)];
    let (text, _) = bilinker::index::build(&entries);
    for f in ["src/lib.rs", "otro.rs", "nada.rs"] {
        assert_eq!(bilinker::index::lookup_from_index(&text, f), bilinker::index::lookup_scan(&entries, f));
    }
    assert_eq!(bilinker::index::lookup_scan(&entries, "src/lib.rs"), vec![("uuid1".to_string(), 0), ("uuid3".to_string(), 1)]);
}
