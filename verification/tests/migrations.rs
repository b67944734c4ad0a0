use bilinker::link::{ByteRange, StructuralRef};
use bilinker::migrations::{dropped_subgraph_lines, split_references};

fn sref(file: &str, query: Option<&str>, range: Option<(usize, usize)>) -> StructuralRef {
    StructuralRef {
        file: file.to_string(),
        query: query.map(|q| q.to_string()),
        range: range.map(|(start, end)| ByteRange { start, end }),
    }
}

#[test]
fn identical_references_share_one_capture() {
    let refs = vec![
        sref("src/a.rs", Some("(function_item) @f"), Some((3, 9))),
        sref("src/b.rs", None, None),
        sref("src/a.rs", Some("(function_item) @f"), Some((3, 9))),
    ];
    let (slots, created, reused) = split_references(&refs);
    assert_eq!(slots, vec![0, 1, 0]);
    assert_eq!(created, 2);
    assert_eq!(reused, 1);
}

#[test]
fn references_that_differ_in_range_or_query_do_not_share() {
    let refs = vec![
        sref("src/a.rs", Some("q"), Some((3, 9))),
        sref("src/a.rs", Some("q"), Some((3, 10))),
        sref("src/a.rs", None, Some((3, 9))),
        sref("src/a.rs", Some("q"), None),
    ];
    let (slots, created, reused) = split_references(&refs);
    assert_eq!(slots, vec![0, 1, 2, 3]);
    assert_eq!(created, 4);
    assert_eq!(reused, 0);
}

#[test]
fn no_references_make_no_captures() {
    let (slots, created, reused) = split_references(&vec![]);
    assert!(slots.is_empty());
    assert_eq!((created, reused), (0, 0));
}

#[test]
fn legacy_subgraph_fields_are_counted() {
    let text = "uuid: abc\nsubgraph.0: x\nlink.0: a.rs\nsubgraph.1: y\n subgraph.0: indented\n";
    assert_eq!(dropped_subgraph_lines(text), 2);
    assert_eq!(dropped_subgraph_lines("uuid: abc\n"), 0);
}
