use bilinker::bilink::{BiLinkFile, ParseError};
use bilinker::link::{ByteRange, EndpointState, LinkEndpoint, RangeError, StructuralRef};

fn structural(file: &str) -> LinkEndpoint {
    LinkEndpoint::Fragment(StructuralRef { file: file.into(), query: None, range: None })
}

fn layer(path: &str) -> LinkEndpoint {
    LinkEndpoint::Layer(path.into())
}

#[test]
fn roundtrip_empty_cache() {
    let written = BiLinkFile::new("test-uuid".into(), structural("file.md"), layer(".stratum/impl"));
    let text = written.text();

    let loaded = BiLinkFile::parse(&text, "test-uuid").unwrap();
    assert_eq!(loaded.uuid, "test-uuid");
    assert!(loaded.hash0.is_none());
    assert!(loaded.state0.is_none());
}

#[test]
fn roundtrip_full_cache() {
    let mut written = BiLinkFile::new("abc123".into(), structural("a.md"), structural("b.md"));
    written.hash0 = Some("aabbcc".into());
    written.commit0 = Some("a1b2c3d4e5f6a7b8c9d0e1f2a3b4c5d6e7f8a9b0".into());
    written.hash1 = Some("ddeeff".into());
    written.commit1 = Some("b2c3d4e5f6a7b8c9d0e1f2a3b4c5d6e7f8a9b0c1".into());
    written.range0 = Some(ByteRange { start: 10, end: 50 });
    written.range1 = Some(ByteRange { start: 0, end: 100 });
    written.state0 = Some(EndpointState::Okay);
    written.state1 = Some(EndpointState::Altered);
    written.resolved_at = Some("2026-05-27T00:00:00Z".into());
    let text = written.text();

    let loaded = BiLinkFile::parse(&text, "abc123").unwrap();
    assert_eq!(loaded.hash0.as_deref(), Some("aabbcc"));
    assert_eq!(loaded.commit0.as_deref(), Some("a1b2c3d4e5f6a7b8c9d0e1f2a3b4c5d6e7f8a9b0"));
    assert_eq!(loaded.hash1.as_deref(), Some("ddeeff"));
    assert_eq!(loaded.commit1.as_deref(), Some("b2c3d4e5f6a7b8c9d0e1f2a3b4c5d6e7f8a9b0c1"));
    assert_eq!(loaded.range0, Some(ByteRange { start: 10, end: 50 }));
    assert_eq!(loaded.state0, Some(EndpointState::Okay));
    assert_eq!(loaded.state1, Some(EndpointState::Altered));
    assert_eq!(loaded.resolved_at.as_deref(), Some("2026-05-27T00:00:00Z"));
}

#[test]
fn uuid_comes_from_filename() {
    let text = "link.0: file.md\nlink.1: .stratum/impl\n";
    let bl = BiLinkFile::parse(text, "file-stem-uuid").unwrap();
    assert_eq!(bl.uuid, "file-stem-uuid");
}

#[test]
fn find_by_id_locates_file() {
    let bl = BiLinkFile::new("my-uuid".into(), structural("a.md"), structural("b.md"));
    let found = vec![bl];
    let i = BiLinkFile::find_by_id(&found, "my-uuid").unwrap();
    assert_eq!(found[i].uuid, "my-uuid");
}

// ─── further cases ───────────────────────────────────────────────────────────

#[test]
fn the_written_text_is_the_links_then_the_cache() {
    let mut b = BiLinkFile::new("u".into(), structural("a.md"), layer(".stratum/impl"));
    assert_eq!(b.text(), "link.0: a.md\nlink.1: .stratum/impl\n");
    b.range0 = Some(ByteRange { start: 3, end: 9 });
    b.state1 = Some(EndpointState::Todo);
    assert_eq!(
        b.text(),
        "link.0: a.md\nlink.1: .stratum/impl\n\n# Cache\nrange.0: 3~9\nstate.1: TODO\n"
    );
}

#[test]
fn commits_alone_make_no_cache_section() {
    let mut b = BiLinkFile::new("u".into(), structural("a.md"), structural("b.md"));
    b.commit0 = Some("abc".into());
    assert_eq!(b.text(), "link.0: a.md\nlink.1: b.md\n");
    let back = BiLinkFile::parse(&b.text(), "u").unwrap();
    assert!(back.commit0.is_none());
}

#[test]
fn a_link_goes_on_over_the_lines_after_it() {
    let text = "link.0: a.md\n  :: fn x\nlink.1: task 7\n";
    let b = BiLinkFile::parse(text, "u").unwrap();
    assert_eq!(
        b.link0,
        LinkEndpoint::Fragment(StructuralRef { file: "a.md".into(), query: Some("fn x".into()), range: None })
    );
    assert_eq!(b.link1, LinkEndpoint::Task("7".into()));
}

#[test]
fn a_gap_ends_the_value_going_on() {
    let text = "link.0: a.md\n\n:: fn x\nlink.1: b.md\n";
    let b = BiLinkFile::parse(text, "u").unwrap();
    assert_eq!(b.link0, structural("a.md"));
}

#[test]
fn other_keys_do_not_go_on() {
    let text = "link.0: a.md\nlink.1: b.md\nhash.0: abc\n def\n";
    let b = BiLinkFile::parse(text, "u").unwrap();
    assert_eq!(b.hash0.as_deref(), Some("abc"));
}

#[test]
fn each_error_names_its_key() {
    let e = BiLinkFile::parse("link.1: b.md\n", "u").unwrap_err();
    assert_eq!(e, ParseError::MissingLink(0));
    assert_eq!(e.message(), "missing 'link.0' field");

    let e = BiLinkFile::parse("link.0: a.md\n", "u").unwrap_err();
    assert_eq!(e, ParseError::MissingLink(1));
    assert_eq!(e.message(), "missing 'link.1' field");

    let e = BiLinkFile::parse("link.0: a.md :: q :: x~1\nlink.1: b.md\n", "u").unwrap_err();
    assert_eq!(e, ParseError::BadLink(0, RangeError::InvalidStart));
    assert_eq!(e.message(), "parsing link.0");

    let e = BiLinkFile::parse("link.0: a.md\nlink.1: b.md\nrange.1: 4\n", "u").unwrap_err();
    assert_eq!(e, ParseError::BadRange(1, RangeError::NoTilde));
    assert_eq!(e.message(), "parsing range.1");

    let e = BiLinkFile::parse("link.0: a.md\nlink.1: b.md\nstate.0: FINE\n", "u").unwrap_err();
    assert!(matches!(e, ParseError::BadState(0, _)));
    assert_eq!(e.message(), "parsing state.0");
}

#[test]
fn a_key_needs_its_colon_right_after_it() {
    let text = "link.0 : a.md\nlink.0: c.md\nlink.1: b.md\n";
    let b = BiLinkFile::parse(text, "u").unwrap();
    assert_eq!(b.link0, structural("c.md"));
}

#[test]
fn the_fragment_endpoint_is_found_first_at_zero() {
    let mut b = BiLinkFile::new("u".into(), layer(".stratum/impl"), structural("b.md"));
    b.hash1 = Some("h1".into());
    b.commit1 = Some("c1".into());
    assert_eq!(b.structural_n(), Some(1));
    assert_eq!(b.structural_hash(), Some("h1"));
    assert_eq!(b.structural_commit(), Some("c1"));
    b.set_state(1, Some(EndpointState::Moved));
    assert_eq!(b.state(1), &Some(EndpointState::Moved));
    assert_eq!(b.state(0), &None);
    assert_eq!(b.link(0), &layer(".stratum/impl"));
    assert_eq!(b.hash(0), None);
}

#[test]
fn find_by_id_takes_a_prefix_and_the_first_match() {
    let found = vec![
        BiLinkFile::new("abc-1".into(), structural("a.md"), structural("b.md")),
        BiLinkFile::new("abd-2".into(), structural("a.md"), structural("b.md")),
        BiLinkFile::new("abd-3".into(), structural("a.md"), structural("b.md")),
    ];
    assert_eq!(BiLinkFile::find_by_id(&found, "abd"), Some(1));
    assert_eq!(BiLinkFile::find_by_id(&found, "abc-1"), Some(0));
    assert_eq!(BiLinkFile::find_by_id(&found, "zz"), None);
}

#[test]
fn endpoints_read_by_their_shape() {
    assert_eq!(LinkEndpoint::parse("  task 12 ").unwrap(), LinkEndpoint::Task("12".into()));
    assert_eq!(
        LinkEndpoint::parse("a.rs :: fn x :: 1~2").unwrap(),
        LinkEndpoint::Fragment(StructuralRef {
            file: "a.rs".into(),
            query: Some("fn x".into()),
            range: Some(ByteRange { start: 1, end: 2 }),
        })
    );
    assert_eq!(LinkEndpoint::parse("docs/file.md").unwrap(), structural("docs/file.md"));
    assert_eq!(LinkEndpoint::parse("a.b/impl").unwrap(), layer("a.b/impl"));
    assert_eq!(LinkEndpoint::parse("task ").unwrap(), layer("task"));
    assert_eq!(LinkEndpoint::parse("a :: b :: c").unwrap_err(), RangeError::NoTilde);
}

#[test]
fn endpoints_write_as_they_read() {
    let e = LinkEndpoint::Fragment(StructuralRef {
        file: "a.rs".into(),
        query: Some("fn x".into()),
        range: Some(ByteRange { start: 1, end: 2 }),
    });
    assert_eq!(e.text(), "a.rs :: fn x :: 1~2");
    assert_eq!(LinkEndpoint::parse(&e.text()).unwrap(), e);
    let no_query = LinkEndpoint::Fragment(StructuralRef {
        file: "a.rs".into(),
        query: None,
        range: Some(ByteRange { start: 1, end: 2 }),
    });
    assert_eq!(no_query.text(), "a.rs");
    assert_eq!(LinkEndpoint::Task("9".into()).text(), "task 9");
}
