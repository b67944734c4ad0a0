use bilinker::link::{ByteRange, LinkEndpoint};
use bilinker::link::{state_str, EndpointState};
use bilinker::link::EndpointState::{
    Altered, Broken, ChainDirty, Deleted, Displaced, Expanded, Moved, Okay, Pending, Reanchored,
    Relocated, Restyled, Todo, Unanchored,
};

#[test]
fn todo_state_roundtrip() {
    let s = "TODO";
    let state: EndpointState = s.parse().unwrap();
    assert_eq!(state, EndpointState::Todo);
    assert_eq!(state.text(), "TODO");
}

// ─── further cases ───────────────────────────────────────────────────────────

#[test]
fn every_state_reads_back_and_unknown_words_do_not() {
    for s in [Pending, Okay, Todo, Moved, Displaced, Reanchored, Expanded, Unanchored, Altered,
              Deleted, Broken, ChainDirty, Restyled, Relocated] {
        assert_eq!(format!("  {}\n", s.text()).parse::<EndpointState>().unwrap(), s);
    }
    assert_eq!(EndpointState::parse("ok").unwrap_err().text, "ok");
    assert_eq!(state_str(&None), "NONE");
    assert_eq!(state_str(&Some(ChainDirty)), "CHAIN_DIRTY");
}

// ─── endpoints ───────────────────────────────────────────────────────────────


#[test]
fn parse_structural_without_range() {
    let ep: LinkEndpoint = "Persona.java :: (class_declaration name:#eq?Persona)".parse().unwrap();
    assert!(matches!(ep, LinkEndpoint::Fragment(_)));
}

#[test]
fn parse_structural_with_range() {
    let ep: LinkEndpoint = "docs/architecture.md :: (paragraph) @target :: 42~87".parse().unwrap();
    if let LinkEndpoint::Fragment(r) = ep {
        assert_eq!(r.range, Some(ByteRange { start: 42, end: 87 }));
    } else {
        panic!("expected Structural");
    }
}

#[test]
fn parse_layer_simple_path() {
    let ep: LinkEndpoint = "persona-voting-impl".parse().unwrap();
    assert!(matches!(ep, LinkEndpoint::Layer(_)));
}

#[test]
fn parse_layer_stratum_down() {
    let ep: LinkEndpoint = ">tech-decisions>impl".parse().unwrap();
    assert!(matches!(ep, LinkEndpoint::Layer(_)));
}

#[test]
fn roundtrip_structural() {
    let s = "docs/architecture.md :: (paragraph) @target :: 42~87";
    let ep: LinkEndpoint = s.parse().unwrap();
    assert_eq!(ep.text(), s);
}

#[test]
fn parse_whole_file_endpoint() {
    let ep: LinkEndpoint = "docs/architecture.md".parse().unwrap();
    if let LinkEndpoint::Fragment(r) = ep {
        assert_eq!(r.file, "docs/architecture.md");
        assert!(r.query.is_none());
        assert!(r.range.is_none());
    } else {
        panic!("expected Structural");
    }
}

#[test]
fn roundtrip_whole_file() {
    let s = "docs/architecture.md";
    let ep: LinkEndpoint = s.parse().unwrap();
    assert_eq!(ep.text(), s);
}

#[test]
fn parse_task_endpoint() {
    let ep: LinkEndpoint = "task 3a".parse().unwrap();
    assert_eq!(ep, LinkEndpoint::Task("3a".into()));
    assert_eq!(ep.text(), "task 3a");
}

#[test]
fn parse_task_endpoint_longer_id() {
    let ep: LinkEndpoint = "task 1f".parse().unwrap();
    assert_eq!(ep, LinkEndpoint::Task("1f".into()));
}
