use bilinker::capture::{history_root, orphans, regex_literal};

fn v(xs: &[&str]) -> Vec<String> {
    xs.iter().map(|s| s.to_string()).collect()
}

#[test]
fn an_orphan_is_a_capture_nothing_names() {
    assert_eq!(orphans(&v(&["a", "b", "c", "d"]), &v(&["c", "a", "x"])), v(&["b", "d"]));
    assert!(orphans(&v(&["a"]), &v(&["a"])).is_empty());
}

#[test]
fn a_regex_literal_escapes_what_regexes_read() {
    assert_eq!(regex_literal("a.b(c)"), "a\\.b\\(c\\)");
    assert_eq!(regex_literal("/users/{id}"), "/users/\\{id\\}");
    assert_eq!(regex_literal("plain"), "plain");
}

#[test]
fn history_is_walked_from_the_ref_where_there_is_one() {
    assert_eq!(history_root(Some("main"), Some("abc")), "refs/bilink/main");
    assert_eq!(history_root(Some("main"), None), "HEAD");
    assert_eq!(history_root(None, Some("abc")), "HEAD");
}

use bilinker::capture::{recapture_plan, recapture_state, RecaptureRefusal};
use bilinker::link::EndpointState;

#[test]
fn repointing_asks_for_a_capture_and_a_position_for_a_generator() {
    assert_eq!(recapture_plan(None, true, false), Err(RecaptureRefusal::NotStructural));
    assert_eq!(recapture_plan(Some("abc".into()), false, true), Err(RecaptureRefusal::NeedsPosition));
    assert_eq!(recapture_plan(Some("abc".into()), false, false), Ok("abc".to_string()));
}

#[test]
fn repointing_to_the_same_capture_declares_or_refuses() {
    assert_eq!(recapture_state("a", "a", false, false), Err(RecaptureRefusal::Unchanged));
    assert_eq!(recapture_state("a", "a", true, true), Err(RecaptureRefusal::Unchanged));
    assert_eq!(recapture_state("a", "a", true, false), Ok(EndpointState::Altered));
    assert_eq!(recapture_state("a", "b", false, false), Ok(EndpointState::Relocated));
}
