use bilinker::dimension::{dimension_state, part_names, qualified, qualifying, word, DimensionStates};
use bilinker::link::EndpointState;
use bilinker::link::EndpointState::{Altered, Deleted, Expanded, Okay, Restyled};

fn dims(pairs: &[(&str, EndpointState)]) -> DimensionStates {
    pairs.iter().map(|(n, s)| (n.to_string(), *s)).collect()
}

#[test]
fn without_dimensions_the_word_is_ok() {
    assert_eq!(word(&dims(&[])), Okay);
}

#[test]
fn the_word_is_the_most_severe() {
    assert_eq!(word(&dims(&[("body", Restyled), ("route", Altered)])), Altered);
    assert_eq!(word(&dims(&[("body", Restyled), ("route", Expanded)])), Expanded);
    assert_eq!(word(&dims(&[("body", Okay), ("route", Restyled)])), Restyled);
}

#[test]
fn every_part_that_is_not_ok_qualifies() {
    let q = qualifying(dims(&[("body", Restyled), ("params", Okay), ("route", Altered)]));
    assert_eq!(q, dims(&[("body", Restyled), ("route", Altered)]));
}

#[test]
fn the_qualification_goes_beside_the_word() {
    assert_eq!(qualified(Altered, &["body", "route"]), "ALTERED(body, route)");
    assert_eq!(qualified(Okay, &[]), "OK");
}

#[test]
fn the_qualified_word_still_parses_as_its_word() {
    let q = qualified(Altered, &["body"]);
    let w = q.split('(').next().unwrap();
    assert_eq!(w.parse::<EndpointState>().unwrap(), Altered);
}

// ─── further cases ───────────────────────────────────────────────────────────

#[test]
fn among_equally_severe_states_the_last_one_is_the_word() {
    assert_eq!(word(&dims(&[("a", Altered), ("b", Deleted)])), Deleted);
    assert_eq!(word(&dims(&[("a", Deleted), ("b", Altered)])), Altered);
}

#[test]
fn a_part_on_one_side_only_or_not_found_is_altered() {
    let h = bilinker::hash::sha256(b"x + 1");
    assert_eq!(dimension_state(false, Some(("x + 1", "(e)")), &h, None, None, "rust"), EndpointState::Altered);
    assert_eq!(dimension_state(true, None, &h, None, None, "rust"), EndpointState::Altered);
}

#[test]
fn a_part_is_ok_expanded_restyled_or_altered_in_that_order() {
    let h = bilinker::hash::sha256(b"x + 1");
    let sexp = bilinker::hash::sha256(b"(binary_expression)");
    assert_eq!(dimension_state(true, Some(("x + 1", "(binary_expression)")), &h, None, None, "rust"), EndpointState::Okay);
    // Today's text holds the approved one and more.
    assert_eq!(
        dimension_state(true, Some(("(x + 1) * 2", "(binary_expression)")), &h, Some(&sexp), Some("x + 1"), "rust"),
        EndpointState::Expanded
    );
    // The same tree, other spacing.
    assert_eq!(
        dimension_state(true, Some(("x+1", "(binary_expression)")), &h, Some(&sexp), Some("x + 1"), "rust"),
        EndpointState::Restyled
    );
    // In prose the tree does not tell content apart.
    assert_eq!(
        dimension_state(true, Some(("x+1", "(binary_expression)")), &h, Some(&sexp), Some("x + 1"), "markdown"),
        EndpointState::Altered
    );
    assert_eq!(
        dimension_state(true, Some(("y - 2", "(other)")), &h, Some(&sexp), Some("x + 1"), "rust"),
        EndpointState::Altered
    );
}

#[test]
fn part_names_are_the_union_in_order() {
    let declared = vec!["route".to_string(), "body".to_string()];
    let accepted = vec!["params".to_string(), "body".to_string()];
    assert_eq!(part_names(&declared, &accepted), vec!["body", "params", "route"]);
}

use bilinker::dimension::{content_by_hash, content_drift};
use bilinker::hash::sha256;

#[test]
fn the_hash_decides_first() {
    let h = sha256(b"fn a() {}");
    assert_eq!(content_by_hash(None, &h), Some(EndpointState::Unresolved));
    assert_eq!(content_by_hash(Some("fn a() {}"), &h), Some(EndpointState::Okay));
    assert_eq!(content_by_hash(Some("fn a() { 1 }"), &h), None, "drift: look further");
}

#[test]
fn a_drifted_fragment_is_expanded_restyled_or_altered() {
    let sexp = "(function_item name: (identifier))";
    let ast = sha256(sexp.as_bytes());
    assert_eq!(content_drift("pub fn a() {}", Some("fn a() {}"), "rust", None, None), EndpointState::Expanded);
    assert_eq!(content_drift("fn a()  {}", Some("fn b() {}"), "rust", Some(&ast), Some(sexp)), EndpointState::Restyled);
    assert_eq!(content_drift("fn a()  {}", None, "rust", Some(&ast), None), EndpointState::Altered, "no tree today");
    assert_eq!(content_drift("otra prosa", None, "markdown", Some(&ast), Some(sexp)), EndpointState::Altered, "prose has no tree that tells content");
    assert_eq!(content_drift("x", Some(""), "rust", None, None), EndpointState::Altered, "an empty approved text holds nothing");
}
