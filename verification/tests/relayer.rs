use bilinker::relayer::{moved_file, moved_link, neighbour_link};

fn renames() -> Vec<(String, String)> {
    vec![("aaa".to_string(), "bbb".to_string())]
}

#[test]
fn a_renamed_capture_takes_its_new_id() {
    assert_eq!(moved_link("capture aaa", &renames(), "impl"), "capture bbb");
    assert_eq!(moved_link("capture ccc", &renames(), "impl"), "capture ccc");
}

#[test]
fn a_path_relative_to_the_emptied_layer_gets_it_as_prefix() {
    assert_eq!(moved_link("path >core", &renames(), "impl"), "path impl>core");
    assert_eq!(moved_link("path <core", &renames(), "impl"), "path <core");
    assert_eq!(moved_link("issue 3a", &renames(), "impl"), "issue 3a");
    assert_eq!(moved_link("abstract", &renames(), "impl"), "abstract");
}

#[test]
fn captures_are_minted_again_under_the_layer() {
    assert_eq!(moved_file("impl", "src/a.rs"), "impl/src/a.rs");
}

#[test]
fn a_neighbour_is_touched_only_where_an_id_changed() {
    assert_eq!(neighbour_link(Some("capture aaa".into()), &renames()), (Some("capture bbb".to_string()), true));
    assert_eq!(neighbour_link(Some("capture zzz".into()), &renames()), (Some("capture zzz".to_string()), false));
    assert_eq!(neighbour_link(None, &renames()), (None, false));
}

use bilinker::relayer::{moved_accepted, relayer_refusal, touched_neighbour, RelayerRefusal};

#[test]
fn a_layer_without_its_own_bilink_or_the_destination_is_refused() {
    assert_eq!(relayer_refusal(false, false), Some(RelayerRefusal::NoOwnBilink));
    assert_eq!(relayer_refusal(false, true), Some(RelayerRefusal::NoOwnBilink));
    assert_eq!(relayer_refusal(true, true), Some(RelayerRefusal::IsDestination));
    assert_eq!(relayer_refusal(true, false), None);
    assert_eq!(
        RelayerRefusal::NoOwnBilink.message("impl"),
        "impl has no .bilink/ of its own: there is no layer to fold"
    );
    assert_eq!(RelayerRefusal::IsDestination.message("."), ". is the destination layer");
}

#[test]
fn every_accepted_link_moves_not_only_the_first() {
    let links = vec![Some("capture aaa".to_string()), None, Some("path >core".to_string())];
    assert_eq!(
        moved_accepted(&links, &renames(), "impl"),
        vec![Some("capture bbb".to_string()), None, Some("path impl>core".to_string())]
    );
}

#[test]
fn a_neighbour_counts_as_touched_when_any_entry_changed() {
    let (links, touched) = touched_neighbour(vec![Some("issue 1".to_string()), Some("capture aaa".to_string())], &renames());
    assert!(touched);
    assert_eq!(links, vec![Some("issue 1".to_string()), Some("capture bbb".to_string())]);
    let (_, untouched) = touched_neighbour(vec![Some("capture zzz".to_string()), None], &renames());
    assert!(!untouched);
}
