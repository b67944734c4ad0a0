use bilinker::apply::{neighbourhood_needs_fix, settle, DeclaredLink, Looked, Unlooked};

fn v(xs: &[&str]) -> Vec<String> {
    xs.iter().map(|s| s.to_string()).collect()
}

#[test]
fn unknown_is_incomparable() {
    assert!(neighbourhood_needs_fix(Some(&DeclaredLink::Unknown), &v(&[])), "el vacío también es un fix");
    assert!(neighbourhood_needs_fix(Some(&DeclaredLink::Ids(v(&["a"]))), &v(&["a", "b"])));
    assert!(!neighbourhood_needs_fix(Some(&DeclaredLink::Ids(v(&["a", "b"]))), &v(&["a", "b"])));
    assert!(!neighbourhood_needs_fix(None, &v(&[])));
    assert!(neighbourhood_needs_fix(None, &v(&["a"])));
}

#[test]
fn a_failure_beside_a_repointed_fragment_is_a_wait_not_a_hole() {
    let mut unlooked: Vec<Unlooked> = Vec::new();
    assert!(!settle(Looked::Failed("no contestó"), "7f3d8e9a-11", 0, &vec![0u8], &mut unlooked));
    assert!(unlooked.is_empty());
    assert!(!settle(Looked::Failed("no contestó"), "7f3d8e9a-11", 1, &vec![0u8], &mut unlooked));
    assert_eq!(unlooked.len(), 1);
    assert_eq!(unlooked[0].why, "no contestó");
    assert_eq!(unlooked[0].short(), "7f3d8e9a");
    assert!(settle(Looked::Fix, "u", 0, &vec![], &mut unlooked));
    assert!(!settle(Looked::Nothing, "u", 0, &vec![], &mut unlooked));
    assert_eq!(unlooked.len(), 1);
}

use bilinker::apply::{fix_kind, is_cold_scan, moves_something, FixKind};
use bilinker::state::CaptureState;

#[test]
fn a_layer_with_bilinks_and_no_state_is_cold() {
    assert!(is_cold_scan(3, true));
    assert!(!is_cold_scan(0, true), "without bilinks the empty cache is right");
    assert!(!is_cold_scan(3, false));
}

#[test]
fn only_a_moved_or_renamed_anchor_has_a_fix() {
    assert_eq!(fix_kind(CaptureState::Moved), Some(FixKind::Moved));
    assert_eq!(fix_kind(CaptureState::Reanchored), Some(FixKind::Reanchored));
    for s in [CaptureState::Resolved, CaptureState::Unanchored, CaptureState::Deleted, CaptureState::Broken] {
        assert_eq!(fix_kind(s), None);
    }
    assert_eq!(FixKind::Moved.reason(), "MOVED");
    assert_eq!(FixKind::Reanchored.reason(), "REANCHORED");
}

#[test]
fn a_fix_to_the_same_capture_is_no_fix() {
    assert!(!moves_something("abc", "abc"));
    assert!(moves_something("abd", "abc"));
}
