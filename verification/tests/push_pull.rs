use bilinker::adopt::{Change, Row};
use bilinker::pull::{brought_endpoints, diagnose_rejection, fetch_refspec, pull, PullStep};
use bilinker::push::{pick_remote, push, push_refspec, remote_tip, PushError};

fn v(xs: &[&str]) -> Vec<String> {
    xs.iter().map(|s| s.to_string()).collect()
}

#[test]
fn the_remote_is_chosen_without_guessing() {
    assert_eq!(pick_remote(Some("up"), &v(&["origin"])).unwrap(), "up");
    assert_eq!(pick_remote(None, &v(&["solo"])).unwrap(), "solo");
    assert_eq!(pick_remote(None, &v(&["a", "origin"])).unwrap(), "origin");
    assert_eq!(pick_remote(None, &v(&[])).unwrap_err(), PushError::NoRemote);
    assert_eq!(pick_remote(None, &v(&["a", "b"])).unwrap_err(), PushError::Ambiguous { remotes: v(&["a", "b"]) });
}

#[test]
fn pushing_publishes_the_branch_ref() {
    assert_eq!(push_refspec("main"), "refs/bilink/main:refs/bilink/main");
    assert_eq!(remote_tip(Some("abc123\trefs/bilink/main\n")), Some("abc123".to_string()));
    assert_eq!(remote_tip(Some("")), None);
    let r = push("main".into(), "origin".into(), "t2".into(), Some("t1"), true).unwrap();
    assert!(r.moved);
    assert!(!push("main".into(), "origin".into(), "t1".into(), Some("t1"), false).unwrap().moved, "it already had it");
    assert!(push("main".into(), "origin".into(), "t1".into(), None, false).unwrap().moved);
}

#[test]
fn a_push_that_is_not_a_fast_forward_is_rejected_and_not_forced() {
    let e = push("main".into(), "origin".into(), "t2".into(), Some("other"), false).unwrap_err();
    assert_eq!(e, PushError::Rejected { remote: "origin".into(), kept: "other".into() });
}

fn change(uuid: &str, n: u8, row: Row) -> Change {
    Change { path: format!(".bilink/{uuid}.yaml"), uuid: uuid.into(), n, dimension: "ubicación", row, mine: None, theirs: None }
}

#[test]
fn pulling_is_all_or_nothing() {
    assert_eq!(pull(true, false, None, false), PullStep::UpToDate);
    assert_eq!(pull(false, true, None, false), PullStep::FastForward);
    let cs = vec![change("u", 0, Row::Clean)];
    assert_eq!(pull(false, false, Some(&cs), false), PullStep::Merge);
    assert_eq!(pull(false, false, Some(&cs), true), PullStep::Stop);
    let conflict = vec![change("u", 0, Row::Clean), change("w", 1, Row::Conflict)];
    assert_eq!(pull(false, false, Some(&conflict), false), PullStep::Stop);
}

#[test]
fn what_is_brought_counts_endpoints_once() {
    let cs = vec![change("u", 0, Row::Clean), change("u", 0, Row::Converged), change("u", 1, Row::Clean)];
    assert_eq!(brought_endpoints(&cs), 2);
}

#[test]
fn the_remote_ref_lands_apart() {
    let (local, spec) = fetch_refspec("origin", "main");
    assert_eq!(local, "refs/bilink-remote/origin/main");
    assert_eq!(spec, "+refs/bilink/main:refs/bilink-remote/origin/main");
}

#[test]
fn a_rejection_says_whether_history_was_rewritten() {
    let m = diagnose_rejection("origin", "main", Some("0123456789"));
    assert!(m.contains("base de merge en 0123456."), "{m}");
    assert!(diagnose_rejection("origin", "main", None).contains("reescritura"));
}
