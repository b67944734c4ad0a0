use bilinker::bilink_ref::{committed, is_bilink_path, walks_into, Act, Head, Materialization, RefError, Repo, Walk};

const X: &str = "1111111111111111111111111111111111111111";
const CUT: &str = "2222222222222222222222222222222222222222";
const E: &str = "3333333333333333333333333333333333333333";

fn v(xs: &[&str]) -> Vec<String> {
    xs.iter().map(|s| s.to_string()).collect()
}

#[test]
fn the_cut_is_classified_as_the_cut() {
    // One parent, from the project: its tree has no `.bilink/`.
    assert_eq!(Repo::classify(CUT, &v(&[X]), (true, false), false, false).unwrap(), Act::Cut { project: X.into() });
}

#[test]
fn an_absorption_is_classified_as_one() {
    // Two parents, the second from the project, `.bilink/` untouched.
    assert_eq!(
        Repo::classify("4444444444", &v(&[CUT, E]), (false, true), true, false).unwrap(),
        Act::Absorption { project: E.into() }
    );
}

#[test]
fn a_decision_is_classified_as_one() {
    // One parent of the ref, and the code tree of the absorption above it.
    assert_eq!(Repo::classify("5555555555", &v(&[CUT]), (true, false), true, false).unwrap(), Act::Decision);
}

#[test]
fn a_commit_that_absorbs_and_decides_at_once_is_rejected() {
    let err = Repo::classify("6666666666", &v(&[CUT, E]), (true, true), true, false).unwrap_err();
    assert_eq!(err, RefError::AbsorbsAndDecides { commit: "6666666666".into() });
    let msg = err.message();
    assert!(msg.contains("absorbe y decide"), "y se dice por qué:\n{msg}");
    assert!(msg.starts_with("6666666 absorbe"), "{msg}");
}

#[test]
fn decide_refuses_to_absorb_on_its_own() {
    let err = Repo::decide(CUT, E, Some(X.into())).unwrap_err();
    let msg = err.message();
    assert!(msg.contains("no está absorbido"), "y se dice por qué:\n{msg}");
    assert!(msg.starts_with("3333333 no está absorbido; la ref está en 1111111."), "{msg}");
    assert_eq!(Repo::decide(CUT, E, Some(E.into())).unwrap(), E);
}

#[test]
fn absorbing_twice_in_a_row_absorbs_once() {
    let first = Repo::absorb("main", CUT, E, Some(X.into()));
    let (parents, _message) = first.expect("había algo que absorber");
    assert_eq!(parents, v(&[CUT, E]));
    assert!(Repo::absorb("main", "7777777", E, Some(E.into())).is_none(), "el tip ya estaba absorbido");
}

#[test]
fn a_commit_that_decides_and_moves_code_is_rejected() {
    let err = Repo::classify("abcdef0123", &v(&[CUT]), (true, true), true, false).unwrap_err();
    assert!(err.message().starts_with("abcdef0 decide y mueve código a la vez"));
}

#[test]
fn a_commit_without_parents_is_not_of_the_ref() {
    let err = Repo::classify("abcdef0123", &v(&[]), (false, false), false, false).unwrap_err();
    assert_eq!(err.message(), "abcdef0 no tiene padres: no es un commit de la ref");
}

#[test]
fn the_walk_to_the_absorbed_commit() {
    assert_eq!(Repo::absorbed(X, false, &v(&[]), false), Walk::Done(Some(X.into())));
    assert_eq!(Repo::absorbed(CUT, true, &v(&[X, E]), false), Walk::Done(Some(E.into())));
    assert_eq!(Repo::absorbed(CUT, true, &v(&[X]), false), Walk::Next(X.into()));
    assert_eq!(Repo::absorbed(CUT, true, &v(&[]), false), Walk::Done(None));
    // A synchronization merges another ref commit: the walk goes on by the first parent.
    assert_eq!(Repo::absorbed(CUT, true, &v(&[X, E]), true), Walk::Next(X.into()));
}

#[test]
fn head_is_written_and_read_back() {
    let text = Repo::head_text("feature/x", CUT);
    assert_eq!(text, format!("branch feature/x\ncommit {CUT}\n"));
    assert_eq!(Repo::read_head(&text), Some(Head { branch: "feature/x".into(), commit: CUT.into() }));
}

#[test]
fn ensure_current_decides_what_to_materialise() {
    let h = Head { branch: "main".into(), commit: CUT.into() };
    assert_eq!(Repo::ensure_current(None, None, None), Materialization::Detached);
    assert_eq!(Repo::ensure_current(Some("main".into()), None, None), Materialization::NoRef("main".into()));
    assert_eq!(Repo::ensure_current(Some("main".into()), Some(h.clone()), Some(CUT.into())), Materialization::UpToDate);
    assert_eq!(
        Repo::ensure_current(Some("main".into()), Some(h.clone()), Some(E.into())),
        Materialization::Rematerialized { from: h, to: E.into() }
    );
}

#[test]
fn the_dirty_tree_names_three_paths_and_counts_the_rest() {
    let e = RefError::Dirty { commit: CUT.into(), paths: v(&["a", "b", "c", "d", "e"]) };
    assert!(e.message().starts_with("el .bilink/ del árbol difiere de 2222222 (a, b, c, +2)\n\n"));
}

#[test]
fn what_goes_into_the_ref() {
    assert!(is_bilink_path(".bilink/7f3d.yaml"));
    assert!(is_bilink_path("sub/.bilink/capture/x.yaml"));
    assert!(!is_bilink_path("src/lib.rs"));
    assert!(!committed("cache") && !committed("index") && !committed("head"));
    assert!(committed("capture"));
    assert!(walks_into("src", false));
    assert!(!walks_into("target", false) && !walks_into(".bilink-migrate-2", false) && !walks_into("vendor", true));
}

#[test]
fn tracked_files_come_once_and_in_order() {
    let r = Repo::tracked_bilink_files(v(&["b/.bilink/x", "a/.bilink/y", "b/.bilink/x"]));
    assert_eq!(r, v(&["a/.bilink/y", "b/.bilink/x"]));
}

#[test]
fn the_written_absorption_is_read_back_as_absorbed() {
    let (parents, _) = Repo::absorb("main", CUT, E, Some(X.into())).expect("the tip was not absorbed");
    // The commit written with those parents holds `.bilink/`; the project's tip does not.
    let written = "9999999";
    let absorbed = match Repo::absorbed(written, true, &parents, false) {
        Walk::Done(c) => c,
        Walk::Next(_) => panic!("an absorption is read where it is"),
    };
    assert_eq!(absorbed.as_deref(), Some(E));
    assert!(Repo::absorb("main", written, E, absorbed).is_none());
}

use bilinker::bilink_ref::RefCommit;

fn rc(c: &str, has: bool, parents: &[&str], second: bool) -> RefCommit {
    RefCommit { commit: c.into(), has_bilink: has, parents: parents.iter().map(|p| p.to_string()).collect(), second_has_bilink: second }
}

#[test]
fn the_walk_reads_a_cut_as_the_project_commit_below_it() {
    let chain = vec![rc("C", true, &["X"], false), rc("X", false, &["W"], false)];
    assert_eq!(Repo::absorbed_along(&chain), Some(Some("X".to_string())));
}

#[test]
fn the_walk_follows_decisions_down_to_the_cut() {
    let chain = vec![rc("D2", true, &["D1"], false), rc("D1", true, &["C"], false), rc("C", true, &["X"], false), rc("X", false, &[], false)];
    assert_eq!(Repo::absorbed_along(&chain), Some(Some("X".to_string())));
}

#[test]
fn the_walk_stops_at_an_absorption_and_through_a_synchronization() {
    let absorbed = vec![rc("A", true, &["D", "T"], false), rc("D", true, &["C"], false)];
    assert_eq!(Repo::absorbed_along(&absorbed), Some(Some("T".to_string())));
    let synced = vec![rc("S", true, &["D", "R"], true), rc("D", true, &["C"], false), rc("C", true, &["X"], false), rc("X", false, &[], false)];
    assert_eq!(Repo::absorbed_along(&synced), Some(Some("X".to_string())));
}

#[test]
fn a_chain_that_ends_early_gives_nothing_and_a_root_commit_absorbed_nothing() {
    assert_eq!(Repo::absorbed_along(&vec![rc("D", true, &["C"], false)]), None);
    assert_eq!(Repo::absorbed_along(&vec![rc("R", true, &[], false)]), Some(None));
}
