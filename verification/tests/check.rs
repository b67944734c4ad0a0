use bilinker::check::{scope_covers, scope_of, CheckResult, Scope, ScopeError};
use bilinker::link::EndpointState;

#[test]
fn all_ok_is_both_endpoints_ok() {
    let r = CheckResult {
        uuid: "u".into(),
        state0: EndpointState::Okay,
        state1: EndpointState::Okay,
        dimensions: [Vec::new(), Vec::new()],
    };
    assert!(r.all_ok());
    let r = CheckResult { state1: EndpointState::Moved, ..r };
    assert!(!r.all_ok());
}

#[test]
fn the_scope_of_a_path() {
    assert_eq!(scope_of("x", None, "/l").unwrap_err(), ScopeError::Missing { path: "x".into() });
    assert_eq!(scope_of("x", None, "/l").unwrap_err().message(), "x no existe");
    assert_eq!(scope_of("/o", Some("/otro"), "/l").unwrap_err().message(), "/o no está adentro de la capa /l");
    assert_eq!(scope_of(".", Some("/l"), "/l").unwrap(), Scope::Layer);
    assert_eq!(scope_of("b", Some("/l/.bilink/7f3d.yaml"), "/l").unwrap(), Scope::Bilink("7f3d".into()));
    assert_eq!(scope_of("s", Some("/l/src/a"), "/l").unwrap(), Scope::Under("src/a".into()));
    assert_eq!(scope_of("s", Some("/lx/src"), "/l").unwrap_err(), ScopeError::Outside { path: "s".into(), layer: "/l".into() });
}

#[test]
fn a_bilink_is_in_scope_by_its_current_files() {
    let files = vec!["src/a/x.rs".to_string(), "docs/y.md".to_string()];
    assert!(scope_covers(&files, "src"));
    assert!(scope_covers(&files, "docs/y.md"));
    assert!(!scope_covers(&files, "sr"));
}

use bilinker::check::{checked_layer, in_scope};

#[test]
fn the_scope_picks_the_bilinks_to_look_at() {
    let files = vec!["src/a.rs".to_string(), "docs/x.md".to_string()];
    assert!(in_scope(&Scope::Layer, "u1", &vec![]));
    assert!(in_scope(&Scope::Bilink("u1".into()), "u1", &files));
    assert!(!in_scope(&Scope::Bilink("u1".into()), "u2", &files));
    assert!(in_scope(&Scope::Under("src".into()), "u1", &files));
    assert!(!in_scope(&Scope::Under("lib".into()), "u1", &files));
}

#[test]
fn a_path_with_its_own_bilink_is_the_layer_checked() {
    assert_eq!(checked_layer("/r", "/r/impl", true), "/r/impl");
    assert_eq!(checked_layer("/r", "/r/impl/src", false), "/r");
}

use bilinker::check::{contract_after_asking, contract_before_asking, contract_content, ContractStep, ContractVerdict};

fn ids(xs: &[&str]) -> Option<Vec<String>> {
    Some(xs.iter().map(|s| s.to_string()).collect())
}

#[test]
fn a_neighbourhood_content_is_the_same_restyled_or_altered() {
    let a = Some("ast".to_string());
    assert_eq!(contract_content("h", &a, "h", &None), None);
    assert_eq!(contract_content("h2", &a, "h", &a), Some(ContractVerdict::Restyled));
    assert_eq!(contract_content("h2", &None, "h", &a), Some(ContractVerdict::Altered));
    assert_eq!(contract_content("h2", &Some("x".into()), "h", &a), Some(ContractVerdict::Altered));
}

#[test]
fn what_is_proved_beats_what_is_suspected() {
    let exp = ids(&["c1"]);
    // A neighbour capture that no longer resolves is a change.
    assert!(matches!(
        contract_before_asking(&exp, "h", &None, &None, &Some(ids(&["c1"])), true),
        ContractStep::Says(Some(ContractVerdict::Altered))
    ));
    // A changed neighbour wins over a different declared set.
    assert!(matches!(
        contract_before_asking(&exp, "h", &None, &Some(("h2".into(), None)), &Some(ids(&["c9"])), true),
        ContractStep::Says(Some(ContractVerdict::Altered))
    ));
    // Intact content, other ids declared today: relocated, with no provider needed.
    assert!(matches!(
        contract_before_asking(&exp, "h", &None, &Some(("h".into(), None)), &Some(ids(&["c9"])), false),
        ContractStep::Says(Some(ContractVerdict::Relocated))
    ));
    // Intact and in place: only a provider can confirm.
    assert!(matches!(
        contract_before_asking(&exp, "h", &None, &Some(("h".into(), None)), &Some(ids(&["c1"])), false),
        ContractStep::Says(Some(ContractVerdict::Unconfirmed))
    ));
    assert!(matches!(
        contract_before_asking(&exp, "h", &None, &Some(("h".into(), None)), &Some(ids(&["c1"])), true),
        ContractStep::Ask
    ));
    // Without a location, and nobody to ask.
    assert!(matches!(
        contract_before_asking(&None, "h", &None, &None, &Some(None), false),
        ContractStep::Says(Some(ContractVerdict::Unlocated))
    ));
}

#[test]
fn after_asking_other_neighbours_are_relocated() {
    let exp = ids(&["c1"]);
    assert_eq!(contract_after_asking(false, &exp, "h", &None, &None), Some(ContractVerdict::Relocated));
    assert_eq!(contract_after_asking(false, &exp, "h", &None, &Some((ids(&["c2"]), "h".into(), None))), Some(ContractVerdict::Relocated));
    assert_eq!(contract_after_asking(false, &exp, "h", &None, &Some((ids(&["c1"]), "h".into(), None))), None);
    // Without a location a real change of contract beats the missing location.
    assert_eq!(contract_after_asking(true, &None, "h", &None, &Some((ids(&["c1"]), "h2".into(), None))), Some(ContractVerdict::Altered));
    assert_eq!(contract_after_asking(true, &None, "h", &None, &Some((ids(&["c1"]), "h".into(), None))), Some(ContractVerdict::Unlocated));
}

use bilinker::check::renamed_targets;

#[test]
fn a_rename_line_names_where_the_file_went() {
    let status = "M\tsrc/x.rs\nR087\tsrc/a.rs\tsrc/b.rs\nR100\tsrc/c.rs\tsrc/d.rs\nR050\tsrc/a.rs\tlib/a.rs\nD\tsrc/a.rs\n";
    assert_eq!(renamed_targets(status, "src/a.rs"), vec!["src/b.rs".to_string(), "lib/a.rs".to_string()]);
    assert_eq!(renamed_targets(status, "src/x.rs"), Vec::<String>::new());
    assert_eq!(renamed_targets("R100\tsrc/a.rs\n", "src/a.rs"), Vec::<String>::new(), "no target, no rename");
}

use bilinker::check::capture_state_of;
use bilinker::state::CaptureState;

#[test]
fn where_a_capture_stands() {
    assert_eq!(capture_state_of(false, true, false, false, true, false, false, false), CaptureState::Moved);
    assert_eq!(capture_state_of(false, false, true, false, true, false, false, false), CaptureState::Deleted);
    assert_eq!(capture_state_of(false, false, false, false, true, false, false, false), CaptureState::Broken);
    assert_eq!(capture_state_of(true, false, false, false, true, true, false, false), CaptureState::Broken, "unreadable");
    assert_eq!(capture_state_of(true, false, false, true, false, false, false, false), CaptureState::Resolved, "the whole file");
    assert_eq!(capture_state_of(true, false, false, true, true, true, false, false), CaptureState::Resolved);
    assert_eq!(capture_state_of(true, false, false, true, true, false, true, true), CaptureState::Reanchored);
    assert_eq!(capture_state_of(true, false, false, true, true, false, false, true), CaptureState::Deleted);
    assert_eq!(capture_state_of(true, false, false, true, true, false, false, false), CaptureState::Unanchored);
}

#[test]
fn only_what_asks_no_decision_is_clean() {
    let r = CheckResult {
        uuid: "u".into(),
        state0: EndpointState::Restyled,
        state1: EndpointState::Okay,
        dimensions: [Vec::new(), Vec::new()],
    };
    assert!(r.is_clean(), "a restyled fragment does not fail the check");
    assert!(!r.all_ok());
    let diverged = CheckResult { state0: EndpointState::ConsensusDiverged, ..r };
    assert!(!diverged.is_clean(), "two decisions that disagree fail the check");
    let altered = CheckResult { state0: EndpointState::Altered, ..diverged };
    assert!(!altered.is_clean());
}

use bilinker::check::plan_check;

fn read(path: &str, uuid: &str, files: Result<Vec<&str>, &str>) -> (String, String, Result<Vec<String>, String>) {
    (path.to_string(), uuid.to_string(), files.map(|v| v.iter().map(|f| f.to_string()).collect()).map_err(|e| e.to_string()))
}

#[test]
fn an_unreadable_bilink_is_named_and_the_rest_is_still_checked() {
    let files = vec![
        read(".bilink/a.bilink", "a", Ok(vec!["src/a.rs"])),
        read(".bilink/b.bilink", "b", Err("expected a key")),
        read(".bilink/c.bilink", "c", Ok(vec!["docs/c.md"])),
    ];
    let all = plan_check(&Scope::Layer, &files);
    assert_eq!(all.checked, vec!["a".to_string(), "c".to_string()]);
    assert_eq!(all.unreadable.len(), 1);
    assert_eq!((all.unreadable[0].path.as_str(), all.unreadable[0].error.as_str()), (".bilink/b.bilink", "expected a key"));

    let under = plan_check(&Scope::Under("src".into()), &files);
    assert_eq!(under.checked, vec!["a".to_string()]);
    assert_eq!(under.unreadable.len(), 1, "an unreadable file is still named");

    let one = plan_check(&Scope::Bilink("c".into()), &files);
    assert_eq!(one.checked, vec!["c".to_string()]);
    assert!(one.unreadable.is_empty(), "with a uuid the others are not even read");
}

use bilinker::check::{check_layer, checked_run};

#[test]
fn the_provider_is_required_only_where_there_is_level_1() {
    let files = vec![
        read(".bilink/a.bilink", "a", Ok(vec!["src/A.java"])),
        read(".bilink/b.bilink", "b", Err("expected a key")),
        read(".bilink/c.bilink", "c", Ok(vec!["docs/c.md"])),
    ];
    let level1 = vec![vec!["src/A.java".to_string()], vec![], vec![]];
    let refused = check_layer(&Scope::Layer, &files, &level1, Some(false)).err().expect("level 1 without provider");
    assert_eq!(refused.0.endpoints, 1);
    assert_eq!(refused.0.languages, vec!["java"]);

    let fine = check_layer(&Scope::Layer, &files, &level1, Some(true)).ok().expect("the provider is there");
    assert_eq!(fine.plan.checked, vec!["a".to_string(), "c".to_string()]);
    assert_eq!(fine.plan.unreadable.len(), 1);
    assert_eq!(fine.n1.endpoints, 1);

    let outside = check_layer(&Scope::Under("docs".into()), &files, &level1, Some(false)).ok().expect("no level 1 in scope");
    assert_eq!(outside.plan.checked, vec!["c".to_string()]);
    assert_eq!(outside.n1.endpoints, 0);
    assert!(outside.n1.languages.is_empty());
}

#[test]
fn a_run_gives_its_results_by_name() {
    let files = vec![read(".bilink/b.bilink", "b", Ok(vec!["x.rs"])), read(".bilink/a.bilink", "a", Ok(vec!["y.rs"]))];
    let plan = check_layer(&Scope::Layer, &files, &vec![vec![], vec![]], None).ok().unwrap();
    let r = |u: &str, s: EndpointState| CheckResult { uuid: u.to_string(), state0: s, state1: EndpointState::Okay, dimensions: [Vec::new(), Vec::new()] };
    let run = checked_run(plan, vec![r("b", EndpointState::Altered), r("a", EndpointState::Okay)]);
    let names: Vec<&str> = run.results.iter().map(|x| x.uuid.as_str()).collect();
    assert_eq!(names, vec!["a", "b"]);
    assert!(run.results[0].is_clean() && !run.results[1].is_clean());
    assert!(run.unreadable.is_empty());
}
