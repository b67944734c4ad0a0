use bilinker::bilink_ref::{Head, Materialization};
use bilinker::init::{init, materialize_step, prelude, Outcome, Step};

fn head(b: &str, c: &str) -> Head {
    Head { branch: b.into(), commit: c.into() }
}

#[test]
fn the_third_step_overwrites_nothing() {
    assert_eq!(materialize_step(None, None, None, true), Step::Done(Outcome::Detached));
    assert_eq!(materialize_step(Some("m".into()), None, None, true), Step::Done(Outcome::NoRef("m".into())));
    assert_eq!(materialize_step(Some("m".into()), Some("t".into()), None, true), Step::Done(Outcome::SkippedNoProvenance));
    assert_eq!(
        materialize_step(Some("m".into()), Some("t".into()), None, false),
        Step::Materialize { tip: "t".into(), guard: None }
    );
    assert_eq!(
        materialize_step(Some("m".into()), Some("t".into()), Some(head("m", "t")), true),
        Step::Done(Outcome::AlreadyCurrent { commit: "t".into() })
    );
    assert_eq!(
        materialize_step(Some("m".into()), Some("t".into()), Some(head("m", "s")), true),
        Step::Materialize { tip: "t".into(), guard: Some(head("m", "s")) }
    );
}

#[test]
fn init_plans_the_three_things() {
    let remotes = vec![("origin".to_string(), false, false)];
    let p = init("", &remotes, Some("m".into()), None, None, false, false);
    assert_eq!(p.excluded, vec![".bilink/", ".bilink-migrate-*"]);
    assert!(p.exclude_text.is_some());
    assert_eq!(p.refspec, vec!["origin".to_string()]);
    assert_eq!(p.commands.len(), 1);
    assert!(p.fetch);
    assert_eq!(p.step, Step::Done(Outcome::NoRef("m".into())));
    let dry = init("", &remotes, None, None, None, false, true);
    assert!(!dry.fetch && dry.exclude_text.is_none() && dry.commands.is_empty());
}

#[test]
fn the_prelude_asks_for_init_only_after_the_cut() {
    assert_eq!(prelude(false, true, false, None, None, None), Ok(Materialization::NoGit));
    assert!(prelude(true, true, false, None, None, None).is_err());
    assert_eq!(prelude(true, false, false, None, None, None), Ok(Materialization::Detached));
}
