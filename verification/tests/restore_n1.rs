use bilinker::accept::{Accepted, Neighbourhood, N};
use bilinker::link::LinkEndpoint;
use bilinker::restore_n1::{restore_endpoint, Level, Report, Skipped};

const UUID: &str = "7f3d8e9a-1b2c-4d5e-8f6a-7b8c9d0e1f2a";

fn report() -> Report {
    Report { layer: "capa".into(), restored: Vec::new(), skipped: Vec::new(), no_backup: false }
}

fn live(hash: &str, n: Option<N>) -> Vec<Accepted> {
    vec![Accepted {
        agree: Vec::new(),
        link: Some(LinkEndpoint::Task("aaa".into())),
        hash: hash.into(),
        hash_ast: None,
        n,
        dimensions: Vec::new(),
    }]
}

fn nivel() -> Level {
    Level { hash: "elcontrato".into(), hash_ast: Some("elast".into()) }
}

#[test]
fn a_declined_level_gets_its_contract_back_with_an_unknown_location() {
    let mut r = report();
    let mut l = live("elhash", Some(N::Declined));
    assert!(restore_endpoint(&mut r, UUID, "0", "elhash", &mut l, nivel()));
    assert_eq!(r.restored, vec!["7f3d8e9a.0".to_string()]);
    assert!(r.skipped.is_empty());
    match &l[0].n {
        Some(N::Level1(nb)) => {
            assert_eq!(nb.hash, "elcontrato");
            assert_eq!(nb.hash_ast.as_deref(), Some("elast"));
            assert_eq!(nb.link, "unknown", "la ubicación no está en el backup y no se inventa");
        },
        _ => panic!("tenía que quedar el vecindario"),
    }
}

#[test]
fn a_moved_fragment_hash_is_skipped_and_named() {
    let mut r = report();
    let mut l = live("otrohash", Some(N::Declined));
    assert!(!restore_endpoint(&mut r, UUID, "0", "elhash", &mut l, nivel()));
    assert!(r.restored.is_empty());
    assert_eq!(r.skipped, vec![("7f3d8e9a.0".to_string(), Skipped::HashMoved)]);
}

#[test]
fn a_reacquired_level_is_left_alone_and_is_not_a_skip() {
    let mut r = report();
    let nuevo = N::Level1(Neighbourhood { link: "capture aaa".into(), hash: "nuevo".into(), hash_ast: None });
    let mut l = live("elhash", Some(nuevo));
    assert!(!restore_endpoint(&mut r, UUID, "0", "elhash", &mut l, nivel()));
    assert!(r.restored.is_empty() && r.skipped.is_empty());
}

#[test]
fn the_second_run_is_a_no_op() {
    let mut r = report();
    let mut l = live("elhash", Some(N::Declined));
    assert!(restore_endpoint(&mut r, UUID, "0", "elhash", &mut l, nivel()));
    let mut again = report();
    assert!(!restore_endpoint(&mut again, UUID, "0", "elhash", &mut l, nivel()));
    assert!(again.restored.is_empty() && again.skipped.is_empty());
}

#[test]
fn a_declined_backup_has_nothing_to_give() {
    // A backup that declined has no level to give: its endpoint never reaches the
    // decision, and a live endpoint without `n` is no gap either.
    let mut r = report();
    let mut l = live("elhash", None);
    assert!(!restore_endpoint(&mut r, UUID, "0", "elhash", &mut l, nivel()));
    assert!(r.restored.is_empty() && r.skipped.is_empty());
}

#[test]
fn a_diverged_endpoint_is_skipped() {
    let mut r = report();
    let mut l = live("elhash", Some(N::Declined));
    l.push(Accepted {
        agree: Vec::new(),
        link: None,
        hash: "otro".into(),
        hash_ast: None,
        n: None,
        dimensions: Vec::new(),
    });
    assert!(!restore_endpoint(&mut r, UUID, "1", "elhash", &mut l, nivel()));
    assert_eq!(r.skipped, vec![("7f3d8e9a.1".to_string(), Skipped::Diverged)]);
    assert_eq!(Skipped::Diverged.message(), "más de un accepted: no hay un valor contra el cual comparar");
}

#[test]
fn a_key_that_is_not_an_endpoint_is_ignored() {
    let mut r = report();
    let mut l = live("elhash", Some(N::Declined));
    assert!(!restore_endpoint(&mut r, UUID, "2", "elhash", &mut l, nivel()));
    assert!(!restore_endpoint(&mut r, UUID, "x", "elhash", &mut l, nivel()));
    assert!(!r.touched());
}
