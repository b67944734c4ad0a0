use bilinker::accept::{
    find_bilink_path, resolve_n1, sign, signer, Accepted, FindError, NOutcome, Neighbourhood, What, N,
};
use bilinker::accept::{accepted_block, AcceptError, AcceptedDimension};
use bilinker::check::endpoint_verdict;
use bilinker::link::{EndpointState, LinkEndpoint};
use bilinker::neighbours::Reach;

/// A Java method: it has a resolvable signature, hence the level 1.
fn con_firma() -> Reach {
    Reach::At(vec![17, 29])
}

/// A DTO: its declaration does not name types as a signature does.
fn sin_firma() -> Reach {
    Reach::Absent
}

fn previo(hash: &str, n1: Option<&str>) -> Accepted {
    Accepted {
        agree: Vec::new(),
        hash: hash.into(),
        n: n1.map(|h| N::Level1(Neighbourhood { link: String::new(), hash: h.into(), hash_ast: None })),
        link: None,
        hash_ast: None,
        dimensions: Vec::new(),
    }
}

fn declinado(hash: &str) -> Accepted {
    let mut p = previo(hash, None);
    p.n = Some(N::Declined);
    p
}

fn decline() -> What {
    What { decline_n1: true, ..What::default() }
}

fn kept(o: &Result<NOutcome, bilinker::accept::N1Refusal>) -> bool {
    matches!(o, Ok(NOutcome::Keep))
}

#[test]
fn asked_it_writes_what_was_computed_over_anything() {
    let r = con_firma();
    for p in [None, Some(declinado("h")), Some(previo("h", Some("viejo")))] {
        let o = resolve_n1("Svc.java", &r, p.as_ref(), true, What::default(), "h");
        assert!(matches!(o, Ok(NOutcome::Asked)), "lo calculado se escribe sobre cualquier previo");
    }
}

#[test]
fn not_asked_with_nothing_to_keep_refuses() {
    let r = con_firma();
    let e = resolve_n1("Svc.java", &r, None, false, What::default(), "h").unwrap_err().message();
    assert!(e.contains("lspd start --wait --lang java"), "{e}");
    assert!(e.contains("--decline-n1"), "{e}");
}

#[test]
fn not_asked_a_written_decline_is_kept() {
    let r = con_firma();
    for hash in ["h", "otro"] {
        let o = resolve_n1("Svc.java", &r, Some(&declinado(hash)), false, What::default(), "h");
        assert!(kept(&o), "la renuncia escrita se conserva");
    }
}

#[test]
fn not_asked_an_acquired_level_with_the_same_signature_is_kept() {
    let r = con_firma();
    let o = resolve_n1("Svc.java", &r, Some(&previo("h", Some("viejo"))), false, What::default(), "h");
    assert!(kept(&o), "el vecindario viejo se conserva");
}

#[test]
fn not_asked_an_acquired_level_with_a_changed_signature_refuses() {
    let r = con_firma();
    let e = resolve_n1("Svc.java", &r, Some(&previo("viejo_hash", Some("viejo"))), false, What::default(), "otro")
        .unwrap_err()
        .message();
    assert!(e.contains("--decline-n1 --force"), "{e}");
}

#[test]
fn declining_writes_it() {
    let r = con_firma();
    for p in [None, Some(declinado("h"))] {
        let o = resolve_n1("Svc.java", &r, p.as_ref(), false, decline(), "h");
        assert!(matches!(o, Ok(NOutcome::Decline)), "la renuncia se escribe, no se omite");
    }
}

#[test]
fn declining_an_acquired_level_needs_force() {
    let r = con_firma();
    let p = previo("h", Some("viejo"));
    let e = resolve_n1("Svc.java", &r, Some(&p), false, decline(), "h").unwrap_err();
    assert!(e.message().contains("--force"), "{}", e.message());
    let what = What { decline_n1: true, force: true, ..What::default() };
    assert!(matches!(resolve_n1("Svc.java", &r, Some(&p), false, what, "otro"), Ok(NOutcome::Decline)));
}

#[test]
fn without_a_resolvable_signature_there_is_nothing_to_warn_about() {
    let r = sin_firma();
    let o = resolve_n1("Svc.java", &r, None, false, What::default(), "h");
    assert!(kept(&o), "no tener firma no es haber renunciado");
}

#[test]
fn place_only_never_touches_the_neighbourhood() {
    let r = con_firma();
    let p = previo("h", Some("viejo"));
    let o = resolve_n1("Svc.java", &r, Some(&p), false, What::place_only(), "otro");
    assert!(kept(&o));
}

#[test]
fn an_unreachable_neighbourhood_names_the_file_and_the_ways_out() {
    let r = Reach::Unreachable { what: "es un campo".into() };
    let e = resolve_n1("Dto.java", &r, None, false, What::default(), "h").unwrap_err().message();
    assert!(e.starts_with("el fragmento de Dto.java es un campo, y su vecindario"), "{e}");
    assert!(matches!(resolve_n1("Dto.java", &r, None, false, decline(), "h"), Ok(NOutcome::Decline)));
}

#[test]
fn what_defaults_to_both_dimensions() {
    let w = What::default();
    assert!(w.place && w.content && !w.decline_n1 && !w.force);
    let p = What::place_only();
    assert!(p.place && !p.content);
    let c = What::content_only();
    assert!(!c.place && c.content);
}

fn entry(hash: &str, agree: &[&str]) -> Accepted {
    Accepted {
        agree: agree.iter().map(|s| s.to_string()).collect(),
        link: Some(LinkEndpoint::Task("x".into())),
        hash: hash.into(),
        hash_ast: None,
        n: None,
        dimensions: Vec::new(),
    }
}

#[test]
fn joining_an_entry_keeps_the_others() {
    let prev = vec![entry("a", &["ana"]), entry("b", &["beto"])];
    let (out, at, wrote) = sign(prev, entry("b", &[]), "carla".into());
    assert_eq!(at, Some(1));
    assert!(wrote);
    assert_eq!(out.len(), 2);
    assert_eq!(out[0].agree, vec!["ana".to_string()]);
    assert_eq!(out[1].agree, vec!["beto".to_string(), "carla".to_string()]);
}

#[test]
fn new_values_collapse_the_list() {
    let prev = vec![entry("a", &["ana"]), entry("b", &["beto"])];
    let (out, at, wrote) = sign(prev, entry("c", &[]), "carla".into());
    assert_eq!(at, None);
    assert!(wrote);
    assert_eq!(out.len(), 1);
    assert_eq!(out[0].hash, "c");
    assert_eq!(out[0].agree, vec!["carla".to_string()]);
}

#[test]
fn signing_the_same_values_twice_writes_once() {
    let (out, _, first) = sign(vec![entry("a", &["ana"])], entry("a", &[]), "beto".into());
    assert!(first);
    let (again, at, second) = sign(out, entry("a", &[]), "beto".into());
    assert!(!second, "nada que agregar, nada que commitear");
    assert_eq!(at, Some(0));
    assert_eq!(again[0].agree, vec!["ana".to_string(), "beto".to_string()]);
}

#[test]
fn a_prefix_finds_exactly_one_bilink() {
    let stems = vec!["7f3d8e9a-1".to_string(), "7f3d0000-2".to_string(), "3a4b5c6d-3".to_string()];
    assert_eq!(find_bilink_path(&stems, "3a").unwrap(), "3a4b5c6d-3");
    let e = find_bilink_path(&stems, "7f3d").unwrap_err();
    assert_eq!(e, FindError::Ambiguous { prefix: "7f3d".into(), count: 2 });
    assert_eq!(e.message(), "'7f3d' es ambiguo: 2 bilinks coinciden");
    let e = find_bilink_path(&stems, "ff").unwrap_err();
    assert_eq!(e.message(), "no hay bilink que empiece con 'ff'");
}

#[test]
fn the_signer_is_the_author_git_would_write() {
    assert_eq!(signer(Some("Ana Pérez <ana@x.org> 1700000000 -0300\n")).unwrap(), "Ana Pérez");
    assert!(signer(Some(" <ana@x.org> 1 +0000")).is_err());
    assert!(signer(Some("sin mail")).is_err());
    assert!(signer(None).is_err());
    assert!(signer(None).unwrap_err().message().contains("git config user.name"));
}

// ─── the accepted block ──────────────────────────────────────────────────────

fn dim(q: &str, h: &str) -> Vec<(String, AcceptedDimension)> {
    vec![("body".into(), AcceptedDimension { query: q.into(), hash: h.into(), hash_ast: None })]
}

fn before() -> Accepted {
    Accepted {
        agree: vec!["ana".into()],
        link: Some(LinkEndpoint::Task("old".into())),
        hash: "viejo".into(),
        hash_ast: Some("ast-viejo".into()),
        n: None,
        dimensions: dim("(block)", "d-viejo"),
    }
}

#[test]
fn accepting_refuses_what_cannot_be_approved() {
    let l = LinkEndpoint::Task("new".into());
    let w = What { place: true, content: true, decline_n1: false, force: false };
    let r = accepted_block(w, None, &l, false, true, "h".into(), None, "rust", None, Vec::new());
    assert_eq!(r.err(), Some(AcceptError::Unresolved));
    let r = accepted_block(w, None, &l, true, false, "h".into(), None, "rust", None, Vec::new());
    assert_eq!(r.err(), Some(AcceptError::Uncommitted));
    let r = accepted_block(What::place_only(), None, &l, true, true, "h".into(), None, "rust", None, Vec::new());
    assert_eq!(r.err(), Some(AcceptError::NothingToKeep));
    assert_eq!(
        AcceptError::NothingToKeep.message("a.rs"),
        "no hay contenido previo que conservar: aceptar con --place exige que el endpoint ya tuviera algo aprobado"
    );
}

#[test]
fn accepting_the_content_writes_todays_hashes_and_keeps_the_place() {
    let l = LinkEndpoint::Task("new".into());
    let p = before();
    let a = accepted_block(What::content_only(), Some(&p), &l, true, true, "nuevo".into(), Some("ast-nuevo".into()), "rust", None, dim("(block)", "d-nuevo")).unwrap();
    assert!(a.agree.is_empty());
    assert_eq!(a.link, Some(LinkEndpoint::Task("old".into())));
    assert_eq!(a.hash, "nuevo");
    assert_eq!(a.hash_ast.as_deref(), Some("ast-nuevo"));
    assert_eq!(a.dimensions, dim("(block)", "d-nuevo"));
}

#[test]
fn accepting_the_place_keeps_the_content_but_not_a_tree_hash_prose_cannot_have() {
    let l = LinkEndpoint::Task("new".into());
    let p = before();
    let a = accepted_block(What::place_only(), Some(&p), &l, true, true, "nuevo".into(), None, "rust", None, Vec::new()).unwrap();
    assert_eq!(a.link, Some(l.clone()));
    assert_eq!(a.hash, "viejo");
    assert_eq!(a.hash_ast.as_deref(), Some("ast-viejo"));
    assert_eq!(a.dimensions, dim("(block)", "d-viejo"));
    let a = accepted_block(What::place_only(), Some(&p), &l, true, true, "nuevo".into(), None, "markdown", None, Vec::new()).unwrap();
    assert_eq!(a.hash_ast, None);
}

#[test]
fn the_list_decides_before_any_axis() {
    let l = LinkEndpoint::Task("old".into());
    assert_eq!(endpoint_verdict(false, &vec![before()], &l, EndpointState::Okay), EndpointState::Unresolved);
    assert_eq!(endpoint_verdict(true, &Vec::new(), &l, EndpointState::Okay), EndpointState::Pending);
    assert_eq!(endpoint_verdict(true, &vec![before(), before()], &l, EndpointState::Okay), EndpointState::ConsensusDiverged);
    let other = LinkEndpoint::Task("elsewhere".into());
    assert_eq!(endpoint_verdict(true, &vec![before()], &other, EndpointState::Okay), EndpointState::Relocated);
    assert_eq!(endpoint_verdict(true, &vec![before()], &l, EndpointState::Altered), EndpointState::Altered);
}

use bilinker::check::{copy_verdict, demands_level1, issue_verdict};

fn approved_at(hash: &str, link: &str) -> Accepted {
    Accepted { link: Some(link.parse().unwrap()), ..previo(hash, None) }
}

#[test]
fn a_copied_approval_needs_both_values() {
    let mine = approved_at("h", "task 3a");
    assert_eq!(copy_verdict(false, false, None, None), EndpointState::Todo, "an intention, not an absence");
    assert_eq!(copy_verdict(false, false, None, Some(&mine)), EndpointState::Broken, "a regression");
    assert_eq!(copy_verdict(true, false, None, Some(&mine)), EndpointState::Broken);
    assert_eq!(copy_verdict(true, true, None, Some(&mine)), EndpointState::Pending);
    assert_eq!(copy_verdict(true, true, Some(&mine), None), EndpointState::Pending);
    assert_eq!(copy_verdict(true, true, Some(&approved_at("h", "task 3a")), Some(&mine)), EndpointState::Okay);
    assert_eq!(copy_verdict(true, true, Some(&approved_at("h", "task 4b")), Some(&mine)), EndpointState::ChainDirty);
    assert_eq!(copy_verdict(true, true, Some(&approved_at("g", "task 3a")), Some(&mine)), EndpointState::ChainDirty);
}

#[test]
fn an_issue_is_hashed_as_its_item() {
    let text = "# Un ítem\n";
    let a = previo(&bilinker::hash::sha256(text.as_bytes()), None);
    assert_eq!(issue_verdict(false, None, None), EndpointState::Todo);
    assert_eq!(issue_verdict(false, Some(&a), None), EndpointState::Broken);
    assert_eq!(issue_verdict(true, None, Some(text)), EndpointState::Pending);
    assert_eq!(issue_verdict(true, Some(&a), None), EndpointState::Broken);
    assert_eq!(issue_verdict(true, Some(&a), Some(text)), EndpointState::Okay);
    assert_eq!(issue_verdict(true, Some(&a), Some("# Otro\n")), EndpointState::Altered);
}

#[test]
fn only_one_entry_with_a_level_1_makes_demand() {
    assert!(demands_level1(&vec![previo("h", Some("n"))]));
    assert!(!demands_level1(&vec![previo("h", None)]));
    assert!(!demands_level1(&vec![declinado("h")]));
    assert!(!demands_level1(&vec![previo("h", Some("n")), previo("g", Some("n"))]), "two decisions diverge first");
    assert!(!demands_level1(&vec![]));
}
