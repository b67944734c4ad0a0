use bilinker::bilink_ref::Act;
use bilinker::history::{
    capture_ids, command_of_message, diff, kind_of, meta_fields, parse_target, AcceptedRecord, Change, EndpointRecord,
    NotAnEndpoint,
};

#[test]
fn a_target_is_a_uuid_or_an_endpoint() {
    assert_eq!(parse_target("7f3d8e9a.0").unwrap(), ("7f3d8e9a".to_string(), Some(0)));
    assert_eq!(parse_target("7f3d8e9a.1").unwrap(), ("7f3d8e9a".to_string(), Some(1)));
    assert_eq!(parse_target("7f3d8e9a").unwrap(), ("7f3d8e9a".to_string(), None));
    assert_eq!(parse_target("a.b").unwrap(), ("a.b".to_string(), None));
    let e = parse_target("7f3d8e9a.2").unwrap_err();
    assert_eq!(e, NotAnEndpoint { index: "2".into() });
    assert_eq!(e.message(), "'2' no es un índice de endpoint: son 0 o 1");
    assert!(parse_target("x.").is_err(), "un índice vacío tampoco es 0 o 1");
}

#[test]
fn the_meta_of_a_commit_splits_on_nuls() {
    let (a, d, m) = meta_fields(" Ana \0 2026-01-02T03:04:05Z \0accept .: 2\n\ncuerpo\n");
    assert_eq!((a.as_str(), d.as_str(), m.as_str()), ("Ana", "2026-01-02T03:04:05Z", "accept .: 2\n\ncuerpo\n"));
    let (a, d, m) = meta_fields("solo autor");
    assert_eq!((a.as_str(), d.as_str(), m.as_str()), ("solo autor", "", ""));
}

#[test]
fn the_kind_comes_from_the_parents() {
    assert_eq!(kind_of(false, None), "commit");
    assert_eq!(kind_of(true, None), "?");
    assert_eq!(kind_of(true, Some(&Act::Decision)), "decisión");
    assert_eq!(kind_of(true, Some(&Act::Absorption { project: "e".into() })), "absorción");
    assert_eq!(kind_of(true, Some(&Act::Cut { project: "x".into() })), "corte");
    assert_eq!(kind_of(true, Some(&Act::Synchronization)), "sincronización");
}

#[test]
fn the_command_is_not_guessed() {
    assert_eq!(command_of_message("accept algo viejo"), None);
    let m = "accept --place 7f3d8e9a-1234-4abc-8def-0123456789ab.0: prosa\n\nBilinker-Version: 0.1.0\n";
    assert_eq!(command_of_message(m).as_deref(), Some("accept --place 7f3d8e9a-1234-4abc-8def-0123456789ab.0"));
}

fn ep(link: &str, acc: Option<(&str, &str, &[&str])>) -> EndpointRecord {
    EndpointRecord {
        link: link.into(),
        accepted: acc.map(|(l, h, agree)| AcceptedRecord {
            link: Some(l.into()),
            hash: h.into(),
            hash_ast: None,
            agree: agree.iter().map(|s| s.to_string()).collect(),
        }),
    }
}

fn view(c: &Change) -> (u8, &str, Option<&str>, Option<&str>) {
    (c.n, c.field, c.before.as_deref(), c.after.as_deref())
}

#[test]
fn only_the_fields_that_changed_are_listed() {
    let before = (ep("capture a", Some(("capture a", "h1", &["ana"]))), ep("abstract", None));
    let after = (ep("capture b", Some(("capture a", "h1", &["ana", "beto"]))), ep("abstract", None));
    let cs = diff(Some(&before), &after, None);
    let vs: Vec<_> = cs.iter().map(view).collect();
    assert_eq!(vs, vec![
        (0, "link", Some("capture a"), Some("capture b")),
        (0, "agree", Some("ana"), Some("ana, beto")),
    ]);
    assert_eq!(capture_ids(&cs[0]), vec!["a".to_string(), "b".to_string()]);
    assert!(capture_ids(&cs[1]).is_empty());
    assert!(diff(Some(&before), &after, Some(1)).is_empty());
}

#[test]
fn a_new_bilink_lists_everything_it_has() {
    let after = (ep("capture a", None), ep("abstract", None));
    let cs = diff(None, &after, None);
    let vs: Vec<_> = cs.iter().map(view).collect();
    assert_eq!(vs, vec![(0, "link", None, Some("capture a")), (1, "link", None, Some("abstract"))]);
}
