use bilinker::adopt::{adopt, field_row, uuid_of, AdoptError, AdoptStep, Change, Row};

fn change(row: Row) -> Change {
    Change {
        path: ".bilink/u.yaml".into(),
        uuid: "u".into(),
        n: 0,
        dimension: "contenido",
        row,
        mine: None,
        theirs: Some("h".into()),
    }
}

#[test]
fn a_field_only_mine_changed_does_not_travel() {
    // The row that does not exist: only mine moved against the base.
    assert_eq!(field_row(Some("m"), Some("b"), Some("b")), None);
    assert_eq!(field_row(Some("b"), Some("t"), Some("b")), Some(Row::Clean));
    assert_eq!(field_row(Some("x"), Some("x"), Some("b")), Some(Row::Converged));
    assert_eq!(field_row(Some("m"), Some("t"), Some("b")), Some(Row::Conflict));
    assert_eq!(field_row(Some("x"), Some("x"), Some("x")), None);
}

#[test]
fn adopting_decides_what_comes() {
    let clean = vec![change(Row::Clean)];
    assert_eq!(adopt("main", "feat", "feat", None, "t", &clean, false).unwrap(), AdoptStep::Bring);
    assert_eq!(adopt("main", "feat", "feat", Some("t"), "t", &clean, false).unwrap(), AdoptStep::UpToDate);
    assert_eq!(adopt("main", "feat", "feat", None, "t", &clean, true).unwrap(), AdoptStep::Stop);
    let conflict = vec![change(Row::Clean), change(Row::Conflict)];
    assert_eq!(adopt("main", "feat", "feat", None, "t", &conflict, false).unwrap(), AdoptStep::Stop);
    assert_eq!(adopt("main", "main", "main", None, "t", &clean, false).unwrap_err(), AdoptError::Itself { neighbour: "main".into() });
}

#[test]
fn the_uuid_is_the_file_stem() {
    assert_eq!(uuid_of(".bilink/7f3d.yaml"), "7f3d");
    assert_eq!(uuid_of("7f3d"), "7f3d");
}
