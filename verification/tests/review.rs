use bilinker::review::{log, status, Change};

fn v(xs: &[&str]) -> Vec<String> {
    xs.iter().map(|s| s.to_string()).collect()
}

#[test]
fn status_is_added_modified_deleted_by_path() {
    let want = v(&[".bilink/b.yaml", ".bilink/c.yaml"]);
    let have = v(&[".bilink/a.yaml", ".bilink/b.yaml"]);
    let dirty = v(&[".bilink/b.yaml", ".bilink/z.yaml"]);
    let r = status(&want, &have, &dirty);
    assert_eq!(r, vec![
        (Change::Added, ".bilink/a.yaml".to_string()),
        (Change::Modified, ".bilink/b.yaml".to_string()),
        (Change::Deleted, ".bilink/c.yaml".to_string()),
    ]);
    assert_eq!(Change::Added.letter(), 'A');
    assert_eq!(Change::Modified.letter(), 'M');
    assert_eq!(Change::Deleted.letter(), 'D');
}

#[test]
fn the_log_leaves_out_what_the_other_branch_has() {
    assert_eq!(log(&v(&["c3", "c2", "c1"]), &v(&["c1"])), v(&["c3", "c2"]));
    assert_eq!(log(&v(&["c1"]), &v(&[])), v(&["c1"]));
}
