use bilinker::git::{head_commit_for_file, try_head_commit_for_file, NoHistory};

#[test]
fn the_last_commit_of_a_file() {
    assert_eq!(head_commit_for_file("a.rs", "abc123\n").unwrap(), "abc123");
    let e = head_commit_for_file("a.rs", "  \n").unwrap_err();
    assert_eq!(e, NoHistory { file: "a.rs".into() });
    assert_eq!(e.message(), "file 'a.rs' has no git history — commit the file before creating a bilink");
    assert_eq!(try_head_commit_for_file("a.rs", Some("abc\n")), Some("abc".to_string()));
    assert_eq!(try_head_commit_for_file("a.rs", Some("")), None);
    assert_eq!(try_head_commit_for_file("a.rs", None), None);
}
