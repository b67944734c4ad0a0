use bilinker::config::{
    has_cut_over, has_forced_refspec, has_refspec_in, is_initialized, regex_of, remotes, repo_root, require_initialized,
    write_exclude, write_refspec, Config, ConfigError, REFSPEC,
};

#[test]
fn the_root_is_the_nearest_marked_ancestor() {
    let a = vec![("/p/a/b".to_string(), false), ("/p/a".to_string(), true), ("/p".to_string(), true)];
    assert_eq!(Config::load_from("/p/a/b", &a).0, "/p/a");
    let none = vec![("/x/y".to_string(), false)];
    assert_eq!(Config::load_from("/x/y", &none).0, "/x/y");
}

#[test]
fn exclude_gets_what_it_lacks_and_only_once() {
    let (added, text) = write_exclude("*.log", false);
    assert_eq!(added, vec![".bilink/", ".bilink-migrate-*"]);
    let text = text.expect("había algo que agregar");
    assert!(text.starts_with("*.log\n"));
    assert!(text.ends_with(".bilink/\n.bilink-migrate-*\n"));
    let (again, none) = write_exclude(&text, false);
    assert!(again.is_empty() && none.is_none(), "init es idempotente");
    let (dry, nothing) = write_exclude("", true);
    assert_eq!(dry.len(), 2);
    assert!(nothing.is_none(), "en seco no se escribe");
}

#[test]
fn the_refspec_goes_to_every_remote_that_lacks_it() {
    let rs = vec![("origin".to_string(), false, false), ("up".to_string(), true, false), ("old".to_string(), true, true)];
    let (pending, commands) = write_refspec(&rs, false);
    assert_eq!(pending, vec!["origin".to_string(), "old".to_string()]);
    assert_eq!(commands[0], vec!["config", "--add", "remote.origin.fetch", REFSPEC]);
    assert_eq!(commands[1][1], "--unset-all");
    assert_eq!(commands[1][3], "^\\+refs/bilink/\\*:refs/bilink/\\*$");
    let (_, none) = write_refspec(&rs, true);
    assert!(none.is_empty());
}

#[test]
fn a_refspec_regex_escapes_what_regexes_read() {
    assert_eq!(regex_of("a.b*"), "^a\\.b\\*$");
}

#[test]
fn remotes_are_the_filled_lines() {
    assert_eq!(remotes("origin\n\nup\n"), vec!["origin".to_string(), "up".to_string()]);
    assert!(has_refspec_in(Some("x\n  refs/bilink/*:refs/bilink/*\n"), REFSPEC));
    assert!(!has_refspec_in(None, REFSPEC));
    assert!(has_forced_refspec(Some("+refs/bilink/*:refs/bilink/*")));
    assert_eq!(repo_root("  /p/q\n"), "/p/q");
}

#[test]
fn init_is_required_only_after_the_cut() {
    assert_eq!(require_initialized(false, false), Ok(()));
    assert_eq!(require_initialized(true, true), Ok(()));
    assert_eq!(require_initialized(true, false), Err(ConfigError::NotInitialized));
    assert!(!has_cut_over(None));
    assert!(!is_initialized(None, None));
}

#[test]
fn a_second_write_of_the_refspec_touches_nothing() {
    let rs = vec![
        ("origin".to_string(), false, false),
        ("old".to_string(), true, true),
        ("done".to_string(), true, false),
    ];
    let (pending, commands) = write_refspec(&rs, false);
    assert_eq!(pending, vec!["origin".to_string(), "old".to_string()]);
    // What git config leaves after those commands: every remote has the refspec,
    // none the forced one.
    let after: Vec<(String, bool, bool)> = rs
        .iter()
        .map(|(r, present, forced)| {
            let key = format!("remote.{r}.fetch");
            let added = commands.iter().any(|c| c[1] == "--add" && c[2] == key);
            let unset = commands.iter().any(|c| c[1] == "--unset-all" && c[2] == key);
            (r.clone(), *present || added, *forced && !unset)
        })
        .collect();
    assert!(after.iter().all(|(_, p, f)| *p && !*f));
    let (again, more) = write_refspec(&after, false);
    assert!(again.is_empty() && more.is_empty());
}
