use bilinker::cache::Cache;
use bilinker::link::EndpointState;

#[test]
fn a_cold_cache_is_empty_not_an_error() {
    let c = Cache::default();
    assert!(c.captures.is_empty() && c.endpoints.is_empty());
    assert_eq!(c.endpoint_state("7f3d8e9a", 0), None);
}

#[test]
fn a_cache_from_another_branch_is_discarded() {
    let mut c = Cache::default();
    c.ref_commit = Some("aaaa".into());
    c.set_endpoint_state("7f3d", 0, EndpointState::Okay);

    assert_eq!(Cache::load_for(c.clone(), Some("aaaa")).endpoint_state("7f3d", 0), Some(EndpointState::Okay));
    assert_eq!(Cache::load_for(c, Some("bbbb")).endpoint_state("7f3d", 0), None, "la cache de otra rama no se usa");
}

#[test]
fn what_is_written_is_what_is_read() {
    let mut c = Cache::default();
    c.set_endpoint_state("7f3d", 0, EndpointState::Relocated);
    c.set_commit("7f3d", 0, "deadbeef");
    c.set_alias("7f3d", 1, Some("GET /x".into()));
    assert_eq!(c.endpoint_state("7f3d", 0), Some(EndpointState::Relocated));
    assert_eq!(c.commit("7f3d", 0), Some("deadbeef"));
    assert_eq!(c.alias("7f3d", 1), Some("GET /x"));
    assert_eq!(c.endpoint_state("7f3d", 1), None);
    c.set_endpoint_state("7f3d", 0, EndpointState::Okay);
    assert_eq!(c.endpoint_state("7f3d", 0), Some(EndpointState::Okay));
    assert_eq!(c.commit("7f3d", 0), Some("deadbeef"), "el estado no borra el commit");
    c.set_alias("7f3d", 1, None);
    assert_eq!(c.alias("7f3d", 1), None);
}

#[test]
fn the_cache_lives_under_the_layer() {
    assert_eq!(Cache::path_in("capa"), "capa/.bilink/cache/state");
    assert_eq!(Cache::path_in("capa/"), "capa/.bilink/cache/state");
}

#[test]
fn the_ref_commit_is_the_commit_line_of_head() {
    assert_eq!(Cache::ref_commit_of("branch main\ncommit abc123\n"), Some("abc123".to_string()));
    assert_eq!(Cache::ref_commit_of("branch main\n"), None);
}

#[test]
fn setting_one_endpoint_leaves_the_others() {
    let mut c = Cache::default();
    c.set_endpoint_state("ab.1", 2, EndpointState::Todo);
    c.set_endpoint_state("ab", 1, EndpointState::Altered);
    c.set_endpoint_state("ab", 0, EndpointState::Okay);
    assert_eq!(c.endpoint_state("ab.1", 2), Some(EndpointState::Todo));
    assert_eq!(c.endpoint_state("ab", 1), Some(EndpointState::Altered));
    assert_eq!(c.endpoint_state("ab", 0), Some(EndpointState::Okay));
    c.set_endpoint_state("ab", 1, EndpointState::Okay);
    assert_eq!(c.endpoint_state("ab", 0), Some(EndpointState::Okay));
    assert_eq!(c.endpoint_state("ab.1", 2), Some(EndpointState::Todo));
}
