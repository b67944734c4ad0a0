use bilinker::issue::worklist_panorama;

#[test]
fn the_panorama_is_where_the_spec_says() {
    assert_eq!(worklist_panorama("/p", true), Some("/p/.worklist/insecure/all".to_string()));
}

#[test]
fn a_project_without_a_worklist_has_no_items() {
    assert_eq!(worklist_panorama("/p", false), None);
}
