use bilinker::generators::{verbo_de, Interface, SpringController, literal_de, nombre_entre};

#[test]
fn a_mapping_annotation_declares_its_verb() {
    assert_eq!(verbo_de("@GetMapping(\"/x\")"), Some("GET"));
    assert_eq!(verbo_de("@PostMapping"), Some("POST"));
    assert_eq!(verbo_de("@@DeleteMapping value"), Some("DELETE"));
    assert_eq!(verbo_de("@RequestMapping(\"/api\")"), None);
    assert_eq!(verbo_de("@PatchMapping\n"), Some("PATCH"));
    assert_eq!(verbo_de("@PutMappingX"), None);
}

#[test]
fn the_generators_are_named() {
    assert_eq!(Interface.name(), "interface");
    assert_eq!(SpringController.name(), "spring-controller");
    assert!(SpringController.describe().starts_with("el endpoint de Spring"));
    assert!(Interface.describe().contains("menos `body`"));
}

#[test]
fn the_route_literal_is_the_first_string_or_value_or_path() {
    assert_eq!(literal_de("@GetMapping(\"/users\")").as_deref(), Some("/users"));
    assert_eq!(literal_de("@GetMapping({\"/a\", \"/b\"})").as_deref(), Some("/a"));
    assert_eq!(literal_de("@RequestMapping(value = \"/x\", method = GET)").as_deref(), Some("/x"));
    assert_eq!(literal_de("@GetMapping(produces = \"json\", path = \"/p\")").as_deref(), Some("/p"));
    assert_eq!(literal_de("@GetMapping(params = \"ids\")"), None);
    assert_eq!(literal_de("@GetMapping(subvalue = \"x\")"), None);
    assert_eq!(literal_de("@GetMapping"), None);
    assert_eq!(literal_de("@GetMapping(\"\")"), None);
}

#[test]
fn the_name_between_the_type_and_the_parameters() {
    let src = "public Dto get(String t)";
    let t = src.find("Dto").unwrap() + 3;
    let p = src.find('(').unwrap();
    assert_eq!(nombre_entre(src, t, p).as_deref(), Some("get"));
    assert_eq!(nombre_entre(src, p, t), None);
    assert_eq!(nombre_entre(src, 0, t), None);
    assert_eq!(nombre_entre(src, t, 1000), None);
    assert_eq!(nombre_entre("añ b", 2, 3), None);
}
