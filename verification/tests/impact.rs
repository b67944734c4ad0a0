use bilinker::impact::{byte_to_line_col, fn_col_from_source, line_to_byte_start};

#[test]
fn a_byte_is_a_line_and_a_column() {
    let s = "fn a() {}\nfn b() {}\n";
    assert_eq!(byte_to_line_col(s, 0), (0, 0));
    assert_eq!(byte_to_line_col(s, 13), (1, 3));
    assert_eq!(byte_to_line_col(s, 10), (1, 0));
    assert_eq!(byte_to_line_col(s, 500), (2, 480), "past the end every break counts");
}

#[test]
fn a_line_starts_after_the_ones_before() {
    let s = "uno\ndos\ntres";
    assert_eq!(line_to_byte_start(s, 0), 0);
    assert_eq!(line_to_byte_start(s, 1), 4);
    assert_eq!(line_to_byte_start(s, 2), 8);
    assert_eq!(line_to_byte_start(s, 9), 13);
}

#[test]
fn the_column_is_that_of_the_name() {
    let s = "x\n    pub async fn traverse(a: u8) {}\npublic void get() {}\n;;\n";
    assert_eq!(fn_col_from_source(s, 1), 17);
    assert_eq!(fn_col_from_source(s, 2), 12);
    assert_eq!(fn_col_from_source(s, 3), 0, "no identifier");
    assert_eq!(fn_col_from_source(s, 9), 0, "no such line");
}

use bilinker::impact::{caller_visits, hits_at, start_endpoints, visit, PathItem, Selector, Visit, Walk};
use bilinker::link::{ByteRange, EndpointState};

fn empty_walk() -> Walk {
    Walk { visited: vec![], seen: vec![], found: vec![] }
}

fn at(file: &str, line: u32, path: Vec<PathItem>, depth: usize) -> Visit {
    Visit { file: file.to_string(), line, col: 4, path, depth }
}

#[test]
fn the_start_goes_up_even_past_a_bilink() {
    let mut w = empty_walk();
    let hits = vec![("u1".to_string(), 0u8)];
    assert!(visit(&mut w, &at("/r/a.rs", 3, vec![], 2), &hits));
    assert_eq!(w.visited, vec![("/r/a.rs".to_string(), 3)]);
    assert_eq!(w.seen, vec![("u1".to_string(), 0)]);
    assert_eq!(w.found.len(), 1);
    assert!(w.found[0].2.is_empty());
}

#[test]
fn a_bilink_above_the_start_stops_the_branch() {
    let mut w = empty_walk();
    let chain = vec![PathItem { file: "/r/a.rs".to_string(), line: 3 }];
    let hits = vec![("u2".to_string(), 1u8)];
    assert!(!visit(&mut w, &at("/r/b.rs", 9, chain.clone(), 1), &hits));
    assert_eq!(w.found, vec![("u2".to_string(), 1, chain)]);
    assert!(visit(&mut w, &at("/r/c.rs", 1, vec![PathItem { file: "x".to_string(), line: 0 }], 1), &vec![]));
}

#[test]
fn no_level_left_goes_nowhere() {
    let mut w = empty_walk();
    assert!(!visit(&mut w, &at("/r/a.rs", 3, vec![], 0), &vec![]));
}

#[test]
fn a_position_is_looked_at_once_and_an_endpoint_reported_once() {
    let mut w = empty_walk();
    let hits = vec![("u1".to_string(), 0u8), ("u1".to_string(), 0u8), ("u1".to_string(), 1u8)];
    assert!(visit(&mut w, &at("/r/a.rs", 3, vec![], 5), &hits));
    assert_eq!(w.seen, vec![("u1".to_string(), 0), ("u1".to_string(), 1)]);
    let before = w.clone();
    assert!(!visit(&mut w, &at("/r/a.rs", 3, vec![], 5), &hits));
    assert_eq!(w, before);
    // The same endpoint reached from elsewhere is not reported again.
    assert!(visit(&mut w, &at("/r/a.rs", 4, vec![], 5), &vec![("u1".to_string(), 1u8)]));
    assert_eq!(w.found.len(), 2);
}

#[test]
fn callers_outside_the_root_are_left_out() {
    let v = at("/r/a.rs", 3, vec![PathItem { file: "/r/z.rs".to_string(), line: 1 }], 2);
    let callers = vec![
        ("/r/b.rs".to_string(), 10u32, 2u32),
        ("/rx/c.rs".to_string(), 11, 3),
        ("/other/d.rs".to_string(), 12, 4),
        ("/r/sub/e.rs".to_string(), 13, 5),
    ];
    let next = caller_visits("/r", &v, &callers);
    assert_eq!(next.len(), 2);
    assert_eq!(next[0].file, "/r/b.rs");
    assert_eq!((next[0].line, next[0].col, next[0].depth), (10, 2, 1));
    assert_eq!(next[1].file, "/r/sub/e.rs");
    assert_eq!(
        next[1].path,
        vec![PathItem { file: "/r/z.rs".to_string(), line: 1 }, PathItem { file: "/r/a.rs".to_string(), line: 3 }]
    );
}

#[test]
fn the_starts_follow_the_selector() {
    let (moved, okay) = (EndpointState::Moved, EndpointState::Okay);
    assert_eq!(start_endpoints(&Selector::All, Some(okay), Some(moved)), vec![1]);
    assert_eq!(start_endpoints(&Selector::All, None, Some(okay)), Vec::<u8>::new());
    assert_eq!(start_endpoints(&Selector::All, Some(moved), Some(moved)), vec![0, 1]);
    let one = Selector::Uuid { uuid: "u".to_string(), endpoint: Some(1) };
    assert_eq!(start_endpoints(&one, None, None), vec![1]);
    let both = Selector::Uuid { uuid: "u".to_string(), endpoint: None };
    assert_eq!(start_endpoints(&both, None, None), vec![0, 1]);
    let pos = Selector::FileLineCol { file: "a.rs".to_string(), line: 1, col: 0 };
    assert!(start_endpoints(&pos, Some(moved), None).is_empty());
}

#[test]
fn a_hit_is_an_endpoint_whose_range_holds_the_line() {
    let entries = vec![
        ("u1".to_string(), 0u8, ByteRange { start: 10, end: 20 }),
        ("u2".to_string(), 1u8, ByteRange { start: 20, end: 30 }),
        ("u3".to_string(), 0u8, ByteRange { start: 0, end: 11 }),
    ];
    assert_eq!(hits_at(10, &entries), vec![("u1".to_string(), 0), ("u3".to_string(), 0)]);
    assert_eq!(hits_at(20, &entries), vec![("u2".to_string(), 1)]);
    assert!(hits_at(30, &entries).is_empty());
}

#[test]
fn each_start_forgets_where_it_looked_but_not_what_it_reported() {
    let mut w = Walk::new();
    let v = w.start("/r/a.rs".to_string(), 3, 0, Some(2));
    assert_eq!((v.depth, v.path.len()), (2, 0));
    assert!(visit(&mut w, &v, &vec![("u1".to_string(), 0u8)]));
    let again = w.start("/r/a.rs".to_string(), 3, 0, None);
    assert_eq!(again.depth, usize::MAX);
    assert!(w.visited.is_empty());
    assert_eq!(w.seen.len(), 1, "what was reported stays");
    assert!(visit(&mut w, &again, &vec![("u1".to_string(), 0u8)]));
    assert_eq!(w.found.len(), 1, "and is not reported again");
}

#[test]
fn no_level_left_asks_for_no_callers() {
    let v = at("/r/a.rs", 3, vec![], 0);
    assert!(caller_visits("/r", &v, &vec![("/r/b.rs".to_string(), 1, 1)]).is_empty());
}
