use bilinker::neighbours::{answered, ask, line_col_1based, require, requirement, Demand, Location, Neighbours, NoProvider, ProviderFailed};
use bilinker::state::CaptureState;

struct Fixed {
    up: bool,
}

impl Neighbours for Fixed {
    fn available(&self, _layer: &str) -> bool {
        self.up
    }

    fn of(&self, _layer: &str, file: &str, _at: &[usize]) -> Result<Vec<Location>, String> {
        if self.up {
            Ok(vec![Location { file: file.into(), symbol: "Dto".into(), start: 0, end: 3 }])
        } else {
            Err("sin daemon".into())
        }
    }
}

#[test]
fn the_demand_counts_endpoints_and_languages_once() {
    let mut d = Demand::default();
    assert!(d.is_empty());
    d.add("A.java");
    d.add("b.tsx");
    d.add("B.java");
    d.add("notas.md");
    assert_eq!(d.endpoints, 4);
    assert_eq!(d.languages, vec!["java", "typescript"]);
}

#[test]
fn the_provider_is_required_only_with_demand() {
    let mut d = Demand::default();
    assert_eq!(require(Some(&Fixed { up: false }), "capa", d.clone()), Ok(()));
    d.add("A.java");
    assert_eq!(require::<Fixed>(None, "capa", d.clone()), Ok(()), "sin proveedor no se le pregunta a nadie");
    assert_eq!(require(Some(&Fixed { up: true }), "capa", d.clone()), Ok(()));
    let e = require(Some(&Fixed { up: false }), "capa", d.clone()).unwrap_err();
    assert_eq!(e, NoProvider(d));
    assert_eq!(e.message(), "1 endpoint(s) tienen nivel 1 y no hay daemon en esta capa.");
}

#[test]
fn a_failing_provider_keeps_what_it_said() {
    assert_eq!(ask(&Fixed { up: false }, "capa", "A.java", &[3]).unwrap_err(), ProviderFailed { cause: "sin daemon".into() });
    assert_eq!(ask(&Fixed { up: true }, "capa", "A.java", &[3]).unwrap()[0].symbol, "Dto");
}

#[test]
fn capture_states_read_back_as_written() {
    for s in [CaptureState::Resolved, CaptureState::Moved, CaptureState::Reanchored, CaptureState::Unanchored, CaptureState::Deleted, CaptureState::Broken] {
        assert_eq!(CaptureState::parse(&s.text()), Some(s));
    }
    assert_eq!(CaptureState::parse("OTRO"), None);
}

#[test]
fn line_and_column_count_from_one() {
    let src = "ab\ncd\nef";
    assert_eq!(line_col_1based(src, 0), (1, 1));
    assert_eq!(line_col_1based(src, 4), (2, 2));
    assert_eq!(line_col_1based(src, 6), (3, 1));
    assert_eq!(line_col_1based(src, 100), (3, 3));
}

#[test]
fn requiring_fails_only_when_asked_with_demand_and_told_no() {
    let some = Demand { endpoints: 2, languages: vec!["java"] };
    let none = Demand { endpoints: 0, languages: vec![] };
    assert_eq!(requirement(some.clone(), Some(false)), Err(NoProvider(some.clone())));
    assert_eq!(requirement(some.clone(), Some(true)), Ok(()));
    assert_eq!(requirement(some, None), Ok(()));
    assert_eq!(requirement(none, Some(false)), Ok(()));
}

#[test]
fn an_answer_keeps_its_locations_or_what_the_provider_said() {
    let loc = Location { file: "A.java".into(), symbol: "Dto".into(), start: 0, end: 3 };
    assert_eq!(answered(Ok(vec![loc.clone()])), Ok(vec![loc]));
    assert_eq!(answered(Err("down".into())), Err(ProviderFailed { cause: "down".into() }));
}

/// A provider that counts how often it is asked.
struct Counting {
    up: bool,
    asked: std::cell::Cell<usize>,
}

impl Neighbours for Counting {
    fn available(&self, _layer: &str) -> bool {
        self.up
    }

    fn of(&self, _layer: &str, file: &str, _at: &[usize]) -> Result<Vec<Location>, String> {
        self.asked.set(self.asked.get() + 1);
        Ok(vec![
            Location { file: file.into(), symbol: "Dto".into(), start: 0, end: 3 },
            Location { file: file.into(), symbol: "Dto".into(), start: 0, end: 3 },
        ])
    }
}

#[test]
fn requiring_a_provider_fails_only_with_demand_and_nobody_to_ask() {
    let off = Counting { up: false, asked: std::cell::Cell::new(0) };
    let mut demand = Demand::default();
    demand.add("src/A.java");
    demand.add("web/b.tsx");
    demand.add("docs/notas.md");

    let NoProvider(said) = require(Some(&off), "capa", demand.clone()).unwrap_err();
    assert_eq!(said.endpoints, 3);
    assert_eq!(said.languages, vec!["java", "typescript"], "the languages the provider knows, no prose");

    assert!(require(Some(&off), "capa", Demand::default()).is_ok(), "no demand");
    assert!(require::<Counting>(None, "capa", demand.clone()).is_ok(), "nobody to ask");
    let on = Counting { up: true, asked: std::cell::Cell::new(0) };
    assert!(require(Some(&on), "capa", demand).is_ok());
    assert_eq!(off.asked.get() + on.asked.get(), 0, "requiring asks nothing");
}

#[test]
fn the_provider_is_asked_once() {
    let p = Counting { up: true, asked: std::cell::Cell::new(0) };
    let locs = ask(&p, "capa", "Svc.rs", &[0]).unwrap();
    assert_eq!(p.asked.get(), 1);
    assert_eq!(locs.len(), 2);
}

#[test]
fn a_provider_that_cannot_answer_fails_and_is_told_apart() {
    let e = ask(&Fixed { up: false }, "capa", "Svc.rs", &[0]).unwrap_err();
    assert_eq!(e, ProviderFailed { cause: "sin daemon".into() });
    assert_eq!(answered(Ok(vec![])), Ok(vec![]), "a legitimate empty answer is something else");
}
