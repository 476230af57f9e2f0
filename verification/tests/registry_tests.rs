use nasal_ls::Definitions;
use nasal_ls::Location;
use nasal_ls::NasalLspType;

fn loc(uri: &str, start_line: u32, start_col: u32) -> Location {
    Location {
        uri: String::from(uri),
        start_line,
        start_col,
        end_line: start_line + 1,
        end_col: start_col + 1,
    }
}

#[test]
fn recording_the_same_location_twice_keeps_one_entry() {
    let mut defs = Definitions::new();
    let name = String::from("foo");
    defs.add(&name, NasalLspType::IdentDef(loc("file:///a", 3, 4)));
    defs.add(&name, NasalLspType::IdentDef(loc("file:///a", 3, 4)));
    let entries = defs.matches(&name).unwrap();
    assert_eq!(entries.len(), 1);
}

#[test]
fn dedup_is_by_location_not_by_kind() {
    let mut defs = Definitions::new();
    let name = String::from("foo");
    defs.add(&name, NasalLspType::IdentRef(loc("file:///a", 3, 4)));
    defs.add(&name, NasalLspType::FuncDef(loc("file:///a", 3, 4)));
    let entries = defs.matches(&name).unwrap();
    assert_eq!(entries.len(), 1);
    // the first recorded occurrence is kept
    assert!(!entries[0].is_definition_kind());
}

#[test]
fn occurrences_keep_insertion_order() {
    let mut defs = Definitions::new();
    let name = String::from("foo");
    defs.add(&name, NasalLspType::IdentDef(loc("file:///a", 1, 0)));
    defs.add(&name, NasalLspType::IdentRef(loc("file:///a", 5, 0)));
    defs.add(&name, NasalLspType::FuncDef(loc("file:///b", 2, 0)));
    let entries = defs.matches(&name).unwrap();
    assert_eq!(entries.len(), 3);
    assert_eq!(entries[0].location().start_line, 1);
    assert_eq!(entries[1].location().start_line, 5);
    assert_eq!(entries[2].location().uri, "file:///b");
}

#[test]
fn unknown_name_matches_nothing() {
    let defs = Definitions::new();
    assert!(defs.matches(&String::from("foo")).is_none());
}

#[test]
fn names_are_kept_apart() {
    let mut defs = Definitions::new();
    defs.add(&String::from("foo"), NasalLspType::IdentDef(loc("file:///a", 1, 0)));
    defs.add(&String::from("bar"), NasalLspType::IdentDef(loc("file:///a", 2, 0)));
    assert_eq!(defs.matches(&String::from("foo")).unwrap().len(), 1);
    assert_eq!(defs.matches(&String::from("bar")).unwrap().len(), 1);
}

#[test]
fn references_alone_resolve_to_nothing() {
    let mut defs = Definitions::new();
    let name = String::from("foo");
    defs.add(&name, NasalLspType::IdentRef(loc("file:///a", 1, 0)));
    defs.add(&name, NasalLspType::Func(loc("file:///a", 7, 2)));
    assert!(defs.definition(&name, &loc("file:///a", 9, 0)).is_err());
    assert_eq!(defs.matches(&name).unwrap().len(), 2);
}

#[test]
fn unknown_name_resolves_to_nothing() {
    let defs = Definitions::new();
    assert!(defs.definition(&String::from("foo"), &loc("file:///a", 0, 0)).is_err());
}

#[test]
fn closest_preceding_definition_wins() {
    let mut defs = Definitions::new();
    let name = String::from("foo");
    defs.add(&name, NasalLspType::IdentDef(loc("file:///a", 1, 0)));
    defs.add(&name, NasalLspType::FuncDef(loc("file:///a", 6, 0)));
    defs.add(&name, NasalLspType::IdentDef(loc("file:///a", 12, 0)));
    let found = defs.definition(&name, &loc("file:///a", 9, 0)).unwrap();
    assert_eq!(found.location().start_line, 6);
}

#[test]
fn definitions_in_other_files_do_not_precede() {
    let mut defs = Definitions::new();
    let name = String::from("foo");
    defs.add(&name, NasalLspType::IdentDef(loc("file:///b", 1, 0)));
    defs.add(&name, NasalLspType::IdentDef(loc("file:///a", 4, 0)));
    let found = defs.definition(&name, &loc("file:///a", 9, 0)).unwrap();
    assert_eq!(found.location().uri, "file:///a");
    assert_eq!(found.location().start_line, 4);
}

#[test]
fn without_a_preceding_definition_the_first_recorded_one_is_returned() {
    let mut defs = Definitions::new();
    let name = String::from("foo");
    defs.add(&name, NasalLspType::IdentRef(loc("file:///a", 0, 0)));
    defs.add(&name, NasalLspType::FuncDef(loc("file:///a", 8, 0)));
    defs.add(&name, NasalLspType::IdentDef(loc("file:///a", 11, 0)));
    let found = defs.definition(&name, &loc("file:///a", 2, 0)).unwrap();
    assert_eq!(found.location().start_line, 8);
    assert!(found.is_definition_kind());
}

#[test]
fn column_order_breaks_line_ties() {
    let mut defs = Definitions::new();
    let name = String::from("foo");
    defs.add(&name, NasalLspType::IdentDef(loc("file:///a", 3, 2)));
    defs.add(&name, NasalLspType::IdentDef(loc("file:///a", 3, 8)));
    let found = defs.definition(&name, &loc("file:///a", 3, 10)).unwrap();
    assert_eq!(found.location().start_col, 8);
}

#[test]
fn location_validity_requires_strict_spans() {
    let good = Location {
        uri: String::from("file:///a"),
        start_line: 1,
        start_col: 2,
        end_line: 3,
        end_col: 4,
    };
    assert!(good.is_valid());
    assert!(!good.not_valid());
    let single_line = Location {
        uri: String::from("file:///a"),
        start_line: 1,
        start_col: 2,
        end_line: 1,
        end_col: 4,
    };
    assert!(!single_line.is_valid());
    assert!(single_line.not_valid());
}

#[test]
fn occurrence_reports_its_uri_and_location() {
    let occ = NasalLspType::Func(loc("file:///z", 2, 3));
    assert_eq!(occ.uri(), "file:///z");
    assert_eq!(occ.location().start_line, 2);
    assert_eq!(occ.location().start_col, 3);
    assert!(!occ.is_definition_kind());
}
