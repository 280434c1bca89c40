use subpub::closure::close_over_dependents;
use subpub::selection::{select_packages, slice_from_start, SelectionError};
use subpub::validate::{validate_package, validate_selection, Offence};
use subpub::workspace::{Package, Workspace};

fn pack(name: &str, publishable: bool, deps: &[&str]) -> Package {
    Package {
        name: name.to_string(),
        publishable,
        manifest: format!("{name}/Cargo.toml"),
        deps: deps.iter().map(|d| d.to_string()).collect(),
    }
}

fn list(names: &[&str]) -> Vec<String> {
    names.iter().map(|n| n.to_string()).collect()
}

fn legacy_workspace() -> Workspace {
    Workspace::new(vec![
        pack("fresh", true, &[]),
        pack("legacy", true, &[]),
        pack("modern", true, &["legacy"]),
        pack("ultra", true, &["modern"]),
    ])
    .unwrap()
}

#[test]
fn excluding_a_package_excludes_its_dependents() {
    let ws = legacy_workspace();
    let order = list(&["fresh", "legacy", "modern", "ultra"]);
    let closed = close_over_dependents(&ws, &order, &list(&["legacy"]), false, &vec![]);
    assert_eq!(closed, list(&["legacy", "modern", "ultra"]));
}

#[test]
fn closing_a_closure_changes_nothing() {
    let ws = legacy_workspace();
    let order = list(&["ultra", "modern", "legacy", "fresh"]);
    let once = close_over_dependents(&ws, &order, &list(&["legacy"]), false, &vec![]);
    let twice = close_over_dependents(&ws, &order, &once, false, &vec![]);
    assert_eq!(once, list(&["legacy", "modern", "ultra"]));
    assert_eq!(twice, once);
}

#[test]
fn closure_of_a_larger_seed_is_larger() {
    let ws = legacy_workspace();
    let order = list(&["fresh", "legacy", "modern", "ultra"]);
    let small = close_over_dependents(&ws, &order, &list(&["modern"]), false, &vec![]);
    let large = close_over_dependents(&ws, &order, &list(&["modern", "legacy"]), false, &vec![]);
    assert_eq!(small, list(&["modern", "ultra"]));
    for name in &small {
        assert!(large.contains(name));
    }
}

#[test]
fn selection_of_all_leaves_out_excluded_and_dependents() {
    let ws = Workspace::new(vec![
        pack("fresh", true, &[]),
        pack("legacy", true, &[]),
        pack("modern", true, &["legacy"]),
    ])
    .unwrap();
    let order = list(&["fresh", "legacy", "modern"]);
    let sel = select_packages(&ws, &order, &vec![], &None, false, &list(&["legacy"])).ok().unwrap();
    assert_eq!(sel.packages, list(&["fresh"]));
    assert_eq!(sel.excluded, list(&["legacy", "modern"]));
}

#[test]
fn selection_that_is_empty_is_an_error() {
    let ws = Workspace::new(vec![pack("legacy", true, &[]), pack("modern", true, &["legacy"])])
        .unwrap();
    let order = list(&["legacy", "modern"]);
    let res = select_packages(&ws, &order, &vec![], &None, false, &list(&["legacy"]));
    assert_eq!(res.err(), Some(SelectionError::Empty));
}

#[test]
fn selection_of_all_leaves_out_what_is_not_publishable() {
    let ws = Workspace::new(vec![pack("a", true, &[]), pack("b", false, &[]), pack("c", true, &[])])
        .unwrap();
    let order = list(&["a", "b", "c"]);
    let sel = select_packages(&ws, &order, &vec![], &None, false, &vec![]).ok().unwrap();
    assert_eq!(sel.packages, list(&["a", "c"]));
    assert_eq!(sel.excluded, list(&[]));
}

#[test]
fn requested_packages_come_in_publish_order() {
    let ws = legacy_workspace();
    let order = list(&["fresh", "legacy", "modern", "ultra"]);
    let sel = select_packages(&ws, &order, &list(&["ultra", "fresh"]), &None, false, &vec![])
        .ok()
        .unwrap();
    assert_eq!(sel.packages, list(&["fresh", "ultra"]));
}

#[test]
fn dependents_are_included_on_request() {
    let ws = Workspace::new(vec![
        pack("base", true, &[]),
        pack("mid", true, &["base"]),
        pack("top", true, &["mid"]),
        pack("hidden", false, &["base"]),
        pack("barred", true, &["base", "gone"]),
        pack("gone", true, &[]),
    ])
    .unwrap();
    let order = list(&["base", "gone", "hidden", "mid", "barred", "top"]);
    let sel = select_packages(&ws, &order, &list(&["base"]), &None, true, &list(&["gone"]))
        .ok()
        .unwrap();
    assert_eq!(sel.packages, list(&["base", "mid", "top"]));
    assert_eq!(sel.excluded, list(&["gone", "barred"]));
    let plain = select_packages(&ws, &order, &list(&["base"]), &None, false, &list(&["gone"]))
        .ok()
        .unwrap();
    assert_eq!(plain.packages, list(&["base"]));
}

#[test]
fn start_from_drops_what_precedes() {
    let ws = legacy_workspace();
    let order = list(&["fresh", "legacy", "modern", "ultra"]);
    let sel = select_packages(&ws, &order, &vec![], &Some("modern".to_string()), false, &vec![])
        .ok()
        .unwrap();
    assert_eq!(sel.packages, list(&["modern", "ultra"]));
}

#[test]
fn excluded_start_from_is_dropped() {
    let ws = legacy_workspace();
    let order = list(&["fresh", "legacy", "modern", "ultra"]);
    let ws2 = Workspace::new(vec![
        pack("fresh", true, &[]),
        pack("legacy", true, &[]),
        pack("modern", true, &["legacy"]),
        pack("ultra", true, &[]),
    ])
    .unwrap();
    let sel = select_packages(
        &ws2,
        &order,
        &vec![],
        &Some("legacy".to_string()),
        false,
        &list(&["legacy"]),
    )
    .ok()
    .unwrap();
    assert_eq!(sel.packages, list(&["ultra"]));
    let none = select_packages(
        &ws,
        &order,
        &vec![],
        &Some("legacy".to_string()),
        false,
        &list(&["legacy"]),
    );
    assert_eq!(none.err(), Some(SelectionError::Empty));
}

#[test]
fn unknown_start_from_selects_nothing() {
    let ws = legacy_workspace();
    let order = list(&["fresh", "legacy", "modern", "ultra"]);
    let res = select_packages(&ws, &order, &vec![], &Some("nowhere".to_string()), false, &vec![]);
    assert_eq!(res.err(), Some(SelectionError::Empty));
}

#[test]
fn slicing_keeps_the_tail() {
    let names = list(&["a", "b", "c", "b", "d"]);
    assert_eq!(slice_from_start(&names, &"b".to_string(), false), list(&["b", "c", "b", "d"]));
    assert_eq!(slice_from_start(&names, &"b".to_string(), true), list(&["c", "d"]));
    assert_eq!(slice_from_start(&names, &"z".to_string(), false), list(&[]));
}

#[test]
fn excluded_dependency_is_traced_to_the_selected_package() {
    let ws = Workspace::new(vec![pack("A", true, &["B"]), pack("B", true, &["C"]), pack("C", true, &[])])
        .unwrap();
    let f = validate_package(&ws, &"A".to_string(), &list(&["C"])).err().unwrap();
    assert_eq!(f.package, "C");
    assert_eq!(f.parent, Some("B".to_string()));
    assert_eq!(f.initial, "A");
    assert_eq!(f.offence, Offence::Excluded);
    assert_eq!(f.manifest, "");
}

#[test]
fn direct_excluded_dependency_has_no_parent() {
    let ws = Workspace::new(vec![pack("A", true, &["B"]), pack("B", true, &[])]).unwrap();
    let f = validate_package(&ws, &"A".to_string(), &list(&["B"])).err().unwrap();
    assert_eq!(f.package, "B");
    assert_eq!(f.parent, None);
    assert_eq!(f.initial, "A");
    assert_eq!(f.offence, Offence::Excluded);
}

#[test]
fn unpublishable_dependency_names_its_manifest() {
    let ws = Workspace::new(vec![
        pack("A", true, &["B"]),
        pack("B", true, &["C"]),
        pack("C", false, &[]),
    ])
    .unwrap();
    let f = validate_package(&ws, &"A".to_string(), &vec![]).err().unwrap();
    assert_eq!(f.package, "C");
    assert_eq!(f.parent, Some("B".to_string()));
    assert_eq!(f.offence, Offence::NotPublishable);
    assert_eq!(f.manifest, "C/Cargo.toml");
}

#[test]
fn unknown_dependency_is_reported() {
    let ws = Workspace::new(vec![pack("A", true, &["ghost"])]).unwrap();
    let f = validate_package(&ws, &"A".to_string(), &vec![]).err().unwrap();
    assert_eq!(f.package, "ghost");
    assert_eq!(f.offence, Offence::Unknown);
    assert_eq!(f.parent, None);
}

#[test]
fn first_offender_in_depth_first_order_is_reported() {
    let ws = Workspace::new(vec![
        pack("A", true, &["B", "X"]),
        pack("B", true, &["Y"]),
        pack("X", true, &[]),
        pack("Y", true, &[]),
    ])
    .unwrap();
    let f = validate_package(&ws, &"A".to_string(), &list(&["X", "Y"])).err().unwrap();
    assert_eq!(f.package, "Y");
    assert_eq!(f.parent, Some("B".to_string()));
}

#[test]
fn shared_and_cyclic_dependencies_are_walked_once() {
    let ws = Workspace::new(vec![
        pack("A", true, &["B", "C"]),
        pack("B", true, &["D"]),
        pack("C", true, &["D", "A"]),
        pack("D", true, &[]),
        pack("E", true, &[]),
    ])
    .unwrap();
    assert!(validate_package(&ws, &"A".to_string(), &list(&["E"])).is_ok());
    assert!(validate_selection(&ws, &list(&["A", "D"]), &list(&["E"])).is_ok());
}

#[test]
fn selection_fails_on_its_first_unsafe_package() {
    let ws = Workspace::new(vec![
        pack("A", true, &[]),
        pack("B", true, &["X"]),
        pack("C", true, &["Y"]),
        pack("X", true, &[]),
        pack("Y", true, &[]),
    ])
    .unwrap();
    let f = validate_selection(&ws, &list(&["A", "B", "C"]), &list(&["X", "Y"])).err().unwrap();
    assert_eq!(f.initial, "B");
    assert_eq!(f.package, "X");
}

#[test]
fn selected_package_itself_may_offend() {
    let ws = Workspace::new(vec![pack("A", false, &[])]).unwrap();
    let f = validate_package(&ws, &"A".to_string(), &vec![]).err().unwrap();
    assert_eq!(f.package, "A");
    assert_eq!(f.parent, None);
    assert_eq!(f.offence, Offence::NotPublishable);
}
