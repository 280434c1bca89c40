use subpub::order::OrderError;
use subpub::plan::{plan_run, PlanError};
use subpub::validate::Offence;
use subpub::workspace::{Package, Workspace};

fn package(name: &str, publishable: bool, deps: &[&str]) -> Package {
    Package {
        name: name.to_string(),
        publishable,
        manifest: format!("crates/{name}/Cargo.toml"),
        deps: deps.iter().map(|d| d.to_string()).collect(),
    }
}

fn texts(names: &[&str]) -> Vec<String> {
    names.iter().map(|n| n.to_string()).collect()
}

#[test]
fn plan_orders_selects_and_validates() {
    let ws = Workspace::new(vec![
        package("modern", true, &["legacy"]),
        package("legacy", true, &[]),
        package("tool", true, &["base"]),
        package("base", true, &[]),
    ])
    .unwrap();
    let plan = plan_run(&ws, &vec![], &None, false, &texts(&["legacy"])).ok().unwrap();
    assert_eq!(plan.names, texts(&["base", "legacy", "modern", "tool"]));
    let ranks: Vec<usize> = plan.order.iter().map(|r| r.rank).collect();
    assert_eq!(ranks, vec![1, 1, 2, 2]);
    assert_eq!(plan.selection.packages, texts(&["base", "tool"]));
    assert_eq!(plan.selection.excluded, texts(&["legacy", "modern"]));
}

#[test]
fn plan_stops_at_a_cycle() {
    let ws = Workspace::new(vec![package("a", true, &["b"]), package("b", true, &["a"])]).unwrap();
    match plan_run(&ws, &vec![], &None, false, &vec![]) {
        Err(PlanError::Order(OrderError::Unorderable(names))) => {
            assert_eq!(names, texts(&["a", "b"]))
        }
        _ => panic!("a cycle must stop the plan"),
    }
}

#[test]
fn plan_stops_at_an_empty_selection() {
    let ws = Workspace::new(vec![package("a", true, &[]), package("b", true, &["a"])]).unwrap();
    match plan_run(&ws, &texts(&["nowhere"]), &None, false, &vec![]) {
        Err(PlanError::Selection { order }) => {
            let names: Vec<String> = order.into_iter().map(|r| r.name).collect();
            assert_eq!(names, texts(&["a", "b"]));
        }
        _ => panic!("an empty selection must stop the plan"),
    }
}

#[test]
fn plan_stops_at_an_unsafe_package() {
    let ws = Workspace::new(vec![
        package("a", true, &["b"]),
        package("b", false, &[]),
        package("c", true, &[]),
    ])
    .unwrap();
    match plan_run(&ws, &texts(&["c", "a"]), &None, false, &vec![]) {
        Err(PlanError::Validation { order, selection, failure }) => {
            assert_eq!(order.len(), 3);
            assert_eq!(selection.packages, texts(&["c", "a"]));
            assert_eq!(failure.initial, "a");
            assert_eq!(failure.package, "b");
            assert_eq!(failure.parent, None);
            assert_eq!(failure.offence, Offence::NotPublishable);
            assert_eq!(failure.manifest, "crates/b/Cargo.toml");
        }
        _ => panic!("an unpublishable dependency must stop the plan"),
    }
}

#[test]
fn requested_package_on_the_closed_exclusion_list_is_refused() {
    let ws = Workspace::new(vec![
        package("A", true, &["B"]),
        package("B", true, &["C"]),
        package("C", true, &[]),
    ])
    .unwrap();
    match plan_run(&ws, &texts(&["A"]), &None, false, &texts(&["C"])) {
        Err(PlanError::Validation { selection, failure, .. }) => {
            assert_eq!(selection.excluded, texts(&["C", "B", "A"]));
            assert_eq!(failure.package, "A");
            assert_eq!(failure.offence, Offence::Excluded);
        }
        _ => panic!("an excluded package must not be published"),
    }
}

#[test]
fn unpublishable_starting_point_is_selected_and_then_refused() {
    let ws = Workspace::new(vec![
        package("a", true, &[]),
        package("b", false, &[]),
        package("c", true, &[]),
    ])
    .unwrap();
    match plan_run(&ws, &vec![], &Some("b".to_string()), false, &vec![]) {
        Err(PlanError::Validation { selection, failure, .. }) => {
            assert_eq!(selection.packages, texts(&["b", "c"]));
            assert_eq!(failure.package, "b");
            assert_eq!(failure.initial, "b");
            assert_eq!(failure.offence, Offence::NotPublishable);
        }
        _ => panic!("a package that is not to be published must be refused"),
    }
}
