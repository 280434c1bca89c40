use subpub::order::{layer_packages, names_of, resolve_publish_order, OrderError, Ranked};
use subpub::workspace::{contains_name, Package, Workspace};

fn pkg(name: &str, deps: &[&str]) -> Package {
    Package {
        name: name.to_string(),
        publishable: true,
        manifest: format!("{name}/Cargo.toml"),
        deps: deps.iter().map(|d| d.to_string()).collect(),
    }
}

fn workspace(packages: Vec<Package>) -> Workspace {
    Workspace::new(packages).unwrap()
}

fn order_of(ws: &Workspace) -> Vec<(String, usize)> {
    match resolve_publish_order(ws) {
        Ok(order) => order.into_iter().map(|r: Ranked| (r.name, r.rank)).collect(),
        Err(_) => panic!("no order"),
    }
}

fn pairs(items: &[(&str, usize)]) -> Vec<(String, usize)> {
    items.iter().map(|(n, r)| (n.to_string(), *r)).collect()
}

#[test]
fn chain_is_ordered_dependencies_first() {
    let ws = workspace(vec![pkg("a", &["b"]), pkg("b", &["c"]), pkg("c", &[])]);
    assert_eq!(order_of(&ws), pairs(&[("c", 1), ("b", 2), ("a", 3)]));
}

#[test]
fn diamond_ranks_add_up() {
    let ws = workspace(vec![
        pkg("a", &["b", "c"]),
        pkg("c", &["d"]),
        pkg("b", &["d"]),
        pkg("d", &[]),
    ]);
    assert_eq!(order_of(&ws), pairs(&[("d", 1), ("b", 2), ("c", 2), ("a", 5)]));
}

#[test]
fn equal_ranks_are_ordered_by_name() {
    let ws = workspace(vec![pkg("zeta", &[]), pkg("alpha", &[]), pkg("mid", &[])]);
    let order = resolve_publish_order(&ws).ok().unwrap();
    assert_eq!(names_of(&order), vec!["alpha".to_string(), "mid".to_string(), "zeta".to_string()]);
}

#[test]
fn rank_comes_before_name() {
    let ws = workspace(vec![pkg("a", &["z"]), pkg("z", &[]), pkg("m", &[])]);
    assert_eq!(order_of(&ws), pairs(&[("m", 1), ("z", 1), ("a", 2)]));
}

#[test]
fn repeated_dependency_counts_once() {
    let ws = workspace(vec![pkg("a", &["b", "b"]), pkg("b", &[])]);
    assert_eq!(order_of(&ws), pairs(&[("b", 1), ("a", 2)]));
}

#[test]
fn every_dependency_has_a_smaller_index() {
    let ws = workspace(vec![
        pkg("app", &["core", "util", "net"]),
        pkg("net", &["core", "util"]),
        pkg("util", &["core"]),
        pkg("core", &[]),
        pkg("extra", &["app"]),
    ]);
    let order = names_of(&resolve_publish_order(&ws).ok().unwrap());
    assert_eq!(order.len(), 5);
    for p in &ws.packages {
        let at = order.iter().position(|n| *n == p.name).unwrap();
        for d in &p.deps {
            let dep_at = order.iter().position(|n| n == d).unwrap();
            assert!(dep_at < at);
        }
    }
}

#[test]
fn cycle_reports_exactly_the_unorderable_packages() {
    let ws = workspace(vec![
        pkg("a", &["b"]),
        pkg("b", &["a"]),
        pkg("free", &[]),
        pkg("above", &["a"]),
    ]);
    match resolve_publish_order(&ws) {
        Err(OrderError::Unorderable(names)) => {
            assert_eq!(names, vec!["a".to_string(), "b".to_string(), "above".to_string()]);
        }
        _ => panic!("a cycle must be reported"),
    }
}

#[test]
fn missing_dependency_is_unorderable() {
    let ws = workspace(vec![pkg("a", &["nowhere"]), pkg("b", &[])]);
    match resolve_publish_order(&ws) {
        Err(OrderError::Unorderable(names)) => assert_eq!(names, vec!["a".to_string()]),
        _ => panic!("a missing dependency must be reported"),
    }
}

#[test]
fn empty_workspace_has_empty_order() {
    let ws = workspace(vec![]);
    assert_eq!(order_of(&ws), pairs(&[]));
}

#[test]
fn resolving_twice_gives_the_same_order() {
    let build = || {
        workspace(vec![
            pkg("x", &["y", "w"]),
            pkg("y", &[]),
            pkg("w", &["y"]),
            pkg("v", &[]),
        ])
    };
    assert_eq!(order_of(&build()), order_of(&build()));
    assert_eq!(order_of(&build()), pairs(&[("v", 1), ("y", 1), ("w", 2), ("x", 4)]));
}

#[test]
fn rank_too_large_is_reported() {
    let count = usize::BITS as usize + 1;
    let mut packages = Vec::new();
    for k in 0..count {
        let deps: Vec<String> = (0..k).map(|i| format!("p{i:03}")).collect();
        packages.push(Package {
            name: format!("p{k:03}"),
            publishable: true,
            manifest: String::new(),
            deps,
        });
    }
    let ws = workspace(packages);
    assert!(layer_packages(&ws).is_none());
    assert!(matches!(resolve_publish_order(&ws), Err(OrderError::RankOverflow)));
}

#[test]
fn largest_rank_that_fits_is_accepted() {
    let count = usize::BITS as usize;
    let mut packages = Vec::new();
    for k in 0..count {
        let deps: Vec<String> = (0..k).map(|i| format!("p{i:03}")).collect();
        packages.push(Package {
            name: format!("p{k:03}"),
            publishable: true,
            manifest: String::new(),
            deps,
        });
    }
    let ws = workspace(packages);
    let order = resolve_publish_order(&ws).ok().unwrap();
    assert_eq!(order.len(), count);
    assert_eq!(order[count - 1].rank, 1usize << (count - 1));
}

#[test]
fn duplicate_names_are_refused() {
    assert!(Workspace::new(vec![pkg("a", &[]), pkg("b", &[]), pkg("a", &[])]).is_none());
    assert!(Workspace::new(vec![pkg("a", &[]), pkg("b", &[])]).is_some());
}

#[test]
fn find_gives_the_position() {
    let ws = workspace(vec![pkg("a", &[]), pkg("b", &[])]);
    assert_eq!(ws.find(&"b".to_string()), Some(1));
    assert_eq!(ws.find(&"c".to_string()), None);
    assert!(contains_name(&vec!["x".to_string()], &"x".to_string()));
    assert!(!contains_name(&vec!["x".to_string()], &"y".to_string()));
}
