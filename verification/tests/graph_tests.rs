use deps_gen::graph::{build, BuildError};
use deps_gen::package::Package;

fn pkg(name: &str, deps: &[&str]) -> Package {
    Package {
        name: name.to_string(),
        version: "1.0.0".to_string(),
        dependencies: deps.iter().map(|d| d.to_string()).collect(),
    }
}

#[test]
fn build_unique_unreferenced_package_becomes_root() {
    let g = build(vec![pkg("A", &["B", "C"]), pkg("B", &["C"]), pkg("C", &[])]).unwrap();
    assert_eq!(g.packages[g.root].name, "A");
}

#[test]
fn build_computes_reference_counts() {
    let g = build(vec![pkg("A", &["B", "C"]), pkg("B", &["C"]), pkg("C", &[])]).unwrap();
    let count_of = |name: &str| {
        let i = g.packages.iter().position(|p| p.name == name).unwrap();
        g.referenced[i]
    };
    assert_eq!(count_of("A"), 0);
    assert_eq!(count_of("B"), 1);
    assert_eq!(count_of("C"), 2);
}

#[test]
fn build_keeps_declared_dependency_order() {
    let g = build(vec![pkg("A", &["C", "B"]), pkg("B", &[]), pkg("C", &[])]).unwrap();
    let a = g.packages.iter().position(|p| p.name == "A").unwrap();
    let edge_names: Vec<&str> =
        g.deps[a].iter().map(|&t| g.packages[t].name.as_str()).collect();
    assert_eq!(edge_names, vec!["C", "B"]);
}

#[test]
fn build_multiple_unreferenced_picks_lexicographically_last() {
    let g = build(vec![pkg("A", &["C"]), pkg("D", &["C"]), pkg("C", &[])]).unwrap();
    assert_eq!(g.packages[g.root].name, "D");
}

#[test]
fn build_empty_set_has_no_root() {
    let e = build(vec![]).unwrap_err();
    assert!(matches!(e, BuildError::NoRootPackage));
    assert_eq!(e.message(), "no root package");
}

#[test]
fn build_cyclic_set_has_no_root() {
    let e = build(vec![pkg("A", &["B"]), pkg("B", &["A"])]).unwrap_err();
    assert!(matches!(e, BuildError::NoRootPackage));
}

#[test]
fn build_missing_dependency_fails() {
    let e = build(vec![pkg("A", &["X"])]).unwrap_err();
    match &e {
        BuildError::DependencyNotFound(n) => assert_eq!(n, "X"),
        other => panic!("unexpected error: {:?}", other),
    }
    assert_eq!(e.message(), "dependency not found: X");
}

#[test]
fn build_reports_first_missing_dependency() {
    let e = build(vec![pkg("A", &["B", "X", "Y"]), pkg("B", &["Z"])]).unwrap_err();
    match e {
        BuildError::DependencyNotFound(n) => assert_eq!(n, "X"),
        other => panic!("unexpected error: {:?}", other),
    }
}

#[test]
fn build_duplicate_name_fails() {
    let e = build(vec![pkg("A", &[]), pkg("A", &[])]).unwrap_err();
    match &e {
        BuildError::DuplicateName(n) => assert_eq!(n, "A"),
        other => panic!("unexpected error: {:?}", other),
    }
    assert_eq!(e.message(), "duplicate package name: A");
}
