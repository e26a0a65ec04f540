use deps_gen::configuration::Configuration;
use deps_gen::data::Data;
use deps_gen::flatten::flatten;
use deps_gen::graph::{build, Graph};
use deps_gen::package::Package;

fn pkg(name: &str, deps: &[&str]) -> Package {
    Package {
        name: name.to_string(),
        version: "1.0.0".to_string(),
        dependencies: deps.iter().map(|d| d.to_string()).collect(),
    }
}

fn diamond() -> Graph {
    build(vec![pkg("A", &["B", "C"]), pkg("B", &["C"]), pkg("C", &[])]).unwrap()
}

fn names(out: &[Package]) -> Vec<&str> {
    out.iter().map(|p| p.name.as_str()).collect()
}

#[test]
fn flatten_excludes_root_by_default() {
    let out = flatten(&diamond(), &Configuration::default());
    assert_eq!(names(&out), vec!["B", "C"]);
    assert!(out.iter().all(|p| p.name != "A"));
}

#[test]
fn flatten_includes_root_first_when_configured() {
    let mut configuration = Configuration::default();
    configuration.include_root = true;
    let out = flatten(&diamond(), &configuration);
    assert_eq!(names(&out), vec!["A", "B", "C"]);
    assert_eq!(out[0].name, "A");
}

#[test]
fn flatten_depth_one_lists_only_direct_dependencies() {
    let mut configuration = Configuration::default();
    configuration.maximum_depth = Some(1);
    let out = flatten(&diamond(), &configuration);
    assert_eq!(names(&out), vec!["B", "C"]);

    let chain = build(vec![pkg("A", &["B"]), pkg("B", &["C"]), pkg("C", &[])]).unwrap();
    let out = flatten(&chain, &configuration);
    assert_eq!(names(&out), vec!["B"]);
}

#[test]
fn flatten_depth_zero_lists_at_most_the_root() {
    let mut configuration = Configuration::default();
    configuration.maximum_depth = Some(0);
    let out = flatten(&diamond(), &configuration);
    assert_eq!(names(&out), Vec::<&str>::new());
    configuration.include_root = true;
    let out = flatten(&diamond(), &configuration);
    assert_eq!(names(&out), vec!["A"]);
}

#[test]
fn flatten_lists_shared_dependency_once() {
    let g = build(vec![
        pkg("A", &["B", "C"]),
        pkg("B", &["D"]),
        pkg("C", &["D"]),
        pkg("D", &[]),
    ])
    .unwrap();
    let out = flatten(&g, &Configuration::default());
    assert_eq!(names(&out), vec!["B", "D", "C"]);
}

#[test]
fn flatten_keeps_declared_dependency_order() {
    let g = build(vec![pkg("A", &["C", "B"]), pkg("B", &[]), pkg("C", &[])]).unwrap();
    let out = flatten(&g, &Configuration::default());
    assert_eq!(names(&out), vec!["C", "B"]);
}

#[test]
fn flatten_twice_yields_identical_output() {
    let g = diamond();
    let configuration = Configuration::default();
    let first = flatten(&g, &configuration);
    let second = flatten(&g, &configuration);
    assert_eq!(first, second);
}

#[test]
fn flatten_unreachable_extra_root_is_excluded() {
    // With two unreferenced packages, D becomes root and A is unreachable.
    let g = build(vec![pkg("A", &["C"]), pkg("D", &["C"]), pkg("C", &[])]).unwrap();
    let out = flatten(&g, &Configuration::default());
    assert_eq!(names(&out), vec!["C"]);
}

#[test]
fn data_load_flattens_the_package_set() {
    let data = Data::load(
        vec![pkg("A", &["B", "C"]), pkg("B", &["C"]), pkg("C", &[])],
        &Configuration::default(),
    )
    .unwrap();
    assert_eq!(names(&data.dependencies), vec!["B", "C"]);
}

#[test]
fn data_load_reports_build_failures() {
    let e = Data::load(vec![pkg("A", &["X"])], &Configuration::default()).unwrap_err();
    assert_eq!(e.message(), "dependency not found: X");
}

#[test]
fn duplicate_copies_every_field() {
    let p = pkg("A", &["B", "C"]);
    let q = p.duplicate();
    assert_eq!(p, q);
}
