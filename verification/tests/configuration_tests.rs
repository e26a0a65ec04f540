use deps_gen::configuration::{Configuration, TemplateSource};
use deps_gen::text::replace_pattern;

#[test]
fn default_configuration_values() {
    let c = Configuration::default();
    match &c.template {
        TemplateSource::File(f) => assert_eq!(f, "src/deps.template.rs"),
        TemplateSource::Text(_) => panic!("default template must be a file"),
    }
    assert_eq!(c.cargo_lock_path, "Cargo.lock");
    assert!(c.target_path.is_none());
    assert_eq!(c.post_template_search.as_deref(), Some("//{}"));
    assert_eq!(c.post_template_replace, "");
    assert!(!c.include_root);
    assert!(c.maximum_depth.is_none());
}

#[test]
fn target_path_prefers_the_configured_target() {
    let mut c = Configuration::default();
    c.target_path = Some("out/generated.rs".to_string());
    assert_eq!(c.target_path(), "out/generated.rs");
}

#[test]
fn target_path_is_deduced_from_the_template_file() {
    let c = Configuration::default();
    assert_eq!(c.target_path(), "src/deps.rs");
}

#[test]
fn target_path_drops_every_template_marker() {
    let mut c = Configuration::default();
    c.template = TemplateSource::File("a.template.b.template.rs".to_string());
    assert_eq!(c.target_path(), "a.b.rs");
}

#[test]
fn replace_pattern_replaces_every_occurrence() {
    assert_eq!(replace_pattern("x //{}y //{}", "//{}", ""), "x y ");
    assert_eq!(replace_pattern("say marker", "marker", "no more"), "say no more");
    assert_eq!(replace_pattern("unchanged", "missing", "zzz"), "unchanged");
}

#[test]
fn replace_pattern_does_not_overlap_occurrences() {
    assert_eq!(replace_pattern("aaa", "aa", "b"), "ba");
    assert_eq!(replace_pattern("aaaa", "aa", "a"), "aa");
}

#[test]
fn replace_pattern_handles_multibyte_text() {
    assert_eq!(replace_pattern("héllo wörld", "ö", "o"), "héllo world");
}
