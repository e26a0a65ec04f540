use vstd::prelude::*;
use crate::text::{contains_seq, replace_all, replace_pattern};

verus! {

/// Where the template text comes from: given directly as text, or read from
/// a file by the host pipeline.
pub enum TemplateSource {
    Text(String),
    File(String),
}

/// Settings for one generation run.
/// - `template`: the template, as text or as a file path;
/// - `cargo_lock_path`: path of the lock file whose packages are listed;
/// - `target_path`: where the rendered output goes; when absent it is deduced
///   from a template file path by dropping its `.template.` name part;
/// - `post_template_search` / `post_template_replace`: an optional cleanup
///   replacement applied to the rendered text;
/// - `include_root`: whether the root package itself is listed;
/// - `maximum_depth`: when present, how deep the traversal descends (the
///   root's direct dependencies sit at depth one).
pub struct Configuration {
    pub template: TemplateSource,
    pub cargo_lock_path: String,
    pub target_path: Option<String>,
    pub post_template_search: Option<String>,
    pub post_template_replace: String,
    pub include_root: bool,
    pub maximum_depth: Option<usize>,
}

impl Default for Configuration {
    /// The conventional setup: template read from `src/deps.template.rs`,
    /// lock file at `Cargo.lock`, target deduced from the template path,
    /// `//{}` markers removed afterwards, root excluded, unbounded depth.
    fn default() -> (c: Self)
        ensures
            (c.template matches TemplateSource::File(f) && f@ == "src/deps.template.rs"@),
            c.cargo_lock_path@ == "Cargo.lock"@,
            c.target_path is None,
            (c.post_template_search matches Some(s) && s@ == "//{}"@),
            c.post_template_replace@ == ""@,
            c.include_root == false,
            c.maximum_depth is None,
    {
        proof {
            reveal_strlit("");
        }
        Configuration {
            template: TemplateSource::File(String::from_str("src/deps.template.rs")),
            cargo_lock_path: String::from_str("Cargo.lock"),
            target_path: None,
            post_template_search: Some(String::from_str("//{}")),
            post_template_replace: String::new(),
            include_root: false,
            maximum_depth: None,
        }
    }
}

impl Configuration {
    /// The output path can be determined: it is given outright, or the
    /// template is a file whose path carries the `.template.` marker.
    pub open spec fn can_deduce_target(&self) -> bool {
        match self.target_path {
            Some(_) => true,
            None => match self.template {
                TemplateSource::File(f) => contains_seq(f@, ".template."@),
                TemplateSource::Text(_) => false,
            },
        }
    }

    /// What `target_path` returns: the configured path, or the template file
    /// path with every `.template.` collapsed to `.`.
    pub open spec fn target_path_spec(&self) -> Seq<char> {
        match self.target_path {
            Some(t) => t@,
            None => match self.template {
                TemplateSource::File(f) => replace_all(f@, ".template."@, "."@),
                TemplateSource::Text(_) => Seq::empty(),
            },
        }
    }

    /// The output path: the configured target, or the template file path with
    /// its `.template.` name part dropped. Callers must give a target, or a
    /// template file path that carries the marker.
    pub fn target_path(&self) -> (r: String)
        requires
            self.can_deduce_target(),
        ensures
            r@ == self.target_path_spec(),
    {
        match &self.target_path {
            Some(t) => t.clone(),
            None => match &self.template {
                TemplateSource::File(f) => {
                    proof {
                        reveal_strlit(".template.");
                    }
                    replace_pattern(f.as_str(), ".template.", ".")
                },
                TemplateSource::Text(_) => {
                    proof {
                        assert(false);
                    }
                    String::new()
                },
            },
        }
    }
}

} // verus!
