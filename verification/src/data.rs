use vstd::prelude::*;
use crate::configuration::Configuration;
use crate::flatten::{flatten, flatten_spec};
use crate::graph::{build, build_error_spec, buildable, total_deps, BuildError, Graph};
use crate::package::Package;

verus! {

/// The flattened dependency listing handed to the template renderer: the
/// packages in traversal order.
#[derive(Debug)]
pub struct Data {
    pub dependencies: Vec<Package>,
}

impl Data {
    /// Builds the dependency graph of the given packages and flattens it
    /// under the configuration: the whole computation between reading the
    /// lock file and rendering the template.
    pub fn load(packages: Vec<Package>, configuration: &Configuration) -> (res: Result<
        Data,
        BuildError,
    >)
        requires
            total_deps(packages.deep_view()) <= usize::MAX,
            packages.deep_view().len() < usize::MAX,
        ensures
            res is Ok <==> buildable(packages.deep_view()),
            match res {
                Ok(d) => exists|g: Graph|
                    (#[trigger] g.wf()) && g.pkgs() == packages.deep_view()
                        && d.dependencies.deep_view() == flatten_spec(g, *configuration),
                Err(e) => build_error_spec(packages.deep_view(), e),
            },
    {
        let ghost pkgs = packages.deep_view();
        match build(packages) {
            Ok(g) => {
                let dependencies = flatten(&g, configuration);
                proof {
                    assert(g.wf() && g.pkgs() == pkgs && dependencies.deep_view() == flatten_spec(
                        g,
                        *configuration,
                    ));
                }
                Ok(Data { dependencies })
            },
            Err(e) => Err(e),
        }
    }
}

} // verus!
