use vstd::prelude::*;

verus! {

/// One already-resolved package record: a unique name, a version, and the
/// names of the packages it directly depends on, in declared order.
#[derive(Debug, Clone, PartialEq, Eq)]
pub struct Package {
    pub name: String,
    pub version: String,
    pub dependencies: Vec<String>,
}

/// The mathematical content of a package: its strings as character sequences.
pub struct PackageView {
    pub name: Seq<char>,
    pub version: Seq<char>,
    pub dependencies: Seq<Seq<char>>,
}

impl View for Package {
    type V = PackageView;

    open spec fn view(&self) -> PackageView {
        PackageView {
            name: self.name@,
            version: self.version@,
            dependencies: self.dependencies.deep_view(),
        }
    }
}

impl DeepView for Package {
    type V = PackageView;

    open spec fn deep_view(&self) -> PackageView {
        self.view()
    }
}

/// Whether some package in `pkgs` is named `n`.
pub open spec fn has_name(pkgs: Seq<PackageView>, n: Seq<char>) -> bool {
    exists|i: int| 0 <= i < pkgs.len() && pkgs[i].name == n
}

/// Whether no two packages in `pkgs` share a name.
pub open spec fn unique_names(pkgs: Seq<PackageView>) -> bool {
    forall|i: int, j: int| 0 <= i < j < pkgs.len() ==> pkgs[i].name != pkgs[j].name
}

impl Package {
    /// An explicit copy; unlike a derived `Clone`, its contract states that
    /// the copy carries the same name, version and dependency names.
    pub fn duplicate(&self) -> (p: Package)
        ensures
            p@ == self@,
    {
        let mut dependencies: Vec<String> = Vec::new();
        let mut i: usize = 0;
        while i < self.dependencies.len()
            invariant
                i <= self.dependencies@.len(),
                dependencies@.len() == i as int,
                forall|k: int| 0 <= k < i as int ==> dependencies@[k]@ == self.dependencies@[k]@,
            decreases self.dependencies@.len() - i,
        {
            dependencies.push(self.dependencies[i].clone());
            i += 1;
        }
        let p = Package { name: self.name.clone(), version: self.version.clone(), dependencies };
        proof {
            assert(p.dependencies.deep_view() =~= self.dependencies.deep_view());
        }
        p
    }
}

} // verus!
