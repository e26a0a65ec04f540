use vstd::prelude::*;
use crate::order::{lex_lt, lemma_lex_lt_total, lemma_lex_lt_trans, str_lt};
use crate::package::{has_name, unique_names, Package, PackageView};

verus! {

/// How often `n` occurs among the dependency names `deps[0..j]`.
pub open spec fn count_refs_upto(deps: Seq<Seq<char>>, n: Seq<char>, j: int) -> nat
    decreases j,
{
    if j <= 0 {
        0
    } else {
        count_refs_upto(deps, n, j - 1) + (if deps[j - 1] == n {
            1nat
        } else {
            0nat
        })
    }
}

/// How often `n` occurs among the dependency names declared by `p`.
pub open spec fn count_refs_in(p: PackageView, n: Seq<char>) -> nat {
    count_refs_upto(p.dependencies, n, p.dependencies.len() as int)
}

/// Incoming references to name `n` from the packages `pkgs[0..k]`.
pub open spec fn ref_count_upto(pkgs: Seq<PackageView>, n: Seq<char>, k: int) -> nat
    decreases k,
{
    if k <= 0 {
        0
    } else {
        ref_count_upto(pkgs, n, k - 1) + count_refs_in(pkgs[k - 1], n)
    }
}

/// Reference count of name `n`: how many dependency entries across the whole
/// package set name it.
pub open spec fn ref_count(pkgs: Seq<PackageView>, n: Seq<char>) -> nat {
    ref_count_upto(pkgs, n, pkgs.len() as int)
}

/// Dependency entries declared by `pkgs[0..k]`, in total.
pub open spec fn total_deps_upto(pkgs: Seq<PackageView>, k: int) -> nat
    decreases k,
{
    if k <= 0 {
        0
    } else {
        total_deps_upto(pkgs, k - 1) + pkgs[k - 1].dependencies.len()
    }
}

/// Dependency entries declared across the whole package set.
pub open spec fn total_deps(pkgs: Seq<PackageView>) -> nat {
    total_deps_upto(pkgs, pkgs.len() as int)
}

/// Every declared dependency name resolves to some package of the set.
pub open spec fn all_deps_resolvable(pkgs: Seq<PackageView>) -> bool {
    forall|i: int, j: int|
        0 <= i < pkgs.len() && 0 <= j < pkgs[i].dependencies.len() ==> has_name(
            pkgs,
            pkgs[i].dependencies[j],
        )
}

/// Some package of the set is referenced by no other.
pub open spec fn has_unreferenced(pkgs: Seq<PackageView>) -> bool {
    exists|i: int| 0 <= i < pkgs.len() && ref_count(pkgs, pkgs[i].name) == 0
}

/// `build` succeeds exactly on such package sets.
pub open spec fn buildable(pkgs: Seq<PackageView>) -> bool {
    unique_names(pkgs) && all_deps_resolvable(pkgs) && has_unreferenced(pkgs)
}

/// `pkgs[i]` repeats a name that already occurred earlier in the set.
pub open spec fn dup_at(pkgs: Seq<PackageView>, i: int) -> bool {
    exists|j: int| 0 <= j < i && pkgs[j].name == pkgs[i].name
}

/// `n` is the first repeated package name, in scan order.
pub open spec fn is_first_duplicate(pkgs: Seq<PackageView>, n: Seq<char>) -> bool {
    exists|i: int|
        0 <= i < pkgs.len() && #[trigger] dup_at(pkgs, i) && pkgs[i].name == n && (forall|k: int|
            0 <= k < i ==> !dup_at(pkgs, k))
}

/// Dependency entry `j` of package `i` resolves to no package of the set.
pub open spec fn unresolved_at(pkgs: Seq<PackageView>, i: int, j: int) -> bool {
    0 <= i < pkgs.len() && 0 <= j < pkgs[i].dependencies.len() && !has_name(
        pkgs,
        pkgs[i].dependencies[j],
    )
}

/// `n` is the first declared dependency name, in scan order, that resolves to
/// no package of the set.
pub open spec fn is_first_unresolved(pkgs: Seq<PackageView>, n: Seq<char>) -> bool {
    exists|i: int, j: int|
        #[trigger] unresolved_at(pkgs, i, j) && pkgs[i].dependencies[j] == n && (forall|
            i2: int,
            j2: int,
        |
            unresolved_at(pkgs, i2, j2) ==> i2 > i || (i2 == i && j2 >= j))
}

/// Why a graph could not be built.
#[derive(Debug, Clone, PartialEq, Eq)]
pub enum BuildError {
    /// Two packages of the input set share this name.
    DuplicateName(String),
    /// This declared dependency name matches no package of the set.
    DependencyNotFound(String),
    /// No package has a reference count of zero (an empty or cyclic set).
    NoRootPackage,
}

impl BuildError {
    /// The operator-facing description of the failure.
    pub fn message(&self) -> (r: String)
        ensures
            r@ == match *self {
                BuildError::DuplicateName(n) => "duplicate package name: "@ + n@,
                BuildError::DependencyNotFound(n) => "dependency not found: "@ + n@,
                BuildError::NoRootPackage => "no root package"@,
            },
    {
        match self {
            BuildError::DuplicateName(n) => String::from_str("duplicate package name: ").concat(
                n.as_str(),
            ),
            BuildError::DependencyNotFound(n) => String::from_str(
                "dependency not found: ",
            ).concat(n.as_str()),
            BuildError::NoRootPackage => String::from_str("no root package"),
        }
    }
}

/// What each error of `build` means: the variant and its payload are pinned by
/// the input set.
pub open spec fn build_error_spec(pkgs: Seq<PackageView>, e: BuildError) -> bool {
    match e {
        BuildError::DuplicateName(n) => !unique_names(pkgs) && is_first_duplicate(pkgs, n@),
        BuildError::DependencyNotFound(n) => unique_names(pkgs) && !all_deps_resolvable(pkgs)
            && is_first_unresolved(pkgs, n@),
        BuildError::NoRootPackage => unique_names(pkgs) && all_deps_resolvable(pkgs)
            && !has_unreferenced(pkgs),
    }
}

/// The dependency graph as an arena: one entry per package, dependency edges
/// and reference counts by index, and the selected root index.
#[derive(Debug)]
pub struct Graph {
    pub packages: Vec<Package>,
    pub deps: Vec<Vec<usize>>,
    pub referenced: Vec<usize>,
    pub root: usize,
}

impl Graph {
    /// The package records, as mathematical values.
    pub open spec fn pkgs(&self) -> Seq<PackageView> {
        self.packages.deep_view()
    }

    /// Structural soundness: one edge row and one counter per package, every
    /// edge and the root in range, and an arena small enough to index.
    pub open spec fn wf_basic(&self) -> bool {
        &&& self.deps@.len() == self.packages@.len()
        &&& self.referenced@.len() == self.packages@.len()
        &&& (self.root as int) < self.packages@.len()
        &&& self.packages@.len() < usize::MAX
        &&& forall|i: int, j: int|
            0 <= i < self.deps@.len() && 0 <= j < self.deps@[i]@.len() ==> (self.deps@[i]@[j] as int)
                < self.packages@.len()
    }

    /// Edge `j` of node `i` leads to the node named by dependency `j` of
    /// package `i`, in the declared order.
    pub open spec fn edges_match(&self) -> bool {
        &&& forall|i: int|
            0 <= i < self.pkgs().len() ==> (#[trigger] self.deps@[i]@).len()
                == self.pkgs()[i].dependencies.len()
        &&& forall|i: int, j: int|
            0 <= i < self.pkgs().len() && 0 <= j < self.deps@[i]@.len() ==> self.pkgs()[(
            #[trigger] self.deps@[i]@[j]) as int].name == self.pkgs()[i].dependencies[j]
    }

    /// Every stored counter equals the reference count of its package's name.
    pub open spec fn counts_match(&self) -> bool {
        forall|i: int|
            0 <= i < self.pkgs().len() ==> (#[trigger] self.referenced@[i]) as nat == ref_count(
                self.pkgs(),
                self.pkgs()[i].name,
            )
    }

    /// The root is unreferenced, and is the lexicographically last
    /// unreferenced node.
    pub open spec fn root_ok(&self) -> bool {
        &&& self.referenced@[self.root as int] == 0
        &&& forall|i: int|
            0 <= i < self.pkgs().len() && i != self.root as int && self.referenced@[i] == 0
                ==> lex_lt(#[trigger] self.pkgs()[i].name, self.pkgs()[self.root as int].name)
    }

    /// A well-formed graph, as `build` constructs it.
    pub open spec fn wf(&self) -> bool {
        self.wf_basic() && unique_names(self.pkgs()) && self.edges_match() && self.counts_match()
            && self.root_ok()
    }
}

/// Finds the package with the given name, if any.
fn find_index(packages: &Vec<Package>, name: &String) -> (r: Option<usize>)
    ensures
        match r {
            Some(k) => (k as int) < packages.deep_view().len() && packages.deep_view()[k as int].name
                == name@,
            None => !has_name(packages.deep_view(), name@),
        },
{
    let n = packages.len();
    let mut i: usize = 0;
    while i < n
        invariant
            i <= n,
            n == packages@.len(),
            forall|k: int| 0 <= k < i as int ==> packages.deep_view()[k].name != name@,
        decreases n - i,
    {
        if packages[i].name == *name {
            return Some(i);
        }
        i += 1;
    }
    None
}

proof fn lemma_count_refs_upto_le(deps: Seq<Seq<char>>, n: Seq<char>, j: int)
    requires
        0 <= j,
    ensures
        count_refs_upto(deps, n, j) <= j,
    decreases j,
{
    if j > 0 {
        lemma_count_refs_upto_le(deps, n, j - 1);
    }
}

proof fn lemma_ref_count_upto_le_total(pkgs: Seq<PackageView>, n: Seq<char>, k: int)
    requires
        0 <= k,
    ensures
        ref_count_upto(pkgs, n, k) <= total_deps_upto(pkgs, k),
    decreases k,
{
    if k > 0 {
        lemma_ref_count_upto_le_total(pkgs, n, k - 1);
        lemma_count_refs_upto_le(
            pkgs[k - 1].dependencies,
            n,
            pkgs[k - 1].dependencies.len() as int,
        );
    }
}

proof fn lemma_total_deps_upto_mono(pkgs: Seq<PackageView>, k1: int, k2: int)
    requires
        0 <= k1 <= k2,
    ensures
        total_deps_upto(pkgs, k1) <= total_deps_upto(pkgs, k2),
    decreases k2,
{
    if k1 < k2 {
        lemma_total_deps_upto_mono(pkgs, k1, k2 - 1);
    }
}

proof fn lemma_count_refs_upto_mono(deps: Seq<Seq<char>>, n: Seq<char>, j1: int, j2: int)
    requires
        0 <= j1 <= j2,
    ensures
        count_refs_upto(deps, n, j1) <= count_refs_upto(deps, n, j2),
    decreases j2,
{
    if j1 < j2 {
        lemma_count_refs_upto_mono(deps, n, j1, j2 - 1);
    }
}

proof fn lemma_ref_count_upto_from_pkg(pkgs: Seq<PackageView>, n: Seq<char>, i: int, k: int)
    requires
        0 <= i < k,
    ensures
        ref_count_upto(pkgs, n, k) >= count_refs_in(pkgs[i], n),
    decreases k,
{
    if i < k - 1 {
        lemma_ref_count_upto_from_pkg(pkgs, n, i, k - 1);
    }
}

/// A name declared as a dependency has a positive reference count.
pub proof fn lemma_declared_dep_ref_count_positive(pkgs: Seq<PackageView>, i: int, j: int)
    requires
        0 <= i < pkgs.len(),
        0 <= j < pkgs[i].dependencies.len(),
    ensures
        ref_count(pkgs, pkgs[i].dependencies[j]) > 0,
{
    let n = pkgs[i].dependencies[j];
    assert(count_refs_upto(pkgs[i].dependencies, n, j + 1) >= 1);
    lemma_count_refs_upto_mono(pkgs[i].dependencies, n, j + 1, pkgs[i].dependencies.len() as int);
    lemma_ref_count_upto_from_pkg(pkgs, n, i, pkgs.len() as int);
}

/// When exactly one package of a well-formed graph is unreferenced, it is the
/// root. Together with `build`'s contract (`Ok` exactly on buildable sets,
/// and the returned graph is well-formed over the given packages), this says:
/// a resolvable package set with a unique unreferenced package builds
/// successfully, and that package becomes the root.
pub proof fn lemma_unique_unreferenced_is_root(g: Graph, i: int)
    requires
        g.wf(),
        0 <= i < g.pkgs().len(),
        ref_count(g.pkgs(), g.pkgs()[i].name) == 0,
        forall|j: int|
            0 <= j < g.pkgs().len() && j != i ==> ref_count(
                g.pkgs(),
                (#[trigger] g.pkgs()[j]).name,
            ) != 0,
    ensures
        g.root as int == i,
{
    if g.root as int != i {
        assert(ref_count(g.pkgs(), g.pkgs()[g.root as int].name) == 0);
    }
}

/// The root of a well-formed graph is an unreferenced package, and is the
/// lexicographically last one when several packages are unreferenced. (When
/// none is, `build` returns the no-root error instead: see its contract.)
pub proof fn lemma_root_is_lex_last_unreferenced(g: Graph)
    requires
        g.wf(),
    ensures
        ref_count(g.pkgs(), g.pkgs()[g.root as int].name) == 0,
        forall|i: int|
            0 <= i < g.pkgs().len() && i != g.root as int && ref_count(
                g.pkgs(),
                (#[trigger] g.pkgs()[i]).name,
            ) == 0 ==> lex_lt(g.pkgs()[i].name, g.pkgs()[g.root as int].name),
{
    assert forall|i: int|
        0 <= i < g.pkgs().len() && i != g.root as int && ref_count(
            g.pkgs(),
            (#[trigger] g.pkgs()[i]).name,
        ) == 0 implies lex_lt(g.pkgs()[i].name, g.pkgs()[g.root as int].name) by {
        assert(g.referenced@[i] as nat == ref_count(g.pkgs(), g.pkgs()[i].name));
    }
}

/// Builds the dependency graph of an already-resolved package set: one node
/// per package, edges following the declared dependency names, a reference
/// count per node, and as root the lexicographically last node that no other
/// package references. Fails on a repeated package name, on a dependency name
/// that resolves to no package, and when no package is unreferenced.
pub fn build(packages: Vec<Package>) -> (res: Result<Graph, BuildError>)
    requires
        total_deps(packages.deep_view()) <= usize::MAX,
        packages.deep_view().len() < usize::MAX,
    ensures
        res is Ok <==> buildable(packages.deep_view()),
        match res {
            Ok(g) => g.pkgs() == packages.deep_view() && g.wf(),
            Err(e) => build_error_spec(packages.deep_view(), e),
        },
{
    let ghost pkgs = packages.deep_view();
    let n = packages.len();

    // Reject repeated names.
    let mut i: usize = 0;
    while i < n
        invariant
            i <= n,
            n == packages@.len(),
            pkgs == packages.deep_view(),
            forall|k: int| 0 <= k < i as int ==> !dup_at(pkgs, k),
        decreases n - i,
    {
        let mut j: usize = 0;
        while j < i
            invariant
                j <= i,
                i < n,
                n == packages@.len(),
                pkgs == packages.deep_view(),
                forall|k: int| 0 <= k < i as int ==> !dup_at(pkgs, k),
                forall|k: int| 0 <= k < j as int ==> pkgs[k].name != pkgs[i as int].name,
            decreases i - j,
        {
            if packages[j].name == packages[i].name {
                proof {
                    assert(pkgs[j as int].name == packages@[j as int].name@);
                    assert(pkgs[i as int].name == packages@[i as int].name@);
                    assert(dup_at(pkgs, i as int));
                    assert(!unique_names(pkgs));
                    assert(is_first_duplicate(pkgs, pkgs[i as int].name));
                }
                return Err(BuildError::DuplicateName(packages[i].name.clone()));
            }
            j += 1;
        }
        proof {
            assert(!dup_at(pkgs, i as int));
        }
        i += 1;
    }
    proof {
        assert forall|a: int, b: int| 0 <= a < b < pkgs.len() implies pkgs[a].name != pkgs[b].name by {
            assert(!dup_at(pkgs, b));
        }
    }

    // Resolve edges and count incoming references.
    let mut referenced: Vec<usize> = Vec::new();
    let mut z: usize = 0;
    while z < n
        invariant
            z <= n,
            referenced@.len() == z as int,
            forall|t: int| 0 <= t < z as int ==> referenced@[t] == 0,
        decreases n - z,
    {
        referenced.push(0);
        z += 1;
    }

    let mut deps: Vec<Vec<usize>> = Vec::new();
    let mut i: usize = 0;
    while i < n
        invariant
            i <= n,
            n == packages@.len(),
            pkgs == packages.deep_view(),
            total_deps(pkgs) <= usize::MAX,
            unique_names(pkgs),
            deps@.len() == i as int,
            referenced@.len() == n as int,
            forall|a: int| 0 <= a < i as int ==> (#[trigger] deps@[a]@).len() == pkgs[a].dependencies.len(),
            forall|a: int, b: int|
                0 <= a < i as int && 0 <= b < deps@[a]@.len() ==> ((#[trigger] deps@[a]@[b]) as int)
                    < n as int && pkgs[deps@[a]@[b] as int].name == pkgs[a].dependencies[b],
            forall|t: int|
                0 <= t < n as int ==> (#[trigger] referenced@[t]) as nat == ref_count_upto(
                    pkgs,
                    pkgs[t].name,
                    i as int,
                ),
        decreases n - i,
    {
        let deps_i_len = packages[i].dependencies.len();
        let mut row: Vec<usize> = Vec::new();
        let mut j: usize = 0;
        while j < deps_i_len
            invariant
                j <= deps_i_len,
                i < n,
                n == packages@.len(),
                pkgs == packages.deep_view(),
                deps_i_len == pkgs[i as int].dependencies.len(),
                total_deps(pkgs) <= usize::MAX,
                unique_names(pkgs),
                referenced@.len() == n as int,
                row@.len() == j as int,
                deps@.len() == i as int,
                forall|a: int|
                    0 <= a < i as int ==> (#[trigger] deps@[a]@).len() == pkgs[a].dependencies.len(),
                forall|a: int, b: int|
                    0 <= a < i as int && 0 <= b < deps@[a]@.len() ==> ((
                    #[trigger] deps@[a]@[b]) as int) < n as int && pkgs[deps@[a]@[b] as int].name
                        == pkgs[a].dependencies[b],
                forall|b: int|
                    0 <= b < j as int ==> ((#[trigger] row@[b]) as int) < n as int && pkgs[row@[b] as int].name
                        == pkgs[i as int].dependencies[b],
                forall|t: int|
                    0 <= t < n as int ==> (#[trigger] referenced@[t]) as nat == ref_count_upto(
                        pkgs,
                        pkgs[t].name,
                        i as int,
                    ) + count_refs_upto(pkgs[i as int].dependencies, pkgs[t].name, j as int),
            decreases deps_i_len - j,
        {
            let dep_name = &packages[i].dependencies[j];
            proof {
                assert(dep_name@ == pkgs[i as int].dependencies[j as int]);
            }
            match find_index(&packages, dep_name) {
                None => {
                    proof {
                        assert(unresolved_at(pkgs, i as int, j as int));
                        assert(!all_deps_resolvable(pkgs));
                        assert forall|i2: int, j2: int|
                            unresolved_at(pkgs, i2, j2) implies i2 > i as int || (i2 == i as int
                            && j2 >= j as int) by {
                            if i2 < i as int {
                                assert(has_name(pkgs, pkgs[i2].dependencies[j2])) by {
                                    assert(pkgs[deps@[i2]@[j2] as int].name
                                        == pkgs[i2].dependencies[j2]);
                                }
                            } else if i2 == i as int && j2 < j as int {
                                assert(has_name(pkgs, pkgs[i2].dependencies[j2])) by {
                                    assert(pkgs[row@[j2] as int].name == pkgs[i2].dependencies[j2]);
                                }
                            }
                        }
                        assert(is_first_unresolved(pkgs, pkgs[i as int].dependencies[j as int]));
                    }
                    return Err(BuildError::DependencyNotFound(dep_name.clone()));
                },
                Some(t) => {
                    proof {
                        lemma_ref_count_upto_le_total(pkgs, pkgs[t as int].name, i as int);
                        lemma_count_refs_upto_le(
                            pkgs[i as int].dependencies,
                            pkgs[t as int].name,
                            j as int,
                        );
                        lemma_total_deps_upto_mono(pkgs, i as int + 1, pkgs.len() as int);
                        assert(total_deps_upto(pkgs, i as int + 1) == total_deps_upto(pkgs, i as int)
                            + pkgs[i as int].dependencies.len());
                        assert((referenced@[t as int] as int) < usize::MAX as int);
                    }
                    let c = referenced[t];
                    let ghost old_referenced = referenced@;
                    referenced.set(t, c + 1);
                    row.push(t);
                    proof {
                        let dn = pkgs[i as int].dependencies[j as int];
                        assert forall|u: int| 0 <= u < n as int implies (#[trigger] referenced@[u]) as nat
                            == ref_count_upto(pkgs, pkgs[u].name, i as int) + count_refs_upto(
                            pkgs[i as int].dependencies,
                            pkgs[u].name,
                            j as int + 1,
                        ) by {
                            assert(count_refs_upto(pkgs[i as int].dependencies, pkgs[u].name, j as int + 1)
                                == count_refs_upto(pkgs[i as int].dependencies, pkgs[u].name, j as int)
                                + (if pkgs[i as int].dependencies[j as int] == pkgs[u].name { 1nat } else { 0nat }));
                            if u == t as int {
                                assert(pkgs[u].name == dn);
                            } else {
                                assert(referenced@[u] == old_referenced[u]);
                                assert(pkgs[u].name != dn) by {
                                    if pkgs[u].name == dn {
                                        assert(pkgs[u].name == pkgs[t as int].name);
                                        if u < t as int {
                                            assert(pkgs[u].name != pkgs[t as int].name);
                                        } else {
                                            assert(pkgs[t as int].name != pkgs[u].name);
                                        }
                                    }
                                }
                            }
                        }
                    }
                },
            }
            j += 1;
        }
        deps.push(row);
        i += 1;
        proof {
            assert forall|t: int| 0 <= t < n as int implies (#[trigger] referenced@[t]) as nat
                == ref_count_upto(pkgs, pkgs[t].name, i as int) by {
                assert(ref_count_upto(pkgs, pkgs[t].name, i as int) == ref_count_upto(
                    pkgs,
                    pkgs[t].name,
                    i as int - 1,
                ) + count_refs_in(pkgs[i as int - 1], pkgs[t].name));
            }
        }
    }

    // Select as root the lexicographically last unreferenced node.
    let mut best: Option<usize> = None;
    let mut i: usize = 0;
    while i < n
        invariant
            i <= n,
            n == packages@.len(),
            pkgs == packages.deep_view(),
            unique_names(pkgs),
            referenced@.len() == n as int,
            forall|t: int|
                0 <= t < n as int ==> (#[trigger] referenced@[t]) as nat == ref_count(
                    pkgs,
                    pkgs[t].name,
                ),
            match best {
                None => forall|t: int| 0 <= t < i as int ==> (#[trigger] referenced@[t]) != 0,
                Some(b) => (b as int) < i as int && referenced@[b as int] == 0 && forall|t: int|
                    0 <= t < i as int && t != b as int && (#[trigger] referenced@[t]) == 0
                        ==> lex_lt(pkgs[t].name, pkgs[b as int].name),
            },
        decreases n - i,
    {
        if referenced[i] == 0 {
            match best {
                None => {
                    best = Some(i);
                },
                Some(b) => {
                    if str_lt(packages[b].name.as_str(), packages[i].name.as_str()) {
                        proof {
                            assert forall|t: int|
                                0 <= t < i as int + 1 && t != i as int && (
                                #[trigger] referenced@[t]) == 0 implies lex_lt(
                                pkgs[t].name,
                                pkgs[i as int].name,
                            ) by {
                                if t != b as int {
                                    lemma_lex_lt_trans(
                                        pkgs[t].name,
                                        pkgs[b as int].name,
                                        pkgs[i as int].name,
                                    );
                                }
                            }
                        }
                        best = Some(i);
                    } else {
                        proof {
                            assert(pkgs[b as int].name != pkgs[i as int].name);
                            lemma_lex_lt_total(pkgs[b as int].name, pkgs[i as int].name);
                        }
                    }
                },
            }
        }
        i += 1;
    }
    match best {
        None => {
            proof {
                assert(!has_unreferenced(pkgs)) by {
                    if has_unreferenced(pkgs) {
                        let w = choose|w: int|
                            0 <= w < pkgs.len() && ref_count(pkgs, pkgs[w].name) == 0;
                        assert(referenced@[w] != 0);
                    }
                }
                assert(all_deps_resolvable(pkgs)) by {
                    assert forall|a: int, b: int|
                        0 <= a < pkgs.len() && 0 <= b < pkgs[a].dependencies.len() implies has_name(
                        pkgs,
                        pkgs[a].dependencies[b],
                    ) by {
                        assert(pkgs[deps@[a]@[b] as int].name == pkgs[a].dependencies[b]);
                    }
                }
            }
            Err(BuildError::NoRootPackage)
        },
        Some(r) => {
            let g = Graph { packages, deps, referenced, root: r };
            proof {
                assert(g.pkgs() == pkgs);
                assert(g.wf_basic());
                assert(g.edges_match());
                assert(g.counts_match());
                assert(g.root_ok());
                assert(all_deps_resolvable(pkgs)) by {
                    assert forall|a: int, b: int|
                        0 <= a < pkgs.len() && 0 <= b < pkgs[a].dependencies.len() implies has_name(
                        pkgs,
                        pkgs[a].dependencies[b],
                    ) by {
                        assert(pkgs[g.deps@[a]@[b] as int].name == pkgs[a].dependencies[b]);
                    }
                }
                assert(has_unreferenced(pkgs)) by {
                    assert(ref_count(pkgs, pkgs[g.root as int].name) == 0);
                }
            }
            Ok(g)
        },
    }
}

} // verus!
