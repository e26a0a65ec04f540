use vstd::prelude::*;
use vstd::set_lib::lemma_len_subset;
use crate::configuration::Configuration;
use crate::graph::Graph;
use crate::package::{has_name, Package, PackageView};

verus! {

broadcast use vstd::set::group_set_axioms, vstd::seq_lib::seq_to_set_is_finite;

/// The names of the packages in `s`, as a set.
pub open spec fn name_set(s: Seq<PackageView>) -> Set<Seq<char>> {
    s.map_values(|p: PackageView| p.name).to_set()
}

/// How many package names of `g` do not yet occur in `acc`.
pub open spec fn unvisited(g: Graph, acc: Seq<PackageView>) -> nat {
    name_set(g.pkgs()).difference(name_set(acc)).len()
}

/// Whether the walk stops before a node at depth `d`: the root sits at depth
/// zero, its direct dependencies at depth one, and a node deeper than the
/// configured maximum is neither listed nor descended into.
pub open spec fn cut_off(cfg: Configuration, d: nat) -> bool {
    match cfg.maximum_depth {
        Some(m) => d > m as nat,
        None => false,
    }
}

/// One node visit of the depth-first, deduplicating, depth-bounded pre-order
/// walk: stop on the depth bound or on an already-collected name; otherwise
/// append this node's package (the root only when so configured) and walk its
/// dependencies in declared order. The fuel only bounds the recursion; any
/// amount at least `node_fuel` yields the same value.
pub open spec fn flatten_node(
    g: Graph,
    cfg: Configuration,
    v: int,
    d: nat,
    acc: Seq<PackageView>,
    fuel: nat,
) -> Seq<PackageView>
    decreases fuel, 0nat, 0nat,
{
    if fuel == 0 {
        acc
    } else if cut_off(cfg, d) {
        acc
    } else if has_name(acc, g.pkgs()[v].name) {
        acc
    } else if d > 0 || cfg.include_root {
        flatten_children(g, cfg, v, 0, d, acc.push(g.pkgs()[v]), (fuel - 1) as nat)
    } else {
        flatten_children(g, cfg, v, 0, d, acc, (fuel - 1) as nat)
    }
}

/// The walk over the remaining dependencies `k..` of node `v`.
pub open spec fn flatten_children(
    g: Graph,
    cfg: Configuration,
    v: int,
    k: int,
    d: nat,
    acc: Seq<PackageView>,
    fuel: nat,
) -> Seq<PackageView>
    decreases fuel, 1nat, g.deps@[v]@.len() - k,
{
    if k < 0 || k >= g.deps@[v]@.len() {
        acc
    } else {
        let acc2 = flatten_node(g, cfg, g.deps@[v]@[k] as int, d + 1, acc, fuel);
        flatten_children(g, cfg, v, k + 1, d, acc2, fuel)
    }
}

/// Enough fuel for a node visit at depth `d` with accumulator `acc`.
pub open spec fn node_fuel(g: Graph, acc: Seq<PackageView>, d: nat) -> nat {
    unvisited(g, acc) + (if d == 0 {
        2nat
    } else {
        1nat
    })
}

/// The flattened sequence of a graph under a configuration: the walk from the
/// root, at depth zero, with nothing collected yet.
pub open spec fn flatten_spec(g: Graph, cfg: Configuration) -> Seq<PackageView> {
    flatten_node(g, cfg, g.root as int, 0, Seq::empty(), node_fuel(g, Seq::empty(), 0))
}

proof fn lemma_name_set_contains_index(s: Seq<PackageView>, i: int)
    requires
        0 <= i < s.len(),
    ensures
        name_set(s).contains(s[i].name),
{
    let nm = |p: PackageView| p.name;
    assert(s.map_values(nm)[i] == s[i].name);
    assert(s.map_values(nm).contains(s[i].name));
}

proof fn lemma_has_name_iff(s: Seq<PackageView>, n: Seq<char>)
    ensures
        has_name(s, n) <==> name_set(s).contains(n),
{
    let nm = |p: PackageView| p.name;
    if has_name(s, n) {
        let i = choose|i: int| 0 <= i < s.len() && s[i].name == n;
        lemma_name_set_contains_index(s, i);
    }
    if name_set(s).contains(n) {
        assert(s.map_values(nm).contains(n));
        let i = choose|i: int| 0 <= i < s.map_values(nm).len() && s.map_values(nm)[i] == n;
        assert(s[i].name == n);
    }
}

proof fn lemma_unvisited_le(g: Graph, acc: Seq<PackageView>)
    ensures
        unvisited(g, acc) <= g.pkgs().len(),
{
    let big = name_set(g.pkgs());
    let diff = big.difference(name_set(acc));
    assert(diff.subset_of(big));
    lemma_len_subset(diff, big);
    g.pkgs().map_values(|p: PackageView| p.name).lemma_cardinality_of_set();
}

proof fn lemma_unvisited_prefix(g: Graph, acc: Seq<PackageView>, r: Seq<PackageView>)
    requires
        acc.len() <= r.len(),
        r.take(acc.len() as int) == acc,
    ensures
        unvisited(g, r) <= unvisited(g, acc),
{
    let big = name_set(g.pkgs());
    assert forall|x: Seq<char>| name_set(acc).contains(x) implies name_set(r).contains(x) by {
        lemma_has_name_iff(acc, x);
        lemma_has_name_iff(r, x);
        let i = choose|i: int| 0 <= i < acc.len() && acc[i].name == x;
        assert(r[i] == r.take(acc.len() as int)[i]);
        assert(r[i].name == x);
    }
    assert(big.difference(name_set(r)).subset_of(big.difference(name_set(acc))));
    lemma_len_subset(big.difference(name_set(r)), big.difference(name_set(acc)));
}

proof fn lemma_unvisited_push_lt(g: Graph, acc: Seq<PackageView>, p: PackageView)
    requires
        name_set(g.pkgs()).contains(p.name),
        !has_name(acc, p.name),
    ensures
        unvisited(g, acc.push(p)) < unvisited(g, acc),
{
    let big = name_set(g.pkgs());
    lemma_has_name_iff(acc, p.name);
    assert(name_set(acc.push(p)) =~= name_set(acc).insert(p.name)) by {
        assert forall|x: Seq<char>|
            name_set(acc.push(p)).contains(x) <==> name_set(acc).insert(p.name).contains(x) by {
            lemma_has_name_iff(acc.push(p), x);
            lemma_has_name_iff(acc, x);
            if has_name(acc.push(p), x) {
                let i = choose|i: int| 0 <= i < acc.push(p).len() && acc.push(p)[i].name == x;
                if i < acc.len() {
                    assert(acc.push(p)[i] == acc[i]);
                    assert(has_name(acc, x));
                } else {
                    assert(acc.push(p)[i] == p);
                }
            }
            if has_name(acc, x) {
                let i = choose|i: int| 0 <= i < acc.len() && acc[i].name == x;
                assert(acc.push(p)[i] == acc[i]);
                assert(has_name(acc.push(p), x));
            }
            if x == p.name {
                assert(acc.push(p)[acc.len() as int] == p);
                assert(has_name(acc.push(p), x));
            }
        }
    }
    big.lemma_set_insert_diff_decreases(name_set(acc), p.name);
}

/// The walk only appends: `acc` is a prefix of the result, every appended
/// entry is a package of the graph, and every appended entry's name differs
/// from that of every entry before it.
pub proof fn lemma_flatten_node_extends(
    g: Graph,
    cfg: Configuration,
    v: int,
    d: nat,
    acc: Seq<PackageView>,
    fuel: nat,
)
    requires
        g.wf_basic(),
        0 <= v < g.pkgs().len(),
    ensures
        ({
            let r = flatten_node(g, cfg, v, d, acc, fuel);
            &&& r.len() >= acc.len()
            &&& r.take(acc.len() as int) == acc
            &&& forall|m: int|
                acc.len() <= m < r.len() ==> exists|t: int|
                    0 <= t < g.pkgs().len() && #[trigger] r[m] == g.pkgs()[t]
            &&& forall|m: int, m2: int|
                acc.len() <= m < r.len() && 0 <= m2 < m ==> (#[trigger] r[m]).name != (
                #[trigger] r[m2]).name
        }),
    decreases fuel, 0nat, 0nat,
{
    let r = flatten_node(g, cfg, v, d, acc, fuel);
    if fuel == 0 || cut_off(cfg, d) || has_name(acc, g.pkgs()[v].name) {
        assert(r == acc);
        assert(r.take(acc.len() as int) =~= acc);
    } else {
        let p = g.pkgs()[v];
        let inserted = d > 0 || cfg.include_root;
        let acc2 = if inserted {
            acc.push(p)
        } else {
            acc
        };
        lemma_flatten_children_extends(g, cfg, v, 0, d, acc2, (fuel - 1) as nat);
        assert(r == flatten_children(g, cfg, v, 0, d, acc2, (fuel - 1) as nat));
        assert(acc2.take(acc.len() as int) =~= acc);
        assert(r.take(acc.len() as int) =~= r.take(acc2.len() as int).take(acc.len() as int));
        assert(r.take(acc.len() as int) == acc);
        assert forall|m: int| acc.len() <= m < r.len() implies exists|t: int|
            0 <= t < g.pkgs().len() && #[trigger] r[m] == g.pkgs()[t] by {
            if m < acc2.len() {
                assert(r[m] == r.take(acc2.len() as int)[m]);
                assert(r[m] == p);
                assert(r[m] == g.pkgs()[v]);
            } else {
                let t = choose|t: int| 0 <= t < g.pkgs().len() && r[m] == g.pkgs()[t];
                assert(r[m] == g.pkgs()[t]);
            }
        }
        assert forall|m: int, m2: int|
            acc.len() <= m < r.len() && 0 <= m2 < m implies (#[trigger] r[m]).name != (
        #[trigger] r[m2]).name by {
            if m < acc2.len() {
                // only the pushed entry lies between `acc` and `acc2`
                assert(r[m] == r.take(acc2.len() as int)[m]);
                assert(r[m] == acc2[m]);
                assert(r[m] == p);
                assert(r[m2] == r.take(acc2.len() as int)[m2]);
                assert(r[m2] == acc2[m2]);
                assert(r[m2] == acc[m2]);
                assert(!has_name(acc, p.name));
                assert(acc[m2].name != p.name);
            } else {
                assert(acc2.len() <= m < r.len());
            }
        }
    }
}

/// As `lemma_flatten_node_extends`, for the walk over remaining children.
pub proof fn lemma_flatten_children_extends(
    g: Graph,
    cfg: Configuration,
    v: int,
    k: int,
    d: nat,
    acc: Seq<PackageView>,
    fuel: nat,
)
    requires
        g.wf_basic(),
        0 <= v < g.pkgs().len(),
    ensures
        ({
            let r = flatten_children(g, cfg, v, k, d, acc, fuel);
            &&& r.len() >= acc.len()
            &&& r.take(acc.len() as int) == acc
            &&& forall|m: int|
                acc.len() <= m < r.len() ==> exists|t: int|
                    0 <= t < g.pkgs().len() && #[trigger] r[m] == g.pkgs()[t]
            &&& forall|m: int, m2: int|
                acc.len() <= m < r.len() && 0 <= m2 < m ==> (#[trigger] r[m]).name != (
                #[trigger] r[m2]).name
        }),
    decreases fuel, 1nat, g.deps@[v]@.len() - k,
{
    let r = flatten_children(g, cfg, v, k, d, acc, fuel);
    if k < 0 || k >= g.deps@[v]@.len() {
        assert(r.take(acc.len() as int) =~= acc);
    } else {
        let child = g.deps@[v]@[k] as int;
        assert(0 <= child < g.pkgs().len());
        lemma_flatten_node_extends(g, cfg, child, d + 1, acc, fuel);
        let acc2 = flatten_node(g, cfg, child, d + 1, acc, fuel);
        lemma_flatten_children_extends(g, cfg, v, k + 1, d, acc2, fuel);
        assert(r == flatten_children(g, cfg, v, k + 1, d, acc2, fuel));
        assert(r.take(acc.len() as int) =~= r.take(acc2.len() as int).take(acc.len() as int));
        assert(r.take(acc.len() as int) == acc);
        assert forall|m: int| acc.len() <= m < r.len() implies exists|t: int|
            0 <= t < g.pkgs().len() && #[trigger] r[m] == g.pkgs()[t] by {
            if m < acc2.len() {
                assert(r[m] == r.take(acc2.len() as int)[m]);
                assert(r[m] == acc2[m]);
                let t = choose|t: int| 0 <= t < g.pkgs().len() && acc2[m] == g.pkgs()[t];
                assert(r[m] == g.pkgs()[t]);
            } else {
                let t = choose|t: int| 0 <= t < g.pkgs().len() && r[m] == g.pkgs()[t];
                assert(r[m] == g.pkgs()[t]);
            }
        }
        assert forall|m: int, m2: int|
            acc.len() <= m < r.len() && 0 <= m2 < m implies (#[trigger] r[m]).name != (
        #[trigger] r[m2]).name by {
            if m < acc2.len() {
                assert(r[m] == r.take(acc2.len() as int)[m]);
                assert(r[m] == acc2[m]);
                assert(r[m2] == r.take(acc2.len() as int)[m2]);
                assert(r[m2] == acc2[m2]);
            } else {
                assert(acc2.len() <= m < r.len());
            }
        }
    }
}

/// Any two sufficient fuels give the same walk result: the fuel is a proof
/// device, not part of the walk's meaning.
pub proof fn lemma_flatten_node_fuel(
    g: Graph,
    cfg: Configuration,
    v: int,
    d: nat,
    acc: Seq<PackageView>,
    f1: nat,
    f2: nat,
)
    requires
        g.wf_basic(),
        0 <= v < g.pkgs().len(),
        f1 >= node_fuel(g, acc, d),
        f2 >= node_fuel(g, acc, d),
    ensures
        flatten_node(g, cfg, v, d, acc, f1) == flatten_node(g, cfg, v, d, acc, f2),
    decreases f1, 0nat, 0nat,
{
    if cut_off(cfg, d) || has_name(acc, g.pkgs()[v].name) {
    } else {
        let p = g.pkgs()[v];
        let inserted = d > 0 || cfg.include_root;
        let acc2 = if inserted {
            acc.push(p)
        } else {
            acc
        };
        if inserted {
            lemma_name_set_contains_index(g.pkgs(), v);
            lemma_unvisited_push_lt(g, acc, p);
        }
        lemma_flatten_children_fuel(g, cfg, v, 0, d, acc2, (f1 - 1) as nat, (f2 - 1) as nat);
    }
}

/// As `lemma_flatten_node_fuel`, for the walk over remaining children.
pub proof fn lemma_flatten_children_fuel(
    g: Graph,
    cfg: Configuration,
    v: int,
    k: int,
    d: nat,
    acc: Seq<PackageView>,
    f1: nat,
    f2: nat,
)
    requires
        g.wf_basic(),
        0 <= v < g.pkgs().len(),
        f1 >= unvisited(g, acc) + 1,
        f2 >= unvisited(g, acc) + 1,
    ensures
        flatten_children(g, cfg, v, k, d, acc, f1) == flatten_children(g, cfg, v, k, d, acc, f2),
    decreases f1, 1nat, g.deps@[v]@.len() - k,
{
    if k < 0 || k >= g.deps@[v]@.len() {
    } else {
        let child = g.deps@[v]@[k] as int;
        assert(0 <= child < g.pkgs().len());
        lemma_flatten_node_fuel(g, cfg, child, (d + 1) as nat, acc, f1, f2);
        let acc2 = flatten_node(g, cfg, child, d + 1, acc, f1);
        assert(flatten_node(g, cfg, child, d + 1, acc, f2) == acc2);
        lemma_flatten_node_extends(g, cfg, child, d + 1, acc, f1);
        lemma_unvisited_prefix(g, acc, acc2);
        lemma_flatten_children_fuel(g, cfg, v, k + 1, d, acc2, f1, f2);
    }
}

/// Whether some already-collected package carries this name.
fn contains_name(result: &Vec<Package>, name: &String) -> (r: bool)
    ensures
        r == has_name(result.deep_view(), name@),
{
    let n = result.len();
    let mut i: usize = 0;
    while i < n
        invariant
            i <= n,
            n == result@.len(),
            forall|k: int| 0 <= k < i as int ==> result.deep_view()[k].name != name@,
        decreases n - i,
    {
        if result[i].name == *name {
            proof {
                assert(result.deep_view()[i as int].name == result@[i as int].name@);
            }
            return true;
        }
        proof {
            assert(result.deep_view()[i as int].name == result@[i as int].name@);
        }
        i += 1;
    }
    false
}

/// One node visit of the executable walk; mirrors `flatten_node` exactly.
#[verifier::loop_isolation(false)]
fn flatten_rec(
    g: &Graph,
    cfg: &Configuration,
    v: usize,
    d: usize,
    result: Vec<Package>,
) -> (r: Vec<Package>)
    requires
        g.wf_basic(),
        (v as int) < g.pkgs().len(),
        d as int + unvisited(*g, result.deep_view()) <= g.packages@.len() + 1,
    ensures
        r.deep_view() == flatten_node(
            *g,
            *cfg,
            v as int,
            d as nat,
            result.deep_view(),
            node_fuel(*g, result.deep_view(), d as nat),
        ),
    decreases unvisited(*g, result.deep_view()), (if d == 0 {
        1int
    } else {
        0int
    }),
{
    let ghost acc0 = result.deep_view();
    let ghost fuel0 = node_fuel(*g, acc0, d as nat);

    if let Some(m) = cfg.maximum_depth {
        if d > m {
            proof {
                assert(cut_off(*cfg, d as nat));
            }
            return result;
        }
    }
    proof {
        assert(!cut_off(*cfg, d as nat));
    }

    let node_name = &g.packages[v].name;
    proof {
        assert(node_name@ == g.pkgs()[v as int].name);
    }
    if contains_name(&result, node_name) {
        return result;
    }

    let mut res = result;
    let ghost mut acc1 = acc0;
    if d > 0 || cfg.include_root {
        let p = g.packages[v].duplicate();
        res.push(p);
        proof {
            acc1 = acc0.push(g.pkgs()[v as int]);
            assert(p@ == g.pkgs()[v as int]);
            assert(res.deep_view() =~= acc1);
            lemma_name_set_contains_index(g.pkgs(), v as int);
            lemma_unvisited_push_lt(*g, acc0, g.pkgs()[v as int]);
        }
    }
    let ghost fuel1 = (fuel0 - 1) as nat;
    proof {
        assert(fuel0 >= 1);
        assert(flatten_node(*g, *cfg, v as int, d as nat, acc0, fuel0) == flatten_children(
            *g,
            *cfg,
            v as int,
            0,
            d as nat,
            acc1,
            fuel1,
        ));
        lemma_unvisited_le(*g, acc0);
        assert(g.pkgs().len() == g.packages@.len());
    }

    let num = g.deps[v].len();
    let mut k: usize = 0;
    while k < num
        invariant
            g.wf_basic(),
            (v as int) < g.pkgs().len(),
            num == g.deps@[v as int]@.len(),
            k <= num,
            fuel1 >= unvisited(*g, res.deep_view()) + 1,
            d as int + 1 + unvisited(*g, res.deep_view()) <= g.packages@.len() + 1,
            flatten_node(*g, *cfg, v as int, d as nat, acc0, fuel0) == flatten_children(
                *g,
                *cfg,
                v as int,
                k as int,
                d as nat,
                res.deep_view(),
                fuel1,
            ),
            unvisited(*g, res.deep_view()) <= unvisited(*g, acc1),
            d as int >= 1 ==> unvisited(*g, acc1) < unvisited(*g, acc0),
            unvisited(*g, acc1) <= unvisited(*g, acc0),
        decreases num - k,
    {
        let child = g.deps[v][k];
        proof {
            assert((child as int) < g.pkgs().len());
            assert(node_fuel(*g, res.deep_view(), (d + 1) as nat) == unvisited(
                *g,
                res.deep_view(),
            ) + 1);
            lemma_flatten_node_fuel(
                *g,
                *cfg,
                child as int,
                (d + 1) as nat,
                res.deep_view(),
                fuel1,
                node_fuel(*g, res.deep_view(), (d + 1) as nat),
            );
        }
        let ghost prev = res.deep_view();
        res = flatten_rec(g, cfg, child, d + 1, res);
        proof {
            lemma_flatten_node_extends(
                *g,
                *cfg,
                child as int,
                (d + 1) as nat,
                prev,
                node_fuel(*g, prev, (d + 1) as nat),
            );
            lemma_unvisited_prefix(*g, prev, res.deep_view());
        }
        k += 1;
    }
    proof {
        assert(flatten_children(*g, *cfg, v as int, k as int, d as nat, res.deep_view(), fuel1)
            == res.deep_view());
    }
    res
}

/// Walks the graph from its root in pre-order, listing each package once, in
/// first-visit order, under the configuration's root-inclusion flag and
/// optional maximum depth. A pure traversal: the result is a function of the
/// graph and the configuration alone.
pub fn flatten(g: &Graph, configuration: &Configuration) -> (r: Vec<Package>)
    requires
        g.wf_basic(),
    ensures
        r.deep_view() == flatten_spec(*g, *configuration),
{
    let result: Vec<Package> = Vec::new();
    proof {
        assert(result.deep_view() =~= Seq::<PackageView>::empty());
        lemma_unvisited_le(*g, Seq::empty());
        assert(g.pkgs().len() == g.packages@.len());
    }
    flatten_rec(g, configuration, g.root, 0, result)
}

proof fn lemma_no_root_node(
    g: Graph,
    cfg: Configuration,
    v: int,
    d: nat,
    acc: Seq<PackageView>,
    fuel: nat,
)
    requires
        g.wf(),
        !cfg.include_root,
        0 <= v < g.pkgs().len(),
        v != g.root as int || d == 0,
        forall|m: int|
            0 <= m < acc.len() ==> (#[trigger] acc[m]).name != g.pkgs()[g.root as int].name,
    ensures
        ({
            let r = flatten_node(g, cfg, v, d, acc, fuel);
            forall|m: int|
                0 <= m < r.len() ==> (#[trigger] r[m]).name != g.pkgs()[g.root as int].name
        }),
    decreases fuel, 0nat, 0nat,
{
    let r = flatten_node(g, cfg, v, d, acc, fuel);
    let rootname = g.pkgs()[g.root as int].name;
    if fuel == 0 || cut_off(cfg, d) || has_name(acc, g.pkgs()[v].name) {
    } else if d > 0 || cfg.include_root {
        // here v is not the root, so the appended name is not the root's
        assert(v != g.root as int);
        let acc2 = acc.push(g.pkgs()[v]);
        assert(g.pkgs()[v].name != rootname) by {
            if v < g.root as int {
                assert(g.pkgs()[v].name != g.pkgs()[g.root as int].name);
            } else {
                assert(g.pkgs()[g.root as int].name != g.pkgs()[v].name);
            }
        }
        assert(forall|m: int| 0 <= m < acc2.len() ==> (#[trigger] acc2[m]).name != rootname) by {
            assert(forall|m: int| 0 <= m < acc.len() ==> acc2[m] == (#[trigger] acc[m]));
            assert(acc2[acc.len() as int] == g.pkgs()[v]);
        }
        lemma_no_root_children(g, cfg, v, 0, d, acc2, (fuel - 1) as nat);
        let rc = flatten_children(g, cfg, v, 0, d, acc2, (fuel - 1) as nat);
        assert(r == rc);
        assert forall|m: int| 0 <= m < r.len() implies (#[trigger] r[m]).name != rootname by {
            assert(r[m] == rc[m]);
        }
    } else {
        lemma_no_root_children(g, cfg, v, 0, d, acc, (fuel - 1) as nat);
        let rc = flatten_children(g, cfg, v, 0, d, acc, (fuel - 1) as nat);
        assert(r == rc);
        assert forall|m: int| 0 <= m < r.len() implies (#[trigger] r[m]).name != rootname by {
            assert(r[m] == rc[m]);
        }
    }
}

proof fn lemma_no_root_children(
    g: Graph,
    cfg: Configuration,
    v: int,
    k: int,
    d: nat,
    acc: Seq<PackageView>,
    fuel: nat,
)
    requires
        g.wf(),
        !cfg.include_root,
        0 <= v < g.pkgs().len(),
        forall|m: int|
            0 <= m < acc.len() ==> (#[trigger] acc[m]).name != g.pkgs()[g.root as int].name,
    ensures
        ({
            let r = flatten_children(g, cfg, v, k, d, acc, fuel);
            forall|m: int|
                0 <= m < r.len() ==> (#[trigger] r[m]).name != g.pkgs()[g.root as int].name
        }),
    decreases fuel, 1nat, g.deps@[v]@.len() - k,
{
    let r = flatten_children(g, cfg, v, k, d, acc, fuel);
    let rootname = g.pkgs()[g.root as int].name;
    if k < 0 || k >= g.deps@[v]@.len() {
    } else {
        let child = g.deps@[v]@[k] as int;
        assert(0 <= child < g.pkgs().len());
        // no edge leads to the root: its name is referenced by nobody
        assert(child != g.root as int) by {
            if child == g.root as int {
                assert(g.pkgs()[child].name == g.pkgs()[v].dependencies[k]);
                crate::graph::lemma_declared_dep_ref_count_positive(g.pkgs(), v, k);
                assert(g.referenced@[g.root as int] as nat == crate::graph::ref_count(
                    g.pkgs(),
                    g.pkgs()[g.root as int].name,
                ));
            }
        }
        lemma_no_root_node(g, cfg, child, d + 1, acc, fuel);
        let acc2 = flatten_node(g, cfg, child, d + 1, acc, fuel);
        lemma_no_root_children(g, cfg, v, k + 1, d, acc2, fuel);
        let rc = flatten_children(g, cfg, v, k + 1, d, acc2, fuel);
        assert(r == rc);
        assert forall|m: int| 0 <= m < r.len() implies (#[trigger] r[m]).name != rootname by {
            assert(r[m] == rc[m]);
        }
    }
}

/// With root inclusion off, the root's own package never appears in the
/// flattened sequence, whatever the depth bound.
pub proof fn lemma_flatten_excludes_root(g: Graph, cfg: Configuration)
    requires
        g.wf(),
        !cfg.include_root,
    ensures
        forall|m: int|
            0 <= m < flatten_spec(g, cfg).len() ==> (#[trigger] flatten_spec(g, cfg)[m]).name
                != g.pkgs()[g.root as int].name,
{
    lemma_no_root_node(
        g,
        cfg,
        g.root as int,
        0,
        Seq::empty(),
        node_fuel(g, Seq::empty(), 0),
    );
}

/// With root inclusion on, the root's package is the first entry of the
/// flattened sequence.
pub proof fn lemma_flatten_includes_root_first(g: Graph, cfg: Configuration)
    requires
        g.wf_basic(),
        cfg.include_root,
    ensures
        flatten_spec(g, cfg).len() >= 1,
        flatten_spec(g, cfg)[0] == g.pkgs()[g.root as int],
{
    let fuel = node_fuel(g, Seq::empty(), 0);
    let acc1 = Seq::empty().push(g.pkgs()[g.root as int]);
    assert(!has_name(Seq::empty(), g.pkgs()[g.root as int].name));
    lemma_flatten_children_extends(g, cfg, g.root as int, 0, 0, acc1, (fuel - 1) as nat);
    let r = flatten_spec(g, cfg);
    assert(r[0] == r.take(acc1.len() as int)[0]);
}

proof fn lemma_depth_one_children(
    g: Graph,
    cfg: Configuration,
    k: int,
    acc: Seq<PackageView>,
    fuel: nat,
)
    requires
        g.wf_basic(),
        cfg.maximum_depth == Some(1usize),
        forall|m: int|
            0 <= m < acc.len() ==> (#[trigger] acc[m]) == g.pkgs()[g.root as int] || exists|j: int|
                0 <= j < g.deps@[g.root as int]@.len() && acc[m] == g.pkgs()[g.deps@[g.root as int]@[j] as int],
    ensures
        ({
            let r = flatten_children(g, cfg, g.root as int, k, 0, acc, fuel);
            forall|m: int|
                0 <= m < r.len() ==> (#[trigger] r[m]) == g.pkgs()[g.root as int] || exists|j: int|
                    0 <= j < g.deps@[g.root as int]@.len() && r[m] == g.pkgs()[g.deps@[g.root as int]@[j] as int]
        }),
    decreases g.deps@[g.root as int]@.len() - k,
{
    let root = g.root as int;
    let r = flatten_children(g, cfg, root, k, 0, acc, fuel);
    if k < 0 || k >= g.deps@[root]@.len() {
    } else {
        let child = g.deps@[root]@[k] as int;
        assert(0 <= child < g.pkgs().len());
        let acc2 = flatten_node(g, cfg, child, 1, acc, fuel);
        // a child visit at depth one appends at most its own package: its own
        // children sit at depth two, beyond the bound
        assert(forall|m: int|
            0 <= m < acc2.len() ==> (#[trigger] acc2[m]) == g.pkgs()[root] || exists|j: int|
                0 <= j < g.deps@[root]@.len() && acc2[m] == g.pkgs()[g.deps@[root]@[j] as int]) by {
            if fuel == 0 || has_name(acc, g.pkgs()[child].name) {
                assert(acc2 == acc);
            } else {
                let accp = acc.push(g.pkgs()[child]);
                assert(acc2 == flatten_children(g, cfg, child, 0, 1, accp, (fuel - 1) as nat));
                lemma_cutoff_children_identity(g, cfg, child, 0, 1, accp, (fuel - 1) as nat);
                assert(acc2 == accp);
                assert(forall|m: int|
                    0 <= m < acc.len() ==> accp[m] == (#[trigger] acc[m]));
                assert(accp[acc.len() as int] == g.pkgs()[g.deps@[root]@[k] as int]);
            }
        }
        lemma_depth_one_children(g, cfg, k + 1, acc2, fuel);
        let rc = flatten_children(g, cfg, root, k + 1, 0, acc2, fuel);
        assert(r == rc);
        assert forall|m: int|
            0 <= m < r.len() implies (#[trigger] r[m]) == g.pkgs()[root] || exists|j: int|
            0 <= j < g.deps@[root]@.len() && r[m] == g.pkgs()[g.deps@[root]@[j] as int] by {
            assert(r[m] == rc[m]);
        }
    }
}

proof fn lemma_cutoff_children_identity(
    g: Graph,
    cfg: Configuration,
    v: int,
    k: int,
    d: nat,
    acc: Seq<PackageView>,
    fuel: nat,
)
    requires
        g.wf_basic(),
        0 <= v < g.pkgs().len(),
        cut_off(cfg, (d + 1) as nat),
    ensures
        flatten_children(g, cfg, v, k, d, acc, fuel) == acc,
    decreases g.deps@[v]@.len() - k,
{
    if k < 0 || k >= g.deps@[v]@.len() {
    } else {
        assert(flatten_node(g, cfg, g.deps@[v]@[k] as int, d + 1, acc, fuel) == acc);
        lemma_cutoff_children_identity(g, cfg, v, k + 1, d, acc, fuel);
    }
}

/// With a depth bound of one, every entry of the flattened sequence is the
/// root's package (listed only when so configured) or one of the root's
/// direct dependencies: nothing deeper is reached.
pub proof fn lemma_flatten_depth_one(g: Graph, cfg: Configuration)
    requires
        g.wf_basic(),
        cfg.maximum_depth == Some(1usize),
    ensures
        forall|m: int|
            0 <= m < flatten_spec(g, cfg).len() ==> (#[trigger] flatten_spec(g, cfg)[m])
                == g.pkgs()[g.root as int] || exists|j: int|
                0 <= j < g.deps@[g.root as int]@.len() && flatten_spec(g, cfg)[m] == g.pkgs()[g.deps@[g.root as int]@[j] as int],
{
    let root = g.root as int;
    let fuel = node_fuel(g, Seq::empty(), 0);
    assert(!cut_off(cfg, 0));
    assert(!has_name(Seq::empty(), g.pkgs()[root].name));
    if cfg.include_root {
        let acc1 = Seq::empty().push(g.pkgs()[root]);
        assert(flatten_spec(g, cfg) == flatten_children(g, cfg, root, 0, 0, acc1, (fuel - 1) as nat));
        assert(acc1[0] == g.pkgs()[root]);
        lemma_depth_one_children(g, cfg, 0, acc1, (fuel - 1) as nat);
    } else {
        assert(flatten_spec(g, cfg) == flatten_children(
            g,
            cfg,
            root,
            0,
            0,
            Seq::empty(),
            (fuel - 1) as nat,
        ));
        lemma_depth_one_children(g, cfg, 0, Seq::empty(), (fuel - 1) as nat);
    }
}

proof fn lemma_depth_one_children_complete(
    g: Graph,
    cfg: Configuration,
    k: int,
    acc: Seq<PackageView>,
    fuel: nat,
)
    requires
        g.wf_basic(),
        cfg.maximum_depth == Some(1usize),
        fuel >= 1,
        0 <= k,
    ensures
        ({
            let r = flatten_children(g, cfg, g.root as int, k, 0, acc, fuel);
            forall|j: int|
                k <= j < g.deps@[g.root as int]@.len() ==> has_name(
                    r,
                    g.pkgs()[(#[trigger] g.deps@[g.root as int]@[j]) as int].name,
                )
        }),
    decreases g.deps@[g.root as int]@.len() - k,
{
    let root = g.root as int;
    let r = flatten_children(g, cfg, root, k, 0, acc, fuel);
    if k < 0 || k >= g.deps@[root]@.len() {
    } else {
        let child = g.deps@[root]@[k] as int;
        assert(0 <= child < g.pkgs().len());
        let acc2 = flatten_node(g, cfg, child, 1, acc, fuel);
        // after visiting child `k` at depth one, its name is collected
        assert(has_name(acc2, g.pkgs()[child].name)) by {
            assert(!cut_off(cfg, 1));
            if !has_name(acc, g.pkgs()[child].name) {
                let accp = acc.push(g.pkgs()[child]);
                lemma_cutoff_children_identity(g, cfg, child, 0, 1, accp, (fuel - 1) as nat);
                assert(acc2 == accp);
                assert(accp[acc.len() as int] == g.pkgs()[child]);
            }
        }
        lemma_depth_one_children_complete(g, cfg, k + 1, acc2, fuel);
        // later siblings only append, so the name stays collected
        lemma_flatten_children_extends(g, cfg, root, k + 1, 0, acc2, fuel);
        let rc = flatten_children(g, cfg, root, k + 1, 0, acc2, fuel);
        assert(r == rc);
        assert forall|j: int|
            k <= j < g.deps@[g.root as int]@.len() implies has_name(
            r,
            g.pkgs()[(#[trigger] g.deps@[g.root as int]@[j]) as int].name,
        ) by {
            if j == k {
                let i = choose|i: int|
                    0 <= i < acc2.len() && acc2[i].name == g.pkgs()[child].name;
                assert(rc[i] == rc.take(acc2.len() as int)[i]);
                assert(rc[i].name == g.pkgs()[child].name);
                assert(has_name(rc, g.pkgs()[child].name));
            } else {
                assert(has_name(rc, g.pkgs()[g.deps@[g.root as int]@[j] as int].name));
            }
        }
    }
}

/// With a depth bound of one, every direct dependency of the root is listed:
/// nothing at depth one is skipped.
pub proof fn lemma_flatten_depth_one_complete(g: Graph, cfg: Configuration)
    requires
        g.wf_basic(),
        cfg.maximum_depth == Some(1usize),
    ensures
        forall|j: int|
            0 <= j < g.deps@[g.root as int]@.len() ==> has_name(
                flatten_spec(g, cfg),
                g.pkgs()[(#[trigger] g.deps@[g.root as int]@[j]) as int].name,
            ),
{
    let root = g.root as int;
    let fuel = node_fuel(g, Seq::empty(), 0);
    assert(!cut_off(cfg, 0));
    assert(!has_name(Seq::empty(), g.pkgs()[root].name));
    if cfg.include_root {
        let acc1 = Seq::empty().push(g.pkgs()[root]);
        assert(flatten_spec(g, cfg) == flatten_children(
            g,
            cfg,
            root,
            0,
            0,
            acc1,
            (fuel - 1) as nat,
        ));
        lemma_depth_one_children_complete(g, cfg, 0, acc1, (fuel - 1) as nat);
    } else {
        assert(flatten_spec(g, cfg) == flatten_children(
            g,
            cfg,
            root,
            0,
            0,
            Seq::empty(),
            (fuel - 1) as nat,
        ));
        lemma_depth_one_children_complete(g, cfg, 0, Seq::empty(), (fuel - 1) as nat);
    }
}

/// No package name appears twice in the flattened sequence, however many
/// parents reference the package.
pub proof fn lemma_flatten_no_duplicate_names(g: Graph, cfg: Configuration)
    requires
        g.wf_basic(),
    ensures
        forall|m1: int, m2: int|
            0 <= m1 < m2 < flatten_spec(g, cfg).len() ==> (#[trigger] flatten_spec(g, cfg)[m1]).name
                != (#[trigger] flatten_spec(g, cfg)[m2]).name,
{
    lemma_flatten_node_extends(
        g,
        cfg,
        g.root as int,
        0,
        Seq::empty(),
        node_fuel(g, Seq::empty(), 0),
    );
}

/// Flattening is idempotent: any two results of `flatten` for the same graph
/// and configuration are the same sequence, in contents and in order. This
/// restates that `flatten`'s contract pins its result as a function of its
/// arguments alone.
pub proof fn lemma_flatten_idempotent(
    g: Graph,
    cfg: Configuration,
    r1: Seq<PackageView>,
    r2: Seq<PackageView>,
)
    requires
        r1 == flatten_spec(g, cfg),
        r2 == flatten_spec(g, cfg),
    ensures
        r1 == r2,
{
}

} // verus!
