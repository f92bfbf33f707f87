//! The audit of one package: what it fails to forward to its dependencies,
//! and the analysis that audits every package a walk comes to.

use vstd::prelude::*;
use vstd::string::*;
use crate::cli::AnalyzerInitiator;
use crate::graph::{
    contains_string, feature_index, feature_names, first_index, has_string,
    lemma_first_index_absent, lemma_first_index_found, node_ids, node_index, package_index,
    strings_view, Dependency, DependencyKind, Feature, GetById, Metadata, Node, NodeDep, Package,
    Resolve,
};
use crate::ledger::{appended, Ledger};
use crate::problem::{
    copy_strings, problems_view, Problem, ProblemCrate, ProblemCrateView, ProblemView,
};
use crate::shared::Shared;
use crate::text::{contains, is_substring, lemma_prefix_is_substring};
use crate::walk::lists;

verus! {

/// The edge is there for development only: tests, examples, benchmarks.
pub open spec fn is_dev_edge(d: NodeDep) -> bool {
    exists|k: int| 0 <= k < d.dep_kinds.len() && d.dep_kinds[k] == DependencyKind::Development
}

/// For each declared dependency, the name it is listed under if it was
/// renamed.
pub open spec fn renamed_names(deps: Seq<Dependency>) -> Seq<Option<Seq<char>>> {
    Seq::new(
        deps.len(),
        |i: int|
            if deps[i].rename is Some {
                Some(deps[i].name@)
            } else {
                None
            },
    )
}

/// The name under which `pkg` refers to the package called `name`: the rename
/// of the first renamed dependency on it, or else `name` itself.
pub open spec fn alias_of(pkg: Package, name: Seq<char>) -> Seq<char> {
    match first_index(renamed_names(pkg.dependencies@), Some(name)) {
        Some(i) => pkg.dependencies[i].rename->0@,
        None => name,
    }
}

/// One of the forwarding strings mentions `alias`.
pub open spec fn forwards(requirements: Seq<String>, alias: Seq<char>) -> bool {
    exists|i: int|
        0 <= i < requirements.len() && is_substring(alias, (#[trigger] requirements[i])@)
}

/// The default feature set of `dep` lists `flag`.
pub open spec fn activates_by_default(dep: Package, flag: Seq<char>) -> bool {
    match first_index(feature_names(dep.features@), "default"@) {
        Some(i) => has_string(dep.features[i].requirements@, flag),
        None => false,
    }
}

/// The entry `d` asks for the default features of the package called `name`.
pub open spec fn is_default_request(d: Dependency, name: Seq<char>, non_optional: bool) -> bool {
    d.name@ == name && d.uses_default_features && (non_optional ==> !d.optional)
}

/// `pkg` asks for the default features of `dep`, and these turn `flag` on.
/// With `non_optional`, only entries that are not optional count.
pub open spec fn requests_default(
    pkg: Package,
    dep: Package,
    flag: Seq<char>,
    non_optional: bool,
) -> bool {
    activates_by_default(dep, flag) && exists|i: int|
        0 <= i < pkg.dependencies.len() && is_default_request(
            #[trigger] pkg.dependencies[i],
            dep.name@,
            non_optional,
        )
}

/// The `std` feature of `pkg` has a forwarding string that mentions `alias`.
pub open spec fn forwards_std(pkg: Package, alias: Seq<char>) -> bool {
    match first_index(feature_names(pkg.features@), "std"@) {
        Some(i) => forwards(pkg.features[i].requirements@, alias),
        None => false,
    }
}

/// Whether the edge is there for development only.
pub fn is_dev(d: &NodeDep) -> (r: bool)
    ensures
        r == is_dev_edge(*d),
{
    let mut k: usize = 0;
    while k < d.dep_kinds.len()
        invariant
            k <= d.dep_kinds.len(),
            forall|j: int| 0 <= j < k ==> d.dep_kinds[j] != DependencyKind::Development,
        decreases d.dep_kinds.len() - k,
    {
        if d.dep_kinds[k] == DependencyKind::Development {
            return true;
        }
        k += 1;
    }
    false
}

/// The name under which `pkg` refers to the package called `name`.
pub fn alias<'a>(pkg: &'a Package, name: &'a str) -> (r: &'a str)
    ensures
        r@ == alias_of(*pkg, name@),
{
    let ghost keys = renamed_names(pkg.dependencies@);
    let mut i: usize = 0;
    while i < pkg.dependencies.len()
        invariant
            i <= pkg.dependencies.len(),
            keys == renamed_names(pkg.dependencies@),
            forall|j: int| 0 <= j < i ==> keys[j] != Some(name@),
        decreases pkg.dependencies.len() - i,
    {
        let d = &pkg.dependencies[i];
        if d.name.as_str().eq(name) {
            if let Some(rename) = &d.rename {
                proof {
                    lemma_first_index_found(keys, Some(name@), i as int);
                }
                return rename.as_str();
            }
        }
        i += 1;
    }
    proof {
        lemma_first_index_absent(keys, Some(name@));
    }
    name
}

/// Whether one of the forwarding strings mentions `alias`.
pub fn has_forwarding(requirements: &Vec<String>, alias: &str) -> (r: bool)
    ensures
        r == forwards(requirements@, alias@),
{
    let mut i: usize = 0;
    while i < requirements.len()
        invariant
            i <= requirements.len(),
            forall|j: int| 0 <= j < i ==> !is_substring(alias@, (#[trigger] requirements@[j])@),
        decreases requirements.len() - i,
    {
        if contains(requirements[i].as_str(), alias) {
            return true;
        }
        i += 1;
    }
    false
}

/// Whether the default feature set of `dep` lists `flag`.
pub fn default_activates(dep: &Package, flag: &str) -> (r: bool)
    ensures
        r == activates_by_default(*dep, flag@),
{
    match feature_index(&dep.features, "default") {
        Some(i) => contains_string(&dep.features[i].requirements, flag),
        None => false,
    }
}

/// Whether `pkg` asks for the default features of `dep` and gets `flag` with
/// them.
pub fn default_requested(pkg: &Package, dep: &Package, flag: &str, non_optional: bool) -> (r: bool)
    ensures
        r == requests_default(*pkg, *dep, flag@, non_optional),
{
    if !default_activates(dep, flag) {
        return false;
    }
    let mut i: usize = 0;
    while i < pkg.dependencies.len()
        invariant
            i <= pkg.dependencies.len(),
            activates_by_default(*dep, flag@),
            forall|j: int|
                0 <= j < i ==> !is_default_request(
                    #[trigger] pkg.dependencies[j],
                    dep.name@,
                    non_optional,
                ),
        decreases pkg.dependencies.len() - i,
    {
        let d = &pkg.dependencies[i];
        if d.name.as_str().eq(dep.name.as_str()) && d.uses_default_features && (!non_optional
            || !d.optional) {
            return true;
        }
        i += 1;
    }
    false
}

/// Whether the `std` feature of `pkg` forwards to `alias`.
pub fn std_forwarded(pkg: &Package, alias: &str) -> (r: bool)
    ensures
        r == forwards_std(*pkg, alias@),
{
    match feature_index(&pkg.features, "std") {
        Some(i) => has_forwarding(&pkg.features[i].requirements, alias),
        None => false,
    }
}

/// The edge can be followed: it is for development only, or both the package
/// and the node it leads to are known.
pub open spec fn edge_known(metadata: Metadata, resolve: Resolve, d: NodeDep) -> bool {
    is_dev_edge(d) || (metadata.spec_get_by_id(d.pkg@) is Some && resolve.spec_get_by_id(d.pkg@)
        is Some)
}

/// The package of the node is known, and every edge of the node can be
/// followed.
pub open spec fn node_whole(metadata: Metadata, resolve: Resolve, node: Node) -> bool {
    &&& metadata.spec_get_by_id(node.id@) is Some
    &&& forall|k: int|
        0 <= k < node.deps.len() ==> edge_known(metadata, resolve, #[trigger] node.deps[k])
}

/// The graph is whole: it has a root among its nodes, and every package and
/// node that a walk can come to is in it.
pub open spec fn graph_whole(metadata: Metadata, resolve: Resolve) -> bool {
    &&& resolve.root is Some
    &&& first_index(node_ids(resolve.nodes@), resolve.root->0@) is Some
    &&& forall|i: int|
        0 <= i < resolve.nodes.len() ==> node_whole(metadata, resolve, #[trigger] resolve.nodes[i])
}

/// The graph lacks the package or the node with the identity `id`.
pub open spec fn is_unknown(metadata: Metadata, resolve: Resolve, id: Seq<char>) -> bool {
    metadata.spec_get_by_id(id) is None || resolve.spec_get_by_id(id) is None
}

/// Why no analysis could be set up.
#[derive(Debug)]
pub enum AnalyzerError {
    /// The dependencies were not resolved.
    NoResolve,
    /// There is no root package: the manifest describes a workspace and no
    /// package of its own.
    NoRootPackage,
    /// The graph refers to a package that it does not hold.
    UnknownPackage(String),
}

/// The node at `i` is the first that is not whole.
pub open spec fn is_first_broken(metadata: Metadata, resolve: Resolve, i: int) -> bool {
    &&& 0 <= i < resolve.nodes.len()
    &&& !node_whole(metadata, resolve, resolve.nodes[i])
    &&& forall|m: int| 0 <= m < i ==> node_whole(metadata, resolve, #[trigger] resolve.nodes[m])
}

/// The `k`-th edge of `node` is the first that cannot be followed.
pub open spec fn is_first_unknown_edge(metadata: Metadata, resolve: Resolve, node: Node, k: int) -> bool {
    &&& 0 <= k < node.deps.len()
    &&& !edge_known(metadata, resolve, node.deps[k])
    &&& forall|m: int| 0 <= m < k ==> edge_known(metadata, resolve, #[trigger] node.deps[m])
}

/// `id` is the identity that a graph which is not whole is faulted for: the
/// root, where it is not among the nodes; else, at the first node that is
/// not whole, the node itself where its package is not known, or what its
/// first edge that cannot be followed leads to.
pub open spec fn is_faulted(metadata: Metadata, resolve: Resolve, id: Seq<char>) -> bool {
    if first_index(node_ids(resolve.nodes@), resolve.root->0@) is None {
        id == resolve.root->0@
    } else {
        exists|i: int| #[trigger]
            is_first_broken(metadata, resolve, i) && if metadata.spec_get_by_id(
                resolve.nodes[i].id@,
            ) is None {
                id == resolve.nodes[i].id@
            } else {
                exists|k: int| #[trigger]
                    is_first_unknown_edge(metadata, resolve, resolve.nodes[i], k) && id
                        == resolve.nodes[i].deps[k].pkg@
            }
    }
}

/// What a graph is faulted for depends on its packages and nodes alone.
proof fn lemma_faulted_alike(one: Metadata, other: Metadata, resolve: Resolve, id: Seq<char>)
    requires
        one.packages == other.packages,
        is_faulted(one, resolve, id),
    ensures
        is_faulted(other, resolve, id),
{
    assert forall|node: Node| node_whole(one, resolve, node) == node_whole(other, resolve, node) by {}
    if first_index(node_ids(resolve.nodes@), resolve.root->0@) is Some {
        let i = choose|i: int| #[trigger]
            is_first_broken(one, resolve, i) && if one.spec_get_by_id(resolve.nodes[i].id@) is None {
                id == resolve.nodes[i].id@
            } else {
                exists|k: int| #[trigger]
                    is_first_unknown_edge(one, resolve, resolve.nodes[i], k) && id
                        == resolve.nodes[i].deps[k].pkg@
            };
        assert(is_first_broken(other, resolve, i));
        if one.spec_get_by_id(resolve.nodes[i].id@) is Some {
            let k = choose|k: int| #[trigger]
                is_first_unknown_edge(one, resolve, resolve.nodes[i], k) && id
                    == resolve.nodes[i].deps[k].pkg@;
            assert(is_first_unknown_edge(other, resolve, resolve.nodes[i], k));
        }
    }
}

/// Looks for an identity that the graph refers to and does not hold.
fn unknown_package(metadata: &Metadata, resolve: &Resolve) -> (r: Option<String>)
    requires
        resolve.root is Some,
    ensures
        r is None <==> graph_whole(*metadata, *resolve),
        r matches Some(id) ==> is_unknown(*metadata, *resolve, id@) && is_faulted(
            *metadata,
            *resolve,
            id@,
        ),
{
    let root = match &resolve.root {
        Some(root) => root,
        None => {
            return None;
        },
    };
    match node_index(&resolve.nodes, root.as_str()) {
        None => {
            return Some(root.clone());
        },
        Some(_) => {},
    }
    let mut i: usize = 0;
    while i < resolve.nodes.len()
        invariant
            i <= resolve.nodes.len(),
            resolve.root is Some,
            first_index(node_ids(resolve.nodes@), resolve.root->0@) is Some,
            forall|m: int| 0 <= m < i ==> node_whole(*metadata, *resolve, #[trigger] resolve.nodes[m]),
        decreases resolve.nodes.len() - i,
    {
        let node = &resolve.nodes[i];
        if package_index(&metadata.packages, node.id.as_str()).is_none() {
            assert(is_first_broken(*metadata, *resolve, i as int));
            return Some(node.id.clone());
        }
        let mut k: usize = 0;
        while k < node.deps.len()
            invariant
                k <= node.deps.len(),
                i < resolve.nodes.len(),
                *node == resolve.nodes[i as int],
                first_index(node_ids(resolve.nodes@), resolve.root->0@) is Some,
                metadata.spec_get_by_id(node.id@) is Some,
                forall|m: int| 0 <= m < i ==> node_whole(*metadata, *resolve, #[trigger] resolve.nodes[m]),
                forall|m: int| 0 <= m < k ==> edge_known(*metadata, *resolve, #[trigger] node.deps[m]),
            decreases node.deps.len() - k,
        {
            let d = &node.deps[k];
            if !is_dev(d) {
                if package_index(&metadata.packages, d.pkg.as_str()).is_none() || node_index(
                    &resolve.nodes,
                    d.pkg.as_str(),
                ).is_none() {
                    assert(is_first_broken(*metadata, *resolve, i as int));
                    assert(is_first_unknown_edge(
                        *metadata,
                        *resolve,
                        resolve.nodes[i as int],
                        k as int,
                    ));
                    return Some(d.pkg.clone());
                }
            }
            k += 1;
        }
        i += 1;
    }
    None
}

/// The report `p` is about the dependency behind one of the first `k` edges
/// of `node`, and that edge is not for development only.
pub open spec fn about_edge(node: Node, k: int, p: ProblemCrateView) -> bool {
    exists|m: int| 0 <= m < k && !is_dev_edge(#[trigger] node.deps[m]) && p.id == node.deps[m].pkg@
}

/// The analysis: its settings and the graph it walks.
#[derive(Clone, Debug)]
pub struct Analyzer {
    /// The tracked features.
    pub features: Vec<String>,
    pub workspace_only: bool,
    pub ignore: Vec<String>,
    pub default_std: bool,
    pub non_default_std: Vec<String>,
    pub metadata: Metadata,
    pub resolve: Resolve,
}

impl Analyzer {
    /// The package that goes by `id`.
    pub open spec fn package_of(&self, id: Seq<char>) -> Package {
        self.metadata.spec_get_by_id(id)->0
    }

    /// The node that goes by `id`.
    pub open spec fn node_of(&self, id: Seq<char>) -> Node {
        self.resolve.spec_get_by_id(id)->0
    }

    /// The edge can be followed: it is for development only, or both the
    /// package and the node it leads to are known.
    pub open spec fn edge_resolved(&self, d: NodeDep) -> bool {
        edge_known(self.metadata, self.resolve, d)
    }

    /// Every edge that leaves `node` can be followed.
    pub open spec fn edges_resolved(&self, node: Node) -> bool {
        forall|k: int| 0 <= k < node.deps.len() ==> self.edge_resolved(#[trigger] node.deps[k])
    }

    /// The package and every edge of the node are known to the graph.
    pub open spec fn node_known(&self, node: Node) -> bool {
        node_whole(self.metadata, self.resolve, node)
    }

    /// The graph is whole: it has a root, and every package and node that the
    /// walk can come to is in it.
    pub open spec fn wf(&self) -> bool {
        graph_whole(self.metadata, self.resolve)
    }

    /// Sets the analysis up with its own settings, the tracked features and
    /// the graph. It fails where the dependencies were not resolved, where
    /// there is no root package, and where the graph is not whole.
    pub fn initialize(initiator: AnalyzerInitiator, shared: &Shared, metadata: Metadata) -> (r:
        Result<Analyzer, AnalyzerError>)
        ensures
            match r {
                Ok(a) => a.wf() && metadata.resolve == Some(a.resolve) && a.metadata.packages
                    == metadata.packages && a.metadata.workspace_members
                    == metadata.workspace_members && a.workspace_only == initiator.workspace_only
                    && a.ignore == initiator.ignore && a.default_std == initiator.default_std
                    && a.non_default_std == initiator.non_default_std && strings_view(a.features@)
                    == strings_view(shared.features@),
                Err(AnalyzerError::NoResolve) => metadata.resolve is None,
                Err(AnalyzerError::NoRootPackage) => metadata.resolve is Some
                    && metadata.resolve->0.root is None,
                Err(AnalyzerError::UnknownPackage(id)) => metadata.resolve is Some
                    && metadata.resolve->0.root is Some && !graph_whole(
                    metadata,
                    metadata.resolve->0,
                ) && is_unknown(metadata, metadata.resolve->0, id@) && is_faulted(
                    metadata,
                    metadata.resolve->0,
                    id@,
                ),
            },
    {
        let Metadata { packages, workspace_members, resolve } = metadata;
        let resolve = match resolve {
            Some(resolve) => resolve,
            None => {
                return Err(AnalyzerError::NoResolve);
            },
        };
        if resolve.root.is_none() {
            return Err(AnalyzerError::NoRootPackage);
        }
        let ghost given = metadata;
        let metadata = Metadata { packages, workspace_members, resolve: None };
        match unknown_package(&metadata, &resolve) {
            Some(id) => {
                proof {
                    lemma_faulted_alike(metadata, given, resolve, id@);
                }
                Err(AnalyzerError::UnknownPackage(id))
            },
            None => Ok(
                Analyzer {
                    features: copy_strings(&shared.features),
                    workspace_only: initiator.workspace_only,
                    ignore: initiator.ignore,
                    default_std: initiator.default_std,
                    non_default_std: initiator.non_default_std,
                    metadata,
                    resolve,
                },
            ),
        }
    }

    /// The default features of the dependency behind the edge `d` are to be
    /// reported: the check is on, `pkg` has a `std` feature of its own, the
    /// dependency is not exempt, `pkg` asks for its default features in an
    /// entry that is not optional, these turn `std` on, and `pkg` does not
    /// forward `std` to it.
    pub open spec fn default_features_enabled(&self, pkg: Package, d: NodeDep) -> bool {
        let dep = self.package_of(d.pkg@);
        &&& self.default_std
        &&& first_index(feature_names(pkg.features@), "std"@) is Some
        &&& !has_string(self.non_default_std@, d.name@)
        &&& requests_default(pkg, dep, "std"@, true)
        &&& !forwards_std(pkg, alias_of(pkg, dep.name@))
    }

    /// The feature `f` of `pkg` is on in `node` and in the dependency behind
    /// `d`, it is tracked, and `pkg` neither forwards it to the dependency nor
    /// gets it with the dependency's default features.
    pub open spec fn is_missing(&self, pkg: Package, node: Node, d: NodeDep, f: Feature) -> bool {
        let dep = self.package_of(d.pkg@);
        &&& has_string(self.features@, f.name@)
        &&& has_string(node.features@, f.name@)
        &&& has_string(self.node_of(d.pkg@).features@, f.name@)
        &&& !requests_default(pkg, dep, f.name@, false)
        &&& !forwards(f.requirements@, alias_of(pkg, dep.name@))
    }

    /// The names of the missing features among the first `k` that `pkg`
    /// declares, in the order of declaration.
    pub open spec fn missing_features(
        &self,
        pkg: Package,
        node: Node,
        d: NodeDep,
        k: int,
    ) -> Seq<Seq<char>>
        decreases k,
    {
        if k <= 0 {
            Seq::empty()
        } else {
            let before = self.missing_features(pkg, node, d, k - 1);
            if self.is_missing(pkg, node, d, pkg.features[k - 1]) {
                before.push(pkg.features[k - 1].name@)
            } else {
                before
            }
        }
    }

    /// What is reported for one edge: nothing for a development edge; else
    /// the default-features problem if there is one, then the missing
    /// features if there are any.
    pub open spec fn edge_problems(
        &self,
        pkg: Package,
        node: Node,
        d: NodeDep,
        path: Seq<char>,
    ) -> Seq<ProblemCrateView> {
        if is_dev_edge(d) {
            Seq::empty()
        } else {
            let alias = alias_of(pkg, self.package_of(d.pkg@).name@);
            let missing = self.missing_features(pkg, node, d, pkg.features.len() as int);
            let first = if self.default_features_enabled(pkg, d) {
                seq![
                    ProblemCrateView {
                        id: d.pkg@,
                        alias: alias,
                        dependency_path: path,
                        problem: ProblemView::DefaultFeaturesEnabled,
                    },
                ]
            } else {
                Seq::empty()
            };
            let second = if missing.len() > 0 {
                seq![
                    ProblemCrateView {
                        id: d.pkg@,
                        alias: alias,
                        dependency_path: path,
                        problem: ProblemView::MissingFeatures(missing),
                    },
                ]
            } else {
                Seq::empty()
            };
            first + second
        }
    }

    /// What is reported for the first `k` edges of `node`.
    pub open spec fn problems_upto(
        &self,
        pkg: Package,
        node: Node,
        path: Seq<char>,
        k: int,
    ) -> Seq<ProblemCrateView>
        decreases k,
    {
        if k <= 0 {
            Seq::empty()
        } else {
            self.problems_upto(pkg, node, path, k - 1) + self.edge_problems(
                pkg,
                node,
                node.deps[k - 1],
                path,
            )
        }
    }

    /// Everything that is reported for `node`, found along `path`.
    pub open spec fn node_problems(&self, pkg: Package, node: Node, path: Seq<char>) -> Seq<
        ProblemCrateView,
    > {
        self.problems_upto(pkg, node, path, node.deps.len() as int)
    }

    /// Something is reported for the node at `i`.
    pub open spec fn has_problems(&self, i: int) -> bool {
        self.node_problems(self.package_at(i), self.resolve.nodes[i], Seq::empty()).len() > 0
    }

    /// Whether the dependency that goes by `name` is spared the
    /// default-features check.
    pub fn is_non_default_std(&self, name: &str) -> (r: bool)
        ensures
            r == has_string(self.non_default_std@, name@),
    {
        contains_string(&self.non_default_std, name)
    }

    /// The tracked features that `package` fails to forward along the edge
    /// `d`.
    fn missing(&self, package: &Package, node: &Node, d: &NodeDep, dep: &Package, dep_node: &Node)
        -> (r: Vec<String>)
        requires
            !is_dev_edge(*d),
            self.metadata.spec_get_by_id(d.pkg@) == Some(*dep),
            self.resolve.spec_get_by_id(d.pkg@) == Some(*dep_node),
        ensures
            strings_view(r@) == self.missing_features(
                *package,
                *node,
                *d,
                package.features.len() as int,
            ),
    {
        let alias = alias(package, dep.name.as_str());
        let mut missing: Vec<String> = Vec::new();
        let mut k: usize = 0;
        while k < package.features.len()
            invariant
                k <= package.features.len(),
                self.metadata.spec_get_by_id(d.pkg@) == Some(*dep),
                self.resolve.spec_get_by_id(d.pkg@) == Some(*dep_node),
                alias@ == alias_of(*package, dep.name@),
                strings_view(missing@) == self.missing_features(*package, *node, *d, k as int),
            decreases package.features.len() - k,
        {
            let f = &package.features[k];
            let name = f.name.as_str();
            if contains_string(&self.features, name) && contains_string(&node.features, name)
                && contains_string(&dep_node.features, name) && !default_requested(
                package,
                dep,
                name,
                false,
            ) && !has_forwarding(&f.requirements, alias) {
                missing.push(f.name.clone());
            }
            k += 1;
        }
        missing
    }

    /// Audits the edges of one node and returns what is to be reported for
    /// it, in the order of the edges.
    pub fn analyze_features(&self, node: &Node, package: &Package, dependency_path: &str) -> (r:
        Vec<ProblemCrate>)
        requires
            self.edges_resolved(*node),
        ensures
            problems_view(r@) == self.node_problems(*package, *node, dependency_path@),
    {
        let mut problems: Vec<ProblemCrate> = Vec::new();
        let mut k: usize = 0;
        while k < node.deps.len()
            invariant
                k <= node.deps.len(),
                self.edges_resolved(*node),
                problems_view(problems@) == self.problems_upto(
                    *package,
                    *node,
                    dependency_path@,
                    k as int,
                ),
            decreases node.deps.len() - k,
        {
            let d = &node.deps[k];
            let ghost before = problems_view(problems@);
            if !is_dev(d) {
                match (self.metadata.get_by_id(d.pkg.as_str()), self.resolve.get_by_id(
                    d.pkg.as_str(),
                )) {
                    (Some(dep), Some(dep_node)) => {
                        let alias = alias(package, dep.name.as_str());
                        let ghost mut middle = before;
                        if self.default_std && feature_index(&package.features, "std").is_some()
                            && !self.is_non_default_std(d.name.as_str())
                            && default_requested(package, dep, "std", true) && !std_forwarded(
                            package,
                            alias,
                        ) {
                            problems.push(
                                ProblemCrate {
                                    id: d.pkg.clone(),
                                    alias: alias.to_owned(),
                                    dependency_path: dependency_path.to_owned(),
                                    problem: Problem::DefaultFeaturesEnabled,
                                },
                            );
                            proof {
                                middle = problems_view(problems@);
                            }
                        }
                        let missing = self.missing(package, node, d, dep, dep_node);
                        if missing.len() > 0 {
                            problems.push(
                                ProblemCrate {
                                    id: d.pkg.clone(),
                                    alias: alias.to_owned(),
                                    dependency_path: dependency_path.to_owned(),
                                    problem: Problem::MissingFeatures(missing),
                                },
                            );
                        }
                    },
                    _ => {
                        assert(false);
                    },
                }
            }
            k += 1;
        }
        problems
    }

    /// Analyzes the package of the node at `index`, come to along
    /// `dependency_path`, and files what is found under its identity.
    pub fn analyze_crate(&self, index: usize, dependency_path: &str, ledger: &mut Ledger)
        requires
            self.wf(),
            index < self.resolve.nodes.len(),
        ensures
            final(ledger)@ == appended(
                old(ledger)@,
                self.resolve.nodes[index as int].id@,
                self.node_problems(
                    self.package_at(index as int),
                    self.resolve.nodes[index as int],
                    dependency_path@,
                ),
            ),
    {
        let node = &self.resolve.nodes[index];
        match self.metadata.get_by_id(node.id.as_str()) {
            Some(package) => {
                let problems = self.analyze_features(node, package, dependency_path);
                ledger.append(node.id.clone(), problems);
            },
            None => {
                assert(false);
            },
        }
    }

    /// The `t`-th visit is to the package with the identity `id`, and that
    /// package has problems.
    pub open spec fn files(&self, visits: Seq<(usize, String)>, t: int, id: Seq<char>) -> bool {
        &&& 0 <= t < visits.len()
        &&& self.resolve.nodes[visits[t].0 as int].id@ == id
        &&& self.has_problems(visits[t].0 as int)
    }

    /// The ledger holds what the first `q` visits found: an entry for each
    /// visited package that has problems, with the problems as they are
    /// found along the dependency path of the visit.
    pub open spec fn filed(
        &self,
        ledger: Map<Seq<char>, Seq<ProblemCrateView>>,
        visits: Seq<(usize, String)>,
        q: int,
    ) -> bool {
        &&& forall|id: Seq<char>| #[trigger]
            ledger.contains_key(id) <==> exists|t: int| t < q && #[trigger] self.files(visits, t, id)
        &&& forall|id: Seq<char>| #[trigger]
            ledger.contains_key(id) ==> exists|t: int|
                t < q && #[trigger] self.files(visits, t, id) && ledger[id] == self.node_problems(
                    self.package_at(visits[t].0 as int),
                    self.resolve.nodes[visits[t].0 as int],
                    visits[t].1@,
                )
    }

    /// The ledger holds what the walk to the depth `depth` finds: an entry for
    /// each visited package that has problems, with the problems as they are
    /// found along the dependency path of the visit.
    pub open spec fn filed_by_walk(&self, depth: i16, ledger: Map<Seq<char>, Seq<ProblemCrateView>>) -> bool {
        exists|visits: Seq<(usize, String)>| #[trigger]
            self.is_walk(visits, depth) && self.filed(ledger, visits, visits.len() as int)
    }

    /// The ledger is what the analysis to the depth `depth` leaves: an entry
    /// for each package that has problems and lies within `depth` levels
    /// below the root, or anywhere below it where `depth` is negative; the
    /// entry holds the problems of the package with the dependency path of a
    /// chain that leads to it, and no chain that leads to it is shorter.
    pub open spec fn analysis(&self, depth: i16, ledger: Map<Seq<char>, Seq<ProblemCrateView>>) -> bool {
        &&& forall|id: Seq<char>| #[trigger]
            ledger.contains_key(id) <==> exists|i: int| #[trigger]
                self.within(i, depth) && self.resolve.nodes[i].id@ == id && self.has_problems(i)
        &&& forall|id: Seq<char>| #[trigger]
            ledger.contains_key(id) ==> exists|c: Seq<int>| #[trigger]
                self.is_chain(c) && (depth >= 0 ==> c.len() <= depth + 1) && !self.reach(
                    c.last(),
                    c.len() - 1,
                ) && self.resolve.nodes[c.last()].id@ == id && ledger[id] == self.node_problems(
                    self.package_at(c.last()),
                    self.resolve.nodes[c.last()],
                    self.path_of(c),
                )
    }

    /// Analyzes the root package and what lies below it: as many levels as
    /// `depth` says, or all of them where `depth` is negative. Edges that are
    /// for development only are not followed, and packages that are left out
    /// are neither analyzed nor passed through. Each package is analyzed
    /// once, with the dependency path it was first come to by.
    pub fn analyze(&self, depth: i16) -> (ledger: Ledger)
        requires
            self.wf(),
        ensures
            self.analysis(depth, ledger@),
            self.filed_by_walk(depth, ledger@),
    {
        let ghost nodes = self.resolve.nodes@;
        let visits = self.walk(depth);
        let mut ledger = Ledger::new();
        let mut q: usize = 0;
        while q < visits.len()
            invariant
                q <= visits.len(),
                self.wf(),
                nodes == self.resolve.nodes@,
                self.is_walk(visits@, depth),
                forall|t: int| 0 <= t < visits.len() ==> (#[trigger] visits[t]).0 < nodes.len(),
                self.filed(ledger@, visits@, q as int),
            decreases visits.len() - q,
        {
            let ghost before = ledger@;
            let index = visits[q].0;
            let ghost i = index as int;
            let ghost id = nodes[i].id@;
            self.analyze_crate(index, visits[q].1.as_str(), &mut ledger);
            proof {
                let path = visits@[q as int].1@;
                let found = self.node_problems(self.package_at(i), nodes[i], path);
                let after = ledger@;
                self.lemma_problems_whatever_path(
                    self.package_at(i),
                    nodes[i],
                    path,
                    Seq::empty(),
                    nodes[i].deps.len() as int,
                );
                self.lemma_visit_is_first(visits@, depth, q as int);
                if before.contains_key(id) {
                    let t = choose|t: int| t < q && #[trigger] self.files(visits@, t, id);
                    self.lemma_visit_is_first(visits@, depth, t);
                    assert(false);
                }
                assert forall|k: Seq<char>| #[trigger] after.contains_key(k) implies exists|t: int|
                    t < q + 1 && #[trigger] self.files(visits@, t, k) && after[k]
                        == self.node_problems(
                        self.package_at(visits@[t].0 as int),
                        nodes[visits@[t].0 as int],
                        visits@[t].1@,
                    ) by {
                    if before.contains_key(k) {
                        let t = choose|t: int|
                            t < q && #[trigger] self.files(visits@, t, k) && before[k]
                                == self.node_problems(
                                self.package_at(visits@[t].0 as int),
                                nodes[visits@[t].0 as int],
                                visits@[t].1@,
                            );
                    } else {
                        assert(self.files(visits@, q as int, k));
                    }
                }
                assert forall|k: Seq<char>|
                    (exists|t: int| t < q + 1 && #[trigger] self.files(visits@, t, k)) implies #[trigger] after.contains_key(
                    k,
                ) by {
                    let t = choose|t: int| t < q + 1 && #[trigger] self.files(visits@, t, k);
                }
            }
            q += 1;
        }
        proof {
            let l = ledger@;
            let all = visits@;
            assert forall|id: Seq<char>| #[trigger] l.contains_key(id) implies exists|i: int| #[trigger]
                self.within(i, depth) && nodes[i].id@ == id && self.has_problems(i) by {
                let t = choose|t: int| t < all.len() && #[trigger] self.files(all, t, id);
                self.lemma_visit_is_first(all, depth, t);
            }
            assert forall|id: Seq<char>|
                (exists|i: int| #[trigger]
                    self.within(i, depth) && nodes[i].id@ == id && self.has_problems(i)) implies #[trigger] l.contains_key(
                id,
            ) by {
                let i = choose|i: int| #[trigger]
                    self.within(i, depth) && nodes[i].id@ == id && self.has_problems(i);
                assert(lists(all, i));
                let t = choose|t: int| 0 <= t < all.len() && (#[trigger] all[t]).0 == i;
                assert(self.files(all, t, id));
            }
            assert forall|id: Seq<char>| #[trigger] l.contains_key(id) implies exists|c: Seq<int>| #[trigger]
                self.is_chain(c) && (depth >= 0 ==> c.len() <= depth + 1) && !self.reach(
                    c.last(),
                    c.len() - 1,
                ) && nodes[c.last()].id@ == id && l[id] == self.node_problems(
                    self.package_at(c.last()),
                    nodes[c.last()],
                    self.path_of(c),
                ) by {
                let t = choose|t: int|
                    t < all.len() && #[trigger] self.files(all, t, id) && l[id] == self.node_problems(
                        self.package_at(all[t].0 as int),
                        nodes[all[t].0 as int],
                        all[t].1@,
                    );
            }
        }
        ledger
    }

    /// Where a problem is found along has no part in whether there is one.
    pub proof fn lemma_problems_whatever_path(
        &self,
        pkg: Package,
        node: Node,
        p: Seq<char>,
        q: Seq<char>,
        k: int,
    )
        ensures
            self.problems_upto(pkg, node, p, k).len() == self.problems_upto(pkg, node, q, k).len(),
        decreases k,
    {
        if k > 0 {
            self.lemma_problems_whatever_path(pkg, node, p, q, k - 1);
        }
    }

    /// An edge that is for development only yields no report, whatever
    /// features are on behind it.
    pub proof fn lemma_dev_edge_reports_nothing(
        &self,
        pkg: Package,
        node: Node,
        d: NodeDep,
        path: Seq<char>,
    )
        requires
            is_dev_edge(d),
        ensures
            self.edge_problems(pkg, node, d, path).len() == 0,
    {
    }

    /// Every report about a node is about a dependency that one of the
    /// node's edges leads to, and that edge is not for development only.
    pub proof fn lemma_reports_come_from_edges(
        &self,
        pkg: Package,
        node: Node,
        path: Seq<char>,
        k: int,
    )
        requires
            0 <= k <= node.deps.len(),
        ensures
            forall|j: int|
                0 <= j < self.problems_upto(pkg, node, path, k).len() ==> about_edge(
                    node,
                    k,
                    #[trigger] self.problems_upto(pkg, node, path, k)[j],
                ),
        decreases k,
    {
        if k > 0 {
            self.lemma_reports_come_from_edges(pkg, node, path, k - 1);
            let before = self.problems_upto(pkg, node, path, k - 1);
            let here = self.edge_problems(pkg, node, node.deps[k - 1], path);
            let all = self.problems_upto(pkg, node, path, k);
            assert forall|j: int| 0 <= j < all.len() implies about_edge(node, k, #[trigger] all[j]) by {}
        }
    }

    /// A package that forwards `std` to a dependency is not reported for
    /// using that dependency's default features, even where these turn
    /// `std` on.
    pub proof fn lemma_forwarding_supersedes(
        &self,
        pkg: Package,
        node: Node,
        path: Seq<char>,
        dep_id: Seq<char>,
        k: int,
    )
        requires
            0 <= k <= node.deps.len(),
            forwards_std(pkg, alias_of(pkg, self.package_of(dep_id).name@)),
        ensures
            forall|j: int|
                0 <= j < self.problems_upto(pkg, node, path, k).len() && (#[trigger] self.problems_upto(
                    pkg,
                    node,
                    path,
                    k,
                )[j]).id == dep_id ==> self.problems_upto(pkg, node, path, k)[j].problem
                    != ProblemView::DefaultFeaturesEnabled,
        decreases k,
    {
        if k > 0 {
            self.lemma_forwarding_supersedes(pkg, node, path, dep_id, k - 1);
            let before = self.problems_upto(pkg, node, path, k - 1);
            let d = node.deps[k - 1];
            let here = self.edge_problems(pkg, node, d, path);
            let all = self.problems_upto(pkg, node, path, k);
        }
    }

    /// Once the forwarding string that the repair adds for a feature stands
    /// in the feature's list, the feature is not missing any more: a second
    /// analysis asks for nothing that the repair has supplied.
    pub proof fn lemma_repaired_is_not_missing(
        &self,
        pkg: Package,
        node: Node,
        d: NodeDep,
        f: Feature,
        i: int,
    )
        requires
            0 <= i < f.requirements.len(),
            f.requirements[i]@ == alias_of(pkg, self.package_of(d.pkg@).name@) + "/"@ + f.name@,
        ensures
            !self.is_missing(pkg, node, d, f),
    {
        let alias = alias_of(pkg, self.package_of(d.pkg@).name@);
        assert(alias + "/"@ + f.name@ =~= alias + ("/"@ + f.name@));
        lemma_prefix_is_substring(alias, "/"@ + f.name@);
    }

    /// A package whose every feature has the forwarding string for the
    /// dependency behind an edge has no feature missing along that edge.
    pub proof fn lemma_repaired_has_nothing_missing(
        &self,
        pkg: Package,
        node: Node,
        d: NodeDep,
        k: int,
    )
        requires
            0 <= k <= pkg.features.len(),
            forall|m: int|
                0 <= m < k ==> forwards(
                    (#[trigger] pkg.features[m]).requirements@,
                    alias_of(pkg, self.package_of(d.pkg@).name@),
                ),
        ensures
            self.missing_features(pkg, node, d, k).len() == 0,
        decreases k,
    {
        if k > 0 {
            self.lemma_repaired_has_nothing_missing(pkg, node, d, k - 1);
        }
    }
}

} // verus!
