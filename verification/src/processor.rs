//! The plain audit: every package a walk comes to is held to the tracked
//! features one by one, and each feature that is not forwarded is reported
//! on its own. Nothing is merged and no dependency is spared.

use vstd::prelude::*;
use vstd::string::*;
use crate::analyzer::{
    default_requested, forwards, graph_whole, has_forwarding, is_dev, is_dev_edge, is_faulted,
    requests_default, Analyzer, AnalyzerError,
};
use crate::cli::{AnalyzerInitiator, Mode};
use crate::graph::{
    contains_string, first_index, has_string, lemma_first_index_absent, lemma_first_index_found,
    strings_view, Dependency, GetById, Metadata, Node, NodeDep, Package,
};
use crate::shared::Shared;

verus! {

/// What is wrong with the way a package refers to one of its dependencies.
#[derive(Debug)]
pub enum Problem {
    /// The dependency is used with its default features, and those turn on
    /// `std`.
    DefaultFeaturesEnabled,
    /// The dependency has this tracked feature on, yet the package does not
    /// forward it.
    MissingFeature(String),
}

/// A problem as a plain value.
pub enum ProblemView {
    DefaultFeaturesEnabled,
    MissingFeature(Seq<char>),
}

impl View for Problem {
    type V = ProblemView;

    open spec fn view(&self) -> ProblemView {
        match self {
            Problem::DefaultFeaturesEnabled => ProblemView::DefaultFeaturesEnabled,
            Problem::MissingFeature(name) => ProblemView::MissingFeature(name@),
        }
    }
}

/// A problem together with the dependency it is about.
#[derive(Debug)]
pub struct ProblemCrate {
    /// Identity of the dependency.
    pub id: String,
    /// The chain of package names along which the problem was found.
    pub dependency_path: String,
    pub problem: Problem,
}

/// A reported problem as a plain value.
pub struct ProblemCrateView {
    pub id: Seq<char>,
    pub dependency_path: Seq<char>,
    pub problem: ProblemView,
}

impl View for ProblemCrate {
    type V = ProblemCrateView;

    open spec fn view(&self) -> ProblemCrateView {
        ProblemCrateView {
            id: self.id@,
            dependency_path: self.dependency_path@,
            problem: self.problem@,
        }
    }
}

/// The plain values of a list of reports.
pub open spec fn problems_view(list: Seq<ProblemCrate>) -> Seq<ProblemCrateView> {
    Seq::new(list.len(), |i: int| list[i]@)
}

/// The plain values of the reports filed so far: for each package, in the
/// order in which the packages were first filed, its identity and what is
/// reported for it.
pub open spec fn reports_view(reports: Seq<(String, Vec<ProblemCrate>)>) -> Seq<
    (Seq<char>, Seq<ProblemCrateView>),
> {
    Seq::new(reports.len(), |i: int| (reports[i].0@, problems_view(reports[i].1@)))
}

/// The identities that reports are filed under, in order.
pub open spec fn report_keys(reports: Seq<(Seq<char>, Seq<ProblemCrateView>)>) -> Seq<Seq<char>> {
    Seq::new(reports.len(), |i: int| reports[i].0)
}

/// The reports after `batch` was filed under `id`: added to what is filed
/// under `id` already, or filed anew behind all others.
pub open spec fn appended(
    reports: Seq<(Seq<char>, Seq<ProblemCrateView>)>,
    id: Seq<char>,
    batch: Seq<ProblemCrateView>,
) -> Seq<(Seq<char>, Seq<ProblemCrateView>)> {
    match first_index(report_keys(reports), id) {
        Some(i) => reports.update(i, (id, reports[i].1 + batch)),
        None => reports.push((id, batch)),
    }
}

/// Files `problems` under `id`: see `appended`.
pub fn append_problems(
    reports: &mut Vec<(String, Vec<ProblemCrate>)>,
    id: String,
    problems: Vec<ProblemCrate>,
)
    ensures
        reports_view(final(reports)@) == appended(
            reports_view(old(reports)@),
            id@,
            problems_view(problems@),
        ),
{
    let ghost before = reports_view(reports@);
    let ghost keys = report_keys(before);
    let ghost batch = problems_view(problems@);
    let mut i: usize = 0;
    while i < reports.len()
        invariant
            i <= reports.len(),
            before == reports_view(reports@),
            before == reports_view(old(reports)@),
            keys == report_keys(before),
            batch == problems_view(problems@),
            forall|j: int| 0 <= j < i ==> keys[j] != id@,
        decreases reports.len() - i,
    {
        if reports[i].0.as_str().eq(id.as_str()) {
            proof {
                lemma_first_index_found(keys, id@, i as int);
            }
            let (key, mut list) = reports.remove(i);
            let mut more = problems;
            list.append(&mut more);
            reports.insert(i, (key, list));
            assert forall|j: int| 0 <= j < reports@.len() implies #[trigger] reports_view(reports@)[j]
                == before.update(i as int, (id@, before[i as int].1 + batch))[j] by {}
            return ;
        }
        i += 1;
    }
    proof {
        lemma_first_index_absent(keys, id@);
    }
    reports.push((id, problems));
}

/// The characters of each pair of strings of a list.
pub open spec fn table_view(table: Seq<(String, String)>) -> Seq<(Seq<char>, Seq<char>)> {
    Seq::new(table.len(), |i: int| (table[i].0@, table[i].1@))
}

/// The first strings of a list of pairs, in order.
pub open spec fn table_keys(table: Seq<(Seq<char>, Seq<char>)>) -> Seq<Seq<char>> {
    Seq::new(table.len(), |i: int| table[i].0)
}

/// The name a table of renames gives for the package called `name`: what
/// the first pair for `name` says, or `name` itself.
pub open spec fn rename_for(table: Seq<(Seq<char>, Seq<char>)>, name: Seq<char>) -> Seq<char> {
    match first_index(table_keys(table), name) {
        Some(i) => table[i].1,
        None => name,
    }
}

/// The renames that the first `k` declared dependencies give, the later
/// ones before the earlier: where a package is renamed twice, the last
/// rename counts.
pub open spec fn rename_table(deps: Seq<Dependency>, k: int) -> Seq<(Seq<char>, Seq<char>)>
    decreases k,
{
    if k <= 0 {
        Seq::empty()
    } else if deps[k - 1].rename is Some {
        seq![(deps[k - 1].name@, deps[k - 1].rename->0@)] + rename_table(deps, k - 1)
    } else {
        rename_table(deps, k - 1)
    }
}

/// The renames that a package declares: see `rename_table`.
pub fn renames(package: &Package) -> (r: Vec<(String, String)>)
    ensures
        table_view(r@) == rename_table(package.dependencies@, package.dependencies.len() as int),
{
    let mut table: Vec<(String, String)> = Vec::new();
    let mut k: usize = 0;
    while k < package.dependencies.len()
        invariant
            k <= package.dependencies.len(),
            table_view(table@) == rename_table(package.dependencies@, k as int),
        decreases package.dependencies.len() - k,
    {
        let d = &package.dependencies[k];
        if let Some(rename) = &d.rename {
            table.insert(0, (d.name.clone(), rename.clone()));
        }
        k += 1;
    }
    table
}

/// The name a table of renames gives for the package called `name`.
pub fn renamed<'a>(table: &'a Vec<(String, String)>, name: &'a str) -> (r: &'a str)
    ensures
        r@ == rename_for(table_view(table@), name@),
{
    let ghost keys = table_keys(table_view(table@));
    let mut i: usize = 0;
    while i < table.len()
        invariant
            i <= table.len(),
            keys == table_keys(table_view(table@)),
            forall|j: int| 0 <= j < i ==> keys[j] != name@,
        decreases table.len() - i,
    {
        if table[i].0.as_str().eq(name) {
            proof {
                lemma_first_index_found(keys, name@, i as int);
            }
            return table[i].1.as_str();
        }
        i += 1;
    }
    proof {
        lemma_first_index_absent(keys, name@);
    }
    name
}

/// The plain audit with its settings and the graph it walks.
#[derive(Debug)]
pub struct Processor {
    /// The tracked features, the settings of the walk, and the graph.
    pub walker: Analyzer,
    /// How many tasks may be active at once.
    pub thread: u16,
}

impl Processor {
    /// Sets the audit up. It fails where the dependencies were not
    /// resolved, where there is no root package, and where the graph is not
    /// whole.
    pub fn analyze(
        features: Vec<String>,
        workspace_only: bool,
        default_std: bool,
        thread_count: u16,
        metadata: Metadata,
    ) -> (r: Result<Processor, AnalyzerError>)
        ensures
            match r {
                Ok(p) => p.walker.wf() && metadata.resolve == Some(p.walker.resolve)
                    && p.walker.metadata.packages == metadata.packages
                    && p.walker.metadata.workspace_members == metadata.workspace_members
                    && p.walker.workspace_only == workspace_only && p.walker.default_std
                    == default_std && p.walker.ignore@.len() == 0 && strings_view(
                    p.walker.features@,
                ) == strings_view(features@) && p.thread == thread_count,
                Err(AnalyzerError::NoResolve) => metadata.resolve is None,
                Err(AnalyzerError::NoRootPackage) => metadata.resolve is Some
                    && metadata.resolve->0.root is None,
                Err(AnalyzerError::UnknownPackage(id)) => metadata.resolve is Some
                    && metadata.resolve->0.root is Some && !graph_whole(
                    metadata,
                    metadata.resolve->0,
                ) && is_faulted(metadata, metadata.resolve->0, id@),
            },
    {
        let shared = Shared {
            features,
            thread: thread_count,
            mode: Mode::Check,
            indentation: String::new(),
        };
        let initiator = AnalyzerInitiator {
            manifest_path: String::new(),
            workspace_only,
            ignore: Vec::new(),
            default_std,
            non_default_std: Vec::new(),
        };
        match Analyzer::initialize(initiator, &shared, metadata) {
            Ok(walker) => Ok(Processor { walker, thread: thread_count }),
            Err(e) => Err(e),
        }
    }

    /// The dependency behind the edge `d` is used with default features that
    /// turn `std` on.
    pub open spec fn uses_default_std(&self, pkg: Package, d: NodeDep) -> bool {
        !is_dev_edge(d) && requests_default(pkg, self.walker.package_of(d.pkg@), "std"@, false)
    }

    /// What the default-features check reports for the first `k` edges of
    /// `node`.
    pub open spec fn default_reports(&self, pkg: Package, node: Node, path: Seq<char>, k: int) -> Seq<
        ProblemCrateView,
    >
        decreases k,
    {
        if k <= 0 {
            Seq::empty()
        } else {
            let before = self.default_reports(pkg, node, path, k - 1);
            if self.uses_default_std(pkg, node.deps[k - 1]) {
                before.push(
                    ProblemCrateView {
                        id: self.walker.package_of(node.deps[k - 1].pkg@).id@,
                        dependency_path: path,
                        problem: ProblemView::DefaultFeaturesEnabled,
                    },
                )
            } else {
                before
            }
        }
    }

    /// The feature is on in the dependency behind the edge `d`, and none of
    /// the forwarding strings mentions the dependency.
    pub open spec fn lacks(
        &self,
        d: NodeDep,
        feature: Seq<char>,
        required: Seq<String>,
        table: Seq<(Seq<char>, Seq<char>)>,
    ) -> bool {
        &&& !is_dev_edge(d)
        &&& has_string(self.walker.node_of(d.pkg@).features@, feature)
        &&& !forwards(required, rename_for(table, self.walker.package_of(d.pkg@).name@))
    }

    /// What the check of one feature reports for the first `k` edges of
    /// `node`.
    pub open spec fn feature_reports(
        &self,
        node: Node,
        path: Seq<char>,
        feature: Seq<char>,
        required: Seq<String>,
        table: Seq<(Seq<char>, Seq<char>)>,
        k: int,
    ) -> Seq<ProblemCrateView>
        decreases k,
    {
        if k <= 0 {
            Seq::empty()
        } else {
            let before = self.feature_reports(node, path, feature, required, table, k - 1);
            if self.lacks(node.deps[k - 1], feature, required, table) {
                before.push(
                    ProblemCrateView {
                        id: node.deps[k - 1].pkg@,
                        dependency_path: path,
                        problem: ProblemView::MissingFeature(feature),
                    },
                )
            } else {
                before
            }
        }
    }

    /// Reports each dependency of `node` whose default features `package`
    /// uses although they turn `std` on, in the order of the edges.
    pub fn check_default_features(&self, node: &Node, package: &Package, dependency_path: &str) -> (r:
        Vec<ProblemCrate>)
        requires
            self.walker.edges_resolved(*node),
        ensures
            problems_view(r@) == self.default_reports(
                *package,
                *node,
                dependency_path@,
                node.deps.len() as int,
            ),
    {
        let mut problems: Vec<ProblemCrate> = Vec::new();
        let mut k: usize = 0;
        while k < node.deps.len()
            invariant
                k <= node.deps.len(),
                self.walker.edges_resolved(*node),
                problems_view(problems@) == self.default_reports(
                    *package,
                    *node,
                    dependency_path@,
                    k as int,
                ),
            decreases node.deps.len() - k,
        {
            let d = &node.deps[k];
            if !is_dev(d) {
                match self.walker.metadata.get_by_id(d.pkg.as_str()) {
                    Some(dep) => {
                        if default_requested(package, dep, "std", false) {
                            problems.push(
                                ProblemCrate {
                                    id: dep.id.clone(),
                                    dependency_path: dependency_path.to_owned(),
                                    problem: Problem::DefaultFeaturesEnabled,
                                },
                            );
                        }
                    },
                    None => {
                        assert(false);
                    },
                }
            }
            k += 1;
        }
        problems
    }

    /// Reports each dependency of `node` that has `feature` on while none
    /// of the forwarding strings `required_features` mentions it, in the
    /// order of the edges.
    pub fn check_features(
        &self,
        node: &Node,
        dependency_path: &str,
        feature: &str,
        required_features: &Vec<String>,
        renames: &Vec<(String, String)>,
    ) -> (r: Vec<ProblemCrate>)
        requires
            self.walker.edges_resolved(*node),
        ensures
            problems_view(r@) == self.feature_reports(
                *node,
                dependency_path@,
                feature@,
                required_features@,
                table_view(renames@),
                node.deps.len() as int,
            ),
    {
        let ghost table = table_view(renames@);
        let mut problems: Vec<ProblemCrate> = Vec::new();
        let mut k: usize = 0;
        while k < node.deps.len()
            invariant
                k <= node.deps.len(),
                self.walker.edges_resolved(*node),
                table == table_view(renames@),
                problems_view(problems@) == self.feature_reports(
                    *node,
                    dependency_path@,
                    feature@,
                    required_features@,
                    table,
                    k as int,
                ),
            decreases node.deps.len() - k,
        {
            let d = &node.deps[k];
            if !is_dev(d) {
                match (self.walker.metadata.get_by_id(d.pkg.as_str()), self.walker.resolve.get_by_id(
                    d.pkg.as_str(),
                )) {
                    (Some(dep), Some(dep_node)) => {
                        let rename = renamed(renames, dep.name.as_str());
                        if contains_string(&dep_node.features, feature) && !has_forwarding(
                            required_features,
                            rename,
                        ) {
                            problems.push(
                                ProblemCrate {
                                    id: d.pkg.clone(),
                                    dependency_path: dependency_path.to_owned(),
                                    problem: Problem::MissingFeature(feature.to_owned()),
                                },
                            );
                        }
                    },
                    _ => {
                        assert(false);
                    },
                }
            }
            k += 1;
        }
        problems
    }

    /// The reports after the first `k` features of `pkg` were checked: what
    /// the check of a tracked feature finds is filed, unless it finds
    /// nothing.
    pub open spec fn features_checked(
        &self,
        reports: Seq<(Seq<char>, Seq<ProblemCrateView>)>,
        pkg: Package,
        node: Node,
        path: Seq<char>,
        k: int,
    ) -> Seq<(Seq<char>, Seq<ProblemCrateView>)>
        decreases k,
    {
        if k <= 0 {
            reports
        } else {
            let before = self.features_checked(reports, pkg, node, path, k - 1);
            let f = pkg.features[k - 1];
            let batch = self.feature_reports(
                node,
                path,
                f.name@,
                f.requirements@,
                rename_table(pkg.dependencies@, pkg.dependencies.len() as int),
                node.deps.len() as int,
            );
            if has_string(self.walker.features@, f.name@) && batch.len() > 0 {
                appended(before, node.id@, batch)
            } else {
                before
            }
        }
    }

    /// The reports after one package was audited: where the default-features
    /// check is on, what it finds is filed, even if it finds nothing; then
    /// the tracked features are checked one by one.
    pub open spec fn package_processed(
        &self,
        reports: Seq<(Seq<char>, Seq<ProblemCrateView>)>,
        pkg: Package,
        node: Node,
        path: Seq<char>,
    ) -> Seq<(Seq<char>, Seq<ProblemCrateView>)> {
        let first = if self.walker.default_std {
            appended(reports, node.id@, self.default_reports(pkg, node, path, node.deps.len() as int))
        } else {
            reports
        };
        self.features_checked(first, pkg, node, path, pkg.features.len() as int)
    }

    /// Audits the package of the node at `index`, come to along
    /// `dependency_path`, and files what is found under its identity.
    pub fn process_package(
        &self,
        index: usize,
        dependency_path: &str,
        reports: &mut Vec<(String, Vec<ProblemCrate>)>,
    )
        requires
            self.walker.wf(),
            index < self.walker.resolve.nodes.len(),
        ensures
            reports_view(final(reports)@) == self.package_processed(
                reports_view(old(reports)@),
                self.walker.package_at(index as int),
                self.walker.resolve.nodes[index as int],
                dependency_path@,
            ),
    {
        let node = &self.walker.resolve.nodes[index];
        let package = match self.walker.metadata.get_by_id(node.id.as_str()) {
            Some(package) => package,
            None => {
                assert(false);
                return ;
            },
        };
        let table = renames(package);
        if self.walker.default_std {
            let found = self.check_default_features(node, package, dependency_path);
            append_problems(reports, node.id.clone(), found);
        }
        let ghost first = reports_view(reports@);
        let mut k: usize = 0;
        while k < package.features.len()
            invariant
                k <= package.features.len(),
                self.walker.edges_resolved(*node),
                table_view(table@) == rename_table(
                    package.dependencies@,
                    package.dependencies.len() as int,
                ),
                reports_view(reports@) == self.features_checked(
                    first,
                    *package,
                    *node,
                    dependency_path@,
                    k as int,
                ),
            decreases package.features.len() - k,
        {
            let f = &package.features[k];
            if contains_string(&self.walker.features, f.name.as_str()) {
                let found = self.check_features(
                    node,
                    dependency_path,
                    f.name.as_str(),
                    &f.requirements,
                    &table,
                );
                if found.len() > 0 {
                    append_problems(reports, node.id.clone(), found);
                }
            }
            k += 1;
        }
    }

    /// The reports after the first `q` visits of a walk were audited.
    pub open spec fn processed(&self, visits: Seq<(usize, String)>, q: int) -> Seq<
        (Seq<char>, Seq<ProblemCrateView>),
    >
        decreases q,
    {
        if q <= 0 {
            Seq::empty()
        } else {
            self.package_processed(
                self.processed(visits, q - 1),
                self.walker.package_at(visits[q - 1].0 as int),
                self.walker.resolve.nodes[visits[q - 1].0 as int],
                visits[q - 1].1@,
            )
        }
    }

    /// Audits the root package and what lies below it: as many levels as
    /// `depth` says, or all of them where `depth` is negative. The packages
    /// are audited in the order of the walk, each once.
    pub fn process(&self, depth: i16) -> (reports: Vec<(String, Vec<ProblemCrate>)>)
        requires
            self.walker.wf(),
        ensures
            exists|visits: Seq<(usize, String)>| #[trigger]
                self.walker.is_walk(visits, depth) && reports_view(reports@) == self.processed(
                    visits,
                    visits.len() as int,
                ),
    {
        let visits = self.walker.walk(depth);
        let mut reports: Vec<(String, Vec<ProblemCrate>)> = Vec::new();
        let mut q: usize = 0;
        while q < visits.len()
            invariant
                q <= visits.len(),
                self.walker.wf(),
                forall|t: int|
                    0 <= t < visits.len() ==> (#[trigger] visits[t]).0
                        < self.walker.resolve.nodes.len(),
                reports_view(reports@) == self.processed(visits@, q as int),
            decreases visits.len() - q,
        {
            self.process_package(visits[q].0, visits[q].1.as_str(), &mut reports);
            q += 1;
        }
        reports
    }
}

} // verus!
