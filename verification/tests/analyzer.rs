use cargo_featalign::analyzer::{
	alias, default_activates, default_requested, has_forwarding, is_dev, std_forwarded,
	Analyzer, AnalyzerError,
};
use cargo_featalign::cli::{AnalyzerInitiator, IndentSymbol, Mode, SharedInitiator};
use cargo_featalign::graph::{
	Dependency, DependencyKind, Feature, Metadata, Node, NodeDep, Package, Resolve,
};
use cargo_featalign::ledger::Ledger;
use cargo_featalign::problem::{Problem, ProblemCrate};
use cargo_featalign::shared::Shared;
use cargo_featalign::walk::in_depth;

fn strings(list: &[&str]) -> Vec<String> {
	list.iter().map(|s| s.to_string()).collect()
}

fn feature(name: &str, requirements: &[&str]) -> Feature {
	Feature { name: name.to_string(), requirements: strings(requirements) }
}

fn dependency(name: &str, rename: Option<&str>, optional: bool, default: bool) -> Dependency {
	Dependency {
		name: name.to_string(),
		rename: rename.map(|r| r.to_string()),
		optional,
		uses_default_features: default,
		kind: DependencyKind::Normal,
	}
}

fn package(name: &str, features: Vec<Feature>, dependencies: Vec<Dependency>) -> Package {
	Package { id: id_of(name), name: name.to_string(), features, dependencies }
}

fn id_of(name: &str) -> String {
	format!("path+file:///work/{name}#0.1.0")
}

fn edge(name: &str, kinds: &[DependencyKind]) -> NodeDep {
	NodeDep { name: name.replace('-', "_"), pkg: id_of(name), dep_kinds: kinds.to_vec() }
}

fn node(name: &str, features: &[&str], deps: Vec<NodeDep>) -> Node {
	Node { id: id_of(name), features: strings(features), deps }
}

fn shared(features: &[&str]) -> Shared {
	Shared::initialize(SharedInitiator {
		features: strings(features),
		thread: 4,
		mode: Mode::Check,
		indent_symbol: IndentSymbol::Tab,
		indent_size: 4,
	})
}

fn initiator() -> AnalyzerInitiator {
	AnalyzerInitiator {
		manifest_path: "./Cargo.toml".to_string(),
		workspace_only: false,
		ignore: Vec::new(),
		default_std: false,
		non_default_std: Vec::new(),
	}
}

fn analyzer(
	initiator: AnalyzerInitiator,
	watched: &[&str],
	packages: Vec<Package>,
	nodes: Vec<Node>,
	members: &[&str],
) -> Analyzer {
	let metadata = Metadata {
		packages,
		workspace_members: members.iter().map(|m| id_of(m)).collect(),
		resolve: Some(Resolve { nodes, root: Some(id_of("root")) }),
	};
	Analyzer::initialize(initiator, &shared(watched), metadata).unwrap()
}

/// root -> a -> b -> c, and root -(dev)-> t -> u.
fn line_graph() -> (Vec<Package>, Vec<Node>) {
	let names = ["root", "a", "b", "c", "t", "u"];
	let packages = names
		.iter()
		.map(|n| {
			let deps = match *n {
				"root" => vec![dependency("a", None, false, false), dependency("t", None, false, false)],
				"a" => vec![dependency("b", None, false, false)],
				"b" => vec![dependency("c", None, false, false)],
				"t" => vec![dependency("u", None, false, false)],
				_ => Vec::new(),
			};
			package(n, vec![feature("std", &[])], deps)
		})
		.collect();
	let nodes = vec![
		node(
			"root",
			&["std"],
			vec![edge("a", &[DependencyKind::Normal]), edge("t", &[DependencyKind::Development])],
		),
		node("a", &["std"], vec![edge("b", &[DependencyKind::Build])]),
		node("b", &["std"], vec![edge("c", &[DependencyKind::Normal])]),
		node("c", &["std"], Vec::new()),
		node("t", &["std"], vec![edge("u", &[DependencyKind::Normal])]),
		node("u", &["std"], Vec::new()),
	];
	(packages, nodes)
}

fn keys(ledger: &Ledger) -> Vec<String> {
	let mut keys = ledger.keys();
	keys.sort();
	keys
}

fn missing(problem: &ProblemCrate) -> Vec<String> {
	match &problem.problem {
		Problem::MissingFeatures(names) => names.clone(),
		Problem::DefaultFeaturesEnabled => panic!("a default-features problem"),
	}
}

#[test]
fn depth_zero_analyzes_the_root_only() {
	let (packages, nodes) = line_graph();
	let ledger = analyzer(initiator(), &["std"], packages, nodes, &[]).analyze(0);
	assert_eq!(keys(&ledger), vec![id_of("root")]);
	let found = ledger.get(&id_of("root")).unwrap();
	assert_eq!(found.len(), 1);
	assert_eq!(found[0].id, id_of("a"));
	assert_eq!(found[0].alias, "a");
	assert_eq!(found[0].dependency_path, "/root");
	assert_eq!(missing(&found[0]), strings(&["std"]));
}

#[test]
fn depth_counts_the_levels_below_the_root() {
	let (packages, nodes) = line_graph();
	let ledger = analyzer(initiator(), &["std"], packages, nodes, &[]).analyze(1);
	assert_eq!(keys(&ledger), vec![id_of("a"), id_of("root")]);
	let found = ledger.get(&id_of("a")).unwrap();
	assert_eq!(found.len(), 1);
	assert_eq!(found[0].id, id_of("b"));
	assert_eq!(found[0].dependency_path, "/root/a");
}

#[test]
fn negative_depth_lifts_the_limit() {
	let (packages, nodes) = line_graph();
	let ledger = analyzer(initiator(), &["std"], packages, nodes, &[]).analyze(-1);
	assert_eq!(keys(&ledger), vec![id_of("a"), id_of("b"), id_of("root")]);
	assert_eq!(ledger.get(&id_of("b")).unwrap()[0].dependency_path, "/root/a/b");
	let (packages, nodes) = line_graph();
	let ledger = analyzer(initiator(), &["std"], packages, nodes, &[]).analyze(-7);
	assert_eq!(keys(&ledger), vec![id_of("a"), id_of("b"), id_of("root")]);
}

#[test]
fn depth_beyond_the_graph_changes_nothing() {
	let (packages, nodes) = line_graph();
	let ledger = analyzer(initiator(), &["std"], packages, nodes, &[]).analyze(100);
	assert_eq!(keys(&ledger), vec![id_of("a"), id_of("b"), id_of("root")]);
}

#[test]
fn development_edges_are_neither_reported_nor_followed() {
	let (packages, nodes) = line_graph();
	let ledger = analyzer(initiator(), &["std"], packages, nodes, &[]).analyze(-1);
	assert!(ledger.get(&id_of("t")).is_none());
	assert!(ledger.get(&id_of("u")).is_none());
	for key in ledger.keys() {
		for problem in ledger.get(&key).unwrap() {
			assert_ne!(problem.id, id_of("t"));
			assert_ne!(problem.id, id_of("u"));
		}
	}
}

#[test]
fn an_edge_with_a_development_kind_among_others_is_a_development_edge() {
	let d = edge("a", &[DependencyKind::Normal, DependencyKind::Development]);
	assert!(is_dev(&d));
	assert!(!is_dev(&edge("a", &[DependencyKind::Normal, DependencyKind::Build])));
	assert!(!is_dev(&edge("a", &[])));
}

/// root -> a and root -> b, both -> shared.
fn diamond() -> (Vec<Package>, Vec<Node>) {
	let packages = vec![
		package(
			"root",
			vec![feature("std", &["a/std", "b/std"])],
			vec![dependency("a", None, false, false), dependency("b", None, false, false)],
		),
		package("a", vec![feature("std", &[])], vec![dependency("shared", None, false, false)]),
		package("b", vec![feature("std", &["shared/std"])], vec![dependency("shared", None, false, false)]),
		package("shared", vec![feature("std", &[])], vec![dependency("leaf", None, false, false)]),
		package("leaf", vec![feature("std", &[])], Vec::new()),
	];
	let normal = [DependencyKind::Normal];
	let nodes = vec![
		node("root", &["std"], vec![edge("a", &normal), edge("b", &normal)]),
		node("a", &["std"], vec![edge("shared", &normal)]),
		node("b", &["std"], vec![edge("shared", &normal)]),
		node("shared", &["std"], vec![edge("leaf", &normal)]),
		node("leaf", &["std"], Vec::new()),
	];
	(packages, nodes)
}

#[test]
fn a_package_reached_along_two_paths_is_filed_once() {
	let (packages, nodes) = diamond();
	let ledger = analyzer(initiator(), &["std"], packages, nodes, &[]).analyze(-1);
	assert_eq!(keys(&ledger), vec![id_of("a"), id_of("shared")]);
	let found = ledger.get(&id_of("shared")).unwrap();
	assert_eq!(found.len(), 1);
	assert_eq!(found[0].id, id_of("leaf"));
	assert_eq!(found[0].dependency_path, "/root/a/shared");
}

#[test]
fn ignored_packages_are_not_analyzed_and_not_passed_through() {
	let (packages, nodes) = line_graph();
	let mut settings = initiator();
	settings.ignore = strings(&["a"]);
	let ledger = analyzer(settings, &["std"], packages, nodes, &[]).analyze(-1);
	assert_eq!(keys(&ledger), vec![id_of("root")]);
}

#[test]
fn an_ignored_root_leaves_the_ledger_empty() {
	let (packages, nodes) = line_graph();
	let mut settings = initiator();
	settings.ignore = strings(&["root"]);
	let ledger = analyzer(settings, &["std"], packages, nodes, &[]).analyze(-1);
	assert!(ledger.is_empty());
}

#[test]
fn workspace_only_stops_at_packages_outside_the_workspace() {
	let (packages, nodes) = line_graph();
	let mut settings = initiator();
	settings.workspace_only = true;
	let ledger = analyzer(settings, &["std"], packages, nodes, &["root", "a"]).analyze(-1);
	assert_eq!(keys(&ledger), vec![id_of("a"), id_of("root")]);
	let (packages, nodes) = line_graph();
	let mut settings = initiator();
	settings.workspace_only = true;
	let a = analyzer(settings, &["std"], packages, nodes, &["root"]);
	assert!(a.is_workspace_member(&id_of("root")));
	assert!(!a.is_workspace_member(&id_of("a")));
	assert_eq!(keys(&a.analyze(-1)), vec![id_of("root")]);
}

fn pair(
	root_features: Vec<Feature>,
	root_deps: Vec<Dependency>,
	root_on: &[&str],
	dep_features: Vec<Feature>,
	dep_on: &[&str],
) -> (Vec<Package>, Vec<Node>) {
	let packages = vec![package("root", root_features, root_deps), package("general-a", dep_features, Vec::new())];
	let nodes = vec![
		node("root", root_on, vec![edge("general-a", &[DependencyKind::Normal])]),
		node("general-a", dep_on, Vec::new()),
	];
	(packages, nodes)
}

#[test]
fn a_forwarding_string_that_holds_the_alias_counts() {
	assert!(has_forwarding(&strings(&["general-a/std"]), "general-a"));
	assert!(has_forwarding(&strings(&["x/std", "general-a?/std"]), "general-a"));
	assert!(has_forwarding(&strings(&["my-general-a-fork/std"]), "general-a"));
	assert!(!has_forwarding(&strings(&["general-b/std", "general/std"]), "general-a"));
	assert!(!has_forwarding(&Vec::new(), "general-a"));
	assert!(has_forwarding(&strings(&["x"]), ""));
}

#[test]
fn forwarded_features_are_not_missing() {
	let (packages, nodes) = pair(
		vec![feature("std", &["general-a/std"]), feature("try-runtime", &[])],
		vec![dependency("general-a", None, false, false)],
		&["std", "try-runtime"],
		vec![feature("std", &[]), feature("try-runtime", &[])],
		&["std", "try-runtime"],
	);
	let ledger = analyzer(initiator(), &["std", "try-runtime"], packages, nodes, &[]).analyze(0);
	let found = ledger.get(&id_of("root")).unwrap();
	assert_eq!(found.len(), 1);
	assert_eq!(missing(&found[0]), strings(&["try-runtime"]));
}

#[test]
fn missing_features_come_in_the_order_of_declaration() {
	let (packages, nodes) = pair(
		vec![feature("runtime-benchmarks", &[]), feature("std", &[]), feature("try-runtime", &[])],
		vec![dependency("general-a", None, false, false)],
		&["std", "try-runtime", "runtime-benchmarks"],
		Vec::new(),
		&["try-runtime", "std", "runtime-benchmarks"],
	);
	let ledger =
		analyzer(initiator(), &["try-runtime", "std", "runtime-benchmarks"], packages, nodes, &[])
			.analyze(0);
	let found = ledger.get(&id_of("root")).unwrap();
	assert_eq!(missing(&found[0]), strings(&["runtime-benchmarks", "std", "try-runtime"]));
}

#[test]
fn only_tracked_features_are_audited() {
	let (packages, nodes) = pair(
		vec![feature("std", &[]), feature("serde", &[])],
		vec![dependency("general-a", None, false, false)],
		&["std", "serde"],
		Vec::new(),
		&["std", "serde"],
	);
	let ledger = analyzer(initiator(), &["serde"], packages, nodes, &[]).analyze(0);
	assert_eq!(missing(&ledger.get(&id_of("root")).unwrap()[0]), strings(&["serde"]));
}

#[test]
fn a_feature_that_is_off_in_the_dependency_is_not_missing() {
	let (packages, nodes) = pair(
		vec![feature("std", &[])],
		vec![dependency("general-a", None, false, false)],
		&["std"],
		vec![feature("std", &[])],
		&[],
	);
	assert!(analyzer(initiator(), &["std"], packages, nodes, &[]).analyze(0).is_empty());
}

#[test]
fn a_feature_that_is_off_in_the_package_itself_is_not_audited() {
	let (packages, nodes) = pair(
		vec![feature("std", &[])],
		vec![dependency("general-a", None, false, false)],
		&[],
		vec![feature("std", &[])],
		&["std"],
	);
	assert!(analyzer(initiator(), &["std"], packages, nodes, &[]).analyze(0).is_empty());
}

#[test]
fn a_feature_that_comes_with_the_default_features_is_not_missing() {
	let (packages, nodes) = pair(
		vec![feature("std", &[]), feature("serde", &[])],
		vec![dependency("general-a", None, true, true)],
		&["std", "serde"],
		vec![feature("default", &["std"]), feature("std", &[])],
		&["std", "serde"],
	);
	let ledger = analyzer(initiator(), &["std", "serde"], packages, nodes, &[]).analyze(0);
	assert_eq!(missing(&ledger.get(&id_of("root")).unwrap()[0]), strings(&["serde"]));
}

#[test]
fn a_renamed_dependency_is_known_by_its_rename() {
	let root = package(
		"root",
		vec![feature("std", &["general-a/std"])],
		vec![dependency("general-a", Some("renamed"), false, false)],
	);
	assert_eq!(alias(&root, "general-a"), "renamed");
	assert_eq!(alias(&root, "general-b"), "general-b");
	let (packages, nodes) = pair(
		vec![feature("std", &["general-a/std"])],
		vec![dependency("general-a", Some("renamed"), false, false)],
		&["std"],
		Vec::new(),
		&["std"],
	);
	let ledger = analyzer(initiator(), &["std"], packages, nodes, &[]).analyze(0);
	let found = ledger.get(&id_of("root")).unwrap();
	assert_eq!(found[0].alias, "renamed");
	assert_eq!(missing(&found[0]), strings(&["std"]));
}

#[test]
fn the_first_rename_of_a_package_wins() {
	let root = package(
		"root",
		Vec::new(),
		vec![
			dependency("x", None, false, false),
			dependency("x", Some("one"), false, false),
			dependency("x", Some("two"), false, false),
		],
	);
	assert_eq!(alias(&root, "x"), "one");
}

fn no_std(settings: &mut AnalyzerInitiator) {
	settings.default_std = true;
}

#[test]
fn default_features_that_turn_std_on_are_reported() {
	let (packages, nodes) = pair(
		vec![feature("std", &[])],
		vec![dependency("general-a", None, false, true)],
		&["std"],
		vec![feature("default", &["std"]), feature("std", &[])],
		&[],
	);
	let mut settings = initiator();
	no_std(&mut settings);
	let ledger = analyzer(settings, &["std"], packages, nodes, &[]).analyze(0);
	let found = ledger.get(&id_of("root")).unwrap();
	assert_eq!(found.len(), 1);
	assert!(matches!(found[0].problem, Problem::DefaultFeaturesEnabled));
	assert_eq!(found[0].id, id_of("general-a"));
	assert_eq!(found[0].alias, "general-a");
	assert_eq!(found[0].dependency_path, "/root");
}

#[test]
fn forwarding_std_supersedes_the_default_features_report() {
	let (packages, nodes) = pair(
		vec![feature("std", &["general-a/std"])],
		vec![dependency("general-a", None, false, true)],
		&["std"],
		vec![feature("default", &["std"]), feature("std", &[])],
		&["std"],
	);
	let mut settings = initiator();
	no_std(&mut settings);
	assert!(analyzer(settings, &["std"], packages, nodes, &[]).analyze(0).is_empty());
}

#[test]
fn the_default_features_check_is_off_unless_asked_for() {
	let (packages, nodes) = pair(
		vec![feature("std", &[])],
		vec![dependency("general-a", None, false, true)],
		&["std"],
		vec![feature("default", &["std"]), feature("std", &[])],
		&[],
	);
	assert!(analyzer(initiator(), &["std"], packages, nodes, &[]).analyze(0).is_empty());
}

#[test]
fn the_default_features_check_spares_optional_and_exempt_dependencies() {
	let dep = || vec![feature("default", &["std"]), feature("std", &[])];
	let (packages, nodes) =
		pair(vec![feature("std", &[])], vec![dependency("general-a", None, true, true)], &["std"], dep(), &[]);
	let mut settings = initiator();
	no_std(&mut settings);
	assert!(analyzer(settings, &["std"], packages, nodes, &[]).analyze(0).is_empty());

	let (packages, nodes) =
		pair(vec![feature("std", &[])], vec![dependency("general-a", None, false, true)], &["std"], dep(), &[]);
	let mut settings = initiator();
	no_std(&mut settings);
	settings.non_default_std = strings(&["general_a"]);
	assert!(analyzer(settings, &["std"], packages, nodes, &[]).analyze(0).is_empty());

	// a package without a `std` feature of its own is not held to the rule
	let (packages, nodes) =
		pair(vec![feature("other", &[])], vec![dependency("general-a", None, false, true)], &[], dep(), &[]);
	let mut settings = initiator();
	no_std(&mut settings);
	assert!(analyzer(settings, &["std"], packages, nodes, &[]).analyze(0).is_empty());

	// default features that do not turn `std` on are fine
	let (packages, nodes) = pair(
		vec![feature("std", &[])],
		vec![dependency("general-a", None, false, true)],
		&["std"],
		vec![feature("default", &["serde"]), feature("std", &[])],
		&[],
	);
	let mut settings = initiator();
	no_std(&mut settings);
	assert!(analyzer(settings, &["std"], packages, nodes, &[]).analyze(0).is_empty());
}

#[test]
fn both_problems_of_an_edge_are_reported_default_features_first() {
	let (packages, nodes) = pair(
		vec![feature("std", &[]), feature("try-runtime", &[])],
		vec![dependency("general-a", None, false, true)],
		&["std", "try-runtime"],
		vec![feature("default", &["std"]), feature("std", &[])],
		&["std", "try-runtime"],
	);
	let mut settings = initiator();
	no_std(&mut settings);
	let ledger = analyzer(settings, &["std", "try-runtime"], packages, nodes, &[]).analyze(0);
	let found = ledger.get(&id_of("root")).unwrap();
	assert_eq!(found.len(), 2);
	assert!(matches!(found[0].problem, Problem::DefaultFeaturesEnabled));
	assert_eq!(missing(&found[1]), strings(&["try-runtime"]));
}

#[test]
fn default_feature_helpers_agree_with_the_manifest() {
	let dep = package("d", vec![feature("default", &["std", "serde"]), feature("std", &[])], Vec::new());
	assert!(default_activates(&dep, "std"));
	assert!(default_activates(&dep, "serde"));
	assert!(!default_activates(&dep, "default"));
	assert!(!default_activates(&package("e", vec![feature("std", &[])], Vec::new()), "std"));
	let user = package("u", vec![feature("std", &["d/std"])], vec![dependency("d", None, true, true)]);
	assert!(default_requested(&user, &dep, "std", false));
	assert!(!default_requested(&user, &dep, "std", true));
	assert!(!default_requested(&user, &dep, "other", false));
	assert!(std_forwarded(&user, "d"));
	assert!(!std_forwarded(&user, "e"));
}

#[test]
fn once_repaired_nothing_is_missing() {
	let (packages, nodes) = pair(
		vec![feature("std", &["general-a/std"]), feature("try-runtime", &["general-a/try-runtime"])],
		vec![dependency("general-a", None, false, false)],
		&["std", "try-runtime"],
		Vec::new(),
		&["std", "try-runtime"],
	);
	assert!(analyzer(initiator(), &["std", "try-runtime"], packages, nodes, &[]).analyze(-1).is_empty());
}

#[test]
fn analyze_features_reports_edge_by_edge() {
	let packages = vec![
		package(
			"root",
			vec![feature("std", &["b/std"])],
			vec![dependency("a", None, false, false), dependency("b", None, false, false)],
		),
		package("a", Vec::new(), Vec::new()),
		package("b", Vec::new(), Vec::new()),
		package("c", Vec::new(), Vec::new()),
	];
	let normal = [DependencyKind::Normal];
	let nodes = vec![
		node("root", &["std"], vec![edge("c", &normal), edge("b", &normal), edge("a", &normal)]),
		node("a", &["std"], Vec::new()),
		node("b", &["std"], Vec::new()),
		node("c", &["std"], Vec::new()),
	];
	let a = analyzer(initiator(), &["std"], packages, nodes, &[]);
	let found = a.analyze_features(&a.resolve.nodes[0], &a.metadata.packages[0], "/somewhere");
	assert_eq!(found.len(), 2);
	assert_eq!(found[0].id, id_of("c"));
	assert_eq!(found[1].id, id_of("a"));
	assert_eq!(found[1].dependency_path, "/somewhere");
	let mut ledger = Ledger::new();
	a.analyze_crate(1, "/root/a", &mut ledger);
	assert!(ledger.is_empty());
	a.analyze_crate(0, "/root", &mut ledger);
	assert_eq!(ledger.get(&id_of("root")).unwrap().len(), 2);
}

#[test]
fn a_graph_without_resolution_or_root_is_refused() {
	let metadata = Metadata { packages: Vec::new(), workspace_members: Vec::new(), resolve: None };
	assert!(matches!(
		Analyzer::initialize(initiator(), &shared(&["std"]), metadata),
		Err(AnalyzerError::NoResolve)
	));
	let metadata = Metadata {
		packages: Vec::new(),
		workspace_members: Vec::new(),
		resolve: Some(Resolve { nodes: Vec::new(), root: None }),
	};
	assert!(matches!(
		Analyzer::initialize(initiator(), &shared(&["std"]), metadata),
		Err(AnalyzerError::NoRootPackage)
	));
}

#[test]
fn a_graph_that_refers_to_an_unknown_package_is_refused() {
	let (mut packages, nodes) = line_graph();
	packages.remove(3);
	let metadata = Metadata {
		packages,
		workspace_members: Vec::new(),
		resolve: Some(Resolve { nodes, root: Some(id_of("root")) }),
	};
	match Analyzer::initialize(initiator(), &shared(&["std"]), metadata) {
		Err(AnalyzerError::UnknownPackage(id)) => assert_eq!(id, id_of("c")),
		_ => panic!("the graph should have been refused"),
	}
	let (packages, nodes) = line_graph();
	let metadata = Metadata {
		packages,
		workspace_members: Vec::new(),
		resolve: Some(Resolve { nodes, root: Some(id_of("elsewhere")) }),
	};
	match Analyzer::initialize(initiator(), &shared(&["std"]), metadata) {
		Err(AnalyzerError::UnknownPackage(id)) => assert_eq!(id, id_of("elsewhere")),
		_ => panic!("the graph should have been refused"),
	}
}

#[test]
fn an_unknown_package_behind_a_development_edge_does_no_harm() {
	let packages = vec![package("root", Vec::new(), Vec::new())];
	let nodes = vec![node("root", &[], vec![edge("ghost", &[DependencyKind::Development])])];
	assert!(analyzer(initiator(), &["std"], packages, nodes, &[]).analyze(-1).is_empty());
}

#[test]
fn a_cycle_is_walked_once() {
	let packages = vec![
		package("root", vec![feature("std", &[])], Vec::new()),
		package("a", vec![feature("std", &[])], Vec::new()),
	];
	let normal = [DependencyKind::Normal];
	let nodes = vec![
		node("root", &["std"], vec![edge("a", &normal)]),
		node("a", &["std"], vec![edge("root", &normal)]),
	];
	let ledger = analyzer(initiator(), &["std"], packages, nodes, &[]).analyze(-1);
	assert_eq!(keys(&ledger), vec![id_of("a"), id_of("root")]);
	assert_eq!(ledger.get(&id_of("a")).unwrap()[0].dependency_path, "/root/a");
}

#[test]
fn in_depth_stops_at_zero_only() {
	assert!(!in_depth(0));
	assert!(in_depth(1));
	assert!(in_depth(-1));
	assert!(in_depth(i16::MIN));
	assert!(in_depth(i16::MAX));
}

#[test]
fn the_walk_visits_level_by_level_and_each_package_once() {
	let (packages, nodes) = diamond();
	let a = analyzer(initiator(), &["std"], packages, nodes, &[]);
	let visits = a.walk(-1);
	let paths: Vec<&str> = visits.iter().map(|v| v.1.as_str()).collect();
	assert_eq!(paths, vec!["/root", "/root/a", "/root/b", "/root/a/shared", "/root/a/shared/leaf"]);
	let indexes: Vec<usize> = visits.iter().map(|v| v.0).collect();
	assert_eq!(indexes, vec![0, 1, 2, 3, 4]);
	assert_eq!(a.walk(0).len(), 1);
	assert_eq!(a.walk(1).len(), 3);
	assert_eq!(a.walk(2).len(), 4);
	assert_eq!(a.walk(3).len(), 5);
	assert_eq!(a.walk(i16::MAX).len(), 5);
	assert_eq!(a.walk(i16::MIN).len(), 5);
}

#[test]
fn the_walk_skips_what_is_left_out() {
	let (packages, nodes) = diamond();
	let mut settings = initiator();
	settings.ignore = strings(&["a"]);
	let a = analyzer(settings, &["std"], packages, nodes, &[]);
	let visits = a.walk(-1);
	let paths: Vec<&str> = visits.iter().map(|v| v.1.as_str()).collect();
	assert_eq!(paths, vec!["/root", "/root/b", "/root/b/shared", "/root/b/shared/leaf"]);
	assert!(a.is_pruned(&a.metadata.packages[1]));
	assert!(!a.is_pruned(&a.metadata.packages[2]));
}
