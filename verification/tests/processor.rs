use cargo_featalign::graph::{
	Dependency, DependencyKind, Feature, Metadata, Node, NodeDep, Package, Resolve,
};
use cargo_featalign::processor::{append_problems, renamed, renames, Problem, ProblemCrate, Processor};

fn id_of(name: &str) -> String {
	format!("path+file:///work/{name}#0.1.0")
}

fn strings(list: &[&str]) -> Vec<String> {
	list.iter().map(|s| s.to_string()).collect()
}

fn feature(name: &str, requirements: &[&str]) -> Feature {
	Feature { name: name.to_string(), requirements: strings(requirements) }
}

fn dependency(name: &str, rename: Option<&str>, default: bool) -> Dependency {
	Dependency {
		name: name.to_string(),
		rename: rename.map(|r| r.to_string()),
		optional: true,
		uses_default_features: default,
		kind: DependencyKind::Normal,
	}
}

fn package(name: &str, features: Vec<Feature>, dependencies: Vec<Dependency>) -> Package {
	Package { id: id_of(name), name: name.to_string(), features, dependencies }
}

fn edge(name: &str, kind: DependencyKind) -> NodeDep {
	NodeDep { name: name.to_string(), pkg: id_of(name), dep_kinds: vec![kind] }
}

fn node(name: &str, features: &[&str], deps: Vec<NodeDep>) -> Node {
	Node { id: id_of(name), features: strings(features), deps }
}

/// root -> a, b, (dev) t; a -> b.
fn processor(default_std: bool, workspace_only: bool) -> Processor {
	let packages = vec![
		package(
			"root",
			vec![feature("std", &["b/std"]), feature("try-runtime", &[]), feature("serde", &[])],
			vec![dependency("a", None, true), dependency("b", None, false), dependency("t", None, true)],
		),
		package(
			"a",
			vec![feature("default", &["std"]), feature("std", &["bee/std"])],
			vec![dependency("b", Some("wasp"), true), dependency("b", Some("bee"), true)],
		),
		package("b", vec![feature("default", &["std"]), feature("std", &[])], Vec::new()),
		package("t", vec![feature("default", &["std"]), feature("std", &[])], Vec::new()),
	];
	let on = ["std", "try-runtime", "serde"];
	let nodes = vec![
		node(
			"root",
			&on,
			vec![
				edge("a", DependencyKind::Normal),
				edge("b", DependencyKind::Build),
				edge("t", DependencyKind::Development),
			],
		),
		node("a", &on, vec![edge("b", DependencyKind::Normal)]),
		node("b", &["std"], Vec::new()),
		node("t", &on, Vec::new()),
	];
	let metadata = Metadata {
		packages,
		workspace_members: vec![id_of("root")],
		resolve: Some(Resolve { nodes, root: Some(id_of("root")) }),
	};
	Processor::analyze(strings(&["std", "try-runtime"]), workspace_only, default_std, 8, metadata).unwrap()
}

fn report(id: &str, path: &str, problem: Problem) -> ProblemCrate {
	ProblemCrate { id: id.to_string(), dependency_path: path.to_string(), problem }
}

fn shown(reports: &Vec<(String, Vec<ProblemCrate>)>) -> Vec<String> {
	reports
		.iter()
		.flat_map(|(id, list)| {
			list.iter().map(move |p| {
				let what = match &p.problem {
					Problem::DefaultFeaturesEnabled => "default".to_string(),
					Problem::MissingFeature(f) => f.clone(),
				};
				format!("{id} {} {} {what}", p.id, p.dependency_path)
			})
		})
		.collect()
}

#[test]
fn reports_for_a_known_package_are_added_to_what_is_filed() {
	let mut reports = Vec::new();
	append_problems(&mut reports, "a".to_string(), vec![report("x", "/a", Problem::DefaultFeaturesEnabled)]);
	append_problems(&mut reports, "b".to_string(), Vec::new());
	append_problems(
		&mut reports,
		"a".to_string(),
		vec![
			report("x", "/b/a", Problem::DefaultFeaturesEnabled),
			report("y", "/b/a", Problem::MissingFeature("std".to_string())),
		],
	);
	append_problems(&mut reports, "c".to_string(), vec![report("z", "/c", Problem::DefaultFeaturesEnabled)]);
	assert_eq!(reports.len(), 3);
	assert_eq!(reports[0].0, "a");
	assert_eq!(reports[1].0, "b");
	assert_eq!(reports[2].0, "c");
	assert!(reports[1].1.is_empty());
	assert_eq!(shown(&reports), vec!["a x /a default", "a x /b/a default", "a y /b/a std", "c z /c default"]);
}

#[test]
fn the_last_rename_of_a_package_counts() {
	let p = processor(false, false);
	let table = renames(&p.walker.metadata.packages[1]);
	assert_eq!(table, vec![("b".to_string(), "bee".to_string()), ("b".to_string(), "wasp".to_string())]);
	assert_eq!(renamed(&table, "b"), "bee");
	assert_eq!(renamed(&table, "a"), "a");
	assert!(renames(&p.walker.metadata.packages[0]).is_empty());
	assert_eq!(renamed(&Vec::new(), "b"), "b");
}

#[test]
fn each_feature_that_is_not_forwarded_is_reported_on_its_own() {
	let p = processor(false, false);
	let root = &p.walker.resolve.nodes[0];
	let none = Vec::new();
	let found = p.check_features(root, "/root", "std", &strings(&["b/std"]), &none);
	assert_eq!(found.len(), 1);
	assert_eq!(found[0].id, id_of("a"));
	assert_eq!(found[0].dependency_path, "/root");
	assert!(matches!(&found[0].problem, Problem::MissingFeature(f) if f == "std"));
	let found = p.check_features(root, "/root", "std", &Vec::new(), &none);
	assert_eq!(found.len(), 2);
	assert_eq!(found[1].id, id_of("b"));
	let found = p.check_features(root, "/root", "try-runtime", &Vec::new(), &none);
	assert_eq!(found.len(), 1);
	assert_eq!(found[0].id, id_of("a"));
	let table = vec![("a".to_string(), "ant".to_string())];
	assert_eq!(p.check_features(root, "/root", "std", &strings(&["a/std", "b/std"]), &table).len(), 1);
	assert!(p.check_features(root, "/root", "std", &strings(&["ant/std", "b/std"]), &table).is_empty());
}

#[test]
fn default_features_that_turn_std_on_are_reported_for_every_dependency() {
	let p = processor(true, false);
	let root = &p.walker.resolve.nodes[0];
	let found = p.check_default_features(root, &p.walker.metadata.packages[0], "/root");
	assert_eq!(found.len(), 1);
	assert_eq!(found[0].id, id_of("a"));
	assert!(matches!(found[0].problem, Problem::DefaultFeaturesEnabled));
	let a = &p.walker.resolve.nodes[1];
	let found = p.check_default_features(a, &p.walker.metadata.packages[1], "/root/a");
	assert_eq!(found.len(), 1);
	assert_eq!(found[0].id, id_of("b"));
	assert_eq!(found[0].dependency_path, "/root/a");
}

#[test]
fn the_packages_are_audited_in_the_order_of_the_walk() {
	let p = processor(false, false);
	let root = id_of("root");
	let a = id_of("a");
	assert_eq!(
		shown(&p.process(-1)),
		vec![format!("{root} {a} /root std"), format!("{root} {a} /root try-runtime")]
	);
	assert_eq!(p.process(0).len(), 1);
	assert_eq!(p.thread, 8);
}

#[test]
fn the_default_features_check_files_even_where_it_finds_nothing() {
	let p = processor(true, false);
	let reports = p.process(-1);
	let keys: Vec<&str> = reports.iter().map(|r| r.0.as_str()).collect();
	assert_eq!(keys, vec![id_of("root"), id_of("a"), id_of("b")]);
	assert_eq!(reports[0].1.len(), 3);
	assert!(matches!(reports[0].1[0].problem, Problem::DefaultFeaturesEnabled));
	assert_eq!(reports[1].1.len(), 1);
	assert!(reports[2].1.is_empty());
	let p = processor(true, true);
	assert_eq!(p.process(-1).len(), 1);
	let mut one = Vec::new();
	p.process_package(1, "/elsewhere", &mut one);
	assert_eq!(shown(&one), vec![format!("{} {} /elsewhere default", id_of("a"), id_of("b"))]);
}
