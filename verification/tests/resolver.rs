use cargo_featalign::analyzer::Analyzer;
use cargo_featalign::cli::{AnalyzerInitiator, IndentSymbol, Mode, ResolverInitiator, SharedInitiator};
use cargo_featalign::graph::{
	Dependency, DependencyKind, Feature, Metadata, Node, NodeDep, Package, Resolve,
};
use cargo_featalign::ledger::Ledger;
use cargo_featalign::problem::{Problem, ProblemCrate};
use cargo_featalign::resolver::{manifest_path_of, tmp_path_of, Outcome, ResolveError, Resolver};
use cargo_featalign::shared::Shared;
use toml_edit::{DocumentMut, Value};

const ROOT: &str = "path+file:///work/root#0.1.0";

fn settings(mode: Mode, symbol: IndentSymbol, size: usize) -> Shared {
	Shared::initialize(SharedInitiator {
		features: vec!["std".to_string(), "try-runtime".to_string(), "empty".to_string()],
		thread: 4,
		mode,
		indent_symbol: symbol,
		indent_size: size,
	})
}

fn resolver(mode: Mode, sort: bool) -> Resolver {
	Resolver::initialize(ResolverInitiator { sort }, &settings(mode, IndentSymbol::Tab, 4))
}

fn missing(alias: &str, names: &[&str]) -> ProblemCrate {
	ProblemCrate {
		id: format!("path+file:///work/{alias}#0.1.0"),
		alias: alias.to_string(),
		dependency_path: "/root".to_string(),
		problem: Problem::MissingFeatures(names.iter().map(|n| n.to_string()).collect()),
	}
}

fn default_features(alias: &str) -> ProblemCrate {
	ProblemCrate {
		id: format!("path+file:///work/{alias}#0.1.0"),
		alias: alias.to_string(),
		dependency_path: "/root".to_string(),
		problem: Problem::DefaultFeaturesEnabled,
	}
}

const MANIFEST: &str = r#"# the root
[package]
name = "root" # named so
version = "0.1.0"

[dependencies]
a = { path = "../a", default-features = false }
b = { path = "../b", default-features = false }   # spaced

[features]
default = ["std"]
std = [
	# ours
	"a/std",
]
try-runtime = []
empty = []

[dev-dependencies]
t = { path = "../t" }
# the end
"#;

#[test]
fn the_initiator_and_the_shared_settings_make_the_resolver() {
	let r = Resolver::initialize(
		ResolverInitiator { sort: true },
		&settings(Mode::DryRun2, IndentSymbol::Whitespace, 2),
	);
	assert!(r.sort);
	assert_eq!(r.mode, Mode::DryRun2);
	assert_eq!(r.indentation, "\n  ");
	assert_eq!(r.features, vec!["std".to_string(), "try-runtime".to_string(), "empty".to_string()]);
	assert!(!resolver(Mode::Check, false).sort);
}

#[test]
fn the_manifest_lies_in_the_directory_the_identity_names() {
	assert_eq!(manifest_path_of(ROOT), Some("/work/root/Cargo.toml".to_string()));
	assert_eq!(
		manifest_path_of("path+file:///home/me/my crate#my-crate@1.2.3"),
		Some("/home/me/my crate/Cargo.toml".to_string())
	);
	assert_eq!(
		manifest_path_of("root 0.1.0 (path+file:///work/root#x)"),
		Some("/work/root/Cargo.toml".to_string())
	);
	assert_eq!(manifest_path_of("path+file:///a#b#c"), Some("/a/Cargo.toml".to_string()));
}

#[test]
fn an_identity_without_a_directory_has_no_manifest() {
	assert_eq!(manifest_path_of("registry+https://github.com/rust-lang/crates.io-index#serde@1.0.0"), None);
	assert_eq!(manifest_path_of("path+file://#x"), None);
	assert_eq!(manifest_path_of("path+file:///work/root"), None);
	assert_eq!(manifest_path_of(""), None);
}

#[test]
fn the_staging_path_ends_in_the_swap_suffix() {
	assert_eq!(tmp_path_of("/work/root/Cargo.toml"), "/work/root/Cargo.toml.cargo-featalign.swap");
	assert_eq!(tmp_path_of(""), ".cargo-featalign.swap");
}

#[test]
fn a_missing_forwarding_string_is_appended_and_nothing_else_changes() {
	let new = resolver(Mode::Overwrite, false).resolve_text(MANIFEST, &vec![missing("b", &["std"])]).unwrap();
	assert_eq!(new, MANIFEST.replace("\t\"a/std\",\n", "\t\"a/std\",\n\t\"b/std\",\n"));
}

#[test]
fn an_empty_array_opens_up_for_its_first_entries() {
	let problems = vec![missing("b", &["std", "try-runtime"]), default_features("a"), missing("c", &["try-runtime"])];
	let new = resolver(Mode::Overwrite, false).resolve_text(MANIFEST, &problems).unwrap();
	let expected = MANIFEST
		.replace("\t\"a/std\",\n", "\t\"a/std\",\n\t\"b/std\",\n")
		.replace("try-runtime = []", "try-runtime = [\n\t\"b/try-runtime\",\n\t\"c/try-runtime\",\n]");
	assert_eq!(new, expected);
}

#[test]
fn the_last_entry_for_an_empty_array_closes_it_whoever_asked_last() {
	let problems = vec![missing("b", &["empty", "try-runtime"]), missing("c", &["try-runtime"])];
	let new = resolver(Mode::Overwrite, false).resolve_text(MANIFEST, &problems).unwrap();
	let expected = MANIFEST
		.replace("try-runtime = []", "try-runtime = [\n\t\"b/try-runtime\",\n\t\"c/try-runtime\",\n]")
		.replace("empty = []", "empty = [\n\t\"b/empty\",\n]");
	assert_eq!(new, expected);
}

#[test]
fn entries_are_indented_as_the_settings_say() {
	let shared = settings(Mode::Overwrite, IndentSymbol::Whitespace, 2);
	let r = Resolver::initialize(ResolverInitiator { sort: false }, &shared);
	let new = r.resolve_text(MANIFEST, &vec![missing("b", &["std", "empty"])]).unwrap();
	let expected = MANIFEST
		.replace("\t\"a/std\",\n", "\t\"a/std\",\n  \"b/std\",\n")
		.replace("empty = []", "empty = [\n  \"b/empty\",\n]");
	assert_eq!(new, expected);
}

#[test]
fn a_single_line_array_grows_downwards() {
	let text = "[features]\nstd = [\"a/std\"]\n";
	let new = resolver(Mode::Overwrite, false).resolve_text(text, &vec![missing("b", &["std"])]).unwrap();
	assert_eq!(new, "[features]\nstd = [\"a/std\",\n\t\"b/std\"]\n");
	let new = resolver(Mode::Overwrite, true).resolve_text(text, &vec![missing("b", &["std"])]).unwrap();
	assert_eq!(new, "[features]\nstd = [\n\t\"a/std\",\n\t\"b/std\",\n]\n");
}

#[test]
fn sorting_sorts_the_tracked_arrays_only() {
	let text = "[features]\nstd = [\n\t\"z/std\",\n\t\"a/std\",\n]\nother = [\n\t\"z/o\",\n\t\"a/o\",\n]\n";
	let new = resolver(Mode::Overwrite, true).resolve_text(text, &vec![missing("m", &["std"])]).unwrap();
	assert_eq!(
		new,
		"[features]\nstd = [\n\t\"a/std\",\n\t\"m/std\",\n\t\"z/std\",\n]\nother = [\n\t\"z/o\",\n\t\"a/o\",\n]\n"
	);
}

#[test]
fn default_features_problems_change_nothing() {
	let new = resolver(Mode::Overwrite, false)
		.resolve_text(MANIFEST, &vec![default_features("a"), default_features("b")])
		.unwrap();
	assert_eq!(new, MANIFEST);
	let new = resolver(Mode::Overwrite, false).resolve_text(MANIFEST, &Vec::new()).unwrap();
	assert_eq!(new, MANIFEST);
}

#[test]
fn text_that_is_not_toml_is_refused() {
	let r = resolver(Mode::Overwrite, false).resolve_text("[features\nstd = []", &vec![missing("b", &["std"])]);
	assert!(matches!(r, Err(ResolveError::Parse(_))));
	let r = resolver(Mode::Check, true).resolve_text("a = ", &Vec::new());
	assert!(matches!(r, Err(ResolveError::Parse(_))));
}

#[test]
fn a_feature_without_an_array_is_named() {
	let r = resolver(Mode::Overwrite, false).resolve_text(MANIFEST, &vec![missing("b", &["std", "serde", "other"])]);
	match r {
		Err(ResolveError::MissingFeatureArray(flag)) => assert_eq!(flag, "serde"),
		_ => panic!("the repair should have failed"),
	}
	let r = resolver(Mode::Overwrite, false).resolve_text("[package]\nname = \"x\"\n", &vec![missing("b", &["std"])]);
	assert!(matches!(r, Err(ResolveError::MissingFeatureArray(_))));
	let r = resolver(Mode::Overwrite, false).resolve_text("[features]\nstd = \"no array\"\n", &vec![missing("b", &["std"])]);
	assert!(matches!(r, Err(ResolveError::MissingFeatureArray(_))));
}

#[test]
fn a_failed_repair_leaves_the_document_alone() {
	let mut doc = MANIFEST.parse::<DocumentMut>().unwrap();
	let r = resolver(Mode::Overwrite, true).resolve_document(&mut doc, &vec![missing("b", &["std", "serde"])]);
	assert!(matches!(r, Err(ResolveError::MissingFeatureArray(_))));
	assert_eq!(doc.to_string(), MANIFEST);
}

fn decorated(value: &Value) -> (String, String, String) {
	let text = |raw: Option<&toml_edit::RawString>| raw.and_then(|r| r.as_str()).unwrap().to_string();
	(value.as_str().unwrap().to_string(), text(value.decor().prefix()), text(value.decor().suffix()))
}

#[test]
fn the_document_holds_what_was_added() {
	let mut doc = MANIFEST.parse::<DocumentMut>().unwrap();
	resolver(Mode::Overwrite, false).resolve_document(&mut doc, &vec![missing("b", &["std", "empty"])]).unwrap();
	let std = doc["features"]["std"].as_array().unwrap();
	assert_eq!(std.len(), 2);
	assert_eq!(decorated(std.get(0).unwrap()), ("a/std".to_string(), "\n\t# ours\n\t".to_string(), String::new()));
	assert_eq!(decorated(std.get(1).unwrap()), ("b/std".to_string(), "\n\t".to_string(), String::new()));
	assert_eq!(std.trailing().as_str(), Some("\n"));
	assert!(std.trailing_comma());
	let empty = doc["features"]["empty"].as_array().unwrap();
	assert_eq!(empty.len(), 1);
	assert_eq!(decorated(empty.get(0).unwrap()), ("b/empty".to_string(), "\n\t".to_string(), ",\n".to_string()));
	assert_eq!(empty.trailing().as_str(), Some(""));
	assert!(!empty.trailing_comma());
}

#[test]
fn checking_asks_for_nothing_to_be_done() {
	let r = resolver(Mode::Check, false).resolve_crate(ROOT, MANIFEST, &vec![missing("b", &["std"])]);
	assert!(matches!(r, Ok(Outcome::Nothing)));
}

#[test]
fn a_dry_run_prints_the_identity_and_the_diff() {
	let r = resolver(Mode::DryRun, false).resolve_crate(ROOT, MANIFEST, &vec![missing("b", &["std"])]);
	match r {
		Ok(Outcome::Print(shown)) => {
			assert!(shown.starts_with("path+file:///work/root#0.1.0\n@@ -"));
			assert!(shown.contains("\n+\t\"b/std\",\n"));
			assert!(shown.contains("\n \t\"a/std\",\n"));
			assert!(!shown.contains("\n-"));
		},
		_ => panic!("the diff should have been printed"),
	}
	let r = resolver(Mode::DryRun, false).resolve_crate(ROOT, MANIFEST, &vec![default_features("a")]);
	match r {
		Ok(Outcome::Print(shown)) => assert_eq!(shown, "path+file:///work/root#0.1.0\n"),
		_ => panic!("the diff should have been printed"),
	}
}

#[test]
fn the_second_dry_run_stages_the_new_text() {
	let r = resolver(Mode::DryRun2, false).resolve_crate(ROOT, MANIFEST, &vec![missing("b", &["std"])]);
	match r {
		Ok(Outcome::Stage { path, text }) => {
			assert_eq!(path, "/work/root/Cargo.toml.cargo-featalign.swap");
			assert_eq!(text, MANIFEST.replace("\t\"a/std\",\n", "\t\"a/std\",\n\t\"b/std\",\n"));
		},
		_ => panic!("the new text should have been staged"),
	}
}

#[test]
fn overwriting_stages_and_replaces() {
	let r = resolver(Mode::Overwrite, false).resolve_crate(ROOT, MANIFEST, &vec![missing("b", &["std"])]);
	match r {
		Ok(Outcome::Replace { staged, path, text }) => {
			assert_eq!(staged, "/work/root/Cargo.toml.cargo-featalign.swap");
			assert_eq!(path, "/work/root/Cargo.toml");
			assert_eq!(text, MANIFEST.replace("\t\"a/std\",\n", "\t\"a/std\",\n\t\"b/std\",\n"));
		},
		_ => panic!("the manifest should have been replaced"),
	}
}

#[test]
fn a_package_from_a_registry_cannot_be_repaired() {
	let r = resolver(Mode::Overwrite, false).resolve_crate(
		"registry+https://github.com/rust-lang/crates.io-index#serde@1.0.0",
		MANIFEST,
		&vec![missing("b", &["std"])],
	);
	assert!(matches!(r, Err(ResolveError::NoManifestPath)));
	let r = resolver(Mode::Overwrite, false).resolve_crate(ROOT, "[", &Vec::new());
	assert!(matches!(r, Err(ResolveError::Parse(_))));
	let r = resolver(Mode::Check, false).resolve_crate(ROOT, MANIFEST, &vec![missing("b", &["none"])]);
	assert!(matches!(r, Err(ResolveError::MissingFeatureArray(_))));
}

fn filled() -> Ledger {
	let mut ledger = Ledger::new();
	ledger.append(ROOT.to_string(), vec![missing("b", &["std"])]);
	ledger.append("path+file:///work/a#0.1.0".to_string(), vec![default_features("c"), missing("c", &["std"])]);
	ledger
}

#[test]
fn checking_leaves_the_ledger_alone() {
	let mut ledger = filled();
	assert!(resolver(Mode::Check, true).resolve(&mut ledger).is_empty());
	assert_eq!(ledger.keys().len(), 2);
}

#[test]
fn every_other_mode_drains_the_ledger_once() {
	for mode in [Mode::DryRun, Mode::DryRun2, Mode::Overwrite] {
		let mut ledger = filled();
		let r = resolver(mode, false);
		let mut jobs = r.resolve(&mut ledger);
		jobs.sort_by(|l, r| l.0.cmp(&r.0));
		assert_eq!(jobs.len(), 2);
		assert_eq!(jobs[0].0, "path+file:///work/a#0.1.0");
		assert_eq!(jobs[0].1.len(), 2);
		assert_eq!(jobs[1].0, ROOT);
		assert_eq!(jobs[1].1.len(), 1);
		assert!(ledger.is_empty());
		assert!(r.resolve(&mut ledger).is_empty());
	}
}

fn features_of(text: &str) -> Vec<Feature> {
	let doc = text.parse::<DocumentMut>().unwrap();
	["default", "empty", "std", "try-runtime"]
		.iter()
		.map(|name| Feature {
			name: name.to_string(),
			requirements: doc["features"][name]
				.as_array()
				.unwrap()
				.iter()
				.map(|v| v.as_str().unwrap().to_string())
				.collect(),
		})
		.collect()
}

fn analysis_of(text: &str) -> Ledger {
	let id = |name: &str| format!("path+file:///work/{name}#0.1.0");
	let dependency = |name: &str| Dependency {
		name: name.to_string(),
		rename: None,
		optional: false,
		uses_default_features: false,
		kind: DependencyKind::Normal,
	};
	let leaf = |name: &str| Package { id: id(name), name: name.to_string(), features: Vec::new(), dependencies: Vec::new() };
	let on = || vec!["std".to_string(), "try-runtime".to_string()];
	let edge = |name: &str| NodeDep { name: name.to_string(), pkg: id(name), dep_kinds: vec![DependencyKind::Normal] };
	let metadata = Metadata {
		packages: vec![
			Package {
				id: id("root"),
				name: "root".to_string(),
				features: features_of(text),
				dependencies: vec![dependency("a"), dependency("b")],
			},
			leaf("a"),
			leaf("b"),
		],
		workspace_members: vec![id("root")],
		resolve: Some(Resolve {
			nodes: vec![
				Node { id: id("root"), features: on(), deps: vec![edge("a"), edge("b")] },
				Node { id: id("a"), features: on(), deps: Vec::new() },
				Node { id: id("b"), features: on(), deps: Vec::new() },
			],
			root: Some(id("root")),
		}),
	};
	let initiator = AnalyzerInitiator {
		manifest_path: "/work/root".to_string(),
		workspace_only: true,
		ignore: Vec::new(),
		default_std: true,
		non_default_std: Vec::new(),
	};
	Analyzer::initialize(initiator, &settings(Mode::Overwrite, IndentSymbol::Tab, 4), metadata).unwrap().analyze(-1)
}

#[test]
fn a_repaired_manifest_needs_no_second_repair() {
	let r = resolver(Mode::Overwrite, true);
	let mut ledger = analysis_of(MANIFEST);
	let mut jobs = r.resolve(&mut ledger);
	assert_eq!(jobs.len(), 1);
	let (id, problems) = jobs.pop().unwrap();
	assert_eq!(id, ROOT);
	assert_eq!(problems.len(), 2);
	let once = match r.resolve_crate(&id, MANIFEST, &problems) {
		Ok(Outcome::Replace { text, .. }) => text,
		_ => panic!("the manifest should have been replaced"),
	};
	let expected = MANIFEST
		.replace("\t\"a/std\",\n", "\t\"a/std\",\n\t\"b/std\",\n")
		.replace("try-runtime = []", "try-runtime = [\n\t\"a/try-runtime\",\n\t\"b/try-runtime\",\n]");
	assert_eq!(once, expected);
	let mut again = analysis_of(&once);
	assert!(again.is_empty());
	assert!(r.resolve(&mut again).is_empty());
	let twice = r.resolve_text(&once, &Vec::new()).unwrap();
	assert_eq!(twice, once);
}
