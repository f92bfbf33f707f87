use cargo_featalign::manifest::{Entry, FeatureArray};
use cargo_featalign::sorter::{carries_comment, sort, sort_array, SortVisitor};
use toml_edit::DocumentMut;

#[test]
fn sort_visitor_should_work() {
	let s = r#"
[features]
f = [
	# x
	"x-d/f",
	"x-c/f",
	"b/f",


	"x-a/f",
	# y
	"y-c/f",
	"y-a/f",
	"y-b/f",
	# "y-d/f",
	# z
	"z-a/f",
	"z-d/f",

	"z-b/f",
	"z-c/f",
]

g = [
	# x
	"x-d/g",
	# "x-c/g",
	"b/g",


	"x-a/g",
	# y
	# "y-a/g",
	"y-c/g",

	"y-b/g",
	"y-d/g",
	# z
	"z-d/g",
	"z-a/g",
	# "z-b/g",
	"z-c/g",
]

empty = []
"#;

	let mut d = s.parse::<DocumentMut>().unwrap();
	let mut s = SortVisitor(["f", "g", "empty"].iter().map(|s| (*s).into()).collect());
	s.visit_document_mut(&mut d, "\n\t");

	assert_eq!(
		d.to_string(),
		r#"
[features]
f = [
	# x
	"b/f",
	"x-a/f",
	"x-c/f",
	"x-d/f",
	# y
	"y-a/f",
	"y-b/f",
	"y-c/f",
	# "y-d/f",
	# z
	"z-a/f",
	"z-b/f",
	"z-c/f",
	"z-d/f",
]

g = [
	# x
	"x-d/g",
	# "x-c/g",
	"b/g",
	"x-a/g",
	# y
	# "y-a/g",
	"y-b/g",
	"y-c/g",
	"y-d/g",
	# z
	"z-a/g",
	"z-d/g",
	# "z-b/g",
	"z-c/g",
]

empty = []
"#
	);
}

fn entry(value: &str, prefix: Option<&str>) -> Entry {
	Entry { value: value.to_string(), prefix: prefix.map(|p| p.to_string()), suffix: Some(String::new()) }
}

fn values(entries: &[Entry]) -> Vec<String> {
	entries.iter().map(|e| e.value.clone()).collect()
}

#[test]
fn blocks_are_sorted_apart_and_keep_their_comments() {
	let entries = vec![
		entry("x-d/f", Some("\n\t# x\n\t")),
		entry("x-c/f", Some("\n\t")),
		entry("b/f", Some("\n\t")),
		entry("x-a/f", Some("\n\n\n\t")),
		entry("y-c/f", Some("\n\t# y\n\t")),
		entry("y-a/f", Some("\n\t")),
		entry("y-b/f", Some("\n\t")),
	];
	let sorted = sort(entries, "\n  ");
	assert_eq!(values(&sorted), vec!["b/f", "x-a/f", "x-c/f", "x-d/f", "y-a/f", "y-b/f", "y-c/f"]);
	assert_eq!(sorted[0].prefix, Some("\n\t# x\n\t".to_string()));
	assert_eq!(sorted[0].suffix, None);
	assert_eq!(sorted[4].prefix, Some("\n\t# y\n\t".to_string()));
	assert_eq!(sorted[4].suffix, None);
	for i in [1, 2, 3, 5, 6] {
		assert_eq!(sorted[i].prefix, Some("\n  ".to_string()));
		assert_eq!(sorted[i].suffix, Some(String::new()));
	}
}

#[test]
fn entries_before_the_first_comment_are_a_block_of_their_own() {
	let entries = vec![
		entry("z", None),
		entry("m", Some(" ")),
		entry("k", Some("# k")),
		entry("a", Some("")),
	];
	let sorted = sort(entries, "\n\t");
	assert_eq!(values(&sorted), vec!["m", "z", "a", "k"]);
	assert_eq!(sorted[0].prefix, Some("\n\t".to_string()));
	assert_eq!(sorted[1].prefix, Some("\n\t".to_string()));
	assert_eq!(sorted[2].prefix, Some("# k".to_string()));
	assert_eq!(sorted[3].prefix, Some("\n\t".to_string()));
}

#[test]
fn strings_are_ordered_by_their_code_points() {
	let entries = ["b", "a", "B", "ab", "", "a", "é", "z", "a-b", "a/b", "10", "9"]
		.iter()
		.map(|v| entry(v, Some("\n")))
		.collect();
	let sorted = sort(entries, "\n");
	assert_eq!(values(&sorted), vec!["", "10", "9", "B", "a", "a", "a-b", "a/b", "ab", "b", "z", "é"]);
}

#[test]
fn nothing_to_sort_is_sorted() {
	assert!(sort(Vec::new(), "\n\t").is_empty());
	let one = sort(vec![entry("a", Some("\n# c\n"))], "\n\t");
	assert_eq!(values(&one), vec!["a"]);
	assert_eq!(one[0].prefix, Some("\n# c\n".to_string()));
}

#[test]
fn a_comment_is_more_than_white_space() {
	assert!(carries_comment(&entry("a", Some("\n\t# x\n\t"))));
	assert!(carries_comment(&entry("a", Some("#"))));
	assert!(!carries_comment(&entry("a", Some("\n\t \r\n"))));
	assert!(!carries_comment(&entry("a", Some(""))));
	assert!(!carries_comment(&entry("a", None)));
}

#[test]
fn a_sorted_array_closes_on_a_line_of_its_own() {
	let array = |entries: Vec<Entry>, trailing: &str, comma: bool| FeatureArray {
		entries,
		trailing: trailing.to_string(),
		trailing_comma: comma,
	};
	let sorted = sort_array(array(vec![entry("b", Some("")), entry("a", Some(" "))], "", false), "\n\t");
	assert_eq!(values(&sorted.entries), vec!["a", "b"]);
	assert_eq!(sorted.trailing, "\n");
	assert!(sorted.trailing_comma);
	let sorted = sort_array(array(vec![entry("a", Some(""))], " # bye\n", false), "\n\t");
	assert_eq!(sorted.trailing, " # bye\n");
	assert!(sorted.trailing_comma);
	let sorted = sort_array(array(Vec::new(), "", true), "\n\t");
	assert!(sorted.entries.is_empty());
	assert_eq!(sorted.trailing, "");
	assert!(!sorted.trailing_comma);
	let sorted = sort_array(array(Vec::new(), "\n# nothing yet\n", false), "\n\t");
	assert_eq!(sorted.trailing, "\n# nothing yet\n");
}

#[test]
fn the_visitor_sorts_what_it_holds_and_holds_nothing_afterwards() {
	let text = "[features]\nf = [\"b\", \"a\"]\ng = [\"b\", \"a\"]\n\n[other]\nf = [\"b\", \"a\"]\n";
	let mut doc = text.parse::<DocumentMut>().unwrap();
	let mut visitor = SortVisitor(vec!["f".to_string(), "absent".to_string(), "f".to_string()]);
	visitor.visit_document_mut(&mut doc, "\n    ");
	assert!(visitor.0.is_empty());
	let sorted = "[features]\nf = [\n    \"a\",\n    \"b\",\n]\ng = [\"b\", \"a\"]\n\n[other]\nf = [\"b\", \"a\"]\n";
	assert_eq!(doc.to_string(), sorted);
	visitor.visit_document_mut(&mut doc, "\n    ");
	assert_eq!(doc.to_string(), sorted);
}

#[test]
fn a_document_without_features_is_left_alone() {
	let text = "[package]\nname = \"x\"\n";
	let mut doc = text.parse::<DocumentMut>().unwrap();
	SortVisitor(vec!["f".to_string()]).visit_document_mut(&mut doc, "\n\t");
	assert_eq!(doc.to_string(), text);
}

#[test]
fn what_is_no_array_of_strings_is_not_sorted() {
	let text = "title = \"x\"\n\n[features]\nmixed = [\"b\", 1, \"a\"]\nword = \"b a\"\ninline = { k = [\"b\", \"a\"] }\n\n[other]\nf = [\"b\", \"a\"]\n";
	let mut doc = text.parse::<DocumentMut>().unwrap();
	let names = ["mixed", "word", "inline", "k", "f", "title", ""];
	SortVisitor(names.iter().map(|n| n.to_string()).collect()).visit_document_mut(&mut doc, "\n\t");
	assert_eq!(doc.to_string(), text);
	let text = "features = { f = [\"b\", \"a\"] }\n";
	let mut doc = text.parse::<DocumentMut>().unwrap();
	SortVisitor(vec!["f".to_string()]).visit_document_mut(&mut doc, "\n\t");
	assert_eq!(doc.to_string(), text);
}

#[test]
fn a_sorted_array_keeps_the_words_before_its_bracket() {
	let text = "[features]\n# before\nf = [ \"b/f\" , # after b\n  'a/f',\n  # last words\n] # behind\n";
	let mut doc = text.parse::<DocumentMut>().unwrap();
	SortVisitor(vec!["f".to_string()]).visit_document_mut(&mut doc, "\n\t");
	assert_eq!(
		doc.to_string(),
		"[features]\n# before\nf = [\n\t\"b/f\", # after b\n  \"a/f\",\n  # last words\n]\n"
	);
}
