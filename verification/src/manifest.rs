//! The part of a manifest that the repair reads and writes: the arrays of
//! forwarding strings under `[features]`, each entry with the text around it.

use vstd::prelude::*;
use vstd::string::*;

verus! {

/// One string of an array, with its decoration: the text that stands before
/// it (white space, comments) and after it.
#[derive(Clone, Debug)]
pub struct Entry {
    pub value: String,
    /// Text before the value; `None` where none was ever set.
    pub prefix: Option<String>,
    /// Text after the value; `None` where none was ever set.
    pub suffix: Option<String>,
}

/// An entry as a plain value.
pub struct EntryView {
    pub value: Seq<char>,
    pub prefix: Option<Seq<char>>,
    pub suffix: Option<Seq<char>>,
}

/// The characters of an optional string.
pub open spec fn option_view(s: Option<String>) -> Option<Seq<char>> {
    match s {
        Some(t) => Some(t@),
        None => None,
    }
}

impl View for Entry {
    type V = EntryView;

    open spec fn view(&self) -> EntryView {
        EntryView {
            value: self.value@,
            prefix: option_view(self.prefix),
            suffix: option_view(self.suffix),
        }
    }
}

/// The plain values of a list of entries.
pub open spec fn entries_view(list: Seq<Entry>) -> Seq<EntryView> {
    Seq::new(list.len(), |i: int| list[i]@)
}

/// The strings of a list of entries, without their decoration.
pub open spec fn entry_values(list: Seq<EntryView>) -> Seq<Seq<char>> {
    Seq::new(list.len(), |i: int| list[i].value)
}

/// An array of strings as it stands in a manifest.
#[derive(Clone, Debug)]
pub struct FeatureArray {
    pub entries: Vec<Entry>,
    /// Text between the last entry and the closing bracket.
    pub trailing: String,
    /// Whether a comma follows the last entry.
    pub trailing_comma: bool,
}

/// An array as a plain value.
pub struct FeatureArrayView {
    pub entries: Seq<EntryView>,
    pub trailing: Seq<char>,
    pub trailing_comma: bool,
}

impl View for FeatureArray {
    type V = FeatureArrayView;

    open spec fn view(&self) -> FeatureArrayView {
        FeatureArrayView {
            entries: entries_view(self.entries@),
            trailing: self.trailing@,
            trailing_comma: self.trailing_comma,
        }
    }
}

/// A copy of an optional string.
pub fn copy_option(s: &Option<String>) -> (r: Option<String>)
    ensures
        option_view(r) == option_view(*s),
{
    match s {
        Some(t) => Some(t.clone()),
        None => None,
    }
}


/// `toml_edit::DocumentMut`: a parsed manifest. Nothing is known of what is
/// inside but what the functions below say.
#[verifier::external_type_specification]
#[verifier::external_body]
pub struct ExDocumentMut(toml_edit::DocumentMut);

/// `toml_edit::TomlError`: why a text did not parse. It is handed on as it
/// comes.
#[verifier::external_type_specification]
#[verifier::external_body]
pub struct ExTomlError(toml_edit::TomlError);

/// The arrays of strings that stand in the document a text parses to, as
/// `string_arrays` names them, if the text is well-formed TOML.
pub uninterp spec fn parsed_arrays(text: Seq<char>) -> Option<
    Map<(Seq<char>, Seq<char>), FeatureArrayView>,
>;

/// The text that a document is written out as.
pub uninterp spec fn document_text(doc: toml_edit::DocumentMut) -> Seq<char>;

/// The arrays of strings that a document holds one level below its top-level
/// tables, each under the pair of the table's name and its own key.
pub uninterp spec fn string_arrays(doc: toml_edit::DocumentMut) -> Map<
    (Seq<char>, Seq<char>),
    FeatureArrayView,
>;

/// An array with one more entry at its end.
pub open spec fn pushed(a: FeatureArrayView, e: EntryView) -> FeatureArrayView {
    FeatureArrayView { entries: a.entries.push(e), trailing: a.trailing, trailing_comma: a.trailing_comma }
}

/// An array without entries, as a new one is made.
pub open spec fn blank_array() -> FeatureArrayView {
    FeatureArrayView { entries: Seq::empty(), trailing: Seq::empty(), trailing_comma: false }
}

/// `DocumentMut`'s `from_str`: parses a text, and fails on text that is not
/// well-formed TOML. What the document holds depends on the text alone.
#[verifier::external_body]
pub(crate) fn parse_document(text: &str) -> (r: Result<toml_edit::DocumentMut, toml_edit::TomlError>)
    ensures
        match r {
            Ok(doc) => parsed_arrays(text@) == Some(string_arrays(doc)),
            Err(_) => parsed_arrays(text@) is None,
        },
{
    text.parse::<toml_edit::DocumentMut>()
}

/// `DocumentMut`'s `to_string`: writes the document out.
#[verifier::external_body]
pub(crate) fn render_document(doc: &toml_edit::DocumentMut) -> (r: String)
    ensures
        r@ == document_text(*doc),
{
    doc.to_string()
}

/// Reads the array `key` of the table `table` by `Table::get`, `Item::as_table`,
/// `Item::as_array` and `Array::iter`, and hands out each string with the
/// decoration `Formatted::decor` gives. There is a result exactly when the
/// table and the array exist and the array holds strings only.
#[verifier::external_body]
pub(crate) fn read_array(doc: &toml_edit::DocumentMut, table: &str, key: &str) -> (r: Option<FeatureArray>)
    ensures
        match r {
            Some(a) => string_arrays(*doc).contains_key((table@, key@)) && string_arrays(
                *doc,
            )[(table@, key@)] == a@,
            None => !string_arrays(*doc).contains_key((table@, key@)),
        },
{
    let array = doc.get(table)?.as_table()?.get(key)?.as_array()?;
    let text = |r: Option<&toml_edit::RawString>| r.and_then(|s| s.as_str()).map(|s| s.to_owned());
    let mut entries = Vec::new();
    for value in array.iter() {
        let toml_edit::Value::String(f) = value else { return None };
        let decor = f.decor();
        entries.push(Entry { value: f.value().clone(), prefix: text(decor.prefix()), suffix: text(decor.suffix()) });
    }
    let trailing = array.trailing().as_str()?.to_owned();
    Some(FeatureArray { entries, trailing, trailing_comma: array.trailing_comma() })
}

/// Puts a new, empty `Array` in the place of the array `key` of `table`.
#[verifier::external_body]
pub(crate) fn reset_array(doc: &mut toml_edit::DocumentMut, table: &str, key: &str)
    requires
        string_arrays(*old(doc)).contains_key((table@, key@)),
    ensures
        string_arrays(*final(doc)) == string_arrays(*old(doc)).insert((table@, key@), blank_array()),
{
    let item = doc.get_mut(table).and_then(|t| t.as_table_mut()).and_then(|t| t.get_mut(key));
    if let Some(array) = item.and_then(|i| i.as_array_mut()) {
        *array = toml_edit::Array::new();
    }
}

/// `Array::push_formatted`: appends the string to the array `key` of `table`,
/// decorated as the entry says and not otherwise.
#[verifier::external_body]
pub(crate) fn push_entry(doc: &mut toml_edit::DocumentMut, table: &str, key: &str, entry: &Entry)
    requires
        string_arrays(*old(doc)).contains_key((table@, key@)),
    ensures
        string_arrays(*final(doc)) == string_arrays(*old(doc)).insert(
            (table@, key@),
            pushed(string_arrays(*old(doc))[(table@, key@)], entry@),
        ),
{
    let item = doc.get_mut(table).and_then(|t| t.as_table_mut()).and_then(|t| t.get_mut(key));
    if let Some(array) = item.and_then(|i| i.as_array_mut()) {
        let mut f = toml_edit::Formatted::new(entry.value.clone());
        if let Some(p) = &entry.prefix {
            f.decor_mut().set_prefix(p.as_str());
        }
        if let Some(s) = &entry.suffix {
            f.decor_mut().set_suffix(s.as_str());
        }
        array.push_formatted(toml_edit::Value::String(f));
    }
}

/// A copy of an array with another text before its closing bracket.
pub open spec fn with_trailing(a: FeatureArrayView, trailing: Seq<char>) -> FeatureArrayView {
    FeatureArrayView { entries: a.entries, trailing: trailing, trailing_comma: a.trailing_comma }
}

/// A copy of an array with or without a comma after its last entry.
pub open spec fn with_trailing_comma(a: FeatureArrayView, yes: bool) -> FeatureArrayView {
    FeatureArrayView { entries: a.entries, trailing: a.trailing, trailing_comma: yes }
}

/// `Array::set_trailing`: sets the text between the last entry of the array
/// `key` of `table` and its closing bracket.
#[verifier::external_body]
pub(crate) fn set_trailing(doc: &mut toml_edit::DocumentMut, table: &str, key: &str, trailing: &str)
    requires
        string_arrays(*old(doc)).contains_key((table@, key@)),
    ensures
        string_arrays(*final(doc)) == string_arrays(*old(doc)).insert(
            (table@, key@),
            with_trailing(string_arrays(*old(doc))[(table@, key@)], trailing@),
        ),
{
    let item = doc.get_mut(table).and_then(|t| t.as_table_mut()).and_then(|t| t.get_mut(key));
    if let Some(array) = item.and_then(|i| i.as_array_mut()) {
        array.set_trailing(trailing);
    }
}

/// `Array::set_trailing_comma`: says whether a comma follows the last entry of
/// the array `key` of `table`.
#[verifier::external_body]
pub(crate) fn set_trailing_comma(doc: &mut toml_edit::DocumentMut, table: &str, key: &str, yes: bool)
    requires
        string_arrays(*old(doc)).contains_key((table@, key@)),
    ensures
        string_arrays(*final(doc)) == string_arrays(*old(doc)).insert(
            (table@, key@),
            with_trailing_comma(string_arrays(*old(doc))[(table@, key@)], yes),
        ),
{
    let item = doc.get_mut(table).and_then(|t| t.as_table_mut()).and_then(|t| t.get_mut(key));
    if let Some(array) = item.and_then(|i| i.as_array_mut()) {
        array.set_trailing_comma(yes);
    }
}

/// Replaces the array `key` of `table` by `array`, entry by entry.
pub(crate) fn write_array(doc: &mut toml_edit::DocumentMut, table: &str, key: &str, array: &FeatureArray)
    requires
        string_arrays(*old(doc)).contains_key((table@, key@)),
    ensures
        string_arrays(*final(doc)) == string_arrays(*old(doc)).insert((table@, key@), array@),
{
    let ghost before = string_arrays(*doc);
    let ghost at = (table@, key@);
    reset_array(doc, table, key);
    let mut i: usize = 0;
    assert(entries_view(array.entries@).subrange(0, 0) =~= Seq::empty());
    while i < array.entries.len()
        invariant
            i <= array.entries.len(),
            at == (table@, key@),
            string_arrays(*doc) == before.insert(
                at,
                FeatureArrayView {
                    entries: entries_view(array.entries@).subrange(0, i as int),
                    trailing: Seq::empty(),
                    trailing_comma: false,
                },
            ),
        decreases array.entries.len() - i,
    {
        push_entry(doc, table, key, &array.entries[i]);
        assert(entries_view(array.entries@).subrange(0, i as int).push(array.entries[i as int]@)
            =~= entries_view(array.entries@).subrange(0, i + 1));
        i += 1;
    }
    set_trailing(doc, table, key, array.trailing.as_str());
    set_trailing_comma(doc, table, key, array.trailing_comma);
    assert(entries_view(array.entries@).subrange(0, i as int) =~= entries_view(array.entries@));
}

} // verus!
