//! The repair: adds the forwarding strings that the analysis found missing to
//! the manifest that lacks them.

use vstd::prelude::*;
use vstd::string::*;
use vstd::utf8::encode_utf8;
use crate::cli::{Mode, ResolverInitiator};
use crate::graph::{lemma_same_members, strings_view};
use crate::ledger::{lists_entries, no_entries, Ledger};
use crate::manifest::{
    document_text, entries_view, parse_document, parsed_arrays, push_entry, read_array,
    render_document, string_arrays, Entry, EntryView, FeatureArrayView,
};
use crate::problem::{copy_strings, problems_view, Problem, ProblemCrate, ProblemCrateView, ProblemView};
use crate::shared::Shared;
use crate::sorter::{lemma_sorting_document_twice, sorted_document, SortVisitor};
use crate::text::{join, trimmed};
use crate::util::{diff, unified_diff, MAX_DIFF_BYTES};

verus! {

/// What the first capture group of the regular expression `pattern` holds
/// after the leftmost match in `text`; nothing where the pattern is not a
/// valid expression, where it does not match, or where the group took no part
/// in the match.
pub uninterp spec fn first_capture(pattern: Seq<char>, text: Seq<char>) -> Option<Seq<char>>;

/// `Regex::new`, `Regex::captures` and `Captures::get` for the group 1, in
/// turn: the text of the first capture group. It depends on the pattern and
/// the text alone.
#[verifier::external_body]
fn capture(pattern: &str, text: &str) -> (r: Option<String>)
    ensures
        match r {
            Some(group) => first_capture(pattern@, text@) == Some(group@),
            None => first_capture(pattern@, text@) is None,
        },
{
    let captures = regex::Regex::new(pattern).ok()?.captures(text)?;
    captures.get(1).map(|m| m.as_str().to_owned())
}

/// The pattern that finds the directory of a package in its identity.
pub open spec fn path_pattern() -> Seq<char> {
    "path\\+file://(/.+?)#"@
}

/// The manifest of the package with the identity `id`: the `Cargo.toml` in
/// the directory that the identity names, where it names one.
pub open spec fn spec_manifest_path_of(id: Seq<char>) -> Option<Seq<char>> {
    match first_capture(path_pattern(), id) {
        Some(dir) => Some(dir + "/Cargo.toml"@),
        None => None,
    }
}

/// The path of the manifest of the package with the identity `id`, for an
/// identity that names a directory.
pub fn manifest_path_of(id: &str) -> (r: Option<String>)
    ensures
        match r {
            Some(path) => spec_manifest_path_of(id@) == Some(path@),
            None => spec_manifest_path_of(id@) is None,
        },
{
    match capture("path\\+file://(/.+?)#", id) {
        Some(dir) => {
            let mut path = dir;
            path.append("/Cargo.toml");
            Some(path)
        },
        None => None,
    }
}

/// The path at which the new text of the manifest at `path` is staged.
pub fn tmp_path_of(path: &str) -> (r: String)
    ensures
        r@ == path@ + ".cargo-featalign.swap"@,
{
    let mut r = path.to_owned();
    r.append(".cargo-featalign.swap");
    r
}

/// The repair and its settings.
#[derive(Debug)]
pub struct Resolver {
    /// Sort the entries of each tracked feature.
    pub sort: bool,
    /// The tracked features.
    pub features: Vec<String>,
    pub mode: Mode,
    /// The text that stands before a new array entry.
    pub indentation: String,
}

impl Resolver {
    /// Takes over its own settings and those it shares with the analysis.
    pub fn initialize(initiator: ResolverInitiator, shared: &Shared) -> (r: Resolver)
        ensures
            r.sort == initiator.sort,
            strings_view(r.features@) == strings_view(shared.features@),
            r.mode == shared.mode,
            r.indentation@ == shared.indentation@,
    {
        Resolver {
            sort: initiator.sort,
            features: copy_strings(&shared.features),
            mode: shared.mode,
            indentation: shared.indentation.clone(),
        }
    }

    /// Takes the work out of the ledger: one item for each package that
    /// problems were filed under, with these problems. In `Check` mode there
    /// is no work and the ledger stays as it is; in every other mode the
    /// ledger is empty afterwards.
    pub fn resolve(&self, ledger: &mut Ledger) -> (r: Vec<(String, Vec<ProblemCrate>)>)
        ensures
            self.mode == Mode::Check ==> r@.len() == 0 && final(ledger)@ == old(ledger)@,
            self.mode != Mode::Check ==> final(ledger)@ == no_entries() && lists_entries(
                r@,
                old(ledger)@,
            ),
    {
        if self.mode == Mode::Check {
            return Vec::new();
        }
        ledger.take_all()
    }
}


/// Why a manifest could not be repaired.
#[derive(Debug)]
pub enum ResolveError {
    /// The identity of the package names no directory.
    NoManifestPath,
    /// The text is not well-formed TOML.
    Parse(toml_edit::TomlError),
    /// The manifest has no array of strings for this feature under
    /// `[features]`.
    MissingFeatureArray(String),
    /// The manifest is too long for a diff to be taken.
    TooLarge,
}

/// The forwarding strings that one report asks for, each as the pair of the
/// dependency's alias and the feature.
pub open spec fn requests_of(p: ProblemCrateView) -> Seq<(Seq<char>, Seq<char>)> {
    match p.problem {
        ProblemView::MissingFeatures(names) => Seq::new(names.len(), |i: int| (p.alias, names[i])),
        ProblemView::DefaultFeaturesEnabled => Seq::empty(),
    }
}

/// What the first `n` reports ask for, in their order.
pub open spec fn requests_upto(problems: Seq<ProblemCrateView>, n: int) -> Seq<
    (Seq<char>, Seq<char>),
>
    decreases n,
{
    if n <= 0 {
        Seq::empty()
    } else {
        requests_upto(problems, n - 1) + requests_of(problems[n - 1])
    }
}

/// What the reports ask for, in their order.
pub open spec fn requests(problems: Seq<ProblemCrateView>) -> Seq<(Seq<char>, Seq<char>)> {
    requests_upto(problems, problems.len() as int)
}

/// The characters of each pair of strings of a list.
pub open spec fn pairs_view(list: Seq<(String, String)>) -> Seq<(Seq<char>, Seq<char>)> {
    Seq::new(list.len(), |i: int| (list[i].0@, list[i].1@))
}

/// One of the first `n` requests is for `flag`.
pub open spec fn wanted_upto(pairs: Seq<(Seq<char>, Seq<char>)>, flag: Seq<char>, n: int) -> bool {
    exists|m: int| 0 <= m < n && m < pairs.len() && (#[trigger] pairs[m]).1 == flag
}

/// The request at `j` is the first for a feature that has no array under
/// `[features]`.
pub open spec fn is_first_unfixable(
    arrays: Map<(Seq<char>, Seq<char>), FeatureArrayView>,
    pairs: Seq<(Seq<char>, Seq<char>)>,
    j: int,
) -> bool {
    &&& 0 <= j < pairs.len()
    &&& !arrays.contains_key(("features"@, pairs[j].1))
    &&& forall|m: int| 0 <= m < j ==> arrays.contains_key(("features"@, (#[trigger] pairs[m]).1))
}

/// Every requested feature has its array under `[features]`.
pub open spec fn fixable(
    arrays: Map<(Seq<char>, Seq<char>), FeatureArrayView>,
    pairs: Seq<(Seq<char>, Seq<char>)>,
) -> bool {
    forall|m: int| 0 <= m < pairs.len() ==> arrays.contains_key(("features"@, (#[trigger] pairs[m]).1))
}

/// The entry that forwards `flag` to the dependency known as `alias`.
pub open spec fn new_entry(alias: Seq<char>, flag: Seq<char>, indentation: Seq<char>) -> EntryView {
    EntryView {
        value: alias + "/"@ + flag,
        prefix: Some(indentation),
        suffix: Some(Seq::empty()),
    }
}

/// The entries that the first `n` requests add to the array of `flag`.
pub open spec fn plain_additions(
    pairs: Seq<(Seq<char>, Seq<char>)>,
    flag: Seq<char>,
    indentation: Seq<char>,
    n: int,
) -> Seq<EntryView>
    decreases n,
{
    if n <= 0 {
        Seq::empty()
    } else {
        let before = plain_additions(pairs, flag, indentation, n - 1);
        if pairs[n - 1].1 == flag {
            before.push(new_entry(pairs[n - 1].0, flag, indentation))
        } else {
            before
        }
    }
}

/// The entry `e`, followed by a comma and a line break.
pub open spec fn closing(e: EntryView) -> EntryView {
    EntryView { value: e.value, prefix: e.prefix, suffix: Some(",\n"@) }
}

/// The entries that are added to the array of `flag`. Where the array was
/// empty, the last of them is followed by a comma and a line break, so that
/// the closing bracket gets a line of its own.
pub open spec fn additions(
    pairs: Seq<(Seq<char>, Seq<char>)>,
    flag: Seq<char>,
    indentation: Seq<char>,
    was_empty: bool,
) -> Seq<EntryView> {
    let plain = plain_additions(pairs, flag, indentation, pairs.len() as int);
    if was_empty && plain.len() > 0 {
        plain.update(plain.len() - 1, closing(plain.last()))
    } else {
        plain
    }
}

/// An array with more entries at its end.
pub open spec fn extended(a: FeatureArrayView, more: Seq<EntryView>) -> FeatureArrayView {
    FeatureArrayView {
        entries: a.entries + more,
        trailing: a.trailing,
        trailing_comma: a.trailing_comma,
    }
}

/// The array of `flag` with what the requests add to it.
pub open spec fn fixed_array(
    a: FeatureArrayView,
    pairs: Seq<(Seq<char>, Seq<char>)>,
    flag: Seq<char>,
    indentation: Seq<char>,
) -> FeatureArrayView {
    extended(a, additions(pairs, flag, indentation, a.entries.len() == 0))
}

/// The arrays of a document after the requests were met: those under
/// `[features]` with their additions, all others as they were.
pub open spec fn fixed(
    before: Map<(Seq<char>, Seq<char>), FeatureArrayView>,
    pairs: Seq<(Seq<char>, Seq<char>)>,
    indentation: Seq<char>,
) -> Map<(Seq<char>, Seq<char>), FeatureArrayView> {
    Map::new(
        |key: (Seq<char>, Seq<char>)| before.contains_key(key),
        |key: (Seq<char>, Seq<char>)|
            if key.0 == "features"@ {
                fixed_array(before[key], pairs, key.1, indentation)
            } else {
                before[key]
            },
    )
}

/// No request for a feature, no addition to its array.
pub proof fn lemma_unwanted_unchanged(
    pairs: Seq<(Seq<char>, Seq<char>)>,
    flag: Seq<char>,
    indentation: Seq<char>,
    n: int,
)
    requires
        !wanted_upto(pairs, flag, n),
        n <= pairs.len(),
    ensures
        plain_additions(pairs, flag, indentation, n).len() == 0,
    decreases n,
{
    if n > 0 {
        lemma_unwanted_unchanged(pairs, flag, indentation, n - 1);
    }
}

/// The requests of a list of reports.
fn collect_requests(problems: &Vec<ProblemCrate>) -> (r: Vec<(String, String)>)
    ensures
        pairs_view(r@) == requests(problems_view(problems@)),
{
    let ghost pv = problems_view(problems@);
    let mut r: Vec<(String, String)> = Vec::new();
    let mut n: usize = 0;
    while n < problems.len()
        invariant
            n <= problems.len(),
            pv == problems_view(problems@),
            pairs_view(r@) == requests_upto(pv, n as int),
        decreases problems.len() - n,
    {
        let p = &problems[n];
        let ghost base = pairs_view(r@);
        match &p.problem {
            Problem::MissingFeatures(names) => {
                let mut i: usize = 0;
                while i < names.len()
                    invariant
                        i <= names.len(),
                        n < problems.len(),
                        pv == problems_view(problems@),
                        *p == problems[n as int],
                        p.problem == Problem::MissingFeatures(*names),
                        pairs_view(r@) == base + requests_of(pv[n as int]).subrange(0, i as int),
                    decreases names.len() - i,
                {
                    let ghost so_far = pairs_view(r@);
                    r.push((p.alias.clone(), names[i].clone()));
                    assert(pairs_view(r@) =~= so_far.push((p.alias@, names@[i as int]@)));
                    i += 1;
                }
            },
            Problem::DefaultFeaturesEnabled => {
            },
        }
        n += 1;
    }
    r
}

/// Whether one of the requests before the one at `j` is for the same feature.
fn requested_before(pairs: &Vec<(String, String)>, j: usize) -> (r: bool)
    requires
        j < pairs.len(),
    ensures
        r == wanted_upto(pairs_view(pairs@), pairs[j as int].1@, j as int),
{
    let mut m: usize = 0;
    while m < j
        invariant
            m <= j < pairs.len(),
            forall|k: int| 0 <= k < m ==> (#[trigger] pairs_view(pairs@)[k]).1 != pairs[j as int].1@,
        decreases j - m,
    {
        if pairs[m].1.as_str().eq(pairs[j].1.as_str()) {
            assert(pairs_view(pairs@)[m as int].1 == pairs[j as int].1@);
            return true;
        }
        m += 1;
    }
    false
}

/// The entries to add to the array of `flag`: see `additions`.
fn additions_for(pairs: &Vec<(String, String)>, flag: &str, indentation: &str, was_empty: bool) -> (r:
    Vec<Entry>)
    ensures
        entries_view(r@) == additions(pairs_view(pairs@), flag@, indentation@, was_empty),
{
    let ghost pv = pairs_view(pairs@);
    let mut r: Vec<Entry> = Vec::new();
    let mut n: usize = 0;
    while n < pairs.len()
        invariant
            n <= pairs.len(),
            pv == pairs_view(pairs@),
            entries_view(r@) == plain_additions(pv, flag@, indentation@, n as int),
        decreases pairs.len() - n,
    {
        if pairs[n].1.as_str().eq(flag) {
            r.push(
                Entry {
                    value: join(pairs[n].0.as_str(), "/", flag),
                    prefix: Some(indentation.to_owned()),
                    suffix: Some(String::new()),
                },
            );
        }
        n += 1;
    }
    if was_empty && r.len() > 0 {
        match r.pop() {
            Some(last) => {
                let Entry { value, prefix, suffix: _ } = last;
                r.push(Entry { value, prefix, suffix: Some(",\n".to_owned()) });
            },
            None => {},
        }
    }
    r
}


/// What is to be done with the new text of a manifest.
#[derive(Debug)]
pub enum Outcome {
    /// Nothing: the run only checks.
    Nothing,
    /// Print this text: the identity of the package and the diff between
    /// the old and the new manifest.
    Print(String),
    /// Write the new text to the staging path and leave it there.
    Stage { path: String, text: String },
    /// Write the new text to the staging path, then move it over the
    /// manifest.
    Replace { staged: String, path: String, text: String },
}

impl Resolver {
    /// The arrays `after` are what the repair makes of the arrays `before`:
    /// the requests met and, where sorting is on, the arrays of the tracked
    /// features sorted.
    pub open spec fn resolved(
        &self,
        before: Map<(Seq<char>, Seq<char>), FeatureArrayView>,
        after: Map<(Seq<char>, Seq<char>), FeatureArrayView>,
        pairs: Seq<(Seq<char>, Seq<char>)>,
    ) -> bool {
        let mid = fixed(before, pairs, self.indentation@);
        if self.sort {
            sorted_document(mid, after, self.features@, self.indentation@)
        } else {
            after == mid
        }
    }

    /// Adds to the array of one feature what the requests ask for.
    fn fix_feature(&self, doc: &mut toml_edit::DocumentMut, pairs: &Vec<(String, String)>, j: usize)
        requires
            j < pairs.len(),
            string_arrays(*old(doc)).contains_key(("features"@, pairs[j as int].1@)),
        ensures
            string_arrays(*final(doc)) == string_arrays(*old(doc)).insert(
                ("features"@, pairs[j as int].1@),
                fixed_array(
                    string_arrays(*old(doc))[("features"@, pairs[j as int].1@)],
                    pairs_view(pairs@),
                    pairs[j as int].1@,
                    self.indentation@,
                ),
            ),
    {
        let ghost base = string_arrays(*doc);
        let flag = pairs[j].1.as_str();
        let ghost at = ("features"@, flag@);
        let ghost a = base[at];
        let was_empty = match read_array(doc, "features", flag) {
            Some(array) => array.entries.len() == 0,
            None => false,
        };
        let more = additions_for(pairs, flag, self.indentation.as_str(), was_empty);
        let mut m: usize = 0;
        while m < more.len()
            invariant
                m <= more.len(),
                at == ("features"@, flag@),
                string_arrays(*doc) == base.insert(
                    at,
                    extended(a, entries_view(more@).subrange(0, m as int)),
                ),
            decreases more.len() - m,
        {
            push_entry(doc, "features", flag, &more[m]);
            assert((a.entries + entries_view(more@).subrange(0, m as int)).push(more[m as int]@)
                =~= a.entries + entries_view(more@).subrange(0, m + 1));
            m += 1;
        }
        assert(entries_view(more@).subrange(0, m as int) =~= entries_view(more@));
    }

    /// Repairs a document: adds each missing forwarding string to the array
    /// of its feature and, where sorting is on, sorts the arrays of the
    /// tracked features. Where a requested feature has no array, nothing is
    /// changed and the feature is named.
    pub fn resolve_document(&self, doc: &mut toml_edit::DocumentMut, problems: &Vec<ProblemCrate>) -> (r:
        Result<(), ResolveError>)
        ensures
            match r {
                Ok(_) => fixable(string_arrays(*old(doc)), requests(problems_view(problems@)))
                    && self.resolved(
                    string_arrays(*old(doc)),
                    string_arrays(*final(doc)),
                    requests(problems_view(problems@)),
                ),
                Err(e) => !fixable(string_arrays(*old(doc)), requests(problems_view(problems@)))
                    && string_arrays(*final(doc)) == string_arrays(*old(doc)) && (e matches ResolveError::MissingFeatureArray(
                    flag,
                ) && exists|j: int| #[trigger]
                    is_first_unfixable(
                        string_arrays(*old(doc)),
                        requests(problems_view(problems@)),
                        j,
                    ) && requests(problems_view(problems@))[j].1 == flag@),
            },
    {
        let ghost before = string_arrays(*doc);
        let ghost indentation = self.indentation@;
        let pairs = collect_requests(problems);
        let ghost pv = pairs_view(pairs@);
        let mut j: usize = 0;
        while j < pairs.len()
            invariant
                j <= pairs.len(),
                pv == pairs_view(pairs@),
                pv == requests(problems_view(problems@)),
                before == string_arrays(*doc),
                forall|m: int| 0 <= m < j ==> before.contains_key(("features"@, (#[trigger] pv[m]).1)),
            decreases pairs.len() - j,
        {
            match read_array(doc, "features", pairs[j].1.as_str()) {
                Some(_) => {
                },
                None => {
                    assert(is_first_unfixable(before, pv, j as int));
                    return Err(ResolveError::MissingFeatureArray(pairs[j].1.clone()));
                },
            }
            j += 1;
        }
        j = 0;
        while j < pairs.len()
            invariant
                j <= pairs.len(),
                pv == pairs_view(pairs@),
                indentation == self.indentation@,
                fixable(before, pv),
                string_arrays(*doc).dom() == before.dom(),
                forall|t: Seq<char>, k: Seq<char>| #[trigger]
                    before.contains_key((t, k)) ==> string_arrays(*doc)[(t, k)] == if t
                        == "features"@ && wanted_upto(pv, k, j as int) {
                        fixed_array(before[(t, k)], pv, k, indentation)
                    } else {
                        before[(t, k)]
                    },
            decreases pairs.len() - j,
        {
            let ghost now = string_arrays(*doc);
            let ghost flag = pairs[j as int].1@;
            assert(pv[j as int].1 == flag);
            if !requested_before(&pairs, j) {
                self.fix_feature(doc, &pairs, j);
            }
            proof {
                let after = string_arrays(*doc);
                assert forall|k: Seq<char>| wanted_upto(pv, k, j + 1) <==> (wanted_upto(
                    pv,
                    k,
                    j as int,
                ) || k == flag) by {
                    if wanted_upto(pv, k, j + 1) {
                        let m = choose|m: int| 0 <= m < j + 1 && m < pv.len() && (#[trigger] pv[m]).1 == k;
                    }
                }
            }
            j += 1;
        }
        proof {
            let now = string_arrays(*doc);
            let goal = fixed(before, pv, indentation);
            assert forall|key: (Seq<char>, Seq<char>)| #[trigger] before.contains_key(key) implies now[key]
                == goal[key] by {
                let (t, k) = key;
                if t == "features"@ && !wanted_upto(pv, k, pv.len() as int) {
                    lemma_unwanted_unchanged(pv, k, indentation, pv.len() as int);
                }
            }
            assert(now =~= goal);
        }
        if self.sort {
            let mut visitor = SortVisitor(copy_strings(&self.features));
            let ghost held = visitor.0@;
            proof {
                lemma_same_members(held, self.features@);
            }
            visitor.visit_document_mut(doc, self.indentation.as_str());
        }
        Ok(())
    }

    /// The text `new_text` is what the repair makes of a manifest that reads
    /// `text`.
    pub open spec fn repairs_text(&self, text: Seq<char>, problems: Seq<ProblemCrateView>, new_text: Seq<char>) -> bool {
        &&& parsed_arrays(text) is Some
        &&& fixable(parsed_arrays(text)->0, requests(problems))
        &&& exists|repaired: toml_edit::DocumentMut|
            new_text == document_text(repaired) && #[trigger] self.resolved(
                parsed_arrays(text)->0,
                string_arrays(repaired),
                requests(problems),
            )
    }

    /// The manifest that reads `text` has no array for `flag`, which is the
    /// first feature asked for that has none.
    pub open spec fn lacks_array(text: Seq<char>, problems: Seq<ProblemCrateView>, flag: Seq<char>) -> bool {
        &&& parsed_arrays(text) is Some
        &&& exists|j: int| #[trigger]
            is_first_unfixable(parsed_arrays(text)->0, requests(problems), j)
                && requests(problems)[j].1 == flag
    }

    /// Repairs the text of a manifest: parses it, repairs the document and
    /// writes it out again.
    pub fn resolve_text(&self, text: &str, problems: &Vec<ProblemCrate>) -> (r: Result<
        String,
        ResolveError,
    >)
        ensures
            match r {
                Ok(new_text) => self.repairs_text(text@, problems_view(problems@), new_text@),
                Err(ResolveError::Parse(_)) => parsed_arrays(text@) is None,
                Err(ResolveError::MissingFeatureArray(flag)) => Self::lacks_array(
                    text@,
                    problems_view(problems@),
                    flag@,
                ),
                Err(_) => false,
            },
    {
        match parse_document(text) {
            Ok(parsed) => {
                let ghost read = parsed;
                let mut doc = parsed;
                match self.resolve_document(&mut doc, problems) {
                    Ok(_) => {
                        let new_text = render_document(&doc);
                        Ok(new_text)
                    },
                    Err(e) => {
                        proof {
                            let pairs = requests(problems_view(problems@));
                            let j = choose|j: int| #[trigger]
                                is_first_unfixable(string_arrays(read), pairs, j) && pairs[j].1
                                    == e->MissingFeatureArray_0@;
                            assert(is_first_unfixable(parsed_arrays(text@)->0, pairs, j));
                        }
                        Err(e)
                    },
                }
            },
            Err(e) => Err(ResolveError::Parse(e)),
        }
    }
}

/// Both texts are short enough for a diff to be taken.
pub open spec fn diffable(before: Seq<char>, after: Seq<char>) -> bool {
    encode_utf8(before).len() <= MAX_DIFF_BYTES && encode_utf8(after).len() <= MAX_DIFF_BYTES
}

/// `r` is what the mode asks to be done with the new text `new_text` of the
/// manifest at `path`, which read `text` and belongs to the package `id`.
pub open spec fn is_outcome(
    mode: Mode,
    id: Seq<char>,
    path: Seq<char>,
    text: Seq<char>,
    new_text: Seq<char>,
    r: Result<Outcome, ResolveError>,
) -> bool {
    match mode {
        Mode::Check => r matches Ok(Outcome::Nothing),
        Mode::DryRun => if diffable(text, new_text) {
            r matches Ok(Outcome::Print(shown)) && shown@ == id + "\n"@ + unified_diff(
                text,
                new_text,
            )
        } else {
            r matches Err(ResolveError::TooLarge)
        },
        Mode::DryRun2 => r matches Ok(Outcome::Stage { path: staged, text: written }) && staged@
            == path + ".cargo-featalign.swap"@ && written@ == new_text,
        Mode::Overwrite => r matches Ok(Outcome::Replace { staged, path: target, text: written })
            && staged@ == path + ".cargo-featalign.swap"@ && target@ == path && written@
            == new_text,
    }
}

impl Resolver {
    /// Says what is to be done with the new text of a manifest.
    pub fn conclude(&self, id: &str, path: String, text: &str, new_text: String) -> (r: Result<
        Outcome,
        ResolveError,
    >)
        ensures
            is_outcome(self.mode, id@, path@, text@, new_text@, r),
    {
        match self.mode {
            Mode::Check => Ok(Outcome::Nothing),
            Mode::DryRun => {
                if text.as_bytes().len() <= MAX_DIFF_BYTES && new_text.as_str().as_bytes().len()
                    <= MAX_DIFF_BYTES {
                    let changes = diff(text, new_text.as_str());
                    Ok(Outcome::Print(join(id, "\n", changes.as_str())))
                } else {
                    Err(ResolveError::TooLarge)
                }
            },
            Mode::DryRun2 => {
                let staged = tmp_path_of(path.as_str());
                Ok(Outcome::Stage { path: staged, text: new_text })
            },
            Mode::Overwrite => {
                let staged = tmp_path_of(path.as_str());
                Ok(Outcome::Replace { staged, path, text: new_text })
            },
        }
    }

    /// Repairs the manifest of the package `id`, which reads `text`, and says
    /// what is to be done with the result. It fails where the identity names
    /// no directory, where the text is not well-formed, where a requested
    /// feature has no array, and where a diff is asked for of a text that is
    /// too long.
    pub fn resolve_crate(&self, id: &str, text: &str, problems: &Vec<ProblemCrate>) -> (r: Result<
        Outcome,
        ResolveError,
    >)
        ensures
            spec_manifest_path_of(id@) is None ==> r matches Err(ResolveError::NoManifestPath),
            spec_manifest_path_of(id@) is Some && parsed_arrays(text@) is None ==> r matches Err(
                ResolveError::Parse(_),
            ),
            spec_manifest_path_of(id@) is Some && parsed_arrays(text@) is Some ==> if fixable(
                parsed_arrays(text@)->0,
                requests(problems_view(problems@)),
            ) {
                exists|repaired: toml_edit::DocumentMut| #[trigger]
                    self.resolved(
                        parsed_arrays(text@)->0,
                        string_arrays(repaired),
                        requests(problems_view(problems@)),
                    ) && is_outcome(
                        self.mode,
                        id@,
                        spec_manifest_path_of(id@)->0,
                        text@,
                        document_text(repaired),
                        r,
                    )
            } else {
                r matches Err(ResolveError::MissingFeatureArray(_))
            },
    {
        let path = match manifest_path_of(id) {
            Some(path) => path,
            None => {
                return Err(ResolveError::NoManifestPath);
            },
        };
        match self.resolve_text(text, problems) {
            Ok(new_text) => {
                let ghost arrays = parsed_arrays(text@)->0;
                let r = self.conclude(id, path, text, new_text);
                r
            },
            Err(e) => Err(e),
        }
    }
}

/// Where nothing is asked for, the repair changes no array.
pub proof fn lemma_nothing_requested_nothing_changed(
    before: Map<(Seq<char>, Seq<char>), FeatureArrayView>,
    indentation: Seq<char>,
)
    ensures
        fixed(before, Seq::empty(), indentation) == before,
{
    let after = fixed(before, Seq::empty(), indentation);
    assert forall|key: (Seq<char>, Seq<char>)| #[trigger] before.contains_key(key) implies after[key]
        == before[key] by {}
}

/// Reports that ask for no forwarding string lead to no request.
pub proof fn lemma_default_features_ask_nothing(problems: Seq<ProblemCrateView>, n: int)
    requires
        0 <= n <= problems.len(),
        forall|j: int|
            0 <= j < n ==> (#[trigger] problems[j]).problem == ProblemView::DefaultFeaturesEnabled,
    ensures
        requests_upto(problems, n).len() == 0,
    decreases n,
{
    if n > 0 {
        lemma_default_features_ask_nothing(problems, n - 1);
    }
}

/// Reports of default features that turn `std` on are for the reader only:
/// they change no array.
pub proof fn lemma_default_features_change_nothing(
    before: Map<(Seq<char>, Seq<char>), FeatureArrayView>,
    problems: Seq<ProblemCrateView>,
    indentation: Seq<char>,
)
    requires
        forall|j: int|
            0 <= j < problems.len() ==> (#[trigger] problems[j]).problem
                == ProblemView::DefaultFeaturesEnabled,
    ensures
        fixed(before, requests(problems), indentation) == before,
{
    lemma_default_features_ask_nothing(problems, problems.len() as int);
    lemma_nothing_requested_nothing_changed(before, indentation);
}

/// The repair touches what it must and nothing else: an array outside
/// `[features]`, or of a feature that nothing is asked for, stays as it is,
/// and an array that gains entries keeps the entries it had, in their order
/// and with their decoration, and the text before its closing bracket.
pub proof fn lemma_minimal_change(
    before: Map<(Seq<char>, Seq<char>), FeatureArrayView>,
    pairs: Seq<(Seq<char>, Seq<char>)>,
    indentation: Seq<char>,
    table: Seq<char>,
    key: Seq<char>,
)
    requires
        before.contains_key((table, key)),
    ensures
        table != "features"@ || !wanted_upto(pairs, key, pairs.len() as int) ==> fixed(
            before,
            pairs,
            indentation,
        )[(table, key)] == before[(table, key)],
        fixed(before, pairs, indentation)[(table, key)].trailing == before[(table, key)].trailing,
        fixed(before, pairs, indentation)[(table, key)].trailing_comma
            == before[(table, key)].trailing_comma,
        before[(table, key)].entries.is_prefix_of(
            fixed(before, pairs, indentation)[(table, key)].entries,
        ),
        table == "features"@ && before[(table, key)].entries.len() > 0 ==> fixed(
            before,
            pairs,
            indentation,
        )[(table, key)].entries == before[(table, key)].entries + plain_additions(
            pairs,
            key,
            indentation,
            pairs.len() as int,
        ),
{
    let a = before[(table, key)];
    let after = fixed(before, pairs, indentation)[(table, key)];
    if table == "features"@ {
        if !wanted_upto(pairs, key, pairs.len() as int) {
            lemma_unwanted_unchanged(pairs, key, indentation, pairs.len() as int);
        }
    }
}

/// A repair that is run a second time, when the analysis asks for nothing
/// more, leaves the manifest as the first run made it, as long as the
/// indentation is white space only.
pub proof fn lemma_second_repair_changes_nothing(
    resolver: Resolver,
    before: Map<(Seq<char>, Seq<char>), FeatureArrayView>,
    once: Map<(Seq<char>, Seq<char>), FeatureArrayView>,
    twice: Map<(Seq<char>, Seq<char>), FeatureArrayView>,
    pairs: Seq<(Seq<char>, Seq<char>)>,
)
    requires
        trimmed(resolver.indentation@).len() == 0,
        resolver.resolved(before, once, pairs),
        resolver.resolved(once, twice, Seq::empty()),
    ensures
        twice == once,
{
    lemma_nothing_requested_nothing_changed(once, resolver.indentation@);
    if resolver.sort {
        lemma_sorting_document_twice(
            fixed(before, pairs, resolver.indentation@),
            once,
            twice,
            resolver.features@,
            resolver.indentation@,
        );
    }
}

} // verus!
