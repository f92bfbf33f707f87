//! Sorting the entries of an array without tearing comments from the groups
//! they introduce.

use vstd::prelude::*;
use vstd::string::*;
use vstd::seq_lib::*;
use crate::graph::{has_string, strings_view};
use crate::manifest::{
    copy_option, entries_view, entry_values, read_array, string_arrays, write_array, Entry,
    EntryView, FeatureArray, FeatureArrayView,
};
use crate::text::{
    lemma_lex_le_reflexive, lemma_lex_le_total, lemma_lex_le_total_ordering,
    lemma_lex_le_transitive, lex_le, str_le, trimmed,
};

verus! {

/// The entry carries a comment: the text before it holds more than white
/// space.
pub open spec fn has_comment(e: EntryView) -> bool {
    e.prefix is Some && trimmed(e.prefix->0).len() > 0
}

/// The entries from `a` up to `b` form a block: the first of them opens the
/// array or carries a comment, none of the others carries one, and what
/// follows, if anything, carries one.
pub open spec fn is_block(s: Seq<EntryView>, a: int, b: int) -> bool {
    &&& 0 <= a < b <= s.len()
    &&& a == 0 || has_comment(s[a])
    &&& b == s.len() || has_comment(s[b])
    &&& forall|j: int| a < j < b ==> !has_comment(#[trigger] s[j])
}

/// The strings from `a` up to `b` stand in ascending order.
pub open spec fn ascending_in(v: Seq<Seq<char>>, a: int, b: int) -> bool {
    forall|j: int, k: int| a <= j <= k < b ==> lex_le(#[trigger] v[j], #[trigger] v[k])
}

/// From `a` up to `b`, `sorted` holds the strings of `unsorted` in ascending
/// order: the same strings, each as often as before.
pub open spec fn block_sorted(
    unsorted: Seq<Seq<char>>,
    sorted: Seq<Seq<char>>,
    a: int,
    b: int,
) -> bool {
    &&& ascending_in(sorted, a, b)
    &&& sorted.subrange(a, b).to_multiset() == unsorted.subrange(a, b).to_multiset()
}

/// The decoration of the entry that takes the place `e` had: the comment of
/// `e` if it carried one, else one indentation.
pub open spec fn place_prefix(e: EntryView, indentation: Seq<char>) -> Option<Seq<char>> {
    if has_comment(e) {
        e.prefix
    } else {
        Some(indentation)
    }
}

/// The text after the entry that takes the place `e` had: left unset below a
/// comment, else empty.
pub open spec fn place_suffix(e: EntryView) -> Option<Seq<char>> {
    if has_comment(e) {
        None
    } else {
        Some(Seq::empty())
    }
}

/// `r` is `s` sorted block by block. The blocks stay where they are; within
/// each the strings stand in ascending order; a comment stays at the head of
/// its block, and every other entry is decorated with one indentation.
pub open spec fn sorted_entries(s: Seq<EntryView>, r: Seq<EntryView>, indentation: Seq<char>) -> bool {
    &&& r.len() == s.len()
    &&& forall|i: int|
        0 <= i < s.len() ==> (#[trigger] r[i]).prefix == place_prefix(s[i], indentation)
    &&& forall|i: int| 0 <= i < s.len() ==> (#[trigger] r[i]).suffix == place_suffix(s[i])
    &&& forall|a: int, b: int| #[trigger]
        is_block(s, a, b) ==> block_sorted(entry_values(s), entry_values(r), a, b)
}

/// A block that is still open at `i`: it starts at `start` and no entry after
/// its first, before `i`, carries a comment.
pub open spec fn block_open(s: Seq<EntryView>, start: int, i: int) -> bool {
    &&& 0 <= start <= i <= s.len()
    &&& start == 0 || has_comment(s[start])
    &&& forall|j: int| start < j < i ==> !has_comment(#[trigger] s[j])
}

/// A block that ends at `b` starts where the block open at `b` starts.
proof fn lemma_one_start(s: Seq<EntryView>, a: int, b: int, start: int)
    requires
        is_block(s, a, b),
        block_open(s, start, b),
        start < b,
    ensures
        a == start,
{
}

/// Whether the text before the entry holds more than white space.
pub fn carries_comment(e: &Entry) -> (r: bool)
    ensures
        r == has_comment(e@),
{
    match &e.prefix {
        Some(p) => !p.as_str().trim().is_empty(),
        None => false,
    }
}

/// The strings of the entries, sorted block by block.
fn sorted_values(v: &Vec<Entry>) -> (vals: Vec<String>)
    ensures
        vals.len() == v.len(),
        forall|a: int, b: int| #[trigger]
            is_block(entries_view(v@), a, b) ==> block_sorted(
                entry_values(entries_view(v@)),
                strings_view(vals@),
                a,
                b,
            ),
{
    let ghost s = entries_view(v@);
    let ghost o = entry_values(s);
    let mut vals: Vec<String> = Vec::new();
    let mut start: usize = 0;
    let mut i: usize = 0;
    assert(strings_view(vals@).subrange(0, 0) =~= o.subrange(0, 0));
    while i < v.len()
        invariant
            i <= v.len(),
            vals.len() == i,
            s == entries_view(v@),
            o == entry_values(s),
            block_open(s, start as int, i as int),
            i > 0 ==> start < i,
            ascending_in(strings_view(vals@), start as int, i as int),
            strings_view(vals@).subrange(start as int, i as int).to_multiset() == o.subrange(
                start as int,
                i as int,
            ).to_multiset(),
            forall|a: int, b: int|
                #[trigger] is_block(s, a, b) && b <= start ==> block_sorted(
                    o,
                    strings_view(vals@),
                    a,
                    b,
                ),
        decreases v.len() - i,
    {
        let ghost r0 = strings_view(vals@);
        if i > 0 && carries_comment(&v[i]) {
            proof {
                assert forall|a: int, b: int| #[trigger] is_block(s, a, b) && b <= i implies block_sorted(
                    o,
                    r0,
                    a,
                    b,
                ) by {
                    if b > start {
                        // a block that reaches beyond `start` ends at a comment, and the
                        // first comment after `start` stands at `i`
                        lemma_one_start(s, a, b, start as int);
                    }
                }
                assert(r0.subrange(i as int, i as int) =~= o.subrange(i as int, i as int));
            }
            start = i;
        }
        let x = v[i].value.clone();
        let mut p: usize = start;
        while p < i && str_le(vals[p].as_str(), x.as_str())
            invariant
                start <= p <= i,
                vals.len() == i,
                r0 == strings_view(vals@),
                forall|j: int| start <= j < p ==> lex_le(#[trigger] r0[j], x@),
            decreases i - p,
        {
            p += 1;
        }
        vals.insert(p, x);
        proof {
            let r1 = strings_view(vals@);
            assert(r1 =~= r0.insert(p as int, x@));
            assert forall|j: int| p <= j < i implies lex_le(x@, #[trigger] r0[j]) by {
                lemma_lex_le_total(r0[p as int], x@);
                lemma_lex_le_transitive(x@, r0[p as int], r0[j]);
            }
            assert(lex_le(x@, x@)) by {
                lemma_lex_le_reflexive(x@);
            }
            assert(r1.subrange(start as int, i + 1) =~= r0.subrange(start as int, i as int).insert(
                p - start,
                x@,
            ));
            to_multiset_insert(r0.subrange(start as int, i as int), p - start, x@);
            assert(o.subrange(start as int, i + 1) =~= o.subrange(start as int, i as int).push(
                o[i as int],
            ));
            to_multiset_build(o.subrange(start as int, i as int), o[i as int]);
            assert forall|a: int, b: int| #[trigger] is_block(s, a, b) && b <= start implies block_sorted(
                o,
                r1,
                a,
                b,
            ) by {
                assert(r1.subrange(a, b) =~= r0.subrange(a, b));
            }
        }
        i += 1;
    }
    proof {
        let r = strings_view(vals@);
        assert forall|a: int, b: int| #[trigger] is_block(s, a, b) implies block_sorted(o, r, a, b) by {
            if b > start {
                lemma_one_start(s, a, b, start as int);
            }
        }
    }
    vals
}

/// Sorts the entries block by block. A block starts at each entry that
/// carries a comment; the comment stays at the head of its block, all other
/// decoration is replaced by one indentation.
pub fn sort(v: Vec<Entry>, indentation: &str) -> (r: Vec<Entry>)
    ensures
        sorted_entries(entries_view(v@), entries_view(r@), indentation@),
{
    let vals = sorted_values(&v);
    let ghost s = entries_view(v@);
    let mut r: Vec<Entry> = Vec::new();
    let mut i: usize = 0;
    while i < v.len()
        invariant
            i <= v.len(),
            vals.len() == v.len(),
            r.len() == i,
            s == entries_view(v@),
            forall|j: int| 0 <= j < i ==> (#[trigger] r@[j])@.value == vals@[j]@,
            forall|j: int|
                0 <= j < i ==> (#[trigger] r@[j])@.prefix == place_prefix(s[j], indentation@),
            forall|j: int| 0 <= j < i ==> (#[trigger] r@[j])@.suffix == place_suffix(s[j]),
        decreases v.len() - i,
    {
        let entry = if carries_comment(&v[i]) {
            Entry { value: vals[i].clone(), prefix: copy_option(&v[i].prefix), suffix: None }
        } else {
            Entry {
                value: vals[i].clone(),
                prefix: Some(indentation.to_owned()),
                suffix: Some(String::new()),
            }
        };
        r.push(entry);
        i += 1;
    }
    proof {
        let rv = entries_view(r@);
        assert(entry_values(rv) =~= strings_view(vals@));
    }
    r
}


/// `r` is the array `a` sorted: its entries sorted block by block, the text
/// before the closing bracket kept, and, where there are entries, a comma
/// after the last of them and at least a line break before the bracket.
pub open spec fn sorted_array(a: FeatureArrayView, r: FeatureArrayView, indentation: Seq<char>) -> bool {
    &&& sorted_entries(a.entries, r.entries, indentation)
    &&& r.trailing_comma == (a.entries.len() > 0)
    &&& r.trailing == if a.entries.len() > 0 && a.trailing.len() == 0 {
        "\n"@
    } else {
        a.trailing
    }
}

/// The arrays `after` are the arrays `before` with those of the tracked
/// features sorted and every other array as it was.
pub open spec fn sorted_document(
    before: Map<(Seq<char>, Seq<char>), FeatureArrayView>,
    after: Map<(Seq<char>, Seq<char>), FeatureArrayView>,
    watched: Seq<String>,
    indentation: Seq<char>,
) -> bool {
    &&& after.dom() == before.dom()
    &&& forall|t: Seq<char>, k: Seq<char>| #[trigger]
        before.contains_key((t, k)) ==> if t == "features"@ && has_string(watched, k) {
            sorted_array(before[(t, k)], after[(t, k)], indentation)
        } else {
            after[(t, k)] == before[(t, k)]
        }
}

/// Sorts an array: see `sorted_array`.
pub fn sort_array(array: FeatureArray, indentation: &str) -> (r: FeatureArray)
    ensures
        sorted_array(array@, r@, indentation@),
{
    let FeatureArray { entries, trailing, trailing_comma: _ } = array;
    let was_empty = entries.len() == 0;
    let sorted = sort(entries, indentation);
    if was_empty {
        FeatureArray { entries: sorted, trailing, trailing_comma: false }
    } else if trailing.as_str().is_empty() {
        FeatureArray { entries: sorted, trailing: "\n".to_owned(), trailing_comma: true }
    } else {
        FeatureArray { entries: sorted, trailing, trailing_comma: true }
    }
}

/// Whether the string at `i` stands in the list before `i` too.
fn occurs_before(list: &Vec<String>, i: usize) -> (r: bool)
    requires
        i < list.len(),
    ensures
        r == has_string(list@.subrange(0, i as int), list[i as int]@),
{
    let mut j: usize = 0;
    while j < i
        invariant
            j <= i < list.len(),
            forall|m: int| 0 <= m < j ==> (#[trigger] list@[m])@ != list[i as int]@,
        decreases i - j,
    {
        if list[j].as_str().eq(list[i].as_str()) {
            assert(list@.subrange(0, i as int)[j as int] == list@[j as int]);
            return true;
        }
        j += 1;
    }
    false
}

/// Sorts the arrays of the features it is made with.
#[derive(Debug)]
pub struct SortVisitor(pub Vec<String>);

impl SortVisitor {
    /// Sorts, under `[features]`, the array of each feature the visitor
    /// holds, and leaves everything else as it is. The visitor holds no
    /// feature afterwards.
    pub fn visit_document_mut(&mut self, doc: &mut toml_edit::DocumentMut, indentation: &str)
        ensures
            final(self).0@.len() == 0,
            sorted_document(
                string_arrays(*old(doc)),
                string_arrays(*final(doc)),
                old(self).0@,
                indentation@,
            ),
    {
        let ghost before = string_arrays(*doc);
        let ghost watched = self.0@;
        let mut i: usize = 0;
        while i < self.0.len()
            invariant
                i <= self.0.len(),
                self.0@ == watched,
                sorted_document(before, string_arrays(*doc), watched.subrange(0, i as int), indentation@),
            decreases self.0.len() - i,
        {
            let ghost seen = watched.subrange(0, i as int);
            let ghost name = watched[i as int]@;
            let fresh = !occurs_before(&self.0, i);
            if fresh {
                let key = self.0[i].as_str();
                match read_array(doc, "features", key) {
                    Some(array) => {
                        let sorted = sort_array(array, indentation);
                        write_array(doc, "features", key, &sorted);
                    },
                    None => {},
                }
            }
            proof {
                let next = watched.subrange(0, i + 1);
                let after = string_arrays(*doc);
                assert(next[i as int] == watched[i as int]);
                assert forall|k: Seq<char>| has_string(next, k) <==> (has_string(seen, k) || k
                    == name) by {
                    if has_string(next, k) {
                        let m = choose|m: int| 0 <= m < next.len() && (#[trigger] next[m])@ == k;
                    }
                }
                assert(after.dom() =~= before.dom());
            }
            i += 1;
        }
        assert(watched.subrange(0, i as int) =~= watched);
        self.0 = Vec::new();
    }
}

/// Where the block that holds the entry at `i` starts.
pub open spec fn block_start(s: Seq<EntryView>, i: int) -> int
    decreases i,
{
    if i <= 0 || has_comment(s[i]) {
        i
    } else {
        block_start(s, i - 1)
    }
}

/// Where the block ends that holds the entries before `j`.
pub open spec fn block_end(s: Seq<EntryView>, j: int) -> int
    decreases s.len() - j,
{
    if j >= s.len() || has_comment(s[j]) {
        j
    } else {
        block_end(s, j + 1)
    }
}

proof fn lemma_block_start(s: Seq<EntryView>, i: int)
    requires
        0 <= i < s.len(),
    ensures
        0 <= block_start(s, i) <= i,
        block_start(s, i) == 0 || has_comment(s[block_start(s, i)]),
        forall|j: int| block_start(s, i) < j <= i ==> !has_comment(#[trigger] s[j]),
    decreases i,
{
    if !(i <= 0 || has_comment(s[i])) {
        lemma_block_start(s, i - 1);
    }
}

proof fn lemma_block_end(s: Seq<EntryView>, j: int)
    requires
        0 <= j <= s.len(),
    ensures
        j <= block_end(s, j) <= s.len(),
        block_end(s, j) == s.len() || has_comment(s[block_end(s, j)]),
        forall|k: int| j <= k < block_end(s, j) ==> !has_comment(#[trigger] s[k]),
    decreases s.len() - j,
{
    if !(j >= s.len() || has_comment(s[j])) {
        lemma_block_end(s, j + 1);
    }
}

/// Every entry lies in a block.
pub proof fn lemma_block_around(s: Seq<EntryView>, i: int)
    requires
        0 <= i < s.len(),
    ensures
        is_block(s, block_start(s, i), block_end(s, i + 1)),
        block_start(s, i) <= i < block_end(s, i + 1),
{
    lemma_block_start(s, i);
    lemma_block_end(s, i + 1);
}

/// The strings of a block can be sorted in one way only.
pub proof fn lemma_block_sorted_one_way(
    unsorted: Seq<Seq<char>>,
    x: Seq<Seq<char>>,
    y: Seq<Seq<char>>,
    a: int,
    b: int,
)
    requires
        0 <= a <= b,
        b <= x.len(),
        b <= y.len(),
        block_sorted(unsorted, x, a, b),
        block_sorted(unsorted, y, a, b),
    ensures
        x.subrange(a, b) == y.subrange(a, b),
{
    let leq = |p: Seq<char>, q: Seq<char>| lex_le(p, q);
    lemma_lex_le_total_ordering();
    let xs = x.subrange(a, b);
    let ys = y.subrange(a, b);
    lemma_sorted_unique(xs, ys, leq);
}

/// There is one way to sort: two lists that are both the sorted form of the
/// same entries are the same list.
pub proof fn lemma_sorted_one_way(
    s: Seq<EntryView>,
    x: Seq<EntryView>,
    y: Seq<EntryView>,
    indentation: Seq<char>,
)
    requires
        sorted_entries(s, x, indentation),
        sorted_entries(s, y, indentation),
    ensures
        x == y,
{
    assert forall|i: int| 0 <= i < x.len() implies x[i] == y[i] by {
        lemma_block_around(s, i);
        let a = block_start(s, i);
        let b = block_end(s, i + 1);
        lemma_block_sorted_one_way(entry_values(s), entry_values(x), entry_values(y), a, b);
        assert(entry_values(x).subrange(a, b)[i - a] == entry_values(y).subrange(a, b)[i - a]);
    }
}

/// What is sorted is its own sorted form, as long as the indentation is
/// white space only.
pub proof fn lemma_sorted_is_fixed(s: Seq<EntryView>, r: Seq<EntryView>, indentation: Seq<char>)
    requires
        trimmed(indentation).len() == 0,
        sorted_entries(s, r, indentation),
    ensures
        sorted_entries(r, r, indentation),
{
    assert forall|a: int, b: int| #[trigger] is_block(r, a, b) implies block_sorted(
        entry_values(r),
        entry_values(r),
        a,
        b,
    ) by {
        assert forall|j: int| a < j < b implies !has_comment(#[trigger] s[j]) by {
            assert(!has_comment(r[j]));
        }
        assert(is_block(s, a, b));
    }
}

/// Sorting twice is sorting once, as long as the indentation is white space
/// only.
pub proof fn lemma_sorting_twice(
    s: Seq<EntryView>,
    once: Seq<EntryView>,
    twice: Seq<EntryView>,
    indentation: Seq<char>,
)
    requires
        trimmed(indentation).len() == 0,
        sorted_entries(s, once, indentation),
        sorted_entries(once, twice, indentation),
    ensures
        twice == once,
{
    lemma_sorted_is_fixed(s, once, indentation);
    lemma_sorted_one_way(once, twice, once, indentation);
}

/// Sorting an array twice is sorting it once, as long as the indentation is
/// white space only.
pub proof fn lemma_sorting_array_twice(
    a: FeatureArrayView,
    once: FeatureArrayView,
    twice: FeatureArrayView,
    indentation: Seq<char>,
)
    requires
        trimmed(indentation).len() == 0,
        sorted_array(a, once, indentation),
        sorted_array(once, twice, indentation),
    ensures
        twice == once,
{
    lemma_sorting_twice(a.entries, once.entries, twice.entries, indentation);
    reveal_strlit("\n");
}

/// Sorting a document twice is sorting it once, as long as the indentation
/// is white space only.
pub proof fn lemma_sorting_document_twice(
    before: Map<(Seq<char>, Seq<char>), FeatureArrayView>,
    once: Map<(Seq<char>, Seq<char>), FeatureArrayView>,
    twice: Map<(Seq<char>, Seq<char>), FeatureArrayView>,
    watched: Seq<String>,
    indentation: Seq<char>,
)
    requires
        trimmed(indentation).len() == 0,
        sorted_document(before, once, watched, indentation),
        sorted_document(once, twice, watched, indentation),
    ensures
        twice == once,
{
    assert forall|key: (Seq<char>, Seq<char>)| #[trigger] once.contains_key(key) implies twice[key]
        == once[key] by {
        let (t, k) = key;
        if t == "features"@ && has_string(watched, k) {
            lemma_sorting_array_twice(before[key], once[key], twice[key], indentation);
        }
    }
}

} // verus!
