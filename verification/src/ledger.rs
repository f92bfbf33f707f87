//! The ledger of problems: for each package that was analyzed, what was found
//! wrong in the way it refers to its dependencies.

use vstd::prelude::*;
use vstd::string::*;
use crate::problem::{problems_view, same_content, ProblemCrate, ProblemCrateView};

verus! {

/// `fxhash::FxHasher`: the hasher of the table behind the ledger.
#[verifier::external_type_specification]
#[verifier::external_body]
pub struct ExFxHasher(fxhash::FxHasher);

/// `core::hash::BuildHasherDefault`: what makes the hashers of the table.
#[verifier::external_type_specification]
#[verifier::external_body]
#[verifier::reject_recursive_types(H)]
pub struct ExBuildHasherDefault<H>(core::hash::BuildHasherDefault<H>);

/// What the hash table behind the ledger holds: for each identity in it, the
/// reports filed under it.
pub uninterp spec fn table_entries(t: fxhash::FxHashMap<String, Vec<ProblemCrate>>) -> Map<
    Seq<char>,
    Seq<ProblemCrateView>,
>;

/// The ledger that holds nothing.
pub open spec fn no_entries() -> Map<Seq<char>, Seq<ProblemCrateView>> {
    Map::empty()
}

/// A new `FxHashMap`, which is empty.
#[verifier::external_body]
fn table_new() -> (t: fxhash::FxHashMap<String, Vec<ProblemCrate>>)
    ensures
        table_entries(t) == no_entries(),
{
    fxhash::FxHashMap::default()
}

/// `HashMap::get`: the reports filed under `id`, if there are any.
#[verifier::external_body]
fn table_get<'a>(t: &'a fxhash::FxHashMap<String, Vec<ProblemCrate>>, id: &str) -> (r: Option<&'a Vec<ProblemCrate>>)
    ensures
        match r {
            Some(list) => table_entries(*t).contains_key(id@) && table_entries(*t)[id@]
                == problems_view(list@),
            None => !table_entries(*t).contains_key(id@),
        },
{
    t.get(id)
}

/// `HashMap::remove`: takes out what is filed under `id` and hands it over.
#[verifier::external_body]
fn table_remove(t: &mut fxhash::FxHashMap<String, Vec<ProblemCrate>>, id: &str) -> (r: Option<Vec<ProblemCrate>>)
    ensures
        table_entries(*final(t)) == table_entries(*old(t)).remove(id@),
        match r {
            Some(list) => table_entries(*old(t)).contains_key(id@) && table_entries(*old(t))[id@]
                == problems_view(list@),
            None => !table_entries(*old(t)).contains_key(id@),
        },
{
    t.remove(id)
}

/// `HashMap::insert`: files `problems` under `id`, in place of what was there.
#[verifier::external_body]
fn table_insert(t: &mut fxhash::FxHashMap<String, Vec<ProblemCrate>>, id: String, problems: Vec<ProblemCrate>)
    ensures
        table_entries(*final(t)) == table_entries(*old(t)).insert(id@, problems_view(problems@)),
{
    t.insert(id, problems);
}

/// `HashMap::is_empty`.
#[verifier::external_body]
fn table_is_empty(t: &fxhash::FxHashMap<String, Vec<ProblemCrate>>) -> (r: bool)
    ensures
        r == (table_entries(*t) == no_entries()),
{
    t.is_empty()
}

/// `list` names each key of `entries` once, with what is filed under it.
pub open spec fn lists_entries(
    list: Seq<(String, Vec<ProblemCrate>)>,
    entries: Map<Seq<char>, Seq<ProblemCrateView>>,
) -> bool {
    &&& forall|i: int|
        0 <= i < list.len() ==> entries.contains_key((#[trigger] list[i]).0@) && entries[list[i].0@]
            == problems_view(list[i].1@)
    &&& forall|i: int, j: int|
        0 <= i < j < list.len() ==> (#[trigger] list[i]).0@ != (#[trigger] list[j]).0@
    &&& forall|id: Seq<char>| #[trigger]
        entries.contains_key(id) ==> exists|i: int|
            0 <= i < list.len() && (#[trigger] list[i]).0@ == id
}

/// `HashMap::drain`: empties the table and hands out what it held, each key
/// once, in no order that could be relied on.
#[verifier::external_body]
fn table_drain(t: &mut fxhash::FxHashMap<String, Vec<ProblemCrate>>) -> (r: Vec<(String, Vec<ProblemCrate>)>)
    ensures
        table_entries(*final(t)) == no_entries(),
        lists_entries(r@, table_entries(*old(t))),
{
    t.drain().collect()
}

/// `HashMap::keys`: the identities that something is filed under, each once.
#[verifier::external_body]
fn table_keys(t: &fxhash::FxHashMap<String, Vec<ProblemCrate>>) -> (r: Vec<String>)
    ensures
        forall|i: int| 0 <= i < r.len() ==> table_entries(*t).contains_key((#[trigger] r[i])@),
        forall|i: int, j: int| 0 <= i < j < r.len() ==> (#[trigger] r[i])@ != (#[trigger] r[j])@,
        forall|id: Seq<char>| #[trigger]
            table_entries(*t).contains_key(id) ==> exists|i: int|
                0 <= i < r.len() && (#[trigger] r[i])@ == id,
{
    t.keys().cloned().collect()
}

/// A report that says the same as `p` stands in `list`.
pub open spec fn reported(list: Seq<ProblemCrateView>, p: ProblemCrateView) -> bool {
    exists|i: int| 0 <= i < list.len() && same_content(#[trigger] list[i], p)
}

/// `existing` after the first `n` reports of `batch` were filed: each is
/// added at the end unless one that says the same is there already.
pub open spec fn merged(existing: Seq<ProblemCrateView>, batch: Seq<ProblemCrateView>, n: int) -> Seq<
    ProblemCrateView,
>
    decreases n,
{
    if n <= 0 {
        existing
    } else {
        let so_far = merged(existing, batch, n - 1);
        if reported(so_far, batch[n - 1]) {
            so_far
        } else {
            so_far.push(batch[n - 1])
        }
    }
}

/// The ledger after `batch` was filed under `id`. An empty batch changes
/// nothing; a batch for a new identity is filed as it is; a batch for a known
/// identity is merged into what is there.
pub open spec fn appended(
    ledger: Map<Seq<char>, Seq<ProblemCrateView>>,
    id: Seq<char>,
    batch: Seq<ProblemCrateView>,
) -> Map<Seq<char>, Seq<ProblemCrateView>> {
    if batch.len() == 0 {
        ledger
    } else if ledger.contains_key(id) {
        ledger.insert(id, merged(ledger[id], batch, batch.len() as int))
    } else {
        ledger.insert(id, batch)
    }
}

/// The problems found so far, by the identity of the package they were found
/// in.
#[derive(Debug)]
pub struct Ledger {
    table: fxhash::FxHashMap<String, Vec<ProblemCrate>>,
}

impl View for Ledger {
    type V = Map<Seq<char>, Seq<ProblemCrateView>>;

    closed spec fn view(&self) -> Map<Seq<char>, Seq<ProblemCrateView>> {
        table_entries(self.table)
    }
}

/// Whether a report that says the same as `p` stands in `list`.
pub fn is_reported(list: &Vec<ProblemCrate>, p: &ProblemCrate) -> (r: bool)
    ensures
        r == reported(problems_view(list@), p@),
{
    let mut i: usize = 0;
    while i < list.len()
        invariant
            i <= list.len(),
            forall|j: int| 0 <= j < i ==> !same_content(#[trigger] problems_view(list@)[j], p@),
        decreases list.len() - i,
    {
        if list[i] == *p {
            assert(same_content(problems_view(list@)[i as int], p@));
            return true;
        }
        i += 1;
    }
    false
}

impl Ledger {
    /// A ledger without entries.
    pub fn new() -> (r: Ledger)
        ensures
            r@ == no_entries(),
    {
        Ledger { table: table_new() }
    }

    /// Files `problems` under `id`: see `appended`.
    pub fn append(&mut self, id: String, problems: Vec<ProblemCrate>)
        ensures
            final(self)@ == appended(old(self)@, id@, problems_view(problems@)),
    {
        if problems.len() == 0 {
            return ;
        }
        let ghost batch = problems_view(problems@);
        let ghost before = self@;
        match table_remove(&mut self.table, id.as_str()) {
            Some(existing) => {
                let mut list = existing;
                let mut n: usize = 0;
                while n < problems.len()
                    invariant
                        n <= problems.len(),
                        batch == problems_view(problems@),
                        before.contains_key(id@),
                        problems_view(list@) == merged(before[id@], batch, n as int),
                    decreases problems.len() - n,
                {
                    if !is_reported(&list, &problems[n]) {
                        list.push(problems[n].clone());
                    }
                    n += 1;
                }
                table_insert(&mut self.table, id, list);
            },
            None => {
                table_insert(&mut self.table, id, problems);
            },
        }
    }

    /// The reports filed under `id`, if there are any.
    pub fn get(&self, id: &str) -> (r: Option<&Vec<ProblemCrate>>)
        ensures
            match r {
                Some(list) => self@.contains_key(id@) && self@[id@] == problems_view(list@),
                None => !self@.contains_key(id@),
            },
    {
        table_get(&self.table, id)
    }

    /// Whether nothing was filed.
    pub fn is_empty(&self) -> (r: bool)
        ensures
            r == (self@ == no_entries()),
    {
        table_is_empty(&self.table)
    }

    /// The identities that something is filed under, each once.
    pub fn keys(&self) -> (r: Vec<String>)
        ensures
            forall|i: int| 0 <= i < r.len() ==> self@.contains_key((#[trigger] r[i])@),
            forall|i: int, j: int| 0 <= i < j < r.len() ==> (#[trigger] r[i])@ != (#[trigger] r[j])@,
            forall|id: Seq<char>| #[trigger]
                self@.contains_key(id) ==> exists|i: int| 0 <= i < r.len() && (#[trigger] r[i])@ == id,
    {
        table_keys(&self.table)
    }

    /// Empties the ledger and hands out what it held: each identity once,
    /// with the reports filed under it.
    pub fn take_all(&mut self) -> (r: Vec<(String, Vec<ProblemCrate>)>)
        ensures
            final(self)@ == no_entries(),
            lists_entries(r@, old(self)@),
    {
        table_drain(&mut self.table)
    }
}

/// Files `problems` under `id` in the ledger: see `appended`.
pub fn append_problems(ledger: &mut Ledger, id: String, problems: Vec<ProblemCrate>)
    ensures
        final(ledger)@ == appended(old(ledger)@, id@, problems_view(problems@)),
{
    ledger.append(id, problems);
}


/// Reports that say what is filed already are dropped: the list stays as it
/// is.
pub proof fn lemma_known_reports_dropped(
    existing: Seq<ProblemCrateView>,
    batch: Seq<ProblemCrateView>,
    n: int,
)
    requires
        0 <= n <= batch.len(),
        forall|j: int| 0 <= j < n ==> reported(existing, #[trigger] batch[j]),
    ensures
        merged(existing, batch, n) == existing,
    decreases n,
{
    if n > 0 {
        lemma_known_reports_dropped(existing, batch, n - 1);
    }
}

/// A package that is come to a second time, along another path and with the
/// same problems, keeps the entry it has: every report stays once, with the
/// dependency path it was first found along.
pub proof fn lemma_second_visit_changes_nothing(
    ledger: Map<Seq<char>, Seq<ProblemCrateView>>,
    id: Seq<char>,
    first: Seq<ProblemCrateView>,
    second: Seq<ProblemCrateView>,
)
    requires
        !ledger.contains_key(id),
        first.len() > 0,
        forall|j: int| 0 <= j < second.len() ==> reported(first, #[trigger] second[j]),
    ensures
        appended(appended(ledger, id, first), id, second) == ledger.insert(id, first),
{
    let once = appended(ledger, id, first);
    if second.len() > 0 {
        lemma_known_reports_dropped(first, second, second.len() as int);
    }
}

/// The same problem about the same dependency, found along two paths, is
/// filed once, with the path it was first found along.
pub proof fn lemma_same_problem_two_paths(
    ledger: Map<Seq<char>, Seq<ProblemCrateView>>,
    id: Seq<char>,
    first: ProblemCrateView,
    second: ProblemCrateView,
)
    requires
        !ledger.contains_key(id),
        same_content(first, second),
    ensures
        appended(appended(ledger, id, seq![first]), id, seq![second]) == ledger.insert(
            id,
            seq![first],
        ),
        appended(appended(ledger, id, seq![first]), id, seq![second])[id].len() == 1,
        appended(appended(ledger, id, seq![first]), id, seq![second])[id][0].dependency_path
            == first.dependency_path,
{
    assert(same_content(seq![first][0], second));
    lemma_second_visit_changes_nothing(ledger, id, seq![first], seq![second]);
}

} // verus!
