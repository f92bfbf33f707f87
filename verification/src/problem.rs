//! What the analysis reports.

use vstd::prelude::*;
use vstd::string::*;
use crate::graph::strings_view;

verus! {

/// What is wrong with the way a package refers to one of its dependencies.
#[derive(Debug)]
pub enum Problem {
    /// The dependency is used with its default features, and those turn on
    /// `std`.
    DefaultFeaturesEnabled,
    /// The dependency has these tracked features on, yet the package does not
    /// forward them to it.
    MissingFeatures(Vec<String>),
}

/// A problem as a plain value.
pub enum ProblemView {
    DefaultFeaturesEnabled,
    MissingFeatures(Seq<Seq<char>>),
}

impl View for Problem {
    type V = ProblemView;

    open spec fn view(&self) -> ProblemView {
        match self {
            Problem::DefaultFeaturesEnabled => ProblemView::DefaultFeaturesEnabled,
            Problem::MissingFeatures(names) => ProblemView::MissingFeatures(strings_view(names@)),
        }
    }
}

/// A problem together with the dependency it is about.
#[derive(Debug)]
pub struct ProblemCrate {
    /// Identity of the dependency.
    pub id: String,
    /// The name under which the package refers to the dependency.
    pub alias: String,
    /// The chain of package names along which the problem was found.
    pub dependency_path: String,
    pub problem: Problem,
}

/// A reported problem as a plain value.
pub struct ProblemCrateView {
    pub id: Seq<char>,
    pub alias: Seq<char>,
    pub dependency_path: Seq<char>,
    pub problem: ProblemView,
}

impl View for ProblemCrate {
    type V = ProblemCrateView;

    open spec fn view(&self) -> ProblemCrateView {
        ProblemCrateView {
            id: self.id@,
            alias: self.alias@,
            dependency_path: self.dependency_path@,
            problem: self.problem@,
        }
    }
}

/// Two reports say the same thing: the same problem about the same
/// dependency. Where it was found, and under which name, plays no part.
pub open spec fn same_content(a: ProblemCrateView, b: ProblemCrateView) -> bool {
    a.id == b.id && a.problem == b.problem
}

/// The plain values of a list of reports.
pub open spec fn problems_view(list: Seq<ProblemCrate>) -> Seq<ProblemCrateView> {
    Seq::new(list.len(), |i: int| list[i]@)
}

/// Whether two lists hold the same strings in the same order.
pub fn same_strings(a: &Vec<String>, b: &Vec<String>) -> (r: bool)
    ensures
        r == (strings_view(a@) == strings_view(b@)),
{
    if a.len() != b.len() {
        return false;
    }
    let mut i: usize = 0;
    while i < a.len()
        invariant
            i <= a.len(),
            a.len() == b.len(),
            forall|j: int| 0 <= j < i ==> a@[j]@ == b@[j]@,
        decreases a.len() - i,
    {
        if !a[i].as_str().eq(b[i].as_str()) {
            assert(strings_view(a@)[i as int] != strings_view(b@)[i as int]);
            return false;
        }
        i += 1;
    }
    assert(strings_view(a@) =~= strings_view(b@));
    true
}

/// A copy of a list of strings.
pub fn copy_strings(list: &Vec<String>) -> (r: Vec<String>)
    ensures
        strings_view(r@) == strings_view(list@),
{
    let mut r: Vec<String> = Vec::new();
    let mut i: usize = 0;
    while i < list.len()
        invariant
            i <= list.len(),
            r.len() == i,
            forall|j: int| 0 <= j < i ==> r@[j]@ == list@[j]@,
        decreases list.len() - i,
    {
        r.push(list[i].clone());
        i += 1;
    }
    r
}

impl Clone for Problem {
    fn clone(&self) -> (r: Self)
        ensures
            r@ == self@,
    {
        match self {
            Problem::DefaultFeaturesEnabled => Problem::DefaultFeaturesEnabled,
            Problem::MissingFeatures(names) => Problem::MissingFeatures(copy_strings(names)),
        }
    }
}

impl Clone for ProblemCrate {
    fn clone(&self) -> (r: Self)
        ensures
            r@ == self@,
    {
        ProblemCrate {
            id: self.id.clone(),
            alias: self.alias.clone(),
            dependency_path: self.dependency_path.clone(),
            problem: self.problem.clone(),
        }
    }
}

impl PartialEq for Problem {
    fn eq(&self, other: &Self) -> (r: bool) {
        match (self, other) {
            (Problem::DefaultFeaturesEnabled, Problem::DefaultFeaturesEnabled) => true,
            (Problem::MissingFeatures(a), Problem::MissingFeatures(b)) => same_strings(a, b),
            _ => false,
        }
    }
}

impl vstd::std_specs::cmp::PartialEqSpecImpl for Problem {
    open spec fn obeys_eq_spec() -> bool {
        true
    }

    open spec fn eq_spec(&self, other: &Self) -> bool {
        self@ == other@
    }
}

impl PartialEq for ProblemCrate {
    fn eq(&self, other: &Self) -> (r: bool) {
        self.id.as_str().eq(other.id.as_str()) && self.problem == other.problem
    }
}

impl vstd::std_specs::cmp::PartialEqSpecImpl for ProblemCrate {
    open spec fn obeys_eq_spec() -> bool {
        true
    }

    open spec fn eq_spec(&self, other: &Self) -> bool {
        same_content(self@, other@)
    }
}

} // verus!
