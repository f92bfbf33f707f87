//! The resolved dependency graph that the analysis walks: packages as their
//! manifests declare them, and nodes as the resolution left them.

use vstd::prelude::*;
use vstd::string::*;

verus! {

/// What a dependency is needed for.
#[derive(Clone, Copy, Debug, PartialEq, Eq, Structural)]
pub enum DependencyKind {
    Normal,
    Development,
    Build,
    Unknown,
}

/// One entry of a package's declared dependency list.
#[derive(Clone, Debug)]
pub struct Dependency {
    /// Name of the package depended on.
    pub name: String,
    /// The name the dependency goes by in this package, if it was renamed.
    pub rename: Option<String>,
    pub optional: bool,
    pub uses_default_features: bool,
    pub kind: DependencyKind,
}

/// One declared feature with the forwarding strings it lists.
#[derive(Clone, Debug)]
pub struct Feature {
    pub name: String,
    pub requirements: Vec<String>,
}

/// A package as its manifest declares it.
#[derive(Clone, Debug)]
pub struct Package {
    pub id: String,
    pub name: String,
    pub features: Vec<Feature>,
    pub dependencies: Vec<Dependency>,
}

/// An edge of the resolved graph.
#[derive(Clone, Debug)]
pub struct NodeDep {
    pub name: String,
    /// Identity of the package the edge leads to.
    pub pkg: String,
    pub dep_kinds: Vec<DependencyKind>,
}

/// A package instance in the resolved graph.
#[derive(Clone, Debug)]
pub struct Node {
    pub id: String,
    /// The features that the resolution turned on.
    pub features: Vec<String>,
    pub deps: Vec<NodeDep>,
}

/// The resolved graph.
#[derive(Clone, Debug)]
pub struct Resolve {
    pub nodes: Vec<Node>,
    pub root: Option<String>,
}

/// Everything known about a workspace.
#[derive(Clone, Debug)]
pub struct Metadata {
    pub packages: Vec<Package>,
    pub workspace_members: Vec<String>,
    pub resolve: Option<Resolve>,
}

/// `list` holds a string with the characters `s`.
pub open spec fn has_string(list: Seq<String>, s: Seq<char>) -> bool {
    exists|i: int| 0 <= i < list.len() && (#[trigger] list[i])@ == s
}

/// The characters of each string of a list.
pub open spec fn strings_view(list: Seq<String>) -> Seq<Seq<char>> {
    Seq::new(list.len(), |i: int| list[i]@)
}

/// Two lists that hold the same characters hold the same strings.
pub proof fn lemma_same_members(a: Seq<String>, b: Seq<String>)
    requires
        strings_view(a) == strings_view(b),
    ensures
        forall|s: Seq<char>| has_string(a, s) <==> has_string(b, s),
{
    assert(a.len() == strings_view(a).len());
    assert forall|s: Seq<char>| has_string(a, s) <==> has_string(b, s) by {
        if has_string(a, s) {
            let i = choose|i: int| 0 <= i < a.len() && (#[trigger] a[i])@ == s;
            assert(strings_view(a)[i] == a[i]@);
        }
        if has_string(b, s) {
            let i = choose|i: int| 0 <= i < b.len() && (#[trigger] b[i])@ == s;
            assert(strings_view(a)[i] == a[i]@);
        }
    }
}

/// `i` is the first position of `id` in `ids`.
pub open spec fn is_first_index<T>(ids: Seq<T>, id: T, i: int) -> bool {
    &&& 0 <= i < ids.len()
    &&& ids[i] == id
    &&& forall|j: int| 0 <= j < i ==> ids[j] != id
}

/// The first position of `id` in `ids`, if it occurs there.
pub open spec fn first_index<T>(ids: Seq<T>, id: T) -> Option<int> {
    if exists|i: int| is_first_index(ids, id, i) {
        Some(choose|i: int| is_first_index(ids, id, i))
    } else {
        None
    }
}

/// A first position, once found, is the one `first_index` names.
pub proof fn lemma_first_index_found<T>(ids: Seq<T>, id: T, i: int)
    requires
        is_first_index(ids, id, i),
    ensures
        first_index(ids, id) == Some(i),
{
}

/// Where `id` does not occur, `first_index` names nothing.
pub proof fn lemma_first_index_absent<T>(ids: Seq<T>, id: T)
    requires
        forall|j: int| 0 <= j < ids.len() ==> ids[j] != id,
    ensures
        first_index(ids, id) is None,
{
}

/// Where `first_index` names a position, `id` stands there and nowhere before.
pub proof fn lemma_first_index_some<T>(ids: Seq<T>, id: T)
    requires
        first_index(ids, id) is Some,
    ensures
        is_first_index(ids, id, first_index(ids, id)->0),
{
}

/// The names of a list of features, in order.
pub open spec fn feature_names(features: Seq<Feature>) -> Seq<Seq<char>> {
    Seq::new(features.len(), |i: int| features[i].name@)
}

/// The identities of a list of packages, in order.
pub open spec fn package_ids(packages: Seq<Package>) -> Seq<Seq<char>> {
    Seq::new(packages.len(), |i: int| packages[i].id@)
}

/// The identities of a list of nodes, in order.
pub open spec fn node_ids(nodes: Seq<Node>) -> Seq<Seq<char>> {
    Seq::new(nodes.len(), |i: int| nodes[i].id@)
}

/// Whether a list of strings holds `s`.
pub fn contains_string(list: &Vec<String>, s: &str) -> (r: bool)
    ensures
        r == has_string(list@, s@),
{
    let mut i: usize = 0;
    while i < list.len()
        invariant
            i <= list.len(),
            forall|j: int| 0 <= j < i ==> (#[trigger] list@[j])@ != s@,
        decreases list.len() - i,
    {
        if list[i].as_str().eq(s) {
            return true;
        }
        i += 1;
    }
    false
}

/// Position of the first package with the identity `id`.
pub fn package_index(packages: &Vec<Package>, id: &str) -> (r: Option<usize>)
    ensures
        match r {
            Some(i) => first_index(package_ids(packages@), id@) == Some(i as int),
            None => first_index(package_ids(packages@), id@) is None,
        },
{
    let mut i: usize = 0;
    while i < packages.len()
        invariant
            i <= packages.len(),
            forall|j: int| 0 <= j < i ==> package_ids(packages@)[j] != id@,
        decreases packages.len() - i,
    {
        if packages[i].id.as_str().eq(id) {
            proof {
                lemma_first_index_found(package_ids(packages@), id@, i as int);
            }
            return Some(i);
        }
        i += 1;
    }
    proof {
        lemma_first_index_absent(package_ids(packages@), id@);
    }
    None
}

/// Position of the first node with the identity `id`.
pub fn node_index(nodes: &Vec<Node>, id: &str) -> (r: Option<usize>)
    ensures
        match r {
            Some(i) => first_index(node_ids(nodes@), id@) == Some(i as int),
            None => first_index(node_ids(nodes@), id@) is None,
        },
{
    let mut i: usize = 0;
    while i < nodes.len()
        invariant
            i <= nodes.len(),
            forall|j: int| 0 <= j < i ==> node_ids(nodes@)[j] != id@,
        decreases nodes.len() - i,
    {
        if nodes[i].id.as_str().eq(id) {
            proof {
                lemma_first_index_found(node_ids(nodes@), id@, i as int);
            }
            return Some(i);
        }
        i += 1;
    }
    proof {
        lemma_first_index_absent(node_ids(nodes@), id@);
    }
    None
}

/// Position of the first feature with the name `name`.
pub fn feature_index(features: &Vec<Feature>, name: &str) -> (r: Option<usize>)
    ensures
        match r {
            Some(i) => first_index(feature_names(features@), name@) == Some(i as int),
            None => first_index(feature_names(features@), name@) is None,
        },
{
    let mut i: usize = 0;
    while i < features.len()
        invariant
            i <= features.len(),
            forall|j: int| 0 <= j < i ==> feature_names(features@)[j] != name@,
        decreases features.len() - i,
    {
        if features[i].name.as_str().eq(name) {
            proof {
                lemma_first_index_found(feature_names(features@), name@, i as int);
            }
            return Some(i);
        }
        i += 1;
    }
    proof {
        lemma_first_index_absent(feature_names(features@), name@);
    }
    None
}

/// Lookup by identity: the first item that goes by the given identity.
pub trait GetById {
    type Item;

    /// The item that `get_by_id` finds for `id`.
    spec fn spec_get_by_id(&self, id: Seq<char>) -> Option<Self::Item>;

    fn get_by_id(&self, id: &str) -> (r: Option<&Self::Item>)
        ensures
            match r {
                Some(item) => self.spec_get_by_id(id@) == Some(*item),
                None => self.spec_get_by_id(id@) is None,
            },
    ;
}

impl GetById for Vec<Package> {
    type Item = Package;

    open spec fn spec_get_by_id(&self, id: Seq<char>) -> Option<Package> {
        match first_index(package_ids(self@), id) {
            Some(i) => Some(self@[i]),
            None => None,
        }
    }

    fn get_by_id(&self, id: &str) -> (r: Option<&Package>) {
        match package_index(self, id) {
            Some(i) => {
                proof {
                    lemma_first_index_some(package_ids(self@), id@);
                }
                Some(&self[i])
            },
            None => None,
        }
    }
}

impl GetById for Vec<Node> {
    type Item = Node;

    open spec fn spec_get_by_id(&self, id: Seq<char>) -> Option<Node> {
        match first_index(node_ids(self@), id) {
            Some(i) => Some(self@[i]),
            None => None,
        }
    }

    fn get_by_id(&self, id: &str) -> (r: Option<&Node>) {
        match node_index(self, id) {
            Some(i) => {
                proof {
                    lemma_first_index_some(node_ids(self@), id@);
                }
                Some(&self[i])
            },
            None => None,
        }
    }
}

impl GetById for Metadata {
    type Item = Package;

    open spec fn spec_get_by_id(&self, id: Seq<char>) -> Option<Package> {
        self.packages.spec_get_by_id(id)
    }

    fn get_by_id(&self, id: &str) -> (r: Option<&Package>) {
        self.packages.get_by_id(id)
    }
}

impl GetById for Resolve {
    type Item = Node;

    open spec fn spec_get_by_id(&self, id: Seq<char>) -> Option<Node> {
        self.nodes.spec_get_by_id(id)
    }

    fn get_by_id(&self, id: &str) -> (r: Option<&Node>) {
        self.nodes.get_by_id(id)
    }
}

/// The first strings of a list of pairs, in order.
pub open spec fn pair_keys(pairs: Seq<(String, String)>) -> Seq<Seq<char>> {
    Seq::new(pairs.len(), |i: int| pairs[i].0@)
}

impl GetById for Vec<(String, String)> {
    type Item = String;

    open spec fn spec_get_by_id(&self, id: Seq<char>) -> Option<String> {
        match first_index(pair_keys(self@), id) {
            Some(i) => Some(self@[i].1),
            None => None,
        }
    }

    fn get_by_id(&self, id: &str) -> (r: Option<&String>) {
        let mut i: usize = 0;
        while i < self.len()
            invariant
                i <= self.len(),
                forall|j: int| 0 <= j < i ==> pair_keys(self@)[j] != id@,
            decreases self.len() - i,
        {
            if self[i].0.as_str().eq(id) {
                proof {
                    lemma_first_index_found(pair_keys(self@), id@, i as int);
                }
                return Some(&self[i].1);
            }
            i += 1;
        }
        proof {
            lemma_first_index_absent(pair_keys(self@), id@);
        }
        None
    }
}

} // verus!
