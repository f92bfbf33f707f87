//! The walk over the resolved graph: which packages are come to, how far
//! from the root, and along which dependency path.

use vstd::prelude::*;
use vstd::string::*;
use crate::analyzer::{edge_known, is_dev, is_dev_edge, Analyzer};
use crate::graph::{
    contains_string, first_index, has_string, lemma_first_index_some, node_ids, node_index,
    GetById, Package,
};
use crate::text::join;

verus! {

/// Whether a walk that has `depth` levels left goes on below the package it
/// stands at. Zero ends it; a negative number stands for no limit.
pub fn in_depth(depth: i16) -> (r: bool)
    ensures
        r == (depth != 0),
{
    depth != 0
}

/// One of the packages in the list stands at `i`.
pub open spec fn lists(frontier: Seq<(usize, String)>, i: int) -> bool {
    exists|q: int| 0 <= q < frontier.len() && (#[trigger] frontier[q]).0 == i
}

/// The `m1`-th edge of the `p1`-th package comes before the `m2`-th edge of
/// the `p2`-th.
pub open spec fn comes_before(p1: int, m1: int, p2: int, m2: int) -> bool {
    p1 < p2 || (p1 == p2 && m1 < m2)
}

/// How many of the marks are not set.
pub open spec fn unmarked(marks: Seq<bool>) -> nat
    decreases marks.len(),
{
    if marks.len() == 0 {
        0
    } else {
        unmarked(marks.drop_last()) + if marks.last() {
            0nat
        } else {
            1nat
        }
    }
}

/// Setting a mark that was not set leaves one unset mark fewer.
pub proof fn lemma_mark(marks: Seq<bool>, i: int)
    requires
        0 <= i < marks.len(),
        !marks[i],
    ensures
        unmarked(marks.update(i, true)) + 1 == unmarked(marks),
    decreases marks.len(),
{
    let after = marks.update(i, true);
    if i == marks.len() - 1 {
        assert(after.drop_last() =~= marks.drop_last());
    } else {
        assert(after.drop_last() =~= marks.drop_last().update(i, true));
        lemma_mark(marks.drop_last(), i);
    }
}

impl Analyzer {
    /// The package is left out of the analysis: it is named in the ignore
    /// list, or only members of the workspace are analyzed and it is none.
    pub open spec fn pruned(&self, pkg: Package) -> bool {
        (self.workspace_only && !has_string(self.metadata.workspace_members@, pkg.id@))
            || has_string(self.ignore@, pkg.name@)
    }

    /// Whether the package is left out of the analysis.
    pub fn is_pruned(&self, package: &Package) -> (r: bool)
        ensures
            r == self.pruned(*package),
    {
        (self.workspace_only && !self.is_workspace_member(package.id.as_str())) || contains_string(
            &self.ignore,
            package.name.as_str(),
        )
    }

    /// Whether the package with the identity `id` is a member of the
    /// workspace.
    pub fn is_workspace_member(&self, id: &str) -> (r: bool)
        ensures
            r == has_string(self.metadata.workspace_members@, id@),
    {
        contains_string(&self.metadata.workspace_members, id)
    }

    /// The position of the root among the nodes.
    pub open spec fn root_index(&self) -> int {
        first_index(node_ids(self.resolve.nodes@), self.resolve.root->0@)->0
    }

    /// The package of the node at `i`.
    pub open spec fn package_at(&self, i: int) -> Package {
        self.package_of(self.resolve.nodes[i].id@)
    }

    /// The node at `i` is the one that lookups by its identity find, and its
    /// package is not left out.
    pub open spec fn open_at(&self, i: int) -> bool {
        &&& 0 <= i < self.resolve.nodes.len()
        &&& first_index(node_ids(self.resolve.nodes@), self.resolve.nodes[i].id@) == Some(i)
        &&& !self.pruned(self.package_at(i))
    }

    /// The `k`-th edge of the node at `a` leads to the node at `b` and is not
    /// for development only.
    pub open spec fn edge_via(&self, a: int, k: int, b: int) -> bool {
        &&& 0 <= a < self.resolve.nodes.len()
        &&& 0 <= k < self.resolve.nodes[a].deps.len()
        &&& !is_dev_edge(self.resolve.nodes[a].deps[k])
        &&& first_index(node_ids(self.resolve.nodes@), self.resolve.nodes[a].deps[k].pkg@) == Some(b)
    }

    /// An edge that is not for development only leads from the node at `a` to
    /// the node at `b`.
    pub open spec fn edge(&self, a: int, b: int) -> bool {
        exists|k: int| self.edge_via(a, k, b)
    }

    /// `c` is a way the walk can take: it starts at the root, goes along
    /// edges that are not for development only, and comes by no package that
    /// is left out.
    pub open spec fn is_chain(&self, c: Seq<int>) -> bool {
        &&& c.len() > 0
        &&& c[0] == self.root_index()
        &&& forall|i: int| 0 <= i < c.len() ==> self.open_at(#[trigger] c[i])
        &&& forall|i: int| 0 <= i < c.len() - 1 ==> self.edge(#[trigger] c[i], c[i + 1])
    }

    /// The dependency path of a chain: the names of its packages, each after
    /// a slash.
    pub open spec fn path_of(&self, c: Seq<int>) -> Seq<char>
        decreases c.len(),
    {
        if c.len() == 0 {
            Seq::empty()
        } else {
            self.path_of(c.drop_last()) + "/"@ + self.package_at(c.last()).name@
        }
    }

    /// The node at `i` is at the end of a chain of at most `len` nodes.
    pub open spec fn reach(&self, i: int, len: int) -> bool {
        exists|c: Seq<int>| #[trigger] self.is_chain(c) && c.last() == i && c.len() <= len
    }

    /// The node at `i` is at the end of a chain of `len` nodes whose
    /// dependency path is `path`.
    pub open spec fn found_by(&self, i: int, path: Seq<char>, len: int) -> bool {
        exists|c: Seq<int>| #[trigger]
            self.is_chain(c) && c.last() == i && c.len() == len && path == self.path_of(c)
    }

    /// The node at `i` is analyzed by a walk that goes `depth` levels below
    /// the root, or as far as the graph goes where `depth` is negative.
    pub open spec fn within(&self, i: int, depth: i16) -> bool {
        if depth < 0 {
            exists|c: Seq<int>| #[trigger] self.is_chain(c) && c.last() == i
        } else {
            self.reach(i, depth + 1)
        }
    }

    /// The node at `i` is no farther from the root than the node at `j`: a
    /// chain as long as any that leads to `j` leads to `i`.
    pub open spec fn nearer(&self, i: int, j: int) -> bool {
        forall|len: int| self.reach(j, len) ==> #[trigger] self.reach(i, len)
    }

    /// A longer chain may be looked for where a shorter one is found.
    pub proof fn lemma_reach_grows(&self, i: int, short: int, long: int)
        requires
            self.reach(i, short),
            short <= long,
        ensures
            self.reach(i, long),
    {
        let c = choose|c: Seq<int>| #[trigger] self.is_chain(c) && c.last() == i && c.len() <= short;
        assert(self.is_chain(c) && c.last() == i && c.len() <= long);
    }

    /// The visit is one of a walk that has followed chains of up to `len`
    /// nodes: a chain leads to the package, no chain that does is shorter,
    /// and the visit holds the dependency path of that chain.
    pub open spec fn seen_by(&self, visit: (usize, String), len: int) -> bool {
        exists|c: Seq<int>| #[trigger]
            self.is_chain(c) && c.last() == visit.0 as int && c.len() <= len && visit.1@
                == self.path_of(c) && !self.reach(visit.0 as int, c.len() - 1)
    }

    /// The visits are those of a walk that has followed chains of up to
    /// `len` nodes: every package at the end of such a chain is visited, and
    /// none twice.
    pub open spec fn seen(&self, visits: Seq<(usize, String)>, len: int) -> bool {
        &&& forall|t: int| 0 <= t < visits.len() ==> self.seen_by(#[trigger] visits[t], len)
        &&& forall|s: int, t: int|
            0 <= s < t < visits.len() ==> (#[trigger] visits[s]).0 != (#[trigger] visits[t]).0
        &&& forall|s: int, t: int|
            0 <= s < t < visits.len() ==> self.nearer(
                (#[trigger] visits[s]).0 as int,
                (#[trigger] visits[t]).0 as int,
            )
        &&& forall|i: int| self.reach(i, len) ==> #[trigger] lists(visits, i)
    }

    /// The `k`-th edge of the node at `a` is the first of its edges that leads
    /// to the node at `b`.
    pub open spec fn first_edge(&self, a: int, k: int, b: int) -> bool {
        self.edge_via(a, k, b) && forall|m: int| 0 <= m < k ==> !self.edge_via(a, m, b)
    }

    /// The `t`-th visit was come to from the `s`-th along the `k`-th edge of
    /// its node: no earlier visit has an edge to the package, no earlier edge
    /// of the node leads to it, and its dependency path is that of the
    /// `s`-th visit with its own name added.
    pub open spec fn comes_from(&self, visits: Seq<(usize, String)>, s: int, k: int, t: int) -> bool {
        &&& 0 <= s < t < visits.len()
        &&& self.first_edge(visits[s].0 as int, k, visits[t].0 as int)
        &&& visits[t].1@ == visits[s].1@ + "/"@ + self.package_at(visits[t].0 as int).name@
        &&& forall|r: int|
            0 <= r < s ==> !self.edge((#[trigger] visits[r]).0 as int, visits[t].0 as int)
    }

    /// The `t`-th visit was come to from an earlier one.
    pub open spec fn has_origin(&self, visits: Seq<(usize, String)>, t: int) -> bool {
        exists|s: int, k: int| #[trigger] self.comes_from(visits, s, k, t)
    }

    /// The visits stand in the order of a walk: the root first, under its own
    /// name; every other package come to from the earliest visit that has an
    /// edge to it; and what is come to along an earlier edge stands earlier.
    pub open spec fn in_order(&self, visits: Seq<(usize, String)>) -> bool {
        &&& visits.len() > 0 ==> visits[0].0 == self.root_index() && visits[0].1@ == "/"@
            + self.package_at(self.root_index()).name@
        &&& forall|t: int| 1 <= t < visits.len() ==> #[trigger] self.has_origin(visits, t)
        &&& forall|s1: int, k1: int, t1: int, s2: int, k2: int, t2: int|
            #[trigger] self.comes_from(visits, s1, k1, t1) && #[trigger] self.comes_from(
                visits,
                s2,
                k2,
                t2,
            ) && t1 < t2 ==> comes_before(s1, k1, s2, k2)
    }

    /// Of the visits `all`, those from `n` on were come to from visits
    /// between `base` and `n`, and those before from visits before `base`.
    pub open spec fn staged(&self, all: Seq<(usize, String)>, n: int, base: int) -> bool {
        forall|s: int, k: int, t: int| #[trigger]
            self.comes_from(all, s, k, t) ==> if t < n {
                s < base
            } else {
                base <= s < n
            }
    }

    /// The visit is one of a walk to the depth `depth`: a chain leads to the
    /// package within these levels, no chain that leads to it is shorter,
    /// and the visit holds the dependency path of that chain.
    pub open spec fn visited_by(&self, visit: (usize, String), depth: i16) -> bool {
        exists|c: Seq<int>| #[trigger]
            self.is_chain(c) && c.last() == visit.0 as int && (depth >= 0 ==> c.len() <= depth + 1)
                && visit.1@ == self.path_of(c) && !self.reach(visit.0 as int, c.len() - 1)
    }

    /// The visits are those of a walk to the depth `depth`: every package
    /// within `depth` levels below the root, or anywhere below it where
    /// `depth` is negative, is visited once; the packages nearer to the root
    /// come first, and all stand in the order in which the walk comes to
    /// them.
    pub open spec fn is_walk(&self, visits: Seq<(usize, String)>, depth: i16) -> bool {
        &&& forall|t: int| 0 <= t < visits.len() ==> self.visited_by(#[trigger] visits[t], depth)
        &&& forall|s: int, t: int|
            0 <= s < t < visits.len() ==> (#[trigger] visits[s]).0 != (#[trigger] visits[t]).0
        &&& forall|s: int, t: int|
            0 <= s < t < visits.len() ==> self.nearer(
                (#[trigger] visits[s]).0 as int,
                (#[trigger] visits[t]).0 as int,
            )
        &&& forall|i: int| self.within(i, depth) ==> #[trigger] lists(visits, i)
        &&& self.in_order(visits)
    }

    /// The packages of `frontier` are those first come to by chains of
    /// `len` nodes, each once and with the dependency path of such a chain.
    pub open spec fn is_frontier(&self, frontier: Seq<(usize, String)>, len: int) -> bool {
        &&& forall|q: int|
            0 <= q < frontier.len() ==> self.found_by(
                (#[trigger] frontier[q]).0 as int,
                frontier[q].1@,
                len,
            ) && !self.reach(frontier[q].0 as int, len - 1)
        &&& forall|p: int, q: int|
            0 <= p < q < frontier.len() ==> (#[trigger] frontier[p]).0 != (#[trigger] frontier[q]).0
        &&& forall|i: int|
            self.reach(i, len) && !self.reach(i, len - 1) ==> #[trigger] lists(frontier, i)
    }

    /// The `m`-th edge of the `p`-th package of the frontier leads to the
    /// node at `i`.
    pub open spec fn step(&self, frontier: Seq<(usize, String)>, p: int, m: int, i: int) -> bool {
        0 <= p < frontier.len() && self.edge_via(frontier[p].0 as int, m, i)
    }

    /// The node at `i` is come to from the frontier along one of the edges
    /// that stand before the `k`-th edge of its `q`-th package.
    pub open spec fn discovered(&self, frontier: Seq<(usize, String)>, q: int, k: int, i: int) -> bool {
        self.open_at(i) && exists|p: int, m: int| #[trigger]
            self.step(frontier, p, m, i) && (p < q || (p == q && m < k))
    }

    /// Of all edges that lead from the frontier to the node at `i`, the `m`-th
    /// edge of the `p`-th package comes first.
    pub open spec fn is_origin(&self, frontier: Seq<(usize, String)>, p: int, m: int, i: int) -> bool {
        &&& self.step(frontier, p, m, i)
        &&& forall|o: int, n: int| #[trigger] self.step(frontier, o, n, i) ==> !comes_before(o, n, p, m)
    }

    /// The packages of `next` were come to from the frontier along the edges
    /// `origins`: each along the first edge that leads to it, with the
    /// dependency path of the package the edge leaves, and in the order of
    /// these edges.
    pub open spec fn grown_from(
        &self,
        frontier: Seq<(usize, String)>,
        next: Seq<(usize, String)>,
        origins: Seq<(int, int)>,
    ) -> bool {
        &&& origins.len() == next.len()
        &&& forall|t: int|
            0 <= t < next.len() ==> self.is_origin(
                frontier,
                (#[trigger] origins[t]).0,
                origins[t].1,
                next[t].0 as int,
            ) && next[t].1@ == frontier[origins[t].0].1@ + "/"@ + self.package_at(
                next[t].0 as int,
            ).name@
        &&& forall|s: int, t: int|
            0 <= s < t < next.len() ==> comes_before(
                (#[trigger] origins[s]).0,
                origins[s].1,
                (#[trigger] origins[t]).0,
                origins[t].1,
            )
    }

    /// The marks and the next frontier while the frontier of chains of `len`
    /// nodes is followed one edge further, before the `k`-th edge of its
    /// `q`-th package.
    pub open spec fn expanding(
        &self,
        frontier: Seq<(usize, String)>,
        marks: Seq<bool>,
        next: Seq<(usize, String)>,
        q: int,
        k: int,
        len: int,
    ) -> bool {
        &&& marks.len() == self.resolve.nodes.len()
        &&& forall|i: int|
            0 <= i < marks.len() ==> (#[trigger] marks[i] <==> self.reach(i, len) || self.discovered(
                frontier,
                q,
                k,
                i,
            ))
        &&& forall|t: int|
            0 <= t < next.len() ==> self.found_by(
                (#[trigger] next[t]).0 as int,
                next[t].1@,
                len + 1,
            ) && !self.reach(next[t].0 as int, len) && next[t].0 < marks.len()
                && marks[next[t].0 as int]
        &&& forall|s: int, t: int|
            0 <= s < t < next.len() ==> (#[trigger] next[s]).0 != (#[trigger] next[t]).0
        &&& forall|i: int|
            0 <= i < marks.len() && marks[i] && !self.reach(i, len) ==> #[trigger] lists(next, i)
    }

    /// A chain that is followed along one more edge is a chain, and its path
    /// grows by the name of the package it comes to.
    pub proof fn lemma_chain_grows(&self, c: Seq<int>, j: int)
        requires
            self.is_chain(c),
            self.edge(c.last(), j),
            self.open_at(j),
        ensures
            self.is_chain(c.push(j)),
            self.path_of(c.push(j)) == self.path_of(c) + "/"@ + self.package_at(j).name@,
    {
        let d = c.push(j);
        assert(d.drop_last() =~= c);
        assert forall|i: int| 0 <= i < d.len() implies self.open_at(#[trigger] d[i]) by {
            if i < c.len() {
                assert(d[i] == c[i]);
            }
        }
        assert forall|i: int| 0 <= i < d.len() - 1 implies self.edge(#[trigger] d[i], d[i + 1]) by {
            if i < c.len() - 1 {
                assert(d[i] == c[i] && d[i + 1] == c[i + 1]);
            }
        }
    }

    /// A chain without its last node is a chain, and an edge leads from its
    /// end to the node left off.
    pub proof fn lemma_chain_shrinks(&self, c: Seq<int>)
        requires
            self.is_chain(c),
            c.len() >= 2,
        ensures
            self.is_chain(c.drop_last()),
            self.edge(c.drop_last().last(), c.last()),
    {
        let d = c.drop_last();
        assert forall|i: int| 0 <= i < d.len() implies self.open_at(#[trigger] d[i]) by {
            assert(d[i] == c[i]);
        }
        assert forall|i: int| 0 <= i < d.len() - 1 implies self.edge(#[trigger] d[i], d[i + 1]) by {
            assert(d[i] == c[i] && d[i + 1] == c[i + 1]);
        }
        assert(self.edge(c[c.len() - 2], c[c.len() - 2 + 1]));
    }

    /// A node at the end of a chain is the one its identity is found under.
    proof fn lemma_found_is_first(&self, i: int, path: Seq<char>, len: int)
        requires
            self.found_by(i, path, len),
        ensures
            self.open_at(i),
            self.reach(i, len),
    {
        let c = choose|c: Seq<int>| #[trigger]
            self.is_chain(c) && c.last() == i && c.len() == len && path == self.path_of(c);
        assert(self.open_at(c[c.len() - 1]));
    }

    /// A visited package is the one its identity is found under.
    pub proof fn lemma_visit_is_first(&self, visits: Seq<(usize, String)>, depth: i16, t: int)
        requires
            self.is_walk(visits, depth),
            0 <= t < visits.len(),
        ensures
            self.open_at(visits[t].0 as int),
            self.within(visits[t].0 as int, depth),
    {
        assert(self.visited_by(visits[t], depth));
        let c = choose|c: Seq<int>| #[trigger]
            self.is_chain(c) && c.last() == visits[t].0 as int && (depth >= 0 ==> c.len() <= depth
                + 1) && visits[t].1@ == self.path_of(c) && !self.reach(
                visits[t].0 as int,
                c.len() - 1,
            );
        assert(self.open_at(c[c.len() - 1]));
        assert(self.is_chain(c) && c.last() == visits[t].0 as int);
    }

    /// What is reached by a chain of `len + 1` nodes is reached by a shorter
    /// one or from the frontier.
    proof fn lemma_reach_next(&self, frontier: Seq<(usize, String)>, i: int, len: int)
        requires
            len >= 1,
            self.is_frontier(frontier, len),
            self.reach(i, len + 1),
            !self.reach(i, len),
        ensures
            self.discovered(frontier, frontier.len() as int, 0, i),
    {
        let c = choose|c: Seq<int>| #[trigger] self.is_chain(c) && c.last() == i && c.len() <= len + 1;
        assert(self.open_at(c[c.len() - 1]));
        if c.len() <= len {
            assert(self.reach(i, len));
        }
        if c.len() >= 2 {
            self.lemma_chain_shrinks(c);
            let d = c.drop_last();
            let a = d.last();
            assert(self.reach(a, len));
            if self.reach(a, len - 1) {
                let e = choose|e: Seq<int>| #[trigger]
                    self.is_chain(e) && e.last() == a && e.len() <= len - 1;
                self.lemma_chain_grows(e, i);
                assert(self.is_chain(e.push(i)) && e.push(i).last() == i);
                assert(self.reach(i, len));
            } else {
                assert(lists(frontier, a));
                let p = choose|p: int| 0 <= p < frontier.len() && (#[trigger] frontier[p]).0 == a;
                let m = choose|m: int| self.edge_via(a, m, i);
                assert(self.step(frontier, p, m, i));
            }
        }
    }

    /// Where no node is first come to by a chain of `len` nodes, no chain
    /// leads further than those of fewer nodes do.
    proof fn lemma_closed(&self, c: Seq<int>, len: int)
        requires
            len >= 1,
            forall|i: int| self.reach(i, len) ==> self.reach(i, len - 1),
            self.is_chain(c),
        ensures
            self.reach(c.last(), len - 1),
        decreases c.len(),
    {
        if c.len() <= len {
            assert(self.reach(c.last(), len));
        } else {
            self.lemma_chain_shrinks(c);
            self.lemma_closed(c.drop_last(), len);
            let e = choose|e: Seq<int>| #[trigger]
                self.is_chain(e) && e.last() == c.drop_last().last() && e.len() <= len - 1;
            assert(self.open_at(c[c.len() - 1]));
            self.lemma_chain_grows(e, c.last());
            assert(self.is_chain(e.push(c.last())) && e.push(c.last()).last() == c.last());
            assert(self.reach(c.last(), len));
        }
    }

    /// Follows every edge of the frontier and marks what is come to for the
    /// first time; these packages are the next frontier.
    fn expand(&self, frontier: &Vec<(usize, String)>, marks: &mut Vec<bool>, Ghost(len): Ghost<int>) -> (r: (
        Vec<(usize, String)>,
        Ghost<Seq<(int, int)>>,
    ))
        requires
            self.wf(),
            len >= 1,
            self.is_frontier(frontier@, len),
            old(marks).len() == self.resolve.nodes.len(),
            forall|i: int| 0 <= i < old(marks).len() ==> (#[trigger] old(marks)[i] <==> self.reach(i, len)),
        ensures
            final(marks).len() == self.resolve.nodes.len(),
            forall|i: int|
                0 <= i < final(marks).len() ==> (#[trigger] final(marks)[i] <==> self.reach(
                    i,
                    len + 1,
                )),
            self.is_frontier(r.0@, len + 1),
            self.grown_from(frontier@, r.0@, r.1@),
            unmarked(final(marks)@) + r.0.len() == unmarked(old(marks)@),
    {
        let ghost nodes = self.resolve.nodes@;
        let ghost ids = node_ids(nodes);
        let ghost marks0 = marks@;
        let mut next: Vec<(usize, String)> = Vec::new();
        let ghost mut origins: Seq<(int, int)> = Seq::empty();
        let mut q: usize = 0;
        while q < frontier.len()
            invariant
                q <= frontier.len(),
                len >= 1,
                self.wf(),
                self.is_frontier(frontier@, len),
                nodes == self.resolve.nodes@,
                ids == node_ids(nodes),
                self.expanding(frontier@, marks@, next@, q as int, 0, len),
                self.grown_from(frontier@, next@, origins),
                forall|t: int|
                    0 <= t < origins.len() ==> comes_before(
                        (#[trigger] origins[t]).0,
                        origins[t].1,
                        q as int,
                        0,
                    ),
                unmarked(marks@) + next.len() == unmarked(marks0),
            decreases frontier.len() - q,
        {
            let from = frontier[q].0;
            let ghost a = from as int;
            proof {
                self.lemma_found_is_first(a, frontier@[q as int].1@, len);
            }
            let node = &self.resolve.nodes[from];
            assert(self.node_known(nodes[a]));
            let mut k: usize = 0;
            while k < node.deps.len()
                invariant
                    k <= node.deps.len(),
                    q < frontier.len(),
                    len >= 1,
                    self.wf(),
                    self.is_frontier(frontier@, len),
                    nodes == self.resolve.nodes@,
                    ids == node_ids(nodes),
                    from == frontier@[q as int].0,
                    a == from as int,
                    self.open_at(a),
                    *node == nodes[a],
                    self.node_known(nodes[a]),
                    self.expanding(frontier@, marks@, next@, q as int, k as int, len),
                    self.grown_from(frontier@, next@, origins),
                    forall|t: int|
                        0 <= t < origins.len() ==> comes_before(
                            (#[trigger] origins[t]).0,
                            origins[t].1,
                            q as int,
                            k as int,
                        ),
                    unmarked(marks@) + next.len() == unmarked(marks0),
                decreases node.deps.len() - k,
            {
                let d = &node.deps[k];
                let ghost marks1 = marks@;
                let ghost next1 = next@;
                let ghost origins1 = origins;
                let mut fresh = false;
                let ghost mut target: int = 0;
                if !is_dev(d) {
                    assert(edge_known(self.metadata, self.resolve, node.deps[k as int]));
                    match (node_index(&self.resolve.nodes, d.pkg.as_str()), self.metadata.get_by_id(
                        d.pkg.as_str(),
                    )) {
                        (Some(to), Some(package)) => {
                            proof {
                                target = to as int;
                                lemma_first_index_some(ids, d.pkg@);
                                assert(ids[to as int] == nodes[to as int].id@);
                                assert(self.edge_via(a, k as int, to as int));
                                assert(self.package_at(to as int) == *package);
                            }
                            if !marks[to] && !self.is_pruned(package) {
                                fresh = true;
                                let path = join(frontier[q].1.as_str(), "/", package.name.as_str());
                                marks.set(to, true);
                                next.push((to, path));
                                proof {
                                    lemma_mark(marks1, to as int);
                                    assert(self.open_at(to as int));
                                    let c = choose|c: Seq<int>| #[trigger]
                                        self.is_chain(c) && c.last() == a && c.len() == len
                                            && frontier@[q as int].1@ == self.path_of(c);
                                    assert(self.edge(c.last(), to as int));
                                    self.lemma_chain_grows(c, to as int);
                                    let e = c.push(to as int);
                                    assert(self.is_chain(e) && e.last() == to as int && e.len() == len + 1
                                        && path@ == self.path_of(e));
                                    assert(self.found_by(to as int, path@, len + 1));
                                    assert(self.step(frontier@, q as int, k as int, to as int));
                                    assert forall|o: int, n: int| #[trigger]
                                        self.step(frontier@, o, n, to as int) implies !comes_before(
                                        o,
                                        n,
                                        q as int,
                                        k as int,
                                    ) by {
                                        if comes_before(o, n, q as int, k as int) {
                                            assert(self.discovered(
                                                frontier@,
                                                q as int,
                                                k as int,
                                                to as int,
                                            ));
                                            assert(marks1[to as int]);
                                        }
                                    }
                                    origins = origins.push((q as int, k as int));
                                    assert forall|t: int| 0 <= t < next@.len() implies self.is_origin(
                                        frontier@,
                                        (#[trigger] origins[t]).0,
                                        origins[t].1,
                                        next@[t].0 as int,
                                    ) && next@[t].1@ == frontier@[origins[t].0].1@ + "/"@
                                        + self.package_at(next@[t].0 as int).name@ by {
                                        if t < next1.len() {
                                            assert(next@[t] == next1[t]);
                                            assert(origins[t] == origins1[t]);
                                        }
                                    }
                                    assert forall|s: int, t: int|
                                        0 <= s < t < next@.len() implies comes_before(
                                        (#[trigger] origins[s]).0,
                                        origins[s].1,
                                        (#[trigger] origins[t]).0,
                                        origins[t].1,
                                    ) by {
                                        assert(origins[s] == origins1[s]);
                                        if t < next1.len() {
                                            assert(origins[t] == origins1[t]);
                                        }
                                    }
                                }
                            }
                        },
                        _ => {
                            assert(false);
                        },
                    }
                }
                proof {
                    // what the edge adds to the nodes come to
                    assert forall|i: int| 0 <= i < marks@.len() implies (self.discovered(
                        frontier@,
                        q as int,
                        k + 1,
                        i,
                    ) <==> self.discovered(frontier@, q as int, k as int, i) || (!is_dev_edge(*d)
                        && i == target && self.open_at(i))) by {
                        if self.discovered(frontier@, q as int, k + 1, i) {
                            let (p, m) = choose|p: int, m: int| #[trigger]
                                self.step(frontier@, p, m, i) && (p < q || (p == q && m < k + 1));
                            if p == q && m == k {
                                assert(self.edge_via(a, k as int, i));
                            } else {
                                assert(self.step(frontier@, p, m, i) && (p < q || (p == q && m < k)));
                            }
                        }
                        if self.discovered(frontier@, q as int, k as int, i) {
                            let (p, m) = choose|p: int, m: int| #[trigger]
                                self.step(frontier@, p, m, i) && (p < q || (p == q && m < k));
                            assert(self.step(frontier@, p, m, i) && (p < q || (p == q && m < k + 1)));
                        }
                        if !is_dev_edge(*d) && i == target && self.open_at(i) {
                            assert(self.step(frontier@, q as int, k as int, i));
                        }
                    }
                    assert forall|i: int| 0 <= i < marks@.len() implies (#[trigger] marks@[i] <==> self.reach(
                        i,
                        len,
                    ) || self.discovered(frontier@, q as int, k + 1, i)) by {
                        assert(marks1[i] <==> self.reach(i, len) || self.discovered(
                            frontier@,
                            q as int,
                            k as int,
                            i,
                        ));
                    }
                    assert forall|t: int| 0 <= t < next@.len() implies self.found_by(
                        (#[trigger] next@[t]).0 as int,
                        next@[t].1@,
                        len + 1,
                    ) && !self.reach(next@[t].0 as int, len) && next@[t].0 < marks@.len()
                        && marks@[next@[t].0 as int] by {
                        if t < next1.len() {
                            assert(next@[t] == next1[t]);
                        } else {
                            assert(!marks1[target]);
                        }
                    }
                    assert forall|s: int, t: int| 0 <= s < t < next@.len() implies (#[trigger] next@[s]).0
                        != (#[trigger] next@[t]).0 by {
                        if t < next1.len() {
                            assert(next@[s] == next1[s] && next@[t] == next1[t]);
                        } else {
                            assert(next@[s] == next1[s]);
                            assert(marks1[next1[s].0 as int]);
                        }
                    }
                    assert forall|i: int|
                        0 <= i < marks@.len() && marks@[i] && !self.reach(i, len) implies #[trigger] lists(
                        next@,
                        i,
                    ) by {
                        if marks1[i] {
                            assert(lists(next1, i));
                            let t = choose|t: int| 0 <= t < next1.len() && (#[trigger] next1[t]).0 == i;
                            assert(next@[t] == next1[t]);
                        } else {
                            assert(fresh && i == target);
                            assert(next@[next1.len() as int].0 == i);
                        }
                    }
                }
                k += 1;
            }
            proof {
                let kk = node.deps.len() as int;
                assert forall|i: int| 0 <= i < marks@.len() implies (self.discovered(
                    frontier@,
                    q as int,
                    kk,
                    i,
                ) <==> self.discovered(frontier@, q + 1, 0, i)) by {
                    if self.discovered(frontier@, q as int, kk, i) {
                        let (p, m) = choose|p: int, m: int| #[trigger]
                            self.step(frontier@, p, m, i) && (p < q || (p == q && m < kk));
                        assert(self.step(frontier@, p, m, i) && (p < q + 1 || (p == q + 1 && m < 0)));
                    }
                    if self.discovered(frontier@, q + 1, 0, i) {
                        let (p, m) = choose|p: int, m: int| #[trigger]
                            self.step(frontier@, p, m, i) && (p < q + 1 || (p == q + 1 && m < 0));
                        assert(self.step(frontier@, p, m, i) && (p < q || (p == q && m < kk)));
                    }
                }
                assert forall|i: int| 0 <= i < marks@.len() implies (#[trigger] marks@[i] <==> self.reach(
                    i,
                    len,
                ) || self.discovered(frontier@, q + 1, 0, i)) by {
                    assert(marks@[i] <==> self.reach(i, len) || self.discovered(
                        frontier@,
                        q as int,
                        kk,
                        i,
                    ));
                }
            }
            q += 1;
        }
        proof {
            let n = frontier@.len() as int;
            assert forall|i: int| 0 <= i < marks@.len() implies (#[trigger] marks@[i] <==> self.reach(
                i,
                len + 1,
            )) by {
                if marks@[i] {
                    if self.reach(i, len) {
                        let c = choose|c: Seq<int>| #[trigger]
                            self.is_chain(c) && c.last() == i && c.len() <= len;
                        assert(self.is_chain(c) && c.last() == i && c.len() <= len + 1);
                    } else {
                        let (p, m) = choose|p: int, m: int| #[trigger]
                            self.step(frontier@, p, m, i) && (p < n || (p == n && m < 0));
                        let a = frontier@[p].0 as int;
                        let c = choose|c: Seq<int>| #[trigger]
                            self.is_chain(c) && c.last() == a && c.len() == len && frontier@[p].1@
                                == self.path_of(c);
                        assert(self.edge_via(a, m, i));
                        assert(self.edge(c.last(), i));
                        self.lemma_chain_grows(c, i);
                        assert(self.is_chain(c.push(i)) && c.push(i).last() == i);
                    }
                }
                if self.reach(i, len + 1) && !self.reach(i, len) {
                    self.lemma_reach_next(frontier@, i, len);
                }
            }
            assert forall|i: int| self.reach(i, len + 1) && !self.reach(i, len) implies #[trigger] lists(
                next@,
                i,
            ) by {
                let c = choose|c: Seq<int>| #[trigger]
                    self.is_chain(c) && c.last() == i && c.len() <= len + 1;
                assert(self.open_at(c[c.len() - 1]));
                assert(marks@[i]);
            }
        }
        (next, Ghost(origins))
    }

    /// A visit was come to from one visit and along one edge only.
    pub proof fn lemma_one_origin(
        &self,
        visits: Seq<(usize, String)>,
        s1: int,
        k1: int,
        s2: int,
        k2: int,
        t: int,
    )
        requires
            self.comes_from(visits, s1, k1, t),
            self.comes_from(visits, s2, k2, t),
        ensures
            s1 == s2,
            k1 == k2,
    {
        let j = visits[t].0 as int;
        if s1 < s2 {
            assert(self.edge_via(visits[s1].0 as int, k1, j));
            assert(!self.edge(visits[s1].0 as int, j));
        } else if s2 < s1 {
            assert(self.edge_via(visits[s2].0 as int, k2, j));
            assert(!self.edge(visits[s2].0 as int, j));
        } else if k1 < k2 {
            assert(!self.edge_via(visits[s2].0 as int, k1, j));
        } else if k2 < k1 {
            assert(!self.edge_via(visits[s1].0 as int, k2, j));
        }
    }

    /// Where a visit came from does not change when more visits follow.
    proof fn lemma_origin_stays(
        &self,
        w: Seq<(usize, String)>,
        more: Seq<(usize, String)>,
        s: int,
        k: int,
        t: int,
    )
        requires
            t < w.len(),
        ensures
            self.comes_from(w + more, s, k, t) <==> self.comes_from(w, s, k, t),
    {
        let x = w + more;
        if 0 <= s < t {
            assert(x[s] == w[s] && x[t] == w[t]);
            assert forall|r: int| 0 <= r < s implies #[trigger] x[r] == w[r] by {}
            if self.comes_from(w, s, k, t) {
                assert forall|r: int| 0 <= r < s implies !self.edge(
                    (#[trigger] x[r]).0 as int,
                    x[t].0 as int,
                ) by {
                    assert(x[r] == w[r]);
                }
            }
            if self.comes_from(x, s, k, t) {
                assert forall|r: int| 0 <= r < s implies !self.edge(
                    (#[trigger] w[r]).0 as int,
                    w[t].0 as int,
                ) by {
                    assert(x[r] == w[r]);
                }
            }
        }
    }

    /// The packages of the next frontier, put behind the visits, keep the
    /// visits in the order of a walk.
    proof fn lemma_next_level(
        &self,
        v: Seq<(usize, String)>,
        f: Seq<(usize, String)>,
        next: Seq<(usize, String)>,
        origins: Seq<(int, int)>,
        len: int,
        base: int,
    )
        requires
            len >= 1,
            0 <= base <= v.len(),
            self.seen(v, len - 1),
            self.is_frontier(f, len),
            self.is_frontier(next, len + 1),
            self.grown_from(f, next, origins),
            self.in_order(v + f),
            self.staged(v + f, v.len() as int, base),
        ensures
            self.in_order(v + f + next),
            self.staged(v + f + next, (v + f).len() as int, v.len() as int),
    {
        let w = v + f;
        let x = w + next;
        let n = v.len() as int;
        let nw = w.len() as int;
        assert forall|r: int| 0 <= r < nw implies #[trigger] x[r] == w[r] by {}
        assert forall|r: int| 0 <= r < n implies #[trigger] w[r] == v[r] by {}
        assert forall|p: int| 0 <= p < f.len() implies #[trigger] w[n + p] == f[p] by {}
        assert forall|t: int| 0 <= t < next.len() implies #[trigger] x[nw + t] == next[t] by {}
        // each package of the next frontier comes from where it was first come to
        assert forall|t: int| 0 <= t < next.len() implies #[trigger] self.comes_from(
            x,
            n + origins[t].0,
            origins[t].1,
            nw + t,
        ) by {
            let p = origins[t].0;
            let m = origins[t].1;
            let j = next[t].0 as int;
            assert(self.is_origin(f, p, m, j));
            assert(self.step(f, p, m, j));
            assert(x[nw + t] == next[t]);
            assert(x[n + p] == w[n + p] && w[n + p] == f[p]);
            assert forall|o: int| 0 <= o < m implies !self.edge_via(f[p].0 as int, o, j) by {
                if self.edge_via(f[p].0 as int, o, j) {
                    assert(self.step(f, p, o, j));
                    assert(comes_before(p, o, p, m));
                }
            }
            self.lemma_found_is_first(j, next[t].1@, len + 1);
            assert forall|r: int| 0 <= r < n + p implies !self.edge((#[trigger] x[r]).0 as int, j) by {
                assert(x[r] == w[r]);
                if self.edge(x[r].0 as int, j) {
                    if r < n {
                        assert(w[r] == v[r]);
                        assert(self.seen_by(v[r], len - 1));
                        let c = choose|c: Seq<int>| #[trigger]
                            self.is_chain(c) && c.last() == v[r].0 as int && c.len() <= len - 1
                                && v[r].1@ == self.path_of(c) && !self.reach(
                                v[r].0 as int,
                                c.len() - 1,
                            );
                        self.lemma_chain_grows(c, j);
                        assert(self.is_chain(c.push(j)) && c.push(j).last() == j);
                        assert(self.reach(j, len));
                    } else {
                        let o = r - n;
                        assert(w[n + o] == f[o]);
                        let a = f[o].0 as int;
                        let e = choose|e: int| self.edge_via(a, e, j);
                        assert(self.step(f, o, e, j));
                        assert(comes_before(o, e, p, m));
                    }
                }
            }
        }
        // what stood in the visits before came from where it came from before
        assert forall|s: int, k: int, t: int| t < nw implies (#[trigger] self.comes_from(x, s, k, t)
            <==> self.comes_from(w, s, k, t)) by {
            self.lemma_origin_stays(w, next, s, k, t);
        }
        assert forall|s: int, k: int, t: int| #[trigger] self.comes_from(x, s, k, t) implies if t < nw {
            s < n
        } else {
            n <= s < nw
        } by {
            if t < nw {
                assert(self.comes_from(w, s, k, t));
            } else {
                let u = t - nw;
                assert(self.comes_from(x, n + origins[u].0, origins[u].1, nw + u));
                self.lemma_one_origin(x, s, k, n + origins[u].0, origins[u].1, t);
                assert(self.step(f, origins[u].0, origins[u].1, next[u].0 as int));
            }
        }
        assert forall|t: int| 1 <= t < x.len() implies #[trigger] self.has_origin(x, t) by {
            if t < nw {
                assert(self.has_origin(w, t));
                let (s, k) = choose|s: int, k: int| #[trigger] self.comes_from(w, s, k, t);
                assert(self.comes_from(x, s, k, t));
            } else {
                let u = t - nw;
                assert(self.comes_from(x, n + origins[u].0, origins[u].1, nw + u));
            }
        }
        assert forall|s1: int, k1: int, t1: int, s2: int, k2: int, t2: int|
            #[trigger] self.comes_from(x, s1, k1, t1) && #[trigger] self.comes_from(x, s2, k2, t2)
                && t1 < t2 implies comes_before(s1, k1, s2, k2) by {
            if t2 < nw {
                assert(self.comes_from(w, s1, k1, t1) && self.comes_from(w, s2, k2, t2));
            } else if t1 < nw {
                assert(self.comes_from(w, s1, k1, t1));
            } else {
                let u1 = t1 - nw;
                let u2 = t2 - nw;
                assert(self.comes_from(x, n + origins[u1].0, origins[u1].1, nw + u1));
                assert(self.comes_from(x, n + origins[u2].0, origins[u2].1, nw + u2));
                self.lemma_one_origin(x, s1, k1, n + origins[u1].0, origins[u1].1, t1);
                self.lemma_one_origin(x, s2, k2, n + origins[u2].0, origins[u2].1, t2);
                assert(comes_before(origins[u1].0, origins[u1].1, origins[u2].0, origins[u2].1));
            }
        }
        if x.len() > 0 {
            if nw > 0 {
                assert(x[0] == w[0]);
            } else {
                assert(self.step(f, origins[0].0, origins[0].1, next[0].0 as int));
            }
        }
    }

    /// Two walks to the same depth agree in their first `t` visits.
    proof fn lemma_walks_agree(
        &self,
        v1: Seq<(usize, String)>,
        v2: Seq<(usize, String)>,
        depth: i16,
        t: int,
    )
        requires
            self.is_walk(v1, depth),
            self.is_walk(v2, depth),
            0 <= t <= v1.len(),
        ensures
            t <= v2.len(),
            forall|r: int| 0 <= r < t ==> (#[trigger] v1[r]).0 == v2[r].0 && v1[r].1@ == v2[r].1@,
        decreases t,
    {
        if t > 0 {
            let u = t - 1;
            self.lemma_walks_agree(v1, v2, depth, u);
            let j1 = v1[u].0 as int;
            self.lemma_visit_is_first(v1, depth, u);
            assert(lists(v2, j1));
            let t2 = choose|q: int| 0 <= q < v2.len() && (#[trigger] v2[q]).0 == j1;
            if t2 < u {
                assert(v1[t2].0 == v2[t2].0);
                assert(v1[t2].0 != v1[u].0);
            }
            assert(u < v2.len());
            let j2 = v2[u].0 as int;
            self.lemma_visit_is_first(v2, depth, u);
            assert(lists(v1, j2));
            let t1 = choose|q: int| 0 <= q < v1.len() && (#[trigger] v1[q]).0 == j2;
            if t1 < u {
                assert(v1[t1].0 == v2[t1].0);
                assert(v2[t1].0 != v2[u].0);
            }
            if u == 0 {
                assert(v1[0].0 == v2[0].0 && v1[0].1@ == v2[0].1@);
            } else {
                assert(self.has_origin(v1, u));
                assert(self.has_origin(v2, u));
                let (s1, k1) = choose|s: int, k: int| #[trigger] self.comes_from(v1, s, k, u);
                let (s2, k2) = choose|s: int, k: int| #[trigger] self.comes_from(v2, s, k, u);
                // where the package of the one walk stands in the other, it came from
                // the same visit along the same edge
                assert(self.has_origin(v2, t2));
                let (o2, e2) = choose|s: int, k: int| #[trigger] self.comes_from(v2, s, k, t2);
                assert(o2 == s1 && e2 == k1) by {
                    assert(v1[s1].0 == v2[s1].0);
                    assert(self.edge_via(v2[s1].0 as int, k1, j1));
                    if s1 < o2 {
                        assert(!self.edge(v2[s1].0 as int, j1));
                    }
                    assert(v1[o2].0 == v2[o2].0);
                    assert(self.edge_via(v1[o2].0 as int, e2, j1));
                    if o2 < s1 {
                        assert(!self.edge(v1[o2].0 as int, j1));
                    }
                    if e2 < k1 {
                        assert(!self.edge_via(v1[s1].0 as int, e2, j1));
                    } else if k1 < e2 {
                        assert(!self.edge_via(v2[o2].0 as int, k1, j1));
                    }
                }
                assert(self.has_origin(v1, t1));
                let (o1, e1) = choose|s: int, k: int| #[trigger] self.comes_from(v1, s, k, t1);
                assert(o1 == s2 && e1 == k2) by {
                    assert(v1[s2].0 == v2[s2].0);
                    assert(self.edge_via(v1[s2].0 as int, k2, j2));
                    if s2 < o1 {
                        assert(!self.edge(v1[s2].0 as int, j2));
                    }
                    assert(v1[o1].0 == v2[o1].0);
                    assert(self.edge_via(v2[o1].0 as int, e1, j2));
                    if o1 < s2 {
                        assert(!self.edge(v2[o1].0 as int, j2));
                    }
                    if e1 < k2 {
                        assert(!self.edge_via(v2[s2].0 as int, e1, j2));
                    } else if k2 < e1 {
                        assert(!self.edge_via(v1[o1].0 as int, k2, j2));
                    }
                }
                if u < t2 && u < t1 {
                    assert(comes_before(s2, k2, o2, e2));
                    assert(comes_before(s1, k1, o1, e1));
                }
                assert(j1 == j2);
                if t2 != u {
                    assert(v2[u].0 != v2[t2].0);
                }
                self.lemma_one_origin(v2, s2, k2, o2, e2, u);
                assert(v1[s1].1@ == v2[s1].1@);
            }
        }
    }

    /// There is one walk to a depth: two lists of visits that both are walks
    /// hold the same packages with the same dependency paths in the same
    /// order.
    pub proof fn lemma_one_walk(&self, v1: Seq<(usize, String)>, v2: Seq<(usize, String)>, depth: i16)
        requires
            self.is_walk(v1, depth),
            self.is_walk(v2, depth),
        ensures
            v1.len() == v2.len(),
            forall|r: int| 0 <= r < v1.len() ==> (#[trigger] v1[r]).0 == v2[r].0 && v1[r].1@ == v2[r].1@,
    {
        self.lemma_walks_agree(v1, v2, depth, v1.len() as int);
        self.lemma_walks_agree(v2, v1, depth, v2.len() as int);
    }

    /// Once the packages of the frontier are added, the visits are those of
    /// a walk that has followed chains of up to `len` nodes.
    proof fn lemma_absorbed(&self, before: Seq<(usize, String)>, frontier: Seq<(usize, String)>, len: int)
        requires
            self.is_frontier(frontier, len),
            self.seen(before, len - 1),
        ensures
            self.seen(before + frontier, len),
    {
        let all = before + frontier;
        assert forall|t: int| 0 <= t < before.len() implies all[t] == before[t] by {}
        assert forall|p: int| 0 <= p < frontier.len() implies #[trigger] all[before.len() + p]
            == frontier[p] by {}
        let n = before.len() as int;
        assert forall|t: int| 0 <= t < all.len() implies self.seen_by(#[trigger] all[t], len) by {
            if t < n {
                assert(self.seen_by(before[t], len - 1));
                let c = choose|c: Seq<int>| #[trigger]
                    self.is_chain(c) && c.last() == before[t].0 as int && c.len() <= len - 1
                        && before[t].1@ == self.path_of(c) && !self.reach(
                        before[t].0 as int,
                        c.len() - 1,
                    );
                assert(self.is_chain(c) && c.len() <= len);
            } else {
                let p = t - n;
                assert(all[n + p].0 == frontier[p].0);
                let c = choose|c: Seq<int>| #[trigger]
                    self.is_chain(c) && c.last() == frontier[p].0 as int && c.len() == len
                        && frontier[p].1@ == self.path_of(c);
                assert(self.is_chain(c) && c.len() <= len);
            }
        }
        assert forall|s: int, t: int| 0 <= s < t < all.len() implies (#[trigger] all[s]).0
            != (#[trigger] all[t]).0 by {
            if t < n {
                assert(all[s] == before[s] && all[t] == before[t]);
            } else if s < n {
                let p = t - n;
                assert(all[n + p].0 == frontier[p].0);
                assert(self.seen_by(before[s], len - 1));
                let c = choose|c: Seq<int>| #[trigger]
                    self.is_chain(c) && c.last() == before[s].0 as int && c.len() <= len - 1
                        && before[s].1@ == self.path_of(c) && !self.reach(
                        before[s].0 as int,
                        c.len() - 1,
                    );
                assert(self.reach(before[s].0 as int, len - 1));
            } else {
                let o = s - n;
                let p = t - n;
                assert(all[n + o].0 == frontier[o].0);
                assert(all[n + p].0 == frontier[p].0);
            }
        }
        assert forall|s: int, t: int| 0 <= s < t < all.len() implies self.nearer(
            (#[trigger] all[s]).0 as int,
            (#[trigger] all[t]).0 as int,
        ) by {
            if t < n {
                assert(all[s] == before[s] && all[t] == before[t]);
            } else {
                let p = t - n;
                assert(all[n + p].0 == frontier[p].0);
                let far = all[t].0 as int;
                let near = all[s].0 as int;
                assert(!self.reach(far, len - 1));
                assert(self.reach(near, len)) by {
                    if s < n {
                        assert(all[s] == before[s]);
                        assert(self.seen_by(before[s], len - 1));
                        let c = choose|c: Seq<int>| #[trigger]
                            self.is_chain(c) && c.last() == before[s].0 as int && c.len() <= len
                                - 1 && before[s].1@ == self.path_of(c) && !self.reach(
                                before[s].0 as int,
                                c.len() - 1,
                            );
                        assert(self.is_chain(c) && c.len() <= len);
                    } else {
                        let o = s - n;
                        assert(all[n + o].0 == frontier[o].0);
                        self.lemma_found_is_first(near, frontier[o].1@, len);
                    }
                }
                assert forall|l: int| self.reach(far, l) implies #[trigger] self.reach(near, l) by {
                    if l <= len - 1 {
                        self.lemma_reach_grows(far, l, len - 1);
                    }
                    self.lemma_reach_grows(near, len, l);
                }
            }
        }
        assert forall|i: int| self.reach(i, len) implies #[trigger] lists(all, i) by {
            if self.reach(i, len - 1) {
                assert(lists(before, i));
                let t = choose|t: int| 0 <= t < before.len() && (#[trigger] before[t]).0 == i;
                assert(all[t] == before[t]);
            } else {
                assert(lists(frontier, i));
                let p = choose|p: int| 0 <= p < frontier.len() && (#[trigger] frontier[p]).0 == i;
                assert(all[n + p].0 == i);
            }
        }
    }

    /// Adds the packages of a frontier to the visits.
    fn absorb(visits: &mut Vec<(usize, String)>, frontier: &Vec<(usize, String)>)
        ensures
            final(visits)@ == old(visits)@ + frontier@,
    {
        let ghost before = visits@;
        let mut q: usize = 0;
        assert(visits@ =~= before + frontier@.subrange(0, 0));
        while q < frontier.len()
            invariant
                q <= frontier.len(),
                visits@ == before + frontier@.subrange(0, q as int),
            decreases frontier.len() - q,
        {
            visits.push((frontier[q].0, frontier[q].1.clone()));
            assert(visits@ =~= before + frontier@.subrange(0, q + 1));
            q += 1;
        }
        assert(frontier@.subrange(0, q as int) =~= frontier@);
    }

    /// Walks the graph from the root: as many levels as `depth` says, or all
    /// of them where `depth` is negative. Edges that are for development only
    /// are not followed, and packages that are left out are neither visited
    /// nor passed through. Each package that is come to is visited once; the
    /// packages nearer to the root come first. A package other than the root
    /// is come to from the earliest visit that has an edge to it, and its
    /// dependency path is the path of that visit with its own name added.
    pub fn walk(&self, depth: i16) -> (visits: Vec<(usize, String)>)
        requires
            self.wf(),
        ensures
            self.is_walk(visits@, depth),
            forall|t: int| 0 <= t < visits.len() ==> (#[trigger] visits[t]).0 < self.resolve.nodes.len(),
    {
        let ghost nodes = self.resolve.nodes@;
        let ghost ids = node_ids(nodes);
        let mut visits: Vec<(usize, String)> = Vec::new();
        let root = match &self.resolve.root {
            Some(root) => root,
            None => {
                return visits;
            },
        };
        let (start, package) = match (node_index(&self.resolve.nodes, root.as_str()), self.metadata.get_by_id(
            root.as_str(),
        )) {
            (Some(start), Some(package)) => (start, package),
            _ => {
                proof {
                    lemma_first_index_some(ids, root@);
                    let r = self.root_index();
                    assert(self.node_known(nodes[r]));
                    assert(ids[r] == nodes[r].id@);
                }
                assert(false);
                return visits;
            },
        };
        proof {
            lemma_first_index_some(ids, root@);
            assert(ids[start as int] == nodes[start as int].id@);
            assert(self.package_at(start as int) == *package);
        }
        if self.is_pruned(package) {
            proof {
                assert forall|c: Seq<int>| !self.is_chain(c) by {
                    if self.is_chain(c) {
                        assert(self.open_at(c[0]));
                    }
                }
            }
            return visits;
        }
        assert(self.open_at(start as int));
        let mut marks: Vec<bool> = Vec::new();
        while marks.len() < self.resolve.nodes.len()
            invariant
                marks.len() <= self.resolve.nodes.len(),
                forall|i: int| 0 <= i < marks.len() ==> !marks[i],
            decreases self.resolve.nodes.len() - marks.len(),
        {
            marks.push(false);
        }
        marks.set(start, true);
        let empty = String::new();
        let path = join(empty.as_str(), "/", package.name.as_str());
        let mut frontier: Vec<(usize, String)> = Vec::new();
        frontier.push((start, path));
        let ghost mut len: int = 1;
        let ghost mut base: int = 0;
        let mut left: i16 = depth;
        let mut done = false;
        proof {
            let first = visits@ + frontier@;
            assert(first.len() == 1 && first[0] == frontier@[0]);
            assert(first[0].1@ =~= "/"@ + self.package_at(self.root_index()).name@);
            assert(self.in_order(first));
            assert(self.staged(first, 0, 0));
            let c = seq![start as int];
            assert(c.drop_last() =~= Seq::<int>::empty());
            assert(self.path_of(c) =~= frontier@[0].1@) by {
                assert(self.path_of(c.drop_last()) =~= Seq::<char>::empty());
            }
            assert(self.is_chain(c) && c.last() == start as int && c.len() == 1);
            assert(self.found_by(start as int, frontier@[0].1@, 1));
            assert forall|i: int| !self.reach(i, 0) by {}
            assert forall|i: int| self.reach(i, 1) implies i == start by {
                let e = choose|e: Seq<int>| #[trigger] self.is_chain(e) && e.last() == i && e.len() <= 1;
                assert(e[0] == self.root_index());
            }
            assert(self.reach(start as int, 1));
            assert(lists(frontier@, start as int)) by {
                assert(frontier@[0].0 == start);
            }
        }
        while !done
            invariant
                self.wf(),
                nodes == self.resolve.nodes@,
                len >= 1,
                depth >= 0 ==> left >= 0 && left == depth - (len - 1),
                depth < 0 ==> left == depth,
                self.is_frontier(frontier@, len),
                marks.len() == nodes.len(),
                forall|i: int| 0 <= i < marks.len() ==> (#[trigger] marks[i] <==> self.reach(i, len)),
                !done ==> self.seen(visits@, len - 1),
                done ==> self.seen(visits@, len) && (frontier.len() == 0 || left == 0),
                0 <= base <= visits.len(),
                !done ==> self.in_order(visits@ + frontier@) && self.staged(
                    visits@ + frontier@,
                    visits.len() as int,
                    base,
                ),
                done ==> self.in_order(visits@),
            decreases
                    unmarked(marks@),
                    frontier.len(),
                    (if done {
                        0int
                    } else {
                        1int
                    }),
        {
            let ghost before = visits@;
            Self::absorb(&mut visits, &frontier);
            proof {
                self.lemma_absorbed(before, frontier@, len);
            }
            if frontier.len() == 0 || !in_depth(left) {
                done = true;
            } else {
                let (next, Ghost(origins)) = self.expand(&frontier, &mut marks, Ghost(len));
                proof {
                    self.lemma_next_level(before, frontier@, next@, origins, len, base);
                    base = before.len() as int;
                    len = len + 1;
                }
                frontier = next;
                if left > 0 {
                    left = left - 1;
                }
            }
        }
        proof {
            let all = visits@;
            if frontier.len() == 0 {
                assert forall|i: int| self.reach(i, len) implies self.reach(i, len - 1) by {
                    if !self.reach(i, len - 1) {
                        assert(lists(frontier@, i));
                    }
                }
                assert forall|c: Seq<int>| #[trigger] self.is_chain(c) implies self.reach(c.last(), len) by {
                    self.lemma_closed(c, len);
                    let e = choose|e: Seq<int>| #[trigger]
                        self.is_chain(e) && e.last() == c.last() && e.len() <= len - 1;
                    assert(self.is_chain(e) && e.last() == c.last() && e.len() <= len);
                }
            }
            assert forall|i: int| self.within(i, depth) implies #[trigger] lists(all, i) by {
                if depth < 0 {
                    let c = choose|c: Seq<int>| #[trigger] self.is_chain(c) && c.last() == i;
                    assert(self.reach(c.last(), len));
                } else if frontier.len() == 0 {
                    let c = choose|c: Seq<int>| #[trigger]
                        self.is_chain(c) && c.last() == i && c.len() <= depth + 1;
                    assert(self.reach(c.last(), len));
                }
                assert(self.reach(i, len));
            }
            assert forall|t: int| 0 <= t < all.len() implies self.visited_by(#[trigger] all[t], depth) by {
                assert(self.seen_by(all[t], len));
                let c = choose|c: Seq<int>| #[trigger]
                    self.is_chain(c) && c.last() == all[t].0 as int && c.len() <= len && all[t].1@
                        == self.path_of(c) && !self.reach(all[t].0 as int, c.len() - 1);
                assert(self.is_chain(c));
            }
            assert forall|t: int| 0 <= t < all.len() implies (#[trigger] all[t]).0 < nodes.len() by {
                assert(self.seen_by(all[t], len));
                let c = choose|c: Seq<int>| #[trigger]
                    self.is_chain(c) && c.last() == all[t].0 as int && c.len() <= len && all[t].1@
                        == self.path_of(c) && !self.reach(all[t].0 as int, c.len() - 1);
                assert(self.open_at(c[c.len() - 1]));
            }
        }
        visits
    }

    /// The walk never follows an edge that is for development only: every
    /// step of a chain goes along an edge that is not.
    pub proof fn lemma_chain_avoids_dev_edges(&self, c: Seq<int>, i: int)
        requires
            self.is_chain(c),
            0 <= i < c.len() - 1,
        ensures
            exists|k: int|
                0 <= k < self.resolve.nodes[c[i]].deps.len() && !is_dev_edge(
                    #[trigger] self.resolve.nodes[c[i]].deps[k],
                ) && first_index(
                    node_ids(self.resolve.nodes@),
                    self.resolve.nodes[c[i]].deps[k].pkg@,
                ) == Some(c[i + 1]),
    {
        assert(self.edge(c[i], c[i + 1]));
        let from = c[i];
        let to = c[i + 1];
        let k = choose|k: int| self.edge_via(from, k, to);
        assert(!is_dev_edge(self.resolve.nodes[c[i]].deps[k]));
    }

    /// With the depth zero, the root package alone is analyzed.
    pub proof fn lemma_depth_zero_is_root_only(&self, i: int)
        ensures
            self.within(i, 0) <==> (i == self.root_index() && self.open_at(i)),
    {
        if self.within(i, 0) {
            let c = choose|c: Seq<int>| #[trigger] self.is_chain(c) && c.last() == i && c.len() <= 1;
            assert(self.open_at(c[0]));
        }
        if i == self.root_index() && self.open_at(i) {
            let c = seq![i];
            assert(self.is_chain(c) && c.last() == i && c.len() <= 1);
        }
    }

    /// One level more never leaves out what fewer levels took in, and no
    /// limit takes in whatever any limit does.
    pub proof fn lemma_deeper_takes_in_more(&self, i: int, shallow: i16, deep: i16)
        requires
            0 <= shallow,
            shallow <= deep || deep < 0,
            self.within(i, shallow),
        ensures
            self.within(i, deep),
    {
        let c = choose|c: Seq<int>| #[trigger]
            self.is_chain(c) && c.last() == i && c.len() <= shallow + 1;
        if deep >= 0 {
            assert(self.is_chain(c) && c.last() == i && c.len() <= deep + 1);
        } else {
            assert(self.is_chain(c) && c.last() == i);
        }
    }
}

} // verus!
