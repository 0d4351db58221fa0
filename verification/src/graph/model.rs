//! What a graph is, whatever way it is stored.

use crate::graph::search::{Search, Walk};
use vstd::prelude::*;

verus! {

/// The number of items in all lists.
pub open spec fn total_len<T>(lists: Seq<Seq<T>>) -> nat
    decreases lists.len(),
{
    if lists.len() == 0 {
        0
    } else {
        total_len(lists.drop_last()) + lists.last().len()
    }
}

/// Lists of the same lengths have the same number of items.
pub proof fn lemma_total_same<A, B>(a: Seq<Seq<A>>, b: Seq<Seq<B>>)
    requires
        a.len() == b.len(),
        forall|u: int| 0 <= u < a.len() ==> (#[trigger] a[u]).len() == b[u].len(),
    ensures
        total_len(a) == total_len(b),
    decreases a.len(),
{
    if a.len() > 0 {
        assert(a[a.len() - 1].len() == b[a.len() - 1].len());
        assert forall|u: int| 0 <= u < a.drop_last().len() implies (#[trigger] a.drop_last()[u]).len()
            == b.drop_last()[u].len() by {
            assert(a[u].len() == b[u].len());
        }
        lemma_total_same(a.drop_last(), b.drop_last());
    }
}

/// Exchanging one list exchanges the number of its items.
pub proof fn lemma_total_update<T>(lists: Seq<Seq<T>>, u: int, list: Seq<T>)
    requires
        0 <= u < lists.len(),
    ensures
        total_len(lists.update(u, list)) + lists[u].len() == total_len(lists) + list.len(),
        lists[u].len() <= total_len(lists),
    decreases lists.len(),
{
    let updated = lists.update(u, list);
    if u == lists.len() - 1 {
        assert(updated.drop_last() =~= lists.drop_last());
    } else {
        assert(updated.drop_last() =~= lists.drop_last().update(u, list));
        lemma_total_update(lists.drop_last(), u, list);
    }
}

/// Lists of at most `width` items have no more items than that for each list.
pub proof fn lemma_total_bound<T>(lists: Seq<Seq<T>>, width: nat)
    requires
        forall|u: int| 0 <= u < lists.len() ==> (#[trigger] lists[u]).len() <= width,
    ensures
        total_len(lists) <= lists.len() * width,
    decreases lists.len(),
{
    if lists.len() > 0 {
        let front = lists.drop_last();
        assert forall|u: int| 0 <= u < front.len() implies (#[trigger] front[u]).len() <= width by {
            assert(lists[u].len() <= width);
        }
        lemma_total_bound(front, width);
        assert(lists[lists.len() - 1].len() <= width);
        assert(front.len() * width + width == lists.len() * width) by (nonlinear_arith)
            requires
                front.len() == lists.len() - 1,
        ;
    }
}

/// What a graph is, whatever way it is stored.
///
/// Nodes have local ids, numbered from 0, and external ids, by which the dataset knows them.
#[verifier::ext_equal]
pub struct GraphModel {
    /// The local ids of the neighbours of each node.
    pub lists: Seq<Seq<usize>>,
    /// The external id of each node, where it is not the local id.
    pub mapping: Option<Seq<usize>>,
    /// The bound on the number of neighbours of a node.
    pub max_degree: nat,
    /// The number of edges.
    pub edges: nat,
}

impl GraphModel {
    /// The number of nodes.
    pub open spec fn nodes(self) -> nat {
        self.lists.len()
    }

    /// Local id `id` has an external id.
    pub open spec fn has_external_id(self, id: usize) -> bool {
        self.mapping is Some ==> id < self.mapping->0.len()
    }

    /// The external id of a node.
    pub open spec fn external_id(self, id: usize) -> usize {
        match self.mapping {
            Some(mapping) => mapping[id as int],
            None => id,
        }
    }

    /// The neighbours of a node.
    pub open spec fn adjacency(self) -> spec_fn(usize) -> Seq<usize> {
        |u: usize| self.lists[u as int]
    }

    /// The distance of each node, where `distance` goes by external ids.
    pub open spec fn node_distances(
        self,
        distance: spec_fn(usize) -> u64,
    ) -> spec_fn(usize) -> u64 {
        |v: usize| distance(self.external_id(v))
    }

    /// Every node has an external id, and it is below `bound`.
    pub open spec fn externals_below(self, bound: nat) -> bool {
        forall|u: usize|
            u < self.nodes() ==> self.has_external_id(u) && #[trigger] self.external_id(u) < bound
    }

    /// Every neighbour is a node.
    pub open spec fn has_no_strays(self) -> bool {
        forall|u: int, i: int|
            0 <= u < self.nodes() && 0 <= i < self.lists[u].len() ==> #[trigger] self.lists[u][i]
                < self.nodes()
    }

    /// The graph is `g` with each list in ascending order and without repetitions.
    pub open spec fn tidies(self, g: GraphModel) -> bool {
        &&& self.nodes() == g.nodes()
        &&& forall|u: int, i: int, j: int|
            0 <= u < self.nodes() && 0 <= i < j < self.lists[u].len()
                ==> #[trigger] self.lists[u][i] < #[trigger] self.lists[u][j]
        &&& forall|u: int, v: usize|
            0 <= u < self.nodes() ==> (#[trigger] self.lists[u].contains(v)
                <==> g.lists[u].contains(v))
        &&& self.mapping == g.mapping
        &&& self.max_degree == g.max_degree
        &&& self.edges == total_len(self.lists)
    }

    /// Every neighbour is a node, and every node has an external id.
    pub open spec fn is_searchable(self) -> bool {
        &&& self.has_no_strays()
        &&& self.mapping is Some ==> self.mapping->0.len() >= self.nodes()
    }
}

/// The relaxation test that relaxes nothing.
pub open spec fn no_relaxation() -> spec_fn(u64, u64) -> bool {
    |a: u64, b: u64| a <= b
}

/// The filter that accepts everything.
pub open spec fn no_filter() -> spec_fn(usize) -> bool {
    |id: usize| true
}

/// The query on a graph, where distances and filter go by external ids.
pub open spec fn query(
    g: GraphModel,
    distance: spec_fn(usize) -> u64,
    within: spec_fn(u64, u64) -> bool,
    keep: spec_fn(usize) -> bool,
    ef: nat,
    k: nat,
    walk: Walk,
) -> Search {
    Search {
        nodes: g.nodes(),
        adjacent: g.adjacency(),
        distance: g.node_distances(distance),
        within,
        keep: |v: usize| keep(g.external_id(v)),
        ef,
        k,
        walk,
    }
}

/// How many results are wanted, where none need be.
pub open spec fn wanted(k: Option<usize>) -> nat {
    match k {
        Some(k) => k as nat,
        None => 0,
    }
}

/// The first `k` items of a sequence.
pub open spec fn at_most<T>(items: Seq<T>, k: nat) -> Seq<T> {
    if k < items.len() {
        items.take(k as int)
    } else {
        items
    }
}

} // verus!
