//! Renaming the nodes of a graph so that nodes with like neighbours get like names.
//!
//! Each node becomes a document whose terms are its neighbours. A graph bisection brings the
//! documents into a new order, and the order gives the nodes their new names.

use crate::graph::graph_trait::GraphTrait;
use crate::graph::model::GraphModel;
use crate::hnsw_utils;
use crate::sorted;
use rayon::slice::ParallelSliceMut;
use vstd::prelude::*;

verus! {

/// How often a bisection tries to improve a partition.
pub const ITERATIONS: usize = 10;

/// The smallest partition that is bisected.
pub const MIN_PARTITION_SIZE: usize = 64;

/// How deep bisections are nested.
pub const MAX_DEPTH: usize = 100;

/// From which size on a partition is worked on in parallel.
pub const PARALLEL_SWITCH: usize = 100;

/// Down to which depth partitions are worked on in parallel.
pub const DEPTH_LIMIT: usize = 1;

/// Whether the documents of a smallest partition are sorted.
pub const SORT_LEAF: bool = true;

/// What bisections call themselves in logs.
pub const ID: usize = 1;

/// A node as a document.
pub struct Doc {
    /// The neighbours, by their ranks among all ids that are neighbours.
    pub terms: Vec<u32>,
    /// The node.
    pub org_id: u32,
    /// The partition that the document came to rest in, or -1.
    pub leaf_id: i32,
}

/// All neighbours, one list after the other.
pub open spec fn all_neighbors(lists: Seq<Seq<usize>>) -> Seq<u32>
    decreases lists.len(),
{
    if lists.len() == 0 {
        Seq::empty()
    } else {
        all_neighbors(lists.drop_last()) + lists.last().map_values(|v: usize| v as u32)
    }
}

/// The ids that are neighbours, in order.
pub open spec fn terms_of(g: GraphModel) -> Seq<u32> {
    sorted::sorted_set(all_neighbors(g.lists))
}

/// The ranks of some ids among others.
pub open spec fn ranks(ids: Seq<usize>, among: Seq<u32>) -> Seq<u32> {
    ids.map_values(|v: usize| among.index_of(v as u32) as u32)
}

/// `docs` are the documents of the nodes of a graph.
pub open spec fn are_docs_of(g: GraphModel, docs: Seq<Doc>) -> bool {
    &&& docs.len() == g.nodes()
    &&& forall|u: int|
        0 <= u < docs.len() ==> {
            &&& (#[trigger] docs[u]).terms@ == sorted::sorted_set(ranks(g.lists[u], terms_of(g)))
            &&& docs[u].org_id == u
            &&& docs[u].leaf_id == -1
        }
}

/// The nodes of documents, in their order.
pub open spec fn nodes_of(docs: Seq<Doc>) -> Seq<usize> {
    docs.map_values(|doc: Doc| doc.org_id as usize)
}

/// Sorts by `par_sort_unstable` of rayon's parallel slices.
///
/// Claimed: the numbers stand in ascending order afterwards, and are the same numbers as before.
#[verifier::external_body]
fn sort_in_parallel(list: &mut Vec<u32>)
    ensures
        final(list)@.to_multiset() == old(list)@.to_multiset(),
        sorted::is_ascending(final(list)@),
{
    list.par_sort_unstable();
}

/// Every neighbour of every node is among all neighbours.
proof fn lemma_all_neighbors(lists: Seq<Seq<usize>>, u: int, i: int)
    requires
        0 <= u < lists.len(),
        0 <= i < lists[u].len(),
    ensures
        all_neighbors(lists).contains(lists[u][i] as u32),
    decreases lists.len(),
{
    let front = all_neighbors(lists.drop_last());
    let back = lists.last().map_values(|v: usize| v as u32);
    let all = all_neighbors(lists);
    if u == lists.len() - 1 {
        assert(all[front.len() + i] == lists[u][i] as u32);
    } else {
        lemma_all_neighbors(lists.drop_last(), u, i);
        let k = choose|k: int| 0 <= k < front.len() && front[k] == lists[u][i] as u32;
        assert(all[k] == lists[u][i] as u32);
    }
}

/// Where all neighbours are below `n`, all of them are in the list of all neighbours.
proof fn lemma_all_neighbors_below(lists: Seq<Seq<usize>>, n: nat, k: int)
    requires
        forall|u: int, i: int|
            0 <= u < lists.len() && 0 <= i < lists[u].len() ==> #[trigger] lists[u][i] < n,
        n <= 0x1_0000_0000,
        0 <= k < all_neighbors(lists).len(),
    ensures
        all_neighbors(lists)[k] < n,
    decreases lists.len(),
{
    let rest = lists.drop_last();
    let front = all_neighbors(rest);
    if k < front.len() {
        assert forall|u: int, i: int|
            0 <= u < rest.len() && 0 <= i < rest[u].len() implies #[trigger] rest[u][i] < n by {
            assert(lists[u][i] < n);
        }
        lemma_all_neighbors_below(rest, n, k);
    } else {
        let u = lists.len() - 1;
        assert(lists[u][k - front.len()] < n);
    }
}

/// There are no more ids in an ascending list than numbers below its bound.
proof fn lemma_ascending_len(list: Seq<u32>, n: nat)
    requires
        sorted::is_strictly_ascending(list),
        forall|i: int| 0 <= i < list.len() ==> #[trigger] list[i] < n,
    ensures
        list.len() <= n,
        forall|i: int| 0 <= i < list.len() ==> i <= #[trigger] list[i],
    decreases list.len(),
{
    if list.len() > 0 {
        let front = list.drop_last();
        assert forall|i: int| 0 <= i < front.len() implies #[trigger] front[i] < list.last() by {
            assert(list[i] < list[list.len() - 1]);
        }
        lemma_ascending_len(front, list.last() as nat);
        assert forall|i: int| 0 <= i < list.len() implies i <= #[trigger] list[i] by {
            if i < front.len() {
                assert(front[i] == list[i]);
            }
        }
        assert(list[list.len() - 1] < n);
    }
}

/// The documents of the nodes of a graph, and how many terms they have between them.
pub fn bisection_docs<G: GraphTrait>(graph: &G) -> (r: (Vec<Doc>, usize))
    requires
        graph.wf(),
        graph@.has_no_strays(),
        graph@.nodes() <= 0x1_0000_0000,
    ensures
        are_docs_of(graph@, r.0@),
        r.1 == terms_of(graph@).len(),
{
    let n: usize = graph.n_nodes();
    let mut raw: Vec<u32> = Vec::new();
    for u in 0..n
        invariant
            graph.wf(),
            graph@.has_no_strays(),
            n == graph@.nodes(),
            n <= 0x1_0000_0000,
            raw@ == all_neighbors(graph@.lists.take(u as int)),
    {
        let list = graph.neighbors(u);
        let ghost before = raw@;
        let ghost ids = list@.map_values(|v: usize| v as u32);
        for i in 0..list.len()
            invariant
                ids == list@.map_values(|v: usize| v as u32),
                raw@ == before + ids.take(i as int),
        {
            raw.push(list[i] as u32);
            assert(raw@ =~= before + ids.take(i + 1));
        }
        proof {
            assert(ids.take(ids.len() as int) =~= ids);
            assert(graph@.lists.take(u + 1).drop_last() =~= graph@.lists.take(u as int));
        }
    }
    assert(graph@.lists.take(n as int) =~= graph@.lists);
    let ghost flat = raw@;
    sort_in_parallel(&mut raw);
    let all_terms = sorted::dedup(&raw);
    proof {
        sorted::lemma_same_members(raw@, flat);
        assert(sorted::is_sorted_set_of(all_terms@, flat));
        sorted::lemma_sorted_set(all_terms@, flat);
        assert forall|i: int| 0 <= i < all_terms@.len() implies #[trigger] all_terms@[i] < n by {
            assert(all_terms@.contains(all_terms@[i]));
            let k = choose|k: int| 0 <= k < flat.len() && flat[k] == all_terms@[i];
            lemma_all_neighbors_below(graph@.lists, n as nat, k);
        }
        lemma_ascending_len(all_terms@, n as nat);
    }
    let mut term_map: Vec<u32> = vec![0xffff_ffffu32; n];
    for rank in 0..all_terms.len()
        invariant
            term_map@.len() == n,
            n <= 0x1_0000_0000,
            all_terms@.len() <= n,
            sorted::is_strictly_ascending(all_terms@),
            forall|i: int| 0 <= i < all_terms@.len() ==> #[trigger] all_terms@[i] < n,
            forall|i: int| 0 <= i < rank ==> term_map@[#[trigger] all_terms@[i] as int] == i,
    {
        assert(all_terms@[rank as int] < n);
        term_map.set(all_terms[rank] as usize, rank as u32);
    }
    let mut docs: Vec<Doc> = Vec::new();
    for u in 0..n
        invariant
            graph.wf(),
            graph@.has_no_strays(),
            n == graph@.nodes(),
            n <= 0x1_0000_0000,
            term_map@.len() == n,
            all_terms@ == terms_of(graph@),
            sorted::is_sorted_set_of(all_terms@, all_neighbors(graph@.lists)),
            forall|i: int|
                0 <= i < all_terms@.len() ==> term_map@[#[trigger] all_terms@[i] as int] == i,
            docs@.len() == u,
            forall|w: int|
                0 <= w < u ==> {
                    &&& (#[trigger] docs@[w]).terms@ == sorted::sorted_set(
                        ranks(graph@.lists[w], terms_of(graph@)),
                    )
                    &&& docs@[w].org_id == w
                    &&& docs@[w].leaf_id == -1
                },
    {
        let list = graph.neighbors(u);
        let ghost named = ranks(list@, all_terms@);
        let mut terms: Vec<u32> = Vec::new();
        for i in 0..list.len()
            invariant
                graph@.has_no_strays(),
                u < n,
                n == graph@.nodes(),
                term_map@.len() == n,
                list@ == graph@.lists[u as int],
                sorted::is_sorted_set_of(all_terms@, all_neighbors(graph@.lists)),
                forall|j: int|
                    0 <= j < all_terms@.len() ==> term_map@[#[trigger] all_terms@[j] as int] == j,
                n <= 0x1_0000_0000,
                named == ranks(list@, all_terms@),
                terms@ == named.take(i as int),
        {
            let v: usize = list[i];
            proof {
                assert(graph@.lists[u as int][i as int] < n);
                lemma_all_neighbors(graph@.lists, u as int, i as int);
                assert(all_terms@.contains(v as u32));
                let k = all_terms@.index_of(v as u32);
                assert(all_terms@[k] == v as u32);
                assert(term_map@[all_terms@[k] as int] == k);
            }
            terms.push(term_map[v]);
            assert(terms@ =~= named.take(i + 1));
        }
        assert(terms@ =~= named);
        docs.push(Doc { terms: sorted::sort_dedup(terms), org_id: u as u32, leaf_id: -1 });
    }
    (docs, all_terms.len())
}

/// The new name of each node, once the documents are in their new order.
pub fn permutation_of_docs(docs: &Vec<Doc>) -> (perm: Vec<usize>)
    requires
        hnsw_utils::is_permutation(nodes_of(docs@)),
    ensures
        hnsw_utils::is_inverse(nodes_of(docs@), perm@),
        hnsw_utils::is_permutation(perm@),
{
    let mut nodes: Vec<usize> = Vec::new();
    for i in 0..docs.len()
        invariant
            nodes@ == nodes_of(docs@).take(i as int),
    {
        nodes.push(docs[i].org_id as usize);
        assert(nodes@ =~= nodes_of(docs@).take(i + 1));
    }
    assert(nodes@ =~= nodes_of(docs@));
    let perm = hnsw_utils::invert_mapping(nodes.as_slice());
    proof {
        hnsw_utils::law_inverse_is_mutual(nodes@, perm@);
    }
    perm
}

/// A bisection can be given the documents of a graph, and brings them into another order.
pub open spec fn bisects<B: Fn(Vec<Doc>, usize) -> Vec<Doc>>(g: GraphModel, bisect: B) -> bool {
    &&& forall|docs: Vec<Doc>, terms: usize|
        are_docs_of(g, docs@) && terms == terms_of(g).len() ==> #[trigger] bisect.requires(
            (docs, terms),
        )
    &&& forall|docs: Vec<Doc>, terms: usize, out: Vec<Doc>| #[trigger]
        bisect.ensures((docs, terms), out) && are_docs_of(g, docs@) && terms == terms_of(g).len()
            ==> out@.len() == docs@.len() && hnsw_utils::is_permutation(nodes_of(out@))
}

/// The permutation (from old to new name) that a bisection gives the nodes of a graph.
///
/// `bisect` is given the documents of the graph and their number of terms, and returns the
/// documents in their new order.
pub fn permute_graph_bisection_from_graph<G: GraphTrait, B: Fn(Vec<Doc>, usize) -> Vec<Doc>>(
    graph: &G,
    bisect: &B,
) -> (perm: Vec<usize>)
    requires
        graph.wf(),
        graph@.has_no_strays(),
        graph@.nodes() <= 0x1_0000_0000,
        bisects(graph@, *bisect),
    ensures
        perm@.len() == graph@.nodes(),
        hnsw_utils::is_permutation(perm@),
        exists|docs: Vec<Doc>, out: Vec<Doc>|
            are_docs_of(graph@, docs@) && #[trigger] bisect.ensures(
                (docs, terms_of(graph@).len() as usize),
                out,
            ) && hnsw_utils::is_inverse(nodes_of(out@), perm@),
{
    let (docs, num_terms) = bisection_docs(graph);
    let ghost before = docs;
    let out = bisect(docs, num_terms);
    assert(bisect.ensures((before, terms_of(graph@).len() as usize), out));
    permutation_of_docs(&out)
}

/// What is among all neighbours is a neighbour of some node.
proof fn lemma_some_neighbor(lists: Seq<Seq<usize>>, v: u32)
    requires
        all_neighbors(lists).contains(v),
    ensures
        exists|u: int, i: int|
            0 <= u < lists.len() && 0 <= i < lists[u].len() && #[trigger] lists[u][i] as u32 == v,
    decreases lists.len(),
{
    if lists.len() > 0 {
        let rest = lists.drop_last();
        let front = all_neighbors(rest);
        let last = lists.len() - 1;
        let k = choose|k: int| 0 <= k < all_neighbors(lists).len() && all_neighbors(lists)[k] == v;
        if k < front.len() {
            assert(front[k] == v);
            lemma_some_neighbor(rest, v);
            let (u, i) = choose|u: int, i: int|
                0 <= u < rest.len() && 0 <= i < rest[u].len() && #[trigger] rest[u][i] as u32 == v;
            assert(lists[u][i] as u32 == v);
        } else {
            assert(lists[last][k - front.len()] as u32 == v);
        }
    }
}

/// `named[t]` is the neighbour that term `t` of the documents stands for.
///
/// The terms are numbered from 0 on, in the order of the ids they stand for, and no number is left
/// out: each stands for a neighbour of some node. A document has a term exactly if its node has
/// that neighbour, and has its terms in order, each once.
pub open spec fn names_terms(g: GraphModel, docs: Seq<Doc>, named: Seq<u32>) -> bool {
    &&& sorted::is_strictly_ascending(named)
    &&& forall|t: int|
        0 <= t < named.len() ==> exists|u: int|
            0 <= u < g.nodes() && (#[trigger] g.lists[u]).contains(#[trigger] named[t] as usize)
    &&& forall|u: int|
        0 <= u < docs.len() ==> sorted::is_strictly_ascending((#[trigger] docs[u]).terms@)
    &&& forall|u: int, v: usize|
        0 <= u < docs.len() ==> (#[trigger] g.lists[u].contains(v) <==> exists|t: u32|
            t < named.len() && named[t as int] == v && #[trigger] docs[u].terms@.contains(t))
    &&& forall|u: int, t: u32|
        0 <= u < docs.len() && #[trigger] docs[u].terms@.contains(t) ==> t < named.len()
}

/// Documents tell which nodes have which neighbours, and nothing else.
pub proof fn law_docs_tell_neighbours(g: GraphModel, docs: Seq<Doc>)
    requires
        g.has_no_strays(),
        g.nodes() <= 0x1_0000_0000,
        are_docs_of(g, docs),
    ensures
        exists|named: Seq<u32>| #[trigger]
            names_terms(g, docs, named) && named.len() == terms_of(g).len(),
{
    let named = terms_of(g);
    let n = g.nodes();
    sorted::lemma_sorted_set_exists(all_neighbors(g.lists));
    assert forall|i: int| 0 <= i < named.len() implies #[trigger] named[i] < n by {
        assert(named.contains(named[i]));
        let k = choose|k: int|
            0 <= k < all_neighbors(g.lists).len() && all_neighbors(g.lists)[k] == named[i];
        lemma_all_neighbors_below(g.lists, n, k);
    }
    lemma_ascending_len(named, n);
    assert forall|t: int| 0 <= t < named.len() implies exists|u: int|
        0 <= u < g.nodes() && (#[trigger] g.lists[u]).contains(#[trigger] named[t] as usize) by {
        assert(named.contains(named[t]));
        lemma_some_neighbor(g.lists, named[t]);
        let (u, i) = choose|u: int, i: int|
            0 <= u < g.lists.len() && 0 <= i < g.lists[u].len() && #[trigger] g.lists[u][i] as u32
                == named[t];
        assert(g.lists[u][i] < n);
        assert(g.lists[u].contains(named[t] as usize));
    }
    assert forall|u: int| 0 <= u < docs.len() implies sorted::is_sorted_set_of(
        (#[trigger] docs[u]).terms@,
        ranks(g.lists[u], named),
    ) by {
        sorted::lemma_sorted_set_exists(ranks(g.lists[u], named));
    }
    assert forall|u: int, t: u32|
        0 <= u < docs.len() && #[trigger] docs[u].terms@.contains(t) implies t < named.len()
        && g.lists[u].contains(named[t as int] as usize) by {
        lemma_term_of_doc(g, docs, u, t);
    }
    assert forall|u: int, v: usize| 0 <= u < docs.len() implies (#[trigger] g.lists[u].contains(v)
        <==> exists|t: u32|
        t < named.len() && named[t as int] == v && #[trigger] docs[u].terms@.contains(t)) by {
        if g.lists[u].contains(v) {
            let i = choose|i: int| 0 <= i < g.lists[u].len() && g.lists[u][i] == v;
            assert(g.lists[u][i] < n);
            lemma_all_neighbors(g.lists, u, i);
            assert(named.contains(v as u32));
            let t = named.index_of(v as u32);
            assert(named[t] == v as u32);
            assert(ranks(g.lists[u], named)[i] == t as u32);
            assert(ranks(g.lists[u], named).contains(t as u32));
            assert(sorted::is_sorted_set_of(docs[u].terms@, ranks(g.lists[u], named)));
            assert(docs[u].terms@.contains(t as u32));
        }
    }
    assert(names_terms(g, docs, named));
}

/// A term of a document stands for a neighbour of its node.
proof fn lemma_term_of_doc(g: GraphModel, docs: Seq<Doc>, u: int, t: u32)
    requires
        g.has_no_strays(),
        g.nodes() <= 0x1_0000_0000,
        are_docs_of(g, docs),
        0 <= u < docs.len(),
        docs[u].terms@.contains(t),
        terms_of(g).len() <= g.nodes(),
    ensures
        t < terms_of(g).len(),
        g.lists[u].contains(terms_of(g)[t as int] as usize),
{
    let named = terms_of(g);
    sorted::lemma_sorted_set_exists(all_neighbors(g.lists));
    sorted::lemma_sorted_set_exists(ranks(g.lists[u], named));
    assert(ranks(g.lists[u], named).contains(t));
    let i = choose|i: int|
        0 <= i < ranks(g.lists[u], named).len() && ranks(g.lists[u], named)[i] == t;
    assert(g.lists[u][i] < g.nodes());
    lemma_all_neighbors(g.lists, u, i);
    assert(named.contains(g.lists[u][i] as u32));
    assert(named[named.index_of(g.lists[u][i] as u32)] == g.lists[u][i] as u32);
    assert(g.lists[u][i] == named[t as int] as usize);
}

} // verus!
