//! What conversions and remappings keep of a graph.

use crate::datasets;
use crate::graph::graph;
use crate::graph::graph::Graph;
use crate::graph::graph_trait::GraphTrait;
use crate::graph::growable::GrowableGraph;
use crate::graph::model;
use crate::graph::neighbors::Neighbors;
use crate::graph::stream_vbyte::{StreamVByteNeighbors, STREAMVBYTE_BLOCKS_MAX_BUF};
use crate::hnsw_utils;
use crate::sorted;
use vstd::prelude::*;

verus! {

/// A graph whose lists are stored in another way has the same neighbours; where its lists were in
/// order and without repetitions, it has the same lists.
pub proof fn law_conversion_keeps_neighbours<N: Neighbors>(g: &Graph<N>, u: int, v: u32)
    requires
        0 <= u < g@.nodes(),
    ensures
        graph::tidy_lists(g)[u].contains(v) <==> g.raw_list(u).contains(v),
        sorted::is_strictly_ascending(g.raw_list(u)) ==> graph::tidy_lists(g)[u] == g.raw_list(u),
{
    sorted::lemma_sorted_set_exists(g.raw_list(u));
    if sorted::is_strictly_ascending(g.raw_list(u)) {
        sorted::law_sorted_set_of_sorted(g.raw_list(u));
    }
}

/// Storing the lists of a graph in another way, and then in a third, is the same as storing them
/// in the third way at once.
pub proof fn law_conversions_compose<A: Neighbors, B: Neighbors>(a: &Graph<A>, b: &Graph<B>)
    requires
        b.is_made_of(graph::tidy_lists(a), a@.mapping, a@.max_degree),
    ensures
        graph::tidy_lists(b) == graph::tidy_lists(a),
        b@.mapping == a@.mapping,
        b@.max_degree == a@.max_degree,
{
    assert forall|u: int| 0 <= u < a@.nodes() implies graph::tidy_lists(b)[u]
        == graph::tidy_lists(a)[u] by {
        assert(b.raw_list(u) == graph::tidy_lists(a)[u]);
        sorted::lemma_sorted_set_exists(a.raw_list(u));
        sorted::law_sorted_set_of_sorted(b.raw_list(u));
    }
    assert(graph::tidy_lists(b) =~= graph::tidy_lists(a));
}

/// A way of storing lists takes what it holds: the lists of a graph as they are, in order and
/// without repetitions, and under other names.
pub proof fn law_own_lists_are_accepted<N: Neighbors>(
    g: &Graph<N>,
    order: Seq<usize>,
    names: Seq<usize>,
)
    requires
        g.wf(),
        order.len() == g@.nodes(),
        forall|i: int| 0 <= i < order.len() ==> #[trigger] order[i] < g@.nodes(),
    ensures
        forall|u: int| 0 <= u < g@.nodes() ==> N::accepts(#[trigger] g.raw_list(u)),
        graph::all_accepted::<N>(graph::tidy_lists(g)),
        graph::all_accepted::<N>(graph::renamed_lists(g, order, names)),
{
    graph::lemma_lists_can_be_read(g);
    assert forall|u: int| 0 <= u < g@.nodes() implies N::accepts(#[trigger] g.raw_list(u)) by {
        assert(g.stored().has_node(u));
        g.stored().law_accepts_own(u);
    }
    let tidy = graph::tidy_lists(g);
    assert forall|u: int| 0 <= u < tidy.len() implies N::accepts(#[trigger] tidy[u]) by {
        let list = g.raw_list(u);
        sorted::lemma_sorted_set_exists(list);
        sorted::law_sorted_set_len(list);
        N::law_accepts_no_longer(list, tidy[u]);
    }
    let other = graph::renamed_lists(g, order, names);
    assert forall|i: int| 0 <= i < other.len() implies N::accepts(#[trigger] other[i]) by {
        let list = g.raw_list(order[i] as int);
        sorted::lemma_sorted_set_exists(graph::renamed(list, names));
        sorted::law_sorted_set_len(graph::renamed(list, names));
        N::law_accepts_no_longer(list, other[i]);
    }
}

/// Blocks of differences can hold the lists of a growable graph that are no longer than a block can
/// be.
pub proof fn law_short_rows_are_accepted(g: &GrowableGraph)
    requires
        forall|u: int|
            0 <= u < g@.nodes() ==> (#[trigger] g@.lists[u]).len() <= STREAMVBYTE_BLOCKS_MAX_BUF,
    ensures
        graph::all_accepted::<StreamVByteNeighbors>(g.tidy_lists()),
{
    let tidy = g.tidy_lists();
    assert forall|u: int| 0 <= u < tidy.len() implies StreamVByteNeighbors::accepts(
        #[trigger] tidy[u],
    ) by {
        assert(g@.lists[u].len() <= STREAMVBYTE_BLOCKS_MAX_BUF);
        sorted::lemma_sorted_set_exists(g.raw_list(u));
        sorted::law_sorted_set_len(g.raw_list(u));
        assert forall|i: int, j: int| 0 <= i <= j < tidy[u].len() implies #[trigger] tidy[u][i]
            <= #[trigger] tidy[u][j] by {
            if i < j {
                assert(tidy[u][i] < tidy[u][j]);
            }
        }
    }
}

/// A graph that was made growable can be stored as before, and gets its own lists back where they
/// were in order and without repetitions.
pub proof fn law_growable_and_back<N: Neighbors>(g: &Graph<N>, growable: &GrowableGraph)
    requires
        g.wf(),
        growable@ == g@,
    ensures
        growable.tidy_lists() == graph::tidy_lists(g),
        graph::all_accepted::<N>(growable.tidy_lists()),
        forall|u: int|
            0 <= u < g@.nodes() && sorted::is_strictly_ascending(#[trigger] g.raw_list(u))
                ==> growable.tidy_lists()[u] == g.raw_list(u),
{
    assert forall|u: int| 0 <= u < g@.nodes() implies #[trigger] growable.raw_list(u) == g.raw_list(
        u,
    ) by {
        graph::lemma_lists_are_stored(g, u);
    }
    assert(growable.tidy_lists() =~= graph::tidy_lists(g));
    let order = Seq::new(g@.nodes(), |u: int| 0usize);
    assert forall|i: int| 0 <= i < order.len() implies #[trigger] order[i] < g@.nodes() by {}
    law_own_lists_are_accepted(g, order, order);
    assert forall|u: int|
        0 <= u < g@.nodes() && sorted::is_strictly_ascending(
            #[trigger] g.raw_list(u),
        ) implies growable.tidy_lists()[u] == g.raw_list(u) by {
        sorted::law_sorted_set_of_sorted(g.raw_list(u));
    }
}

/// The items of those lists whose index is in a set.
spec fn total_in<T>(lists: Seq<Seq<T>>, chosen: Set<int>) -> nat
    decreases lists.len(),
{
    if lists.len() == 0 {
        0
    } else {
        total_in(lists.drop_last(), chosen) + if chosen.contains(lists.len() - 1) {
            lists.last().len()
        } else {
            0
        }
    }
}

proof fn lemma_total_in<T>(lists: Seq<Seq<T>>, a: Set<int>, b: Set<int>)
    requires
        forall|u: int| 0 <= u < lists.len() ==> a.contains(u) == b.contains(u),
    ensures
        total_in(lists, a) == total_in(lists, b),
    decreases lists.len(),
{
    if lists.len() > 0 {
        lemma_total_in(lists.drop_last(), a, b);
    }
}

proof fn lemma_total_in_insert<T>(lists: Seq<Seq<T>>, chosen: Set<int>, u: int)
    requires
        0 <= u < lists.len(),
        !chosen.contains(u),
    ensures
        total_in(lists, chosen.insert(u)) == total_in(lists, chosen) + lists[u].len(),
    decreases lists.len(),
{
    if u == lists.len() - 1 {
        lemma_total_in(lists.drop_last(), chosen, chosen.insert(u));
    } else {
        lemma_total_in_insert(lists.drop_last(), chosen, u);
    }
}

proof fn lemma_total_in_all<T>(lists: Seq<Seq<T>>, chosen: Set<int>)
    requires
        forall|u: int| 0 <= u < lists.len() ==> chosen.contains(u),
    ensures
        total_in(lists, chosen) == model::total_len(lists),
    decreases lists.len(),
{
    if lists.len() > 0 {
        lemma_total_in_all(lists.drop_last(), chosen);
    }
}

proof fn lemma_total_in_none<T>(lists: Seq<Seq<T>>)
    ensures
        total_in(lists, Set::empty()) == 0,
    decreases lists.len(),
{
    if lists.len() > 0 {
        lemma_total_in_none(lists.drop_last());
    }
}

proof fn lemma_total_of_first<T>(lists: Seq<Seq<T>>, order: Seq<usize>, k: nat) -> (chosen: Set<
    int,
>)
    requires
        order.len() == lists.len(),
        hnsw_utils::is_permutation(order),
        k <= order.len(),
    ensures
        forall|i: int| 0 <= i < k ==> chosen.contains(#[trigger] order[i] as int),
        forall|u: int| #[trigger]
            chosen.contains(u) ==> exists|i: int| 0 <= i < k && #[trigger] order[i] == u,
        model::total_len(Seq::new(k, |i: int| lists[order[i] as int])) == total_in(lists, chosen),
    decreases k,
{
    if k == 0 {
        lemma_total_in_none(lists);
        Set::empty()
    } else {
        let before = lemma_total_of_first(lists, order, (k - 1) as nat);
        let u = order[k - 1] as int;
        assert(order[k - 1] < order.len());
        if before.contains(u) {
            let i = choose|i: int| 0 <= i < k - 1 && #[trigger] order[i] == u;
            assert(order[i] != order[k - 1]);
        }
        lemma_total_in_insert(lists, before, u);
        let now = Seq::new(k, |i: int| lists[order[i] as int]);
        assert(now.drop_last() =~= Seq::new((k - 1) as nat, |i: int| lists[order[i] as int]));
        before.insert(u)
    }
}

/// Another order of the lists has the same number of items.
proof fn lemma_total_reordered<T>(lists: Seq<Seq<T>>, order: Seq<usize>)
    requires
        order.len() == lists.len(),
        hnsw_utils::is_permutation(order),
    ensures
        model::total_len(Seq::new(lists.len(), |i: int| lists[order[i] as int]))
            == model::total_len(lists),
{
    let chosen = lemma_total_of_first(lists, order, lists.len());
    assert forall|u: int| 0 <= u < lists.len() implies chosen.contains(u) by {
        hnsw_utils::lemma_permutation_onto(order, u);
        let i = choose|i: int| 0 <= i < order.len() && #[trigger] order[i] == u;
        assert(chosen.contains(order[i] as int));
    }
    lemma_total_in_all(lists, chosen);
}

/// Other names keep the ids of a list apart.
proof fn lemma_renamed_apart(list: Seq<u32>, names: Seq<usize>)
    requires
        names.len() <= graph::MAX_NODES,
        hnsw_utils::is_permutation(names),
        forall|i: int| 0 <= i < list.len() ==> #[trigger] list[i] < names.len(),
        list.no_duplicates(),
    ensures
        graph::renamed(list, names).no_duplicates(),
{
    let r = graph::renamed(list, names);
    assert forall|i: int, j: int| 0 <= i < r.len() && 0 <= j < r.len() && i != j implies r[i]
        != r[j] by {
        let a = list[i] as int;
        let b = list[j] as int;
        assert(a != b);
        assert(names[a] < names.len() && names[b] < names.len());
        if a < b {
            assert(names[a] != names[b]);
        } else {
            assert(names[b] != names[a]);
        }
    }
}

/// Giving the nodes other names keeps the number of edges where no list holds an id twice.
pub proof fn law_remapping_keeps_edge_count<N: Neighbors>(
    g: &Graph<N>,
    mapping: Seq<usize>,
    inv: Seq<usize>,
)
    requires
        g.wf(),
        g@.nodes() <= graph::MAX_NODES,
        g@.has_no_strays(),
        mapping.len() == g@.nodes(),
        hnsw_utils::is_inverse(mapping, inv),
        forall|u: int| 0 <= u < g@.nodes() ==> (#[trigger] g.raw_list(u)).no_duplicates(),
    ensures
        model::total_len(graph::renamed_lists(g, inv, mapping)) == g@.edges,
{
    let n = g@.nodes();
    hnsw_utils::law_inverse_is_mutual(mapping, inv);
    let raw = Seq::new(n, |u: int| g.raw_list(u));
    let moved = Seq::new(n, |i: int| raw[inv[i] as int]);
    let lists = graph::renamed_lists(g, inv, mapping);
    assert forall|i: int| 0 <= i < n implies (#[trigger] lists[i]).len() == moved[i].len() by {
        let u = inv[i] as int;
        assert(inv[i] < n);
        let list = g.raw_list(u);
        graph::lemma_lists_are_stored(g, u);
        assert forall|k: int| 0 <= k < list.len() implies #[trigger] list[k] < n by {
            assert(g@.lists[u][k] < n);
        }
        assert(list.no_duplicates());
        lemma_renamed_apart(list, mapping);
        sorted::law_sorted_set_len(graph::renamed(list, mapping));
    }
    model::lemma_total_same(lists, moved);
    lemma_total_reordered(raw, inv);
    assert forall|u: int| 0 <= u < n implies (#[trigger] raw[u]).len() == g@.lists[u].len() by {
        graph::lemma_lists_are_stored(g, u);
    }
    model::lemma_total_same(raw, g@.lists);
    g.lemma_edges_counted();
}

/// A graph remapped by `mapping`, and that one by the inverse, have as many edges as the graph
/// where no list of the graph holds an id twice.
pub proof fn law_edge_count_there_and_back<A: Neighbors, B: Neighbors, C: Neighbors>(
    a: &Graph<A>,
    b: &Graph<B>,
    c: &Graph<C>,
    mapping: Seq<usize>,
    inv: Seq<usize>,
)
    requires
        a.wf(),
        a@.nodes() <= graph::MAX_NODES,
        a@.has_no_strays(),
        mapping.len() == a@.nodes(),
        hnsw_utils::is_inverse(mapping, inv),
        forall|u: int| 0 <= u < a@.nodes() ==> (#[trigger] a.raw_list(u)).no_duplicates(),
        b.is_made_of(graph::renamed_lists(a, inv, mapping), None, a@.max_degree),
        c.is_made_of(graph::renamed_lists(b, mapping, inv), None, b@.max_degree),
    ensures
        b@.edges == a@.edges,
        c@.edges == a@.edges,
{
    law_remapping_keeps_edge_count(a, mapping, inv);
    law_remapping_is_undone(a, b, mapping, inv);
    hnsw_utils::law_inverse_is_mutual(mapping, inv);
    assert forall|u: int| 0 <= u < b@.nodes() implies (#[trigger] b.raw_list(
        u,
    )).no_duplicates() by {
        let list = b.raw_list(u);
        sorted::lemma_sorted_set_exists(graph::renamed(a.raw_list(inv[u] as int), mapping));
        assert forall|i: int, j: int| 0 <= i < list.len() && 0 <= j < list.len() && i
            != j implies list[i] != list[j] by {
            if i < j {
                assert(list[i] < list[j]);
            } else {
                assert(list[j] < list[i]);
            }
        }
    }
    law_remapping_keeps_edge_count(b, inv, mapping);
}

/// A number is in a renamed list exactly if it is the name of a number in the list.
proof fn lemma_renamed_member(list: Seq<u32>, names: Seq<usize>, n: nat, v: u32)
    requires
        n <= graph::MAX_NODES,
        names.len() == n,
        hnsw_utils::is_permutation(names),
        forall|i: int| 0 <= i < list.len() ==> #[trigger] list[i] < n,
        v < n,
    ensures
        graph::renamed(list, names).contains(names[v as int] as u32) <==> list.contains(v),
{
    let r = graph::renamed(list, names);
    assert(names[v as int] < n);
    if list.contains(v) {
        let i = choose|i: int| 0 <= i < list.len() && list[i] == v;
        assert(r[i] == names[v as int] as u32);
    }
    if r.contains(names[v as int] as u32) {
        let i = choose|i: int| 0 <= i < r.len() && r[i] == names[v as int] as u32;
        assert(list[i] < n);
        let w = list[i] as int;
        assert(names[w] < n);
        if w != v {
            if w < v {
                assert(names[w] != names[v as int]);
            } else {
                assert(names[v as int] != names[w]);
            }
        }
    }
}

/// Giving the nodes other names keeps the edges: `v` is a neighbour of `u` exactly if the new name
/// of `v` is a neighbour of the new name of `u`.
pub proof fn law_remapping_keeps_edges<N: Neighbors>(
    g: &Graph<N>,
    mapping: Seq<usize>,
    inv: Seq<usize>,
    u: int,
    v: u32,
)
    requires
        g@.nodes() <= graph::MAX_NODES,
        g@.has_no_strays(),
        mapping.len() == g@.nodes(),
        hnsw_utils::is_inverse(mapping, inv),
        0 <= u < g@.nodes(),
        v < g@.nodes(),
    ensures
        graph::renamed_lists(g, inv, mapping)[mapping[u] as int].contains(mapping[v as int] as u32)
            <==> g.raw_list(u).contains(v),
{
    hnsw_utils::law_inverse_is_mutual(mapping, inv);
    assert(mapping[u] < mapping.len() && inv[mapping[u] as int] == u);
    let list = g.raw_list(u);
    let r = graph::renamed(list, mapping);
    sorted::lemma_sorted_set_exists(r);
    assert forall|i: int| 0 <= i < list.len() implies #[trigger] list[i] < g@.nodes() by {
        graph::lemma_lists_are_stored(g, u);
        assert(g@.lists[u][i] < g@.nodes());
    }
    lemma_renamed_member(list, mapping, g@.nodes(), v);
}

/// The neighbours of a node are those in its stored list.
proof fn lemma_neighbours_are_stored<N: Neighbors>(g: &Graph<N>, u: int, v: u32)
    requires
        0 <= u < g@.nodes(),
    ensures
        g@.lists[u].contains(v as usize) <==> g.raw_list(u).contains(v),
{
    graph::lemma_lists_are_stored(g, u);
    let raw = g.raw_list(u);
    let list = g@.lists[u];
    if raw.contains(v) {
        let i = choose|i: int| 0 <= i < raw.len() && raw[i] == v;
        assert(list[i] == v as usize);
    }
    if list.contains(v as usize) {
        let i = choose|i: int| 0 <= i < list.len() && list[i] == v as usize;
        assert(raw[i] == v);
    }
}

/// A ground graph and a dataset that are remapped by the same mapping fit each other: node
/// `mapping[u]` stands for the vector that node `u` stood for, and its neighbours are the nodes
/// that the neighbours of `u` have become.
///
/// Before the remapping a node of a ground graph stands for the vector with its own number.
pub proof fn law_ground_and_dataset_stay_consistent<A: Neighbors, B: Neighbors, T>(
    a: &Graph<A>,
    b: &Graph<B>,
    mapping: Seq<usize>,
    inv: Seq<usize>,
    before: Seq<T>,
    after: Seq<T>,
    u: usize,
)
    requires
        a@.nodes() <= graph::MAX_NODES,
        a@.has_no_strays(),
        mapping.len() == a@.nodes(),
        hnsw_utils::is_inverse(mapping, inv),
        b.is_made_of(graph::renamed_lists(a, inv, mapping), None, a@.max_degree),
        before.len() == a@.nodes(),
        datasets::is_permuted(before, after, mapping),
        u < a@.nodes(),
        a@.external_id(u) == u,
    ensures
        b@.external_id(mapping[u as int]) == mapping[a@.external_id(u) as int],
        after[b@.external_id(mapping[u as int]) as int] == before[a@.external_id(u) as int],
        forall|v: usize|
            v < a@.nodes() ==> (a@.lists[u as int].contains(v)
                <==> b@.lists[mapping[u as int] as int].contains(#[trigger] mapping[v as int])),
{
    assert(after[mapping[u as int] as int] == before[u as int]);
    lemma_renamed_neighbours(a, b, mapping, inv, None, u);
}

/// A level and a dataset that are remapped together fit each other: where the dataset is permuted
/// by `global_mapping` and the level put into another order, the node that `u` has become stands
/// for the vector that `u` stood for, and its neighbours are the nodes that the neighbours of `u`
/// have become.
pub proof fn law_level_and_dataset_stay_consistent<A: Neighbors, B: Neighbors, T>(
    a: &Graph<A>,
    b: &Graph<B>,
    order: Seq<usize>,
    local_mapping: Seq<usize>,
    global_mapping: Seq<usize>,
    before: Seq<T>,
    after: Seq<T>,
    u: usize,
)
    requires
        a@.nodes() <= graph::MAX_NODES,
        a@.has_no_strays(),
        order.len() == a@.nodes(),
        hnsw_utils::is_inverse(order, local_mapping),
        b.is_made_of(
            graph::renamed_lists(a, order, local_mapping),
            Some(order.map_values(|o: usize| global_mapping[a@.external_id(o) as int])),
            a@.max_degree,
        ),
        a@.externals_below(before.len()),
        datasets::is_permuted(before, after, global_mapping),
        u < a@.nodes(),
    ensures
        b@.external_id(local_mapping[u as int]) == global_mapping[a@.external_id(u) as int],
        after[b@.external_id(local_mapping[u as int]) as int] == before[a@.external_id(u) as int],
        forall|v: usize|
            v < a@.nodes() ==> (a@.lists[u as int].contains(v)
                <==> b@.lists[local_mapping[u as int] as int].contains(
                #[trigger] local_mapping[v as int],
            )),
{
    let names = order.map_values(|o: usize| global_mapping[a@.external_id(o) as int]);
    hnsw_utils::law_inverse_is_mutual(order, local_mapping);
    let i = local_mapping[u as int];
    assert(i < order.len() && order[i as int] == u);
    assert(names[i as int] == global_mapping[a@.external_id(u) as int]);
    assert(a@.external_id(u) < before.len());
    assert(after[global_mapping[a@.external_id(u) as int] as int] == before[a@.external_id(
        u,
    ) as int]);
    lemma_renamed_neighbours(a, b, local_mapping, order, Some(names), u);
}

/// The neighbours of a node that got another name are its neighbours under their other names.
proof fn lemma_renamed_neighbours<A: Neighbors, B: Neighbors>(
    a: &Graph<A>,
    b: &Graph<B>,
    mapping: Seq<usize>,
    inv: Seq<usize>,
    ids: Option<Seq<usize>>,
    u: usize,
)
    requires
        a@.nodes() <= graph::MAX_NODES,
        a@.has_no_strays(),
        mapping.len() == a@.nodes(),
        hnsw_utils::is_inverse(mapping, inv),
        b.is_made_of(graph::renamed_lists(a, inv, mapping), ids, a@.max_degree),
        u < a@.nodes(),
    ensures
        forall|v: usize|
            v < a@.nodes() ==> (a@.lists[u as int].contains(v)
                <==> b@.lists[mapping[u as int] as int].contains(#[trigger] mapping[v as int])),
{
    let lists = graph::renamed_lists(a, inv, mapping);
    let w = mapping[u as int];
    assert(w < a@.nodes());
    assert(b.raw_list(w as int) == lists[w as int]);
    assert forall|v: usize| v < a@.nodes() implies (a@.lists[u as int].contains(v)
        <==> b@.lists[w as int].contains(#[trigger] mapping[v as int])) by {
        assert(mapping[v as int] < a@.nodes());
        law_remapping_keeps_edges(a, mapping, inv, u as int, v as u32);
        lemma_neighbours_are_stored(a, u as int, v as u32);
        lemma_neighbours_are_stored(b, w as int, mapping[v as int] as u32);
    }
}

/// Remapping with the inverse undoes a remapping: what comes out are the lists of the graph, in
/// order and without repetitions.
pub proof fn law_remapping_is_undone<A: Neighbors, B: Neighbors>(
    a: &Graph<A>,
    b: &Graph<B>,
    mapping: Seq<usize>,
    inv: Seq<usize>,
)
    requires
        a@.nodes() <= graph::MAX_NODES,
        a@.has_no_strays(),
        mapping.len() == a@.nodes(),
        hnsw_utils::is_inverse(mapping, inv),
        b.is_made_of(graph::renamed_lists(a, inv, mapping), None, a@.max_degree),
    ensures
        b@.has_no_strays(),
        hnsw_utils::is_permutation(inv),
        hnsw_utils::inverse(inv) == mapping,
        graph::renamed_lists(b, mapping, inv) == graph::tidy_lists(a),
{
    hnsw_utils::law_inverse_is_mutual(mapping, inv);
    hnsw_utils::law_inverse_is_unique(inv, hnsw_utils::inverse(inv), mapping);
    let n = a@.nodes();
    let mid = graph::renamed_lists(a, inv, mapping);
    assert forall|u: int, i: int|
        0 <= u < b@.nodes() && 0 <= i < b@.lists[u].len() implies #[trigger] b@.lists[u][i]
        < b@.nodes() by {
        graph::lemma_lists_are_stored(b, u);
        assert(inv[u] < n);
        graph::lemma_lists_are_stored(a, inv[u] as int);
        let old_list = a.raw_list(inv[u] as int);
        let r = graph::renamed(old_list, mapping);
        sorted::lemma_sorted_set_exists(r);
        assert(b.raw_list(u) == mid[u]);
        assert(mid[u].contains(mid[u][i]));
        assert(r.contains(mid[u][i]));
        let k = choose|k: int| 0 <= k < r.len() && r[k] == mid[u][i];
        assert(a@.lists[inv[u] as int][k] < n);
        assert(mapping[old_list[k] as int] < n);
    }
    assert forall|u: int| 0 <= u < n implies graph::renamed_lists(b, mapping, inv)[u]
        == graph::tidy_lists(a)[u] by {
        assert(mapping[u] < n && inv[mapping[u] as int] == u);
        let list = a.raw_list(u);
        let there = mid[mapping[u] as int];
        assert(b.raw_list(mapping[u] as int) == there);
        let back = graph::renamed(there, inv);
        let tidy = graph::tidy_lists(a)[u];
        sorted::lemma_sorted_set_exists(graph::renamed(list, mapping));
        sorted::lemma_sorted_set_exists(list);
        graph::lemma_lists_are_stored(a, u);
        assert forall|i: int| 0 <= i < list.len() implies #[trigger] list[i] < n by {
            assert(a@.lists[u][i] < n);
        }
        assert forall|w: u32| #[trigger] tidy.contains(w) <==> back.contains(w) by {
            lemma_there_and_back(list, mapping, inv, there, w);
        }
        assert(sorted::is_sorted_set_of(tidy, back));
        sorted::lemma_sorted_set(tidy, back);
    }
    assert(graph::renamed_lists(b, mapping, inv) =~= graph::tidy_lists(a));
}

proof fn lemma_there_and_back(
    list: Seq<u32>,
    mapping: Seq<usize>,
    inv: Seq<usize>,
    there: Seq<u32>,
    w: u32,
)
    requires
        mapping.len() <= graph::MAX_NODES,
        hnsw_utils::is_inverse(mapping, inv),
        forall|i: int| 0 <= i < list.len() ==> #[trigger] list[i] < mapping.len(),
        forall|v: u32| #[trigger] there.contains(v) <==> graph::renamed(list, mapping).contains(v),
    ensures
        graph::renamed(there, inv).contains(w) <==> list.contains(w),
{
    let r = graph::renamed(list, mapping);
    let back = graph::renamed(there, inv);
    if list.contains(w) {
        let i = choose|i: int| 0 <= i < list.len() && list[i] == w;
        let name = mapping[w as int] as u32;
        assert(list[i] < mapping.len());
        assert(mapping[w as int] < mapping.len());
        assert(r[i] == name);
        assert(r.contains(name));
        assert(there.contains(name));
        let k = choose|k: int| 0 <= k < there.len() && there[k] == name;
        assert(inv[name as int] == w);
        assert(back[k] == w);
    }
    if back.contains(w) {
        let k = choose|k: int| 0 <= k < back.len() && back[k] == w;
        assert(there.contains(there[k]));
        assert(r.contains(there[k]));
        let i = choose|i: int| 0 <= i < r.len() && r[i] == there[k];
        assert(list[i] < mapping.len());
        assert(mapping[list[i] as int] < mapping.len());
        assert(inv[mapping[list[i] as int] as int] == list[i]);
        assert(list[i] == w);
    }
}

} // verus!
