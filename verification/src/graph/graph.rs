//! Graphs whose neighbour lists are stored in one of the ways of [`Neighbors`].

use crate::graph::encoded;
use crate::graph::graph_trait::GraphTrait;
use crate::graph::model;
use crate::graph::model::GraphModel;
use crate::graph::neighbors;
use crate::graph::neighbors::{NeighborData, NeighborIter, Neighbors};
use crate::hnsw_utils;
use crate::sorted;
use vstd::prelude::*;

verus! {

/// A graph that owns its neighbour lists.
///
/// Ids are stored as `u32` and returned as `usize`.
pub struct Graph<N: Neighbors> {
    neighbors: N,
    ids_mapping: Option<Vec<usize>>,
    max_degree: usize,
    n_nodes: usize,
}

/// Stored ids as they are returned.
pub open spec fn as_ids(list: Seq<u32>) -> Seq<usize> {
    list.map_values(|v: u32| v as usize)
}

/// Ids as they are stored.
pub open spec fn as_raw(ids: Seq<usize>) -> Seq<u32> {
    ids.map_values(|v: usize| v as u32)
}

/// Stored ids come back from the ids that are returned for them.
pub proof fn lemma_as_raw(list: Seq<u32>)
    ensures
        as_raw(as_ids(list)) == list,
{
    assert(as_raw(as_ids(list)) =~= list);
}

/// Puts lists one after the other.
pub(crate) struct ListBuilder {
    data: Vec<u32>,
    offsets: Vec<usize>,
}

impl View for ListBuilder {
    type V = Seq<Seq<u32>>;

    closed spec fn view(&self) -> Seq<Seq<u32>> {
        Seq::new(
            (self.offsets@.len() - 1) as nat,
            |u: int| neighbors::segment(self.data@, self.offsets@, u),
        )
    }
}

impl ListBuilder {
    pub(crate) closed spec fn wf(&self) -> bool {
        &&& self.offsets@.len() > 0
        &&& self.offsets@.last() == self.data@.len()
        &&& forall|u: int|
            0 <= u < self.offsets@.len() - 1 ==> #[trigger] self.offsets@[u] <= self.offsets@[u + 1]
                <= self.data@.len()
        &&& self.data@.len() == model::total_len(self@)
    }

    pub(crate) fn new() -> (builder: Self)
        ensures
            builder.wf(),
            builder@ == Seq::<Seq<u32>>::empty(),
    {
        let builder = ListBuilder { data: Vec::new(), offsets: vec![0usize] };
        assert(builder@ =~= Seq::<Seq<u32>>::empty());
        builder
    }

    /// Adds the list of the next node.
    pub(crate) fn push_list(&mut self, list: &Vec<u32>)
        requires
            old(self).wf(),
        ensures
            final(self).wf(),
            final(self)@ == old(self)@.push(list@),
    {
        let ghost data0 = self.data@;
        let ghost offsets0 = self.offsets@;
        for i in 0..list.len()
            invariant
                self.offsets@ == offsets0,
                self.data@ == data0 + list@.take(i as int),
        {
            self.data.push(list[i]);
            assert(self.data@ =~= data0 + list@.take(i + 1));
        }
        assert(list@.take(list@.len() as int) =~= list@);
        self.offsets.push(self.data.len());
        proof {
            let lists = self@;
            assert forall|u: int| 0 <= u < lists.len() implies lists[u] == old(self)@.push(
                list@,
            )[u] by {
                if u < offsets0.len() - 1 {
                    assert(offsets0[u] <= offsets0[u + 1] <= data0.len());
                    assert(lists[u] =~= old(self)@[u]);
                } else {
                    assert(lists[u] =~= list@);
                }
            }
            assert(lists =~= old(self)@.push(list@));
            assert(lists.drop_last() =~= old(self)@);
            assert forall|u: int| 0 <= u < self.offsets@.len() - 1 implies #[trigger] self.offsets@[u]
                <= self.offsets@[u + 1] <= self.data@.len() by {
                if u < offsets0.len() - 1 {
                    assert(offsets0[u] <= offsets0[u + 1] <= data0.len());
                }
            }
        }
    }

    pub(crate) fn finish(self) -> (nd: NeighborData)
        requires
            self.wf(),
        ensures
            nd.nodes() == self@.len(),
            nd.data@.len() == model::total_len(self@),
            forall|u: int|
                #![trigger nd.has_segment(u)]
                #![trigger nd.segment(u)]
                0 <= u < nd.nodes() ==> nd.has_segment(u) && nd.segment(u) == self@[u],
    {
        let nd = NeighborData { data: self.data, offsets: self.offsets };
        assert forall|u: int|
            #![trigger nd.has_segment(u)]
            #![trigger nd.segment(u)]
            0 <= u < nd.nodes() implies nd.has_segment(u) && nd.segment(u) == self@[u] by {
            assert(self.offsets@[u] <= self.offsets@[u + 1] <= self.data@.len());
        }
        nd
    }
}

impl<N: Neighbors> View for Graph<N> {
    type V = GraphModel;

    closed spec fn view(&self) -> GraphModel {
        GraphModel {
            lists: Seq::new(self.n_nodes as nat, |u: int| as_ids(self.neighbors.list(u))),
            mapping: match self.ids_mapping {
                Some(mapping) => Some(mapping@),
                None => None,
            },
            max_degree: self.max_degree as nat,
            edges: self.neighbors.edge_count(),
        }
    }
}

impl<N: Neighbors> Graph<N> {
    /// The neighbour lists.
    pub closed spec fn stored(&self) -> N {
        self.neighbors
    }

    /// The list of node `u` as it is stored.
    pub open spec fn raw_list(&self, u: int) -> Seq<u32> {
        self.stored().list(u)
    }

    /// A graph of its parts.
    pub fn from_parts(
        neighbors: N,
        ids_mapping: Option<Vec<usize>>,
        max_degree: usize,
        n_nodes: usize,
    ) -> (graph: Self)
        ensures
            graph.wf() == {
                &&& neighbors.wf()
                &&& forall|u: int| 0 <= u < n_nodes ==> #[trigger] neighbors.has_node(u)
                &&& neighbors.edge_count() == model::total_len(graph@.lists)
            },
            graph.stored() == neighbors,
            graph@ == (GraphModel {
                lists: Seq::new(n_nodes as nat, |u: int| as_ids(neighbors.list(u))),
                mapping: match ids_mapping {
                    Some(mapping) => Some(mapping@),
                    None => None,
                },
                max_degree: max_degree as nat,
                edges: neighbors.edge_count(),
            }),
    {
        Graph { neighbors, ids_mapping, max_degree, n_nodes }
    }
}

impl<N: Neighbors> Default for Graph<N> {
    fn default() -> (graph: Self)
        ensures
            graph.wf(),
            graph@ == (GraphModel { lists: Seq::empty(), mapping: None, max_degree: 0, edges: 0 }),
    {
        let graph: Graph<N> = Graph {
            neighbors: N::none(),
            ids_mapping: None,
            max_degree: 0,
            n_nodes: 0,
        };
        assert(graph@.lists =~= Seq::<Seq<usize>>::empty());
        graph
    }
}

impl<N: Neighbors> GraphTrait for Graph<N> {
    closed spec fn wf(&self) -> bool {
        &&& self.neighbors.wf()
        &&& forall|u: int| 0 <= u < self.n_nodes ==> #[trigger] self.neighbors.has_node(u)
        &&& self.neighbors.edge_count() == model::total_len(self@.lists)
    }

    proof fn lemma_edges_counted(&self) {
    }

    open spec fn blocks(&self) -> Option<(Seq<u32>, Seq<usize>)> {
        self.stored().blocks()
    }

    open spec fn neighbors_bytes(&self) -> nat {
        self.stored().plain_bytes()
    }

    open spec fn packed_ids(&self) -> Option<Seq<usize>> {
        self@.mapping
    }

    open spec fn ids_bytes(&self) -> nat {
        0
    }

    fn neighbors(&self, u: usize) -> (list: Vec<usize>) {
        assert(self.neighbors.has_node(u as int));
        let raw = self.neighbors.iter_node(u).collect();
        let mut list: Vec<usize> = Vec::new();
        for i in 0..raw.len()
            invariant
                list@ == as_ids(raw@).take(i as int),
        {
            list.push(raw[i] as usize);
            assert(list@ =~= as_ids(raw@).take(i + 1));
        }
        assert(list@ =~= as_ids(raw@));
        list
    }

    fn n_nodes(&self) -> (n: usize) {
        self.n_nodes
    }

    fn n_edges(&self) -> (n: usize) {
        self.neighbors.len()
    }

    fn max_degree(&self) -> (n: usize) {
        self.max_degree
    }

    fn get_external_id(&self, id: usize) -> (external: usize) {
        match &self.ids_mapping {
            Some(mapping) => mapping[id],
            None => id,
        }
    }

    fn get_space_usage_bytes<
        F: Fn(&Vec<u32>, &Vec<usize>) -> usize,
        P: Fn(&Vec<usize>) -> usize,
    >(&self, blocks_len: &F, ids_len: &P) -> (bytes: usize) {
        let neighbors_size: usize = self.neighbors.byte_size(blocks_len);
        let mapping_size: usize = match &self.ids_mapping {
            Some(mapping) => ids_len(mapping),
            None => 0,
        };
        assert(encoded::is_ids_size(
            *ids_len,
            self.packed_ids(),
            self.ids_bytes(),
            mapping_size as nat,
        ));
        neighbors_size + mapping_size
    }

    fn neighbors_size_bytes<F: Fn(&Vec<u32>, &Vec<usize>) -> usize>(
        &self,
        blocks_len: &F,
    ) -> (bytes: usize) {
        self.neighbors.byte_size(blocks_len)
    }
}

/// The ids of a list under other names.
pub open spec fn renamed(list: Seq<u32>, names: Seq<usize>) -> Seq<u32> {
    list.map_values(|v: u32| names[v as int] as u32)
}

/// The list of each node, in order and without repetitions.
pub open spec fn tidy_lists<N: Neighbors>(g: &Graph<N>) -> Seq<Seq<u32>> {
    Seq::new(g@.nodes(), |u: int| sorted::sorted_set(g.raw_list(u)))
}

/// The lists of a graph whose nodes get other names: what was `order[i]` becomes `i`, and every
/// neighbour `v` becomes `names[v]`.
pub open spec fn renamed_lists<N: Neighbors>(
    g: &Graph<N>,
    order: Seq<usize>,
    names: Seq<usize>,
) -> Seq<Seq<u32>> {
    Seq::new(
        g@.nodes(),
        |i: int| sorted::sorted_set(renamed(g.raw_list(order[i] as int), names)),
    )
}

/// Every list can be stored.
pub open spec fn all_accepted<N: Neighbors>(lists: Seq<Seq<u32>>) -> bool {
    forall|u: int| 0 <= u < lists.len() ==> N::accepts(#[trigger] lists[u])
}

/// The neighbours of a node are the ids in its stored list.
pub proof fn lemma_lists_are_stored<N: Neighbors>(g: &Graph<N>, u: int)
    requires
        0 <= u < g@.nodes(),
    ensures
        g@.lists[u] == as_ids(g.raw_list(u)),
        g.raw_list(u) == as_raw(g@.lists[u]),
        g@.edges == g.stored().edge_count(),
{
    lemma_as_raw(g.raw_list(u));
}

/// The lists of a sound graph can be read.
pub proof fn lemma_lists_can_be_read<N: Neighbors>(g: &Graph<N>)
    requires
        g.wf(),
    ensures
        g.stored().wf(),
        forall|u: int| 0 <= u < g@.nodes() ==> #[trigger] g.stored().has_node(u),
{
}

/// A graph made of the tidy lists of another one is that graph with its lists tidied.
pub(crate) proof fn lemma_tidies<N: Neighbors>(g: &Graph<N>, source: GraphModel)
    requires
        forall|u: int|
            0 <= u < source.nodes() ==> #[trigger] source.lists[u] == as_ids(
                as_raw(source.lists[u]),
            ),
        g.is_made_of(
            Seq::new(source.nodes(), |u: int| sorted::sorted_set(as_raw(source.lists[u]))),
            source.mapping,
            source.max_degree,
        ),
    ensures
        g@.tidies(source),
{
    let lists = Seq::new(source.nodes(), |u: int| sorted::sorted_set(as_raw(source.lists[u])));
    assert forall|u: int, i: int, j: int|
        0 <= u < g@.nodes() && 0 <= i < j < g@.lists[u].len() implies #[trigger] g@.lists[u][i]
        < #[trigger] g@.lists[u][j] by {
        sorted::lemma_sorted_set_exists(as_raw(source.lists[u]));
        assert(lists[u][i] < lists[u][j]);
    }
    assert forall|u: int, v: usize| 0 <= u < g@.nodes() implies (#[trigger] g@.lists[u].contains(v)
        <==> source.lists[u].contains(v)) by {
        let raw = as_raw(source.lists[u]);
        sorted::lemma_sorted_set_exists(raw);
        assert(source.lists[u] == as_ids(raw));
        if g@.lists[u].contains(v) {
            let i = choose|i: int| 0 <= i < g@.lists[u].len() && g@.lists[u][i] == v;
            assert(lists[u].contains(lists[u][i]));
            assert(raw.contains(lists[u][i]));
            let k = choose|k: int| 0 <= k < raw.len() && raw[k] == lists[u][i];
            assert(source.lists[u][k] == v);
        }
        if source.lists[u].contains(v) {
            let k = choose|k: int| 0 <= k < source.lists[u].len() && source.lists[u][k] == v;
            assert(raw.contains(raw[k]));
            assert(lists[u].contains(raw[k]));
            let i = choose|i: int| 0 <= i < lists[u].len() && lists[u][i] == raw[k];
            assert(g@.lists[u][i] == v);
        }
    }
}

/// The greatest number of nodes whose ids fit into the stored width.
pub const MAX_NODES: u64 = 0x1_0000_0000;

impl<N: Neighbors> Graph<N> {
    /// The graph has these lists, this mapping and this bound on degrees, and nothing more.
    pub open spec fn is_made_of(
        &self,
        lists: Seq<Seq<u32>>,
        mapping: Option<Seq<usize>>,
        max_degree: nat,
    ) -> bool {
        &&& self.wf()
        &&& self@.nodes() == lists.len()
        &&& forall|u: int|
            #![trigger self.raw_list(u)]
            #![trigger self@.lists[u]]
            0 <= u < lists.len() ==> self.raw_list(u) == lists[u] && self@.lists[u] == as_ids(
                lists[u],
            )
        &&& self@.mapping == mapping
        &&& self@.max_degree == max_degree
        &&& self@.edges == model::total_len(lists)
        &&& self@.edges == model::total_len(self@.lists)
        &&& self.stored().node_count() == lists.len()
        &&& self.stored().edge_count() == model::total_len(lists)
    }

    pub(crate) fn from_builder(
        builder: ListBuilder,
        ids_mapping: Option<Vec<usize>>,
        max_degree: usize,
        n_nodes: usize,
    ) -> (graph: Self)
        requires
            builder.wf(),
            builder@.len() == n_nodes,
            all_accepted::<N>(builder@),
        ensures
            graph.is_made_of(
                builder@,
                match ids_mapping {
                    Some(mapping) => Some(mapping@),
                    None => None,
                },
                max_degree as nat,
            ),
    {
        let ghost lists = builder@;
        let nd = builder.finish();
        assert forall|u: int| 0 <= u < nd.nodes() implies #[trigger] nd.has_segment(u)
            && N::accepts(nd.segment(u)) by {
            assert(N::accepts(lists[u]));
        }
        let graph: Self = Graph { neighbors: N::from_data(nd), ids_mapping, max_degree, n_nodes };
        proof {
            assert forall|u: int| 0 <= u < lists.len() implies (#[trigger] graph@.lists[u]).len()
                == lists[u].len() by {
                assert(graph.neighbors.list(u) == lists[u]);
            }
            model::lemma_total_same(graph@.lists, lists);
        }
        graph
    }

    /// The mapping, once the graph is no longer needed.
    pub(crate) fn into_mapping(self) -> (mapping: Option<Vec<usize>>)
        ensures
            self@.mapping == match mapping {
                Some(mapping) => Some(mapping@),
                None => None,
            },
    {
        self.ids_mapping
    }

    /// The list of a node as it is stored.
    pub(crate) fn read_list(&self, u: usize) -> (list: Vec<u32>)
        requires
            self.wf(),
            u < self@.nodes(),
        ensures
            list@ == self.raw_list(u as int),
    {
        assert(self.neighbors.has_node(u as int));
        self.neighbors.iter_node(u).collect()
    }

    /// The same graph with its lists stored in another way.
    ///
    /// Each list is put in ascending order, and an id that occurs more than once is kept once.
    pub fn from<Nsrc: Neighbors>(src: &Graph<Nsrc>) -> (dst: Self)
        requires
            src.wf(),
            all_accepted::<N>(tidy_lists(src)),
        ensures
            dst.is_made_of(tidy_lists(src), src@.mapping, src@.max_degree),
            dst@.tidies(src@),
    {
        let n: usize = src.n_nodes;
        let mut builder = ListBuilder::new();
        for id in 0..n
            invariant
                src.wf(),
                n == src@.nodes(),
                builder.wf(),
                builder@ == tidy_lists(src).take(id as int),
        {
            let list = sorted::sort_dedup(src.read_list(id));
            builder.push_list(&list);
            assert(builder@ =~= tidy_lists(src).take(id + 1));
        }
        assert(builder@ =~= tidy_lists(src));
        let ids_mapping = match &src.ids_mapping {
            Some(mapping) => {
                let copy = mapping.clone();
                assert(copy@ =~= mapping@);
                Some(copy)
            },
            None => None,
        };
        let dst = Self::from_builder(builder, ids_mapping, src.max_degree, n);
        proof {
            assert forall|u: int| 0 <= u < src@.nodes() implies #[trigger] src@.lists[u] == as_ids(
                as_raw(src@.lists[u]),
            ) && as_raw(src@.lists[u]) == src.raw_list(u) by {
                lemma_lists_are_stored(src, u);
            }
            assert(tidy_lists(src) =~= Seq::new(
                src@.nodes(),
                |u: int| sorted::sorted_set(as_raw(src@.lists[u])),
            ));
            lemma_tidies(&dst, src@);
        }
        dst
    }

    /// Gives every node the name that `mapping` has for it, and stores the lists in another way.
    ///
    /// Returns the graph and the inverse of `mapping`.
    pub fn remap_ground_and_compress_with_permutation<Ndst: Neighbors>(
        &self,
        mapping: &[usize],
    ) -> (r: (Graph<Ndst>, Vec<usize>))
        requires
            self.wf(),
            self@.nodes() <= MAX_NODES,
            self@.has_no_strays(),
            mapping@.len() == self@.nodes(),
            hnsw_utils::is_permutation(mapping@),
            all_accepted::<Ndst>(
                renamed_lists(self, hnsw_utils::inverse(mapping@), mapping@),
            ),
        ensures
            r.1@ == hnsw_utils::inverse(mapping@),
            hnsw_utils::is_inverse(mapping@, r.1@),
            r.0.is_made_of(
                renamed_lists(self, r.1@, mapping@),
                None,
                self@.max_degree,
            ),
    {
        let n: usize = self.n_nodes;
        let inv = hnsw_utils::invert_mapping(mapping);
        let ghost lists = renamed_lists(self, inv@, mapping@);
        let mut builder = ListBuilder::new();
        for new_id in 0..n
            invariant
                self.wf(),
                self@.has_no_strays(),
                n == self@.nodes(),
                n <= MAX_NODES,
                mapping@.len() == n,
                hnsw_utils::is_inverse(mapping@, inv@),
                lists == renamed_lists(self, inv@, mapping@),
                builder.wf(),
                builder@ == lists.take(new_id as int),
        {
            let old_id: usize = inv[new_id];
            let list = self.rename_list(old_id, mapping);
            builder.push_list(&list);
            assert(builder@ =~= lists.take(new_id + 1));
        }
        assert(builder@ =~= lists);
        (Graph::<Ndst>::from_builder(builder, None, self.max_degree, n), inv)
    }

    /// The list of a node under other names, in order and without repetitions.
    fn rename_list(&self, u: usize, names: &[usize]) -> (list: Vec<u32>)
        requires
            self.wf(),
            self@.has_no_strays(),
            u < self@.nodes(),
            names@.len() == self@.nodes(),
            names@.len() <= MAX_NODES,
            forall|i: int| 0 <= i < names@.len() ==> #[trigger] names@[i] < names@.len(),
        ensures
            list@ == sorted::sorted_set(renamed(self.raw_list(u as int), names@)),
    {
        let raw = self.read_list(u);
        let mut list: Vec<u32> = Vec::new();
        for i in 0..raw.len()
            invariant
                self@.has_no_strays(),
                u < self@.nodes(),
                names@.len() == self@.nodes(),
                names@.len() <= MAX_NODES,
                raw@ == self.raw_list(u as int),
                list@ == renamed(raw@, names@).take(i as int),
        {
            assert(self@.lists[u as int][i as int] < self@.nodes());
            list.push(names[raw[i] as usize] as u32);
            assert(list@ =~= renamed(raw@, names@).take(i + 1));
        }
        assert(list@ =~= renamed(raw@, names@));
        sorted::sort_dedup(list)
    }

    /// Puts the nodes of an upper level into another order, and stores the lists in another way.
    ///
    /// The node that was `old_locals_by_new_local[i]` becomes node `i`. Its external id goes
    /// through `global_mapping`. Returns the graph and the new local id of each old one.
    pub fn remap_level_and_compress_with_old_local_order<Ndst: Neighbors>(
        &self,
        old_locals_by_new_local: &[usize],
        global_mapping: &[usize],
    ) -> (r: (Graph<Ndst>, Vec<usize>))
        requires
            self.wf(),
            self@.nodes() <= MAX_NODES,
            self@.has_no_strays(),
            old_locals_by_new_local@.len() == self@.nodes(),
            hnsw_utils::is_permutation(old_locals_by_new_local@),
            self@.externals_below(global_mapping@.len()),
            all_accepted::<Ndst>(
                renamed_lists(
                    self,
                    old_locals_by_new_local@,
                    hnsw_utils::inverse(old_locals_by_new_local@),
                ),
            ),
        ensures
            r.1@ == hnsw_utils::inverse(old_locals_by_new_local@),
            hnsw_utils::is_inverse(old_locals_by_new_local@, r.1@),
            r.0.is_made_of(
                renamed_lists(self, old_locals_by_new_local@, r.1@),
                Some(
                    old_locals_by_new_local@.map_values(
                        |u: usize| global_mapping@[self@.external_id(u) as int],
                    ),
                ),
                self@.max_degree,
            ),
    {
        let n: usize = self.n_nodes;
        let ghost order = old_locals_by_new_local@;
        let local_mapping = hnsw_utils::invert_mapping(old_locals_by_new_local);
        let ghost lists = renamed_lists(self, order, local_mapping@);
        let ghost externals = order.map_values(
            |u: usize| global_mapping@[self@.external_id(u) as int],
        );
        let mut builder = ListBuilder::new();
        let mut new_external_ids: Vec<usize> = Vec::new();
        for i in 0..n
            invariant
                self.wf(),
                self@.has_no_strays(),
                n == self@.nodes(),
                n <= MAX_NODES,
                order == old_locals_by_new_local@,
                order.len() == n,
                hnsw_utils::is_inverse(order, local_mapping@),
                self@.externals_below(global_mapping@.len()),
                lists == renamed_lists(self, order, local_mapping@),
                externals == order.map_values(
                    |u: usize| global_mapping@[self@.external_id(u) as int],
                ),
                builder.wf(),
                builder@ == lists.take(i as int),
                new_external_ids@ == externals.take(i as int),
        {
            let old_local: usize = old_locals_by_new_local[i];
            assert(order[i as int] < n);
            let list = self.rename_list(old_local, &local_mapping);
            builder.push_list(&list);
            assert(builder@ =~= lists.take(i + 1));
            assert(self@.external_id(old_local) < global_mapping@.len());
            let old_global: usize = self.get_external_id(old_local);
            new_external_ids.push(global_mapping[old_global]);
            assert(new_external_ids@ =~= externals.take(i + 1));
        }
        assert(builder@ =~= lists);
        assert(new_external_ids@ =~= externals);
        (
            Graph::<Ndst>::from_builder(builder, Some(new_external_ids), self.max_degree, n),
            local_mapping,
        )
    }
}

} // verus!
