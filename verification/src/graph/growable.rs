//! Graphs with a fixed number of slots for each node: one that grows, and one that is done.

use crate::graph::encoded;
use crate::graph::graph;
use crate::graph::graph::{Graph, ListBuilder};
use crate::graph::graph_trait::GraphTrait;
use crate::graph::model;
use crate::graph::model::GraphModel;
use crate::graph::neighbors::{NeighborIter, Neighbors};
use crate::graph::slots;
use crate::graph::slots::NO_ID;
use crate::sorted;
use crate::text;
use vstd::prelude::*;
use vstd::string::StringExecFns;

verus! {

/// A graph in which every node has as many slots for neighbours as the maximum degree.
///
/// A node with fewer neighbours has slots without an id behind them. The greatest `u32` stands
/// for no id, so that there can be one node less than there are numbers.
pub struct GraphFixedDegree {
    neighbors: Vec<u32>,
    ids_mapping: Option<Vec<usize>>,
    max_degree: usize,
    n_edges: usize,
    n_nodes: usize,
}

/// A graph in which nodes are inserted one after the other.
pub struct GrowableGraph {
    neighbors: Vec<u32>,
    ids_mapping: Option<Vec<usize>>,
    max_degree: usize,
    n_edges: usize,
    n_nodes: usize,
    inserted_nodes: usize,
}

/// The lists in rows of slots.
pub open spec fn lists_in(rows: Seq<u32>, width: nat, n: nat) -> Seq<Seq<usize>> {
    Seq::new(n, |u: int| graph::as_ids(slots::leading(slots::row(rows, width, u))))
}

/// The view of an optional mapping.
pub open spec fn mapping_view(mapping: Option<Vec<usize>>) -> Option<Seq<usize>> {
    match mapping {
        Some(mapping) => Some(mapping@),
        None => None,
    }
}

/// The bytes of a mapping.
pub open spec fn mapping_bytes(mapping: Option<Seq<usize>>) -> nat {
    match mapping {
        Some(mapping) => mapping.len() * vstd::layout::size_of::<usize>(),
        None => 0,
    }
}

/// The ids of a row as they are returned.
fn read_ids(rows: &Vec<u32>, width: usize, n: usize, u: usize) -> (list: Vec<usize>)
    requires
        rows@.len() == n * width,
        u < n,
    ensures
        list@ == graph::as_ids(slots::leading(slots::row(rows@, width as nat, u as int))),
{
    proof {
        slots::lemma_row_bounds(width as int, n as int, u as int);
        assert(rows@.len() == rows.len());
    }
    let raw = slots::read_row(rows, u * width, width);
    let mut list: Vec<usize> = Vec::new();
    for i in 0..raw.len()
        invariant
            list@ == graph::as_ids(raw@).take(i as int),
    {
        list.push(raw[i] as usize);
        assert(list@ =~= graph::as_ids(raw@).take(i + 1));
    }
    assert(list@ =~= graph::as_ids(raw@));
    list
}

/// The bytes of a mapping.
fn count_mapping_bytes(mapping: &Option<Vec<usize>>) -> (bytes: usize)
    requires
        mapping_bytes(mapping_view(*mapping)) <= usize::MAX,
    ensures
        bytes == mapping_bytes(mapping_view(*mapping)),
{
    broadcast use vstd::layout::group_layout_axioms;

    let word: usize = std::mem::size_of::<usize>();
    match mapping {
        Some(mapping) => mapping.len() * word,
        None => 0,
    }
}

impl View for GraphFixedDegree {
    type V = GraphModel;

    closed spec fn view(&self) -> GraphModel {
        GraphModel {
            lists: lists_in(self.neighbors@, self.max_degree as nat, self.n_nodes as nat),
            mapping: mapping_view(self.ids_mapping),
            max_degree: self.max_degree as nat,
            edges: self.n_edges as nat,
        }
    }
}

impl GraphFixedDegree {
    /// The slots of all nodes.
    pub closed spec fn rows(&self) -> Seq<u32> {
        self.neighbors@
    }

    /// The ids of node `u` as they are stored.
    pub open spec fn raw_list(&self, u: int) -> Seq<u32> {
        graph::as_raw(self@.lists[u])
    }

    /// The slots hold the lists: there is a row for each node, and the ids at its front are the
    /// list of the node.
    pub proof fn lemma_rows_hold_lists(&self)
        requires
            self.wf(),
        ensures
            self.rows().len() == self@.nodes() * self@.max_degree,
            forall|u: int|
                0 <= u < self@.nodes() ==> {
                    &&& #[trigger] self@.lists[u] == graph::as_ids(self.raw_list(u))
                    &&& self.raw_list(u) == slots::leading(
                        slots::row(self.rows(), self@.max_degree, u),
                    )
                    &&& self@.lists[u].len() <= self@.max_degree
                },
    {
        lemma_lists_in(self.neighbors@, self.max_degree as nat, self.n_nodes as nat);
        assert forall|u: int| 0 <= u < self@.nodes() implies {
            &&& #[trigger] self@.lists[u] == graph::as_ids(self.raw_list(u))
            &&& self.raw_list(u) == slots::leading(slots::row(self.rows(), self@.max_degree, u))
            &&& self@.lists[u].len() <= self@.max_degree
        } by {
            graph::lemma_as_raw(slots::leading(slots::row(self.rows(), self@.max_degree, u)));
        }
    }
}

impl Default for GraphFixedDegree {
    fn default() -> (graph: Self)
        ensures
            graph.wf(),
            graph@ == (GraphModel { lists: Seq::empty(), mapping: None, max_degree: 0, edges: 0 }),
    {
        let graph = GraphFixedDegree {
            neighbors: Vec::new(),
            ids_mapping: None,
            max_degree: 0,
            n_edges: 0,
            n_nodes: 0,
        };
        assert(graph@.lists =~= Seq::<Seq<usize>>::empty());
        graph
    }
}

impl GraphTrait for GraphFixedDegree {
    closed spec fn wf(&self) -> bool {
        &&& slots::are_rows(self.neighbors@, self.max_degree as nat, self.n_nodes as nat)
        &&& self.n_edges == model::total_len(self@.lists)
    }

    proof fn lemma_edges_counted(&self) {
    }

    open spec fn blocks(&self) -> Option<(Seq<u32>, Seq<usize>)> {
        None
    }

    open spec fn neighbors_bytes(&self) -> nat {
        self@.nodes() * self@.max_degree * 4
    }

    open spec fn packed_ids(&self) -> Option<Seq<usize>> {
        None
    }

    open spec fn ids_bytes(&self) -> nat {
        mapping_bytes(self@.mapping)
    }

    fn neighbors(&self, u: usize) -> (list: Vec<usize>) {
        read_ids(&self.neighbors, self.max_degree, self.n_nodes, u)
    }

    fn n_nodes(&self) -> (n: usize) {
        self.n_nodes
    }

    fn n_edges(&self) -> (n: usize) {
        self.n_edges
    }

    fn max_degree(&self) -> (n: usize) {
        self.max_degree
    }

    fn get_external_id(&self, id: usize) -> (external: usize) {
        match &self.ids_mapping {
            Some(mapping) => mapping[id],
            None => id,
        }
    }

    fn get_space_usage_bytes<
        F: Fn(&Vec<u32>, &Vec<usize>) -> usize,
        P: Fn(&Vec<usize>) -> usize,
    >(&self, blocks_len: &F, ids_len: &P) -> (bytes: usize) {
        let neighbors_size: usize = self.neighbors_size_bytes(blocks_len);
        let mapping_size: usize = count_mapping_bytes(&self.ids_mapping);
        assert(encoded::is_ids_size(
            *ids_len,
            self.packed_ids(),
            self.ids_bytes(),
            mapping_size as nat,
        ));
        neighbors_size + mapping_size
    }

    fn neighbors_size_bytes<F: Fn(&Vec<u32>, &Vec<usize>) -> usize>(
        &self,
        blocks_len: &F,
    ) -> (bytes: usize) {
        broadcast use vstd::layout::group_layout_axioms;

        assert(self.neighbors@.len() == self@.nodes() * self@.max_degree);
        self.neighbors.len() * std::mem::size_of::<u32>()
    }
}

impl View for GrowableGraph {
    type V = GraphModel;

    closed spec fn view(&self) -> GraphModel {
        GraphModel {
            lists: lists_in(self.neighbors@, self.max_degree as nat, self.n_nodes as nat),
            mapping: mapping_view(self.ids_mapping),
            max_degree: self.max_degree as nat,
            edges: self.n_edges as nat,
        }
    }
}

impl Default for GrowableGraph {
    fn default() -> (graph: Self)
        ensures
            graph.wf(),
            graph.inserted() == 0,
            graph@ == (GraphModel { lists: Seq::empty(), mapping: None, max_degree: 0, edges: 0 }),
    {
        GrowableGraph::with_max_degree(0)
    }
}

impl GraphTrait for GrowableGraph {
    closed spec fn wf(&self) -> bool {
        &&& slots::are_rows(self.neighbors@, self.max_degree as nat, self.n_nodes as nat)
        &&& self.n_edges == model::total_len(self@.lists)
    }

    proof fn lemma_edges_counted(&self) {
    }

    open spec fn blocks(&self) -> Option<(Seq<u32>, Seq<usize>)> {
        None
    }

    open spec fn neighbors_bytes(&self) -> nat {
        self@.nodes() * self@.max_degree * 4
    }

    open spec fn packed_ids(&self) -> Option<Seq<usize>> {
        None
    }

    open spec fn ids_bytes(&self) -> nat {
        mapping_bytes(self@.mapping)
    }

    fn neighbors(&self, u: usize) -> (list: Vec<usize>) {
        read_ids(&self.neighbors, self.max_degree, self.n_nodes, u)
    }

    fn n_nodes(&self) -> (n: usize) {
        self.n_nodes
    }

    fn n_edges(&self) -> (n: usize) {
        self.n_edges
    }

    fn max_degree(&self) -> (n: usize) {
        self.max_degree
    }

    fn get_external_id(&self, id: usize) -> (external: usize) {
        match &self.ids_mapping {
            Some(mapping) => mapping[id],
            None => id,
        }
    }

    fn get_space_usage_bytes<
        F: Fn(&Vec<u32>, &Vec<usize>) -> usize,
        P: Fn(&Vec<usize>) -> usize,
    >(&self, blocks_len: &F, ids_len: &P) -> (bytes: usize) {
        let neighbors_size: usize = self.neighbors_size_bytes(blocks_len);
        let mapping_size: usize = count_mapping_bytes(&self.ids_mapping);
        assert(encoded::is_ids_size(
            *ids_len,
            self.packed_ids(),
            self.ids_bytes(),
            mapping_size as nat,
        ));
        neighbors_size + mapping_size
    }

    fn neighbors_size_bytes<F: Fn(&Vec<u32>, &Vec<usize>) -> usize>(
        &self,
        blocks_len: &F,
    ) -> (bytes: usize) {
        broadcast use vstd::layout::group_layout_axioms;

        assert(self.neighbors@.len() == self@.nodes() * self@.max_degree);
        self.neighbors.len() * std::mem::size_of::<u32>()
    }
}

/// What is said of a mapping of the wrong length.
pub open spec fn mismatch_message(got: nat, expected: nat) -> Seq<char> {
    "Mapping length mismatch: got "@ + text::decimal(got) + ", expected "@ + text::decimal(expected)
}

impl GrowableGraph {
    /// The slots of all nodes.
    pub closed spec fn rows(&self) -> Seq<u32> {
        self.neighbors@
    }

    /// How many nodes have been inserted.
    pub closed spec fn inserted(&self) -> nat {
        self.inserted_nodes as nat
    }

    /// A graph without nodes.
    pub fn with_max_degree(max_degree: usize) -> (graph: Self)
        ensures
            graph.wf(),
            graph.inserted() == 0,
            graph@ == (GraphModel {
                lists: Seq::empty(),
                mapping: None,
                max_degree: max_degree as nat,
                edges: 0,
            }),
    {
        let graph = GrowableGraph {
            neighbors: Vec::new(),
            ids_mapping: None,
            max_degree,
            n_edges: 0,
            n_nodes: 0,
            inserted_nodes: 0,
        };
        assert(graph@.lists =~= Seq::<Seq<usize>>::empty());
        graph
    }

    /// The number of nodes that have been inserted.
    pub fn inserted_nodes(&self) -> (n: usize)
        ensures
            n == self.inserted(),
    {
        self.inserted_nodes
    }

    /// Counts `count` more nodes as inserted.
    pub fn advance_inserted_nodes(&mut self, count: usize)
        requires
            old(self).inserted() + count <= usize::MAX,
        ensures
            final(self).inserted() == old(self).inserted() + count,
            final(self)@ == old(self)@,
            final(self).rows() == old(self).rows(),
            final(self).wf() == old(self).wf(),
    {
        self.inserted_nodes = self.inserted_nodes + count;
    }

    /// Makes room for a number of nodes, none of which has neighbours or an external id of its
    /// own.
    pub fn reserve(&mut self, n_expected_nodes: usize)
        requires
            n_expected_nodes * old(self)@.max_degree <= usize::MAX,
        ensures
            final(self).wf(),
            final(self).inserted() == old(self).inserted(),
            final(self)@ == (GraphModel {
                lists: Seq::new(n_expected_nodes as nat, |u: int| Seq::<usize>::empty()),
                mapping: None,
                max_degree: old(self)@.max_degree,
                edges: 0,
            }),
    {
        self.neighbors = vec![slots::slot_without(); n_expected_nodes * self.max_degree];
        self.n_nodes = n_expected_nodes;
        self.n_edges = 0;
        self.ids_mapping = None;
        proof {
            let width = self.max_degree as nat;
            assert forall|u: int| 0 <= u < self.n_nodes implies slots::is_gapless(
                #[trigger] slots::row(self.neighbors@, width, u),
            ) && slots::leading(slots::row(self.neighbors@, width, u)) == Seq::<u32>::empty() by {
                slots::lemma_row_bounds(width as int, self.n_nodes as int, u);
                let r = slots::row(self.neighbors@, width, u);
                slots::lemma_leading_is(r, 0);
                assert(r.take(0) =~= Seq::<u32>::empty());
            }
            assert forall|u: int| 0 <= u < self.n_nodes implies self@.lists[u]
                == Seq::<usize>::empty() by {
                assert(slots::leading(slots::row(self.neighbors@, width, u))
                    == Seq::<u32>::empty());
                assert(self@.lists[u] =~= Seq::<usize>::empty());
            }
            assert(self@.lists =~= Seq::new(
                n_expected_nodes as nat,
                |u: int| Seq::<usize>::empty(),
            ));
            model::lemma_total_bound(self@.lists, 0);
            assert(self@.lists.len() * 0 == 0) by (nonlinear_arith);
        }
    }

    /// Gives every node an external id.
    ///
    /// A mapping of the wrong length is refused, and changes nothing.
    pub fn set_mapping(&mut self, mapping: Vec<usize>) -> (r: Result<(), String>)
        ensures
            final(self).wf() == old(self).wf(),
            final(self).inserted() == old(self).inserted(),
            final(self).rows() == old(self).rows(),
            r is Ok <==> mapping@.len() == old(self)@.nodes(),
            r is Ok ==> final(self)@ == (GraphModel { mapping: Some(mapping@), ..old(self)@ }),
            r matches Err(message) ==> {
                &&& message@ == mismatch_message(mapping@.len(), old(self)@.nodes())
                &&& *final(self) == *old(self)
            },
    {
        if mapping.len() != self.n_nodes {
            let mut message = String::from_str("Mapping length mismatch: got ");
            message.append(text::decimal_text(mapping.len() as u64).as_str());
            message.append(", expected ");
            message.append(text::decimal_text(self.n_nodes as u64).as_str());
            return Err(message);
        }
        self.ids_mapping = Some(mapping);
        Ok(())
    }
}

/// `front`, and behind it what `back` has beyond the length of `front`.
pub open spec fn overlay(front: Seq<usize>, back: Seq<usize>) -> Seq<usize> {
    if back.len() <= front.len() {
        front
    } else {
        front + back.skip(front.len() as int)
    }
}

/// The ids can be stored in a row of `width` slots.
pub open spec fn fit_in_row(ids: Seq<usize>, width: nat) -> bool {
    &&& ids.len() <= width
    &&& forall|i: int| 0 <= i < ids.len() ==> #[trigger] ids[i] < NO_ID
}

/// Every link gives a new list to a node below `n`.
pub open spec fn are_links(links: Seq<(usize, Vec<usize>)>, width: nat, n: nat) -> bool {
    forall|k: int|
        0 <= k < links.len() ==> (#[trigger] links[k]).0 < n && fit_in_row(links[k].1@, width)
}

/// The lists once each link, in turn, has given a node a new list.
pub open spec fn relinked(
    lists: Seq<Seq<usize>>,
    links: Seq<(usize, Vec<usize>)>,
) -> Seq<Seq<usize>>
    decreases links.len(),
{
    if links.len() == 0 {
        lists
    } else {
        relinked(lists, links.drop_last()).update(links.last().0 as int, links.last().1@)
    }
}

/// The lists once a node was inserted with its neighbours, and each link has given a node a new
/// list.
pub open spec fn pushed(
    lists: Seq<Seq<usize>>,
    local_id: int,
    neighbors: Seq<usize>,
    links: Seq<(usize, Vec<usize>)>,
) -> Seq<Seq<usize>> {
    relinked(lists.update(local_id, overlay(neighbors, lists[local_id])), links)
}

proof fn lemma_ids_fit(ids: Seq<usize>)
    requires
        forall|i: int| 0 <= i < ids.len() ==> #[trigger] ids[i] < NO_ID,
    ensures
        graph::as_ids(graph::as_raw(ids)) == ids,
        forall|i: int| 0 <= i < ids.len() ==> #[trigger] graph::as_raw(ids)[i] != NO_ID,
{
    assert(graph::as_ids(graph::as_raw(ids)) =~= ids);
}

/// No list in rows of slots is longer than a row, and all together are no longer than the slots.
proof fn lemma_lists_in(rows: Seq<u32>, width: nat, n: nat)
    requires
        rows.len() == n * width,
    ensures
        forall|u: int| 0 <= u < n ==> (#[trigger] lists_in(rows, width, n)[u]).len() <= width,
        model::total_len(lists_in(rows, width, n)) <= rows.len(),
{
    let lists = lists_in(rows, width, n);
    assert forall|u: int| 0 <= u < n implies (#[trigger] lists[u]).len() <= width by {
        slots::lemma_row_bounds(width as int, n as int, u);
        slots::lemma_leading(slots::row(rows, width, u));
    }
    model::lemma_total_bound(lists, width);
}

/// Changing one row changes one list.
proof fn lemma_row_written(
    before: Seq<u32>,
    after: Seq<u32>,
    width: nat,
    n: nat,
    u: int,
    list: Seq<u32>,
)
    requires
        slots::are_rows(before, width, n),
        after.len() == before.len(),
        0 <= u < n,
        forall|i: int|
            0 <= i < before.len() && !(u * width <= i < u * width + width) ==> #[trigger] after[i]
                == before[i],
        slots::is_gapless(slots::row(after, width, u)),
        slots::leading(slots::row(after, width, u)) == list,
    ensures
        slots::are_rows(after, width, n),
        lists_in(after, width, n) == lists_in(before, width, n).update(u, graph::as_ids(list)),
{
    assert forall|v: int| 0 <= v < n && v != u implies #[trigger] slots::row(after, width, v)
        == slots::row(before, width, v) by {
        slots::lemma_row_bounds(width as int, n as int, v);
        slots::lemma_rows_apart(width as int, u, v);
        assert(slots::row(after, width, v) =~= slots::row(before, width, v));
    }
    assert forall|v: int| 0 <= v < n implies slots::is_gapless(
        #[trigger] slots::row(after, width, v),
    ) by {
        if v != u {
            assert(slots::is_gapless(slots::row(before, width, v)));
        }
    }
    assert forall|v: int| 0 <= v < n implies lists_in(after, width, n)[v] == lists_in(
        before,
        width,
        n,
    ).update(u, graph::as_ids(list))[v] by {
        if v != u {
            assert(slots::row(after, width, v) == slots::row(before, width, v));
        }
    }
    assert(lists_in(after, width, n) =~= lists_in(before, width, n).update(
        u,
        graph::as_ids(list),
    ));
}

/// Stores ids in the slots from `start` on.
fn write_ids(rows: &mut Vec<u32>, start: usize, ids: &[usize])
    requires
        start + ids@.len() <= old(rows)@.len(),
        forall|i: int| 0 <= i < ids@.len() ==> #[trigger] ids@[i] < NO_ID,
    ensures
        final(rows)@.len() == old(rows)@.len(),
        forall|i: int|
            0 <= i < old(rows)@.len() ==> #[trigger] final(rows)@[i] == if start <= i < start
                + ids@.len() {
                ids@[i - start] as u32
            } else {
                old(rows)@[i]
            },
{
    for k in 0..ids.len()
        invariant
            start + ids@.len() <= old(rows)@.len(),
            forall|i: int| 0 <= i < ids@.len() ==> #[trigger] ids@[i] < NO_ID,
            rows@.len() == old(rows)@.len(),
            forall|i: int|
                0 <= i < rows@.len() ==> #[trigger] rows@[i] == if start <= i < start + k {
                    ids@[i - start] as u32
                } else {
                    old(rows)@[i]
                },
    {
        assert(start + k < rows.len());
        assert(ids@[k as int] < NO_ID);
        let slot: u32 = slots::slot_with(ids[k] as u32);
        rows.set(start + k, slot);
    }
}

/// Empties the slots from `from` up to `to`.
fn clear_slots(rows: &mut Vec<u32>, from: usize, to: usize)
    requires
        from <= to <= old(rows)@.len(),
    ensures
        final(rows)@.len() == old(rows)@.len(),
        forall|i: int|
            0 <= i < old(rows)@.len() ==> #[trigger] final(rows)@[i] == if from <= i < to {
                NO_ID
            } else {
                old(rows)@[i]
            },
{
    for k in from..to
        invariant
            from <= to <= old(rows)@.len(),
            rows@.len() == old(rows)@.len(),
            forall|i: int|
                0 <= i < rows@.len() ==> #[trigger] rows@[i] == if from <= i < k {
                    NO_ID
                } else {
                    old(rows)@[i]
                },
    {
        rows.set(k, slots::slot_without());
    }
}

/// Ids at the front of a row without gaps leave it without gaps, and hide as many ids as they are.
proof fn lemma_overlay(before: Seq<u32>, after: Seq<u32>, ids: Seq<usize>)
    requires
        slots::is_gapless(before),
        after.len() == before.len(),
        fit_in_row(ids, before.len()),
        forall|i: int|
            0 <= i < before.len() ==> #[trigger] after[i] == if i < ids.len() {
                ids[i] as u32
            } else {
                before[i]
            },
    ensures
        slots::is_gapless(after),
        graph::as_ids(slots::leading(after)) == overlay(
            ids,
            graph::as_ids(slots::leading(before)),
        ),
{
    let had = slots::leading(before).len() as int;
    slots::lemma_leading(before);
    let n = if had <= ids.len() {
        ids.len() as int
    } else {
        had
    };
    assert forall|i: int, j: int|
        0 <= i < j < after.len() && #[trigger] after[i] == NO_ID implies #[trigger] after[j]
        == NO_ID by {
        if i < ids.len() {
            assert(ids[i] < NO_ID);
        } else {
            assert(before[i] == NO_ID);
            assert(before[j] == NO_ID);
        }
    }
    assert forall|i: int| 0 <= i < n implies #[trigger] after[i] != NO_ID by {
        if i < ids.len() {
            assert(ids[i] < NO_ID);
        } else {
            assert(slots::leading(before)[i] == before[i]);
        }
    }
    if n < after.len() {
        assert(before[had] == NO_ID);
        if had < n {
            assert(before[n] == NO_ID);
        }
    }
    slots::lemma_leading_is(after, n);
    let had_ids = graph::as_ids(slots::leading(before));
    assert forall|i: int| 0 <= i < n implies graph::as_ids(after.take(n))[i] == overlay(
        ids,
        had_ids,
    )[i] by {
        if i < ids.len() {
            assert(ids[i] < NO_ID);
        } else {
            assert(slots::leading(before)[i] == before[i]);
        }
    }
    assert(graph::as_ids(after.take(n)) =~= overlay(ids, had_ids));
}

impl GrowableGraph {
    /// Inserts a node with its neighbours, and gives the nodes of `reverse_links` their new lists.
    ///
    /// Where the graph has a mapping, the node gets `external_id`, or its local id if there is
    /// none. A slot of the node beyond `neighbors` keeps the id it had.
    pub fn push_with_precomputed_reverse_links(
        &mut self,
        external_id: Option<usize>,
        neighbors: &[usize],
        local_id: usize,
        reverse_links: &[(usize, Vec<usize>)],
    )
        requires
            old(self).wf(),
            local_id < old(self)@.nodes(),
            fit_in_row(neighbors@, old(self)@.max_degree),
            are_links(reverse_links@, old(self)@.max_degree, old(self)@.nodes()),
            external_id is Some ==> old(self)@.mapping is Some,
            old(self)@.mapping matches Some(mapping) ==> local_id < mapping.len(),
        ensures
            final(self).wf(),
            final(self).inserted() == old(self).inserted(),
            final(self)@ == (GraphModel {
                lists: pushed(
                    old(self)@.lists,
                    local_id as int,
                    neighbors@,
                    reverse_links@,
                ),
                mapping: match old(self)@.mapping {
                    Some(mapping) => Some(
                        mapping.update(
                            local_id as int,
                            match external_id {
                                Some(id) => id,
                                None => local_id,
                            },
                        ),
                    ),
                    None => None,
                },
                max_degree: old(self)@.max_degree,
                edges: model::total_len(
                    pushed(old(self)@.lists, local_id as int, neighbors@, reverse_links@),
                ),
            }),
    {
        let ghost width = self.max_degree as nat;
        let ghost n = self.n_nodes as nat;
        let ghost before = self.neighbors@;
        proof {
            slots::lemma_row_bounds(width as int, n as int, local_id as int);
            assert(before.len() == self.neighbors.len());
        }
        let had: usize = slots::row_len(
            &self.neighbors,
            local_id * self.max_degree,
            self.max_degree,
        );
        write_ids(&mut self.neighbors, local_id * self.max_degree, neighbors);
        proof {
            let u = local_id as int;
            lemma_overlay(
                slots::row(before, width, u),
                slots::row(self.neighbors@, width, u),
                neighbors@,
            );
            lemma_row_written(
                before,
                self.neighbors@,
                width,
                n,
                u,
                slots::leading(slots::row(self.neighbors@, width, u)),
            );
            let lists0 = lists_in(before, width, n);
            assert(lists0[u].len() == had);
            model::lemma_total_update(lists0, u, overlay(neighbors@, lists0[u]));
            lemma_lists_in(self.neighbors@, width, n);
        }
        if neighbors.len() > had {
            self.n_edges = self.n_edges + (neighbors.len() - had);
        }
        let named: usize = match external_id {
            Some(id) => id,
            None => local_id,
        };
        if let Some(mapping) = self.ids_mapping.as_mut() {
            mapping.set(local_id, named);
        }
        let ghost first = lists_in(self.neighbors@, width, n);
        let ghost mapping_now = self.ids_mapping;
        for k in 0..reverse_links.len()
            invariant
                are_links(reverse_links@, width, n),
                self.max_degree == width,
                self.n_nodes == n,
                self.ids_mapping == mapping_now,
                self.n_edges == model::total_len(lists_in(self.neighbors@, width, n)),
                self.inserted_nodes == old(self).inserted_nodes,
                slots::are_rows(self.neighbors@, width, n),
                lists_in(self.neighbors@, width, n) == relinked(
                    first,
                    reverse_links@.take(k as int),
                ),
        {
            let ghost rows0 = self.neighbors@;
            let ghost u = reverse_links@[k as int].0 as int;
            let ghost ids = reverse_links@[k as int].1@;
            assert(u < n && fit_in_row(ids, width));
            proof {
                slots::lemma_row_bounds(width as int, n as int, u);
                assert(rows0.len() == self.neighbors.len());
            }
            let start: usize = reverse_links[k].0 * self.max_degree;
            let list = &reverse_links[k].1;
            let had: usize = slots::row_len(&self.neighbors, start, self.max_degree);
            write_ids(&mut self.neighbors, start, list.as_slice());
            clear_slots(&mut self.neighbors, start + list.len(), start + self.max_degree);
            proof {
                let r = slots::row(self.neighbors@, width, u);
                lemma_ids_fit(ids);
                slots::lemma_padded(graph::as_raw(ids), width);
                assert(r =~= slots::padded(graph::as_raw(ids), width));
                lemma_row_written(rows0, self.neighbors@, width, n, u, graph::as_raw(ids));
                let lists0 = lists_in(rows0, width, n);
                assert(lists0[u].len() == had);
                model::lemma_total_update(lists0, u, ids);
                lemma_lists_in(self.neighbors@, width, n);
                assert(reverse_links@.take(k + 1).drop_last() =~= reverse_links@.take(k as int));
            }
            self.n_edges = self.n_edges - had + list.len();
        }
        assert(reverse_links@.take(reverse_links@.len() as int) =~= reverse_links@);
    }
}

impl vstd::std_specs::convert::FromSpecImpl<GrowableGraph> for GraphFixedDegree {
    open spec fn obeys_from_spec() -> bool {
        false
    }

    open spec fn from_spec(v: GrowableGraph) -> Self {
        arbitrary()
    }
}

impl From<GrowableGraph> for GraphFixedDegree {
    /// The graph as it stands, with its slots.
    fn from(growable: GrowableGraph) -> (graph: Self)
        ensures
            graph@ == growable@,
            graph.rows() == growable.rows(),
            graph.wf() == growable.wf(),
    {
        GraphFixedDegree {
            neighbors: growable.neighbors,
            ids_mapping: growable.ids_mapping,
            max_degree: growable.max_degree,
            n_edges: growable.n_edges,
            n_nodes: growable.n_nodes,
        }
    }
}

impl vstd::std_specs::convert::FromSpecImpl<GraphFixedDegree> for GrowableGraph {
    open spec fn obeys_from_spec() -> bool {
        false
    }

    open spec fn from_spec(v: GraphFixedDegree) -> Self {
        arbitrary()
    }
}

impl From<GraphFixedDegree> for GrowableGraph {
    /// The graph as it stands, with all its nodes inserted.
    fn from(fixed: GraphFixedDegree) -> (graph: Self)
        ensures
            graph@ == fixed@,
            graph.rows() == fixed.rows(),
            graph.wf() == fixed.wf(),
            graph.inserted() == fixed@.nodes(),
    {
        GrowableGraph {
            neighbors: fixed.neighbors,
            ids_mapping: fixed.ids_mapping,
            max_degree: fixed.max_degree,
            n_edges: fixed.n_edges,
            n_nodes: fixed.n_nodes,
            inserted_nodes: fixed.n_nodes,
        }
    }
}

impl GrowableGraph {
    /// The ids of node `u` as they are stored.
    pub open spec fn raw_list(&self, u: int) -> Seq<u32> {
        graph::as_raw(self@.lists[u])
    }

    /// The slots hold the lists: there is a row for each node, and the ids at its front are the
    /// list of the node.
    pub proof fn lemma_rows_hold_lists(&self)
        requires
            self.wf(),
        ensures
            self.rows().len() == self@.nodes() * self@.max_degree,
            forall|u: int|
                0 <= u < self@.nodes() ==> {
                    &&& #[trigger] self@.lists[u] == graph::as_ids(self.raw_list(u))
                    &&& self.raw_list(u) == slots::leading(
                        slots::row(self.rows(), self@.max_degree, u),
                    )
                    &&& self@.lists[u].len() <= self@.max_degree
                },
    {
        lemma_lists_in(self.neighbors@, self.max_degree as nat, self.n_nodes as nat);
        assert forall|u: int| 0 <= u < self@.nodes() implies {
            &&& #[trigger] self@.lists[u] == graph::as_ids(self.raw_list(u))
            &&& self.raw_list(u) == slots::leading(slots::row(self.rows(), self@.max_degree, u))
            &&& self@.lists[u].len() <= self@.max_degree
        } by {
            graph::lemma_as_raw(slots::leading(slots::row(self.rows(), self@.max_degree, u)));
        }
    }

    /// The list of each node, in order and without repetitions.
    pub open spec fn tidy_lists(&self) -> Seq<Seq<u32>> {
        Seq::new(self@.nodes(), |u: int| sorted::sorted_set(self.raw_list(u)))
    }

    /// The graph with its lists in rows of slots, and all its nodes inserted.
    pub fn from_graph<N: Neighbors>(source: Graph<N>) -> (growable: Self)
        requires
            source.wf(),
            source@.nodes() * source@.max_degree <= usize::MAX,
            forall|u: int|
                0 <= u < source@.nodes() ==> fit_in_row(
                    #[trigger] source@.lists[u],
                    source@.max_degree,
                ),
        ensures
            growable.wf(),
            growable@ == source@,
            growable.inserted() == source@.nodes(),
    {
        let n: usize = source.n_nodes();
        let width: usize = source.max_degree();
        let mut neighbors: Vec<u32> = vec![slots::slot_without(); n * width];
        proof {
            assert(n * width == source@.nodes() * source@.max_degree);
        }
        proof {
            assert forall|u: int| 0 <= u < n implies slots::is_gapless(
                #[trigger] slots::row(neighbors@, width as nat, u),
            ) by {
                slots::lemma_row_bounds(width as int, n as int, u);
            }
        }
        for v in 0..n
            invariant
                source.wf(),
                n == source@.nodes(),
                width == source@.max_degree,
                forall|u: int|
                    0 <= u < source@.nodes() ==> fit_in_row(
                        #[trigger] source@.lists[u],
                        source@.max_degree,
                    ),
                slots::are_rows(neighbors@, width as nat, n as nat),
                forall|i: int| v * width <= i < neighbors@.len() ==> #[trigger] neighbors@[i] == NO_ID,
                forall|u: int|
                    0 <= u < v ==> #[trigger] lists_in(neighbors@, width as nat, n as nat)[u]
                        == source@.lists[u],
        {
            let ghost rows0 = neighbors@;
            let ghost ids = source@.lists[v as int];
            assert(fit_in_row(ids, width as nat));
            proof {
                slots::lemma_row_bounds(width as int, n as int, v as int);
                assert(rows0.len() == neighbors.len());
            }
            let list = source.neighbors(v);
            let start: usize = v * width;
            write_ids(&mut neighbors, start, list.as_slice());
            proof {
                let r = slots::row(neighbors@, width as nat, v as int);
                lemma_ids_fit(ids);
                slots::lemma_padded(graph::as_raw(ids), width as nat);
                assert(r =~= slots::padded(graph::as_raw(ids), width as nat));
                lemma_row_written(
                    rows0,
                    neighbors@,
                    width as nat,
                    n as nat,
                    v as int,
                    graph::as_raw(ids),
                );
                assert((v + 1) * width == v * width + width) by (nonlinear_arith);
                assert forall|u: int| 0 <= u < v + 1 implies #[trigger] lists_in(
                    neighbors@,
                    width as nat,
                    n as nat,
                )[u] == source@.lists[u] by {
                    if u < v {
                        assert(lists_in(rows0, width as nat, n as nat)[u] == source@.lists[u]);
                    }
                }
            }
        }
        let n_edges: usize = source.n_edges();
        proof {
            source.lemma_edges_counted();
        }
        let growable = GrowableGraph {
            neighbors,
            ids_mapping: source.into_mapping(),
            max_degree: width,
            n_edges,
            n_nodes: n,
            inserted_nodes: n,
        };
        assert(growable@.lists =~= source@.lists);
        growable
    }
}

impl<N: Neighbors> Graph<N> {
    /// The graph with its lists stored one after the other.
    ///
    /// Each list is put in ascending order, and an id that occurs more than once is kept once.
    pub fn from_growable(growable: GrowableGraph) -> (graph: Self)
        requires
            growable.wf(),
            graph::all_accepted::<N>(growable.tidy_lists()),
        ensures
            graph.is_made_of(growable.tidy_lists(), growable@.mapping, growable@.max_degree),
            graph@.tidies(growable@),
    {
        let ghost model = growable@;
        let n: usize = growable.n_nodes;
        let width: usize = growable.max_degree;
        let ghost lists = growable.tidy_lists();
        let mut builder = ListBuilder::new();
        for v in 0..n
            invariant
                growable.wf(),
                n == growable.n_nodes,
                width == growable.max_degree,
                lists == growable.tidy_lists(),
                builder.wf(),
                builder@ == lists.take(v as int),
        {
            proof {
                slots::lemma_row_bounds(width as int, n as int, v as int);
                assert(growable.neighbors@.len() == growable.neighbors.len());
            }
            let ids = slots::read_row(&growable.neighbors, v * width, width);
            proof {
                growable.lemma_rows_hold_lists();
                assert(growable@.lists[v as int] == graph::as_ids(growable.raw_list(v as int)));
                assert(ids@ == growable.raw_list(v as int));
            }
            let list = sorted::sort_dedup(ids);
            builder.push_list(&list);
            assert(builder@ =~= lists.take(v + 1));
        }
        assert(builder@ =~= lists);
        proof {
            growable.lemma_rows_hold_lists();
        }
        let graph = Graph::<N>::from_builder(builder, growable.ids_mapping, width, n);
        proof {
            assert(lists =~= Seq::new(
                model.nodes(),
                |u: int| sorted::sorted_set(graph::as_raw(model.lists[u])),
            ));
            graph::lemma_tidies(&graph, model);
        }
        graph
    }
}

/// `k` is the last of the links that name node `w`.
pub open spec fn is_last_link(links: Seq<(usize, Vec<usize>)>, w: int, k: int) -> bool {
    &&& 0 <= k < links.len()
    &&& links[k].0 == w
    &&& forall|l: int| k < l < links.len() ==> (#[trigger] links[l]).0 != w
}

/// No link names node `w`.
pub open spec fn is_unlinked(links: Seq<(usize, Vec<usize>)>, w: int) -> bool {
    forall|k: int| 0 <= k < links.len() ==> (#[trigger] links[k]).0 != w
}

/// Inserting a node changes the lists that are named, and no others.
///
/// A node that links name has the list of the last one. The new node, where no link names it, has
/// its neighbours, and behind them what its list had there before. Every other list stays.
pub proof fn law_insertion_changes_named_lists(
    lists: Seq<Seq<usize>>,
    local_id: int,
    neighbors: Seq<usize>,
    links: Seq<(usize, Vec<usize>)>,
    w: int,
)
    requires
        0 <= local_id < lists.len(),
        0 <= w < lists.len(),
        forall|k: int| 0 <= k < links.len() ==> (#[trigger] links[k]).0 < lists.len(),
    ensures
        ({
            let after = pushed(lists, local_id, neighbors, links);
            &&& after.len() == lists.len()
            &&& forall|k: int| #[trigger] is_last_link(links, w, k) ==> after[w] == links[k].1@
            &&& is_unlinked(links, w) && w != local_id ==> after[w] == lists[w]
            &&& is_unlinked(links, w) && w == local_id ==> {
                &&& after[w].len() == if lists[w].len() <= neighbors.len() {
                    neighbors.len()
                } else {
                    lists[w].len()
                }
                &&& forall|i: int|
                    0 <= i < neighbors.len() ==> #[trigger] after[w][i] == neighbors[i]
                &&& forall|i: int|
                    neighbors.len() <= i < after[w].len() ==> #[trigger] after[w][i] == lists[w][i]
            }
        }),
    decreases links.len(),
{
    if links.len() > 0 {
        let front = links.drop_last();
        let last = links.len() - 1;
        assert forall|k: int| 0 <= k < front.len() implies (#[trigger] front[k]).0
            < lists.len() by {
            assert(links[k].0 < lists.len());
        }
        law_insertion_changes_named_lists(lists, local_id, neighbors, front, w);
        assert(links[last].0 < lists.len());
        assert forall|k: int| #[trigger] is_last_link(links, w, k) implies pushed(
            lists,
            local_id,
            neighbors,
            links,
        )[w] == links[k].1@ by {
            if k < last {
                assert(links[last].0 != w);
                assert forall|l: int| k < l < front.len() implies (#[trigger] front[l]).0 != w by {
                    assert(links[l].0 != w);
                }
                assert(is_last_link(front, w, k));
            }
        }
        if is_unlinked(links, w) {
            assert(links[last].0 != w);
            assert forall|k: int| 0 <= k < front.len() implies (#[trigger] front[k]).0 != w by {
                assert(links[k].0 != w);
            }
        }
    }
}

} // verus!
