//! How the neighbour lists of a graph are stored.

use crate::graph::encoded;
use crate::graph::model;
use crate::sorted;
use vstd::prelude::*;

verus! {

/// Raw neighbour lists: the ids of all lists one after the other, and where each list begins and
/// ends.
pub struct NeighborData {
    /// The ids of the neighbours.
    pub data: Vec<u32>,
    /// Where the list of each node begins, and where the last one ends.
    pub offsets: Vec<usize>,
}

impl Clone for NeighborData {
    fn clone(&self) -> (copy: Self)
        ensures
            copy.data@ == self.data@,
            copy.offsets@ == self.offsets@,
    {
        let copy = NeighborData { data: self.data.clone(), offsets: self.offsets.clone() };
        assert(copy.data@ =~= self.data@);
        assert(copy.offsets@ =~= self.offsets@);
        copy
    }
}

/// One less than a length, but not below zero.
pub open spec fn pairs(len: nat) -> nat {
    if len == 0 {
        0
    } else {
        (len - 1) as nat
    }
}

/// Node `node` has a list in lists laid out so.
pub open spec fn has_segment(data: Seq<u32>, offsets: Seq<usize>, node: int) -> bool {
    &&& 0 <= node < pairs(offsets.len())
    &&& offsets[node] <= offsets[node + 1] <= data.len()
}

/// The list of a node in lists laid out so.
pub open spec fn segment(data: Seq<u32>, offsets: Seq<usize>, node: int) -> Seq<u32> {
    data.subrange(offsets[node] as int, offsets[node + 1] as int)
}

impl NeighborData {
    /// The number of nodes.
    pub open spec fn nodes(&self) -> nat {
        pairs(self.offsets@.len())
    }

    /// The list of `node` lies within the data.
    pub open spec fn has_segment(&self, node: int) -> bool {
        has_segment(self.data@, self.offsets@, node)
    }

    /// The list of `node`.
    pub open spec fn segment(&self, node: int) -> Seq<u32> {
        segment(self.data@, self.offsets@, node)
    }
}

/// Lists that lie one after the other and leave no gap hold as many ids as there are.
pub proof fn law_gapless_lists_are_counted(data: Seq<u32>, offsets: Seq<usize>)
    requires
        offsets.len() > 0,
        offsets[0] == 0,
        offsets.last() == data.len(),
        forall|i: int, j: int|
            0 <= i <= j < offsets.len() ==> #[trigger] offsets[i] <= #[trigger] offsets[j],
    ensures
        model::total_len(
            Seq::new(pairs(offsets.len()), |node: int| segment(data, offsets, node)),
        ) == data.len(),
{
    let lists = Seq::new(pairs(offsets.len()), |node: int| segment(data, offsets, node));
    lemma_counted_up_to(data, offsets, lists, lists.len());
    assert(lists.take(lists.len() as int) =~= lists);
}

proof fn lemma_counted_up_to(
    data: Seq<u32>,
    offsets: Seq<usize>,
    lists: Seq<Seq<u32>>,
    k: nat,
)
    requires
        offsets.len() > 0,
        offsets[0] == 0,
        offsets.last() == data.len(),
        forall|i: int, j: int|
            0 <= i <= j < offsets.len() ==> #[trigger] offsets[i] <= #[trigger] offsets[j],
        lists == Seq::new(pairs(offsets.len()), |node: int| segment(data, offsets, node)),
        k <= lists.len(),
    ensures
        model::total_len(lists.take(k as int)) == offsets[k as int],
    decreases k,
{
    if k > 0 {
        lemma_counted_up_to(data, offsets, lists, (k - 1) as nat);
        assert(lists.take(k as int).drop_last() =~= lists.take(k - 1));
        assert(offsets[k - 1] <= offsets[k as int]);
        assert(offsets[k as int] <= offsets[offsets.len() - 1]);
    }
}

/// Hands out the neighbours of one node in turn.
pub trait NeighborIter: Sized {
    spec fn wf(&self) -> bool;

    /// What is still to come.
    spec fn rest(&self) -> Seq<u32>;

    /// The next neighbour.
    fn next(&mut self) -> (id: Option<u32>)
        requires
            old(self).wf(),
        ensures
            final(self).wf(),
            id is None <==> old(self).rest().len() == 0,
            id is None ==> *final(self) == *old(self),
            id matches Some(v) ==> v == old(self).rest()[0] && final(self).rest() == old(
                self,
            ).rest().drop_first(),
    ;

    /// All that is still to come.
    fn collect(self) -> (all: Vec<u32>)
        requires
            self.wf(),
        ensures
            all@ == self.rest(),
    {
        let mut iter = self;
        let mut all: Vec<u32> = Vec::new();
        loop
            invariant
                iter.wf(),
                all@ + iter.rest() == self.rest(),
            ensures
                all@ == self.rest(),
            decreases iter.rest().len(),
        {
            let ghost before = iter.rest();
            match iter.next() {
                Some(v) => {
                    let ghost front = all@;
                    all.push(v);
                    assert(all@ + iter.rest() =~= front + before);
                },
                None => {
                    assert(all@ =~= all@ + iter.rest());
                    break;
                },
            }
        }
        all
    }
}

/// Neighbour lists, as they are or in blocks of differences.
pub trait Neighbors: Sized {
    type Iter<'a>: NeighborIter where Self: 'a;

    spec fn wf(&self) -> bool;

    /// The number of neighbours in all lists.
    spec fn edge_count(&self) -> nat;

    /// The number of lists.
    spec fn node_count(&self) -> nat;

    /// The list of `node` can be read.
    spec fn has_node(&self, node: int) -> bool;

    /// The list of `node`.
    spec fn list(&self, node: int) -> Seq<u32>;

    /// All numbers of the blocks that hold the lists, and where the blocks begin and end; nothing
    /// where the lists are not in blocks.
    spec fn blocks(&self) -> Option<(Seq<u32>, Seq<usize>)>;

    /// The bytes that the lists take beside their blocks.
    spec fn plain_bytes(&self) -> nat;

    /// Such a list can be stored.
    spec fn accepts(list: Seq<u32>) -> bool;

    /// A list that is held can be stored.
    proof fn law_accepts_own(&self, node: int)
        requires
            self.wf(),
            self.has_node(node),
        ensures
            Self::accepts(self.list(node)),
    ;

    /// Where a list can be stored, so can every one that ascends strictly and is no longer.
    proof fn law_accepts_no_longer(list: Seq<u32>, other: Seq<u32>)
        requires
            Self::accepts(list),
            sorted::is_strictly_ascending(other),
            other.len() <= list.len(),
        ensures
            Self::accepts(other),
    ;

    /// The number of neighbours in all lists.
    fn len(&self) -> (n: usize)
        ensures
            n == self.edge_count(),
    ;

    /// The number of lists.
    fn n_nodes(&self) -> (n: usize)
        requires
            self.wf(),
        ensures
            n == self.node_count(),
    ;

    /// The neighbours of `node_id`, in order.
    fn iter_node<'a>(&'a self, node_id: usize) -> (iter: Self::Iter<'a>)
        requires
            self.wf(),
            self.has_node(node_id as int),
        ensures
            iter.wf(),
            iter.rest() == self.list(node_id as int),
    ;

    /// The bytes that the lists take.
    ///
    /// `blocks_len` tells how many bytes blocks take in their encoding, where lists are in blocks.
    fn byte_size<F: Fn(&Vec<u32>, &Vec<usize>) -> usize>(&self, blocks_len: &F) -> (bytes: usize)
        requires
            self.wf(),
            encoded::blocks_can_be_sized(*blocks_len, self.blocks(), self.plain_bytes()),
        ensures
            encoded::is_blocks_size(
                *blocks_len,
                self.blocks(),
                self.plain_bytes(),
                bytes as nat,
            ),
    ;

    /// No lists.
    fn none() -> (neighbors: Self)
        ensures
            neighbors.wf(),
            neighbors.edge_count() == 0,
            neighbors.node_count() == 0,
    ;

    /// Stores raw lists.
    fn from_data(nd: NeighborData) -> (neighbors: Self)
        requires
            forall|node: int|
                0 <= node < nd.nodes() ==> #[trigger] nd.has_segment(node) && Self::accepts(
                    nd.segment(node),
                ),
        ensures
            neighbors.wf(),
            neighbors.edge_count() == nd.data@.len(),
            neighbors.node_count() == nd.nodes(),
            forall|node: int|
                #![trigger neighbors.list(node)]
                #![trigger neighbors.has_node(node)]
                0 <= node < nd.nodes() ==> neighbors.has_node(node) && neighbors.list(node)
                    == nd.segment(node),
    ;
}

/// Neighbour lists as they are.
pub struct PlainNeighbors {
    data: Vec<u32>,
    offsets: Vec<usize>,
}

/// Hands out the neighbours of a plain list.
pub struct PlainNeighborsIter<'a> {
    data: &'a Vec<u32>,
    pos: usize,
    end: usize,
}

impl<'a> NeighborIter for PlainNeighborsIter<'a> {
    closed spec fn wf(&self) -> bool {
        self.pos <= self.end <= self.data@.len()
    }

    closed spec fn rest(&self) -> Seq<u32> {
        self.data@.subrange(self.pos as int, self.end as int)
    }

    fn next(&mut self) -> (id: Option<u32>) {
        if self.pos < self.end {
            let v: u32 = self.data[self.pos];
            self.pos = self.pos + 1;
            assert(self.rest() =~= old(self).rest().drop_first());
            Some(v)
        } else {
            None
        }
    }
}

impl PlainNeighbors {
    /// The ids of all lists.
    pub closed spec fn all_data(&self) -> Seq<u32> {
        self.data@
    }

    /// Where the lists begin, and where the last one ends.
    pub closed spec fn all_offsets(&self) -> Seq<usize> {
        self.offsets@
    }

    /// Stores raw lists.
    pub fn from(nd: NeighborData) -> (neighbors: Self)
        ensures
            neighbors.all_data() == nd.data@,
            neighbors.all_offsets() == nd.offsets@,
            neighbors.wf(),
            neighbors.edge_count() == nd.data@.len(),
            neighbors.node_count() == nd.nodes(),
            forall|node: int|
                #![trigger neighbors.list(node)]
                #![trigger neighbors.has_node(node)]
                neighbors.has_node(node) == nd.has_segment(node) && neighbors.list(node)
                    == nd.segment(node),
    {
        PlainNeighbors { data: nd.data, offsets: nd.offsets }
    }
}

impl Clone for PlainNeighbors {
    fn clone(&self) -> (copy: Self)
        ensures
            copy.all_data() == self.all_data(),
            copy.all_offsets() == self.all_offsets(),
    {
        let copy = PlainNeighbors { data: self.data.clone(), offsets: self.offsets.clone() };
        assert(copy.data@ =~= self.data@);
        assert(copy.offsets@ =~= self.offsets@);
        copy
    }
}

impl Default for PlainNeighbors {
    fn default() -> (neighbors: Self)
        ensures
            neighbors.all_data() == Seq::<u32>::empty(),
            neighbors.all_offsets() == Seq::<usize>::empty(),
    {
        PlainNeighbors { data: Vec::new(), offsets: Vec::new() }
    }
}

impl Neighbors for PlainNeighbors {
    type Iter<'a> = PlainNeighborsIter<'a>;

    open spec fn wf(&self) -> bool {
        true
    }

    open spec fn edge_count(&self) -> nat {
        self.all_data().len()
    }

    open spec fn node_count(&self) -> nat {
        pairs(self.all_offsets().len())
    }

    open spec fn has_node(&self, node: int) -> bool {
        has_segment(self.all_data(), self.all_offsets(), node)
    }

    open spec fn list(&self, node: int) -> Seq<u32> {
        segment(self.all_data(), self.all_offsets(), node)
    }

    open spec fn blocks(&self) -> Option<(Seq<u32>, Seq<usize>)> {
        None
    }

    open spec fn plain_bytes(&self) -> nat {
        self.all_data().len() * 4 + self.all_offsets().len() * vstd::layout::size_of::<usize>()
    }

    open spec fn accepts(list: Seq<u32>) -> bool {
        true
    }

    proof fn law_accepts_own(&self, node: int) {
    }

    proof fn law_accepts_no_longer(list: Seq<u32>, other: Seq<u32>) {
    }

    fn len(&self) -> (n: usize) {
        self.data.len()
    }

    fn n_nodes(&self) -> (n: usize) {
        self.offsets.len().saturating_sub(1)
    }

    fn iter_node<'a>(&'a self, node_id: usize) -> (iter: PlainNeighborsIter<'a>) {
        assert(node_id + 1 < self.offsets.len());
        PlainNeighborsIter {
            data: &self.data,
            pos: self.offsets[node_id],
            end: self.offsets[node_id + 1],
        }
    }

    fn byte_size<F: Fn(&Vec<u32>, &Vec<usize>) -> usize>(&self, blocks_len: &F) -> (bytes: usize) {
        broadcast use vstd::layout::group_layout_axioms;

        let word: usize = std::mem::size_of::<usize>();
        assert(self.data@.len() * 4 <= usize::MAX && self.offsets@.len() * word <= usize::MAX);
        self.data.len() * std::mem::size_of::<u32>() + self.offsets.len() * word
    }

    fn none() -> (neighbors: Self)
        ensures
            neighbors.all_data() == Seq::<u32>::empty(),
            neighbors.all_offsets() == Seq::<usize>::empty(),
            neighbors.plain_bytes() == 0,
    {
        PlainNeighbors { data: Vec::new(), offsets: Vec::new() }
    }

    fn from_data(nd: NeighborData) -> (neighbors: Self)
        ensures
            neighbors.all_data() == nd.data@,
            neighbors.all_offsets() == nd.offsets@,
    {
        assert(forall|node: int| 0 <= node < nd.nodes() ==> nd.has_segment(node));
        PlainNeighbors::from(nd)
    }
}

} // verus!
