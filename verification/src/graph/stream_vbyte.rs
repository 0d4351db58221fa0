//! Neighbour lists stored as differences, one block for each list.

use crate::blocks;
use crate::blocks::StreamVByteBlocks;
use crate::graph::neighbors::{NeighborData, NeighborIter, Neighbors};
use crate::sorted;
use vstd::prelude::*;

verus! {

/// The longest block that fits into the small buffer.
pub const STREAMVBYTE_BLOCKS_SMALL_BUF: usize = 64;

/// The longest block there can be.
pub const STREAMVBYTE_BLOCKS_MAX_BUF: usize = 256;

/// Addition that starts again from 0 past the greatest number.
pub open spec fn wrapping_sum(a: u32, b: u32) -> u32 {
    if a + b > u32::MAX {
        (a + b - 0x1_0000_0000) as u32
    } else {
        (a + b) as u32
    }
}

/// The running sums of a sequence, from `acc` on.
pub open spec fn running_sums(acc: u32, deltas: Seq<u32>) -> Seq<u32>
    decreases deltas.len(),
{
    if deltas.len() == 0 {
        Seq::empty()
    } else {
        let next = wrapping_sum(acc, deltas[0]);
        seq![next] + running_sums(next, deltas.drop_first())
    }
}

/// Each number of `deltas` is the difference of a number of `list` from the one before it; the
/// first comes after `prev`.
pub open spec fn are_deltas(prev: u32, list: Seq<u32>, deltas: Seq<u32>) -> bool {
    &&& deltas.len() == list.len()
    &&& forall|i: int|
        0 <= i < list.len() ==> #[trigger] deltas[i] == list[i] - (if i == 0 {
            prev
        } else {
            list[i - 1]
        })
}

/// The running sums of its differences give a list back.
pub proof fn law_sums_undo_deltas(prev: u32, list: Seq<u32>, deltas: Seq<u32>)
    requires
        are_deltas(prev, list, deltas),
    ensures
        running_sums(prev, deltas) == list,
    decreases list.len(),
{
    if list.len() > 0 {
        assert(deltas[0] == list[0] - prev);
        let tail = list.drop_first();
        let rest = deltas.drop_first();
        assert forall|i: int| 0 <= i < tail.len() implies #[trigger] rest[i] == tail[i] - (if i
            == 0 {
            list[0]
        } else {
            tail[i - 1]
        }) by {
            assert(deltas[i + 1] == list[i + 1] - list[i]);
        }
        law_sums_undo_deltas(list[0], tail, rest);
        assert(running_sums(prev, deltas) =~= list);
    }
}

/// The block of a list: its differences, or a single 0 if it is empty.
pub open spec fn block_of(list: Seq<u32>) -> Seq<u32> {
    if list.len() == 0 {
        seq![0u32]
    } else {
        Seq::new(
            list.len(),
            |i: int|
                (list[i] - (if i == 0 {
                    0u32
                } else {
                    list[i - 1]
                })) as u32,
        )
    }
}

/// The blocks of lists, one after the other.
pub open spec fn flat_blocks(lists: Seq<Seq<u32>>) -> Seq<u32>
    decreases lists.len(),
{
    if lists.len() == 0 {
        Seq::empty()
    } else {
        flat_blocks(lists.drop_last()) + block_of(lists.last())
    }
}

/// Where the blocks of lists begin, and where the last one ends.
pub open spec fn block_bounds(lists: Seq<Seq<u32>>) -> Seq<usize> {
    Seq::new(lists.len() + 1, |k: int| flat_blocks(lists.take(k)).len() as usize)
}

/// The words that tell which lists are empty: none if no list is.
pub open spec fn word_count(lists: Seq<Seq<u32>>) -> nat {
    if exists|u: int| 0 <= u < lists.len() && (#[trigger] lists[u]).len() == 0 {
        (lists.len() + 63) / 64
    } else {
        0
    }
}

/// The blocks of the first lists lead the blocks of more lists.
proof fn lemma_blocks_lead(lists: Seq<Seq<u32>>, j: int, k: int)
    requires
        0 <= j <= k <= lists.len(),
    ensures
        flat_blocks(lists.take(j)).len() <= flat_blocks(lists.take(k)).len(),
        flat_blocks(lists.take(k)).take(flat_blocks(lists.take(j)).len() as int) == flat_blocks(
            lists.take(j),
        ),
    decreases k - j,
{
    let front = flat_blocks(lists.take(j));
    if j < k {
        lemma_blocks_lead(lists, j, k - 1);
        assert(lists.take(k).drop_last() =~= lists.take(k - 1));
        let before = flat_blocks(lists.take(k - 1));
        assert(flat_blocks(lists.take(k)).take(front.len() as int) =~= before.take(
            front.len() as int,
        ));
    } else {
        assert(front.take(front.len() as int) =~= front);
    }
}

/// The bounds cut the blocks out of all numbers.
proof fn lemma_blocks_cut(lists: Seq<Seq<u32>>)
    requires
        flat_blocks(lists).len() <= usize::MAX,
    ensures
        blocks::cuts(block_bounds(lists), flat_blocks(lists).len()),
{
    let all = flat_blocks(lists);
    let bounds = block_bounds(lists);
    assert(lists.take(lists.len() as int) =~= lists);
    assert forall|i: int, j: int| 0 <= i <= j < bounds.len() implies #[trigger] bounds[i]
        <= #[trigger] bounds[j] <= all.len() by {
        lemma_blocks_lead(lists, i, j);
        lemma_blocks_lead(lists, j, lists.len() as int);
    }
}

/// The bounds of a block cut it out of all numbers.
proof fn lemma_block_at(lists: Seq<Seq<u32>>, b: int)
    requires
        flat_blocks(lists).len() <= usize::MAX,
        0 <= b < lists.len(),
    ensures
        flat_blocks(lists).subrange(
            block_bounds(lists)[b] as int,
            block_bounds(lists)[b + 1] as int,
        ) == block_of(lists[b]),
{
    let all = flat_blocks(lists);
    let bounds = block_bounds(lists);
    let front = flat_blocks(lists.take(b));
    let next = flat_blocks(lists.take(b + 1));
    assert(lists.take(lists.len() as int) =~= lists);
    lemma_blocks_lead(lists, b + 1, lists.len() as int);
    assert(lists.take(b + 1).drop_last() =~= lists.take(b));
    assert(next == front + block_of(lists[b]));
    assert(all.subrange(bounds[b] as int, bounds[b + 1] as int) =~= all.take(
        next.len() as int,
    ).skip(front.len() as int));
    assert(next.skip(front.len() as int) =~= block_of(lists[b]));
}

/// Adds the block of a list that is not empty.
fn push_block(deltas: &mut Vec<u32>, data: &Vec<u32>, start: usize, end: usize)
    requires
        start < end <= data@.len(),
        sorted::is_ascending(data@.subrange(start as int, end as int)),
    ensures
        final(deltas)@ == old(deltas)@ + block_of(data@.subrange(start as int, end as int)),
{
    let ghost list = data@.subrange(start as int, end as int);
    let ghost deltas0 = deltas@;
    let mut prev: u32 = 0;
    for j in start..end
        invariant
            start <= end <= data@.len(),
            list == data@.subrange(start as int, end as int),
            sorted::is_ascending(list),
            list.len() > 0,
            prev == if j == start {
                0u32
            } else {
                list[j - start - 1]
            },
            deltas@ == deltas0 + block_of(list).take(j - start),
    {
        let value: u32 = data[j];
        assert(value == list[j - start]);
        if j > start {
            assert(list[j - start - 1] <= list[j - start]);
        }
        deltas.push(value - prev);
        assert(deltas@ =~= deltas0 + block_of(list).take(j + 1 - start));
        prev = value;
    }
    assert(block_of(list).take(end - start) =~= block_of(list));
}

/// The list of each node, where an empty one may lie anywhere.
pub open spec fn lists_of(nd: NeighborData) -> Seq<Seq<u32>> {
    Seq::new(
        nd.nodes(),
        |node: int|
            if nd.offsets@[node] == nd.offsets@[node + 1] {
                Seq::empty()
            } else {
                nd.segment(node)
            },
    )
}

/// Hands out the neighbours of a list stored as differences.
#[allow(inconsistent_fields)]
pub enum StreamVByteIter {
    Empty,
    Small { buf: [u32; 64], pos: usize, len: usize, acc: u32 },
    Large { buf: [u32; 256], pos: usize, len: usize, acc: u32 },
}

/// The part of a buffer from `pos` up to `len`.
pub open spec fn pending(buf: Seq<u32>, pos: usize, len: usize) -> Seq<u32> {
    if pos <= len {
        buf.subrange(pos as int, len as int)
    } else {
        Seq::empty()
    }
}

proof fn lemma_pending(buf: Seq<u32>, pos: usize, len: usize, acc: u32)
    requires
        pos < len <= buf.len(),
    ensures
        ({
            let next = wrapping_sum(acc, buf[pos as int]);
            let sums = running_sums(acc, pending(buf, pos, len));
            &&& sums.len() > 0
            &&& sums[0] == next
            &&& running_sums(next, pending(buf, (pos + 1) as usize, len)) == sums.drop_first()
        }),
{
    let part = pending(buf, pos, len);
    let next = wrapping_sum(acc, buf[pos as int]);
    assert(part.drop_first() =~= pending(buf, (pos + 1) as usize, len));
    assert(running_sums(acc, part).drop_first() =~= running_sums(next, part.drop_first()));
}

impl StreamVByteIter {
    /// Hands out nothing.
    pub fn empty() -> (iter: Self)
        ensures
            iter == StreamVByteIter::Empty,
            iter.wf(),
            iter.rest() == Seq::<u32>::empty(),
    {
        Self::Empty
    }

    /// A small buffer with nothing in it.
    pub fn small() -> (iter: Self)
        ensures
            iter matches StreamVByteIter::Small { buf, pos, len, acc } && pos == 0 && len == 0 && acc
                == 0 && (forall|i: int| 0 <= i < 64 ==> #[trigger] buf@[i] == 0),
            iter.wf(),
            iter.rest() == Seq::<u32>::empty(),
    {
        Self::Small { buf: [0u32; 64], pos: 0, len: 0, acc: 0 }
    }

    /// A large buffer with nothing in it.
    pub fn large() -> (iter: Self)
        ensures
            iter matches StreamVByteIter::Large { buf, pos, len, acc } && pos == 0 && len == 0 && acc
                == 0 && (forall|i: int| 0 <= i < 256 ==> #[trigger] buf@[i] == 0),
            iter.wf(),
            iter.rest() == Seq::<u32>::empty(),
    {
        Self::Large { buf: [0u32; 256], pos: 0, len: 0, acc: 0 }
    }
}

impl NeighborIter for StreamVByteIter {
    open spec fn wf(&self) -> bool {
        match *self {
            StreamVByteIter::Empty => true,
            StreamVByteIter::Small { buf, pos, len, acc } => len <= 64,
            StreamVByteIter::Large { buf, pos, len, acc } => len <= 256,
        }
    }

    open spec fn rest(&self) -> Seq<u32> {
        match *self {
            StreamVByteIter::Empty => Seq::empty(),
            StreamVByteIter::Small { buf, pos, len, acc } => running_sums(
                acc,
                pending(buf@, pos, len),
            ),
            StreamVByteIter::Large { buf, pos, len, acc } => running_sums(
                acc,
                pending(buf@, pos, len),
            ),
        }
    }

    fn next(&mut self) -> (id: Option<u32>) {
        match self {
            StreamVByteIter::Empty => None,
            StreamVByteIter::Small { buf, pos, len, acc } => {
                if *pos >= *len {
                    return None;
                }
                proof {
                    lemma_pending(buf@, *pos, *len, *acc);
                }
                *acc = acc.wrapping_add(buf[*pos]);
                *pos = *pos + 1;
                Some(*acc)
            },
            StreamVByteIter::Large { buf, pos, len, acc } => {
                if *pos >= *len {
                    return None;
                }
                proof {
                    lemma_pending(buf@, *pos, *len, *acc);
                }
                *acc = acc.wrapping_add(buf[*pos]);
                *pos = *pos + 1;
                Some(*acc)
            },
        }
    }
}

/// Neighbour lists in blocks of differences, one block for each list, as a Stream VByte encoder
/// takes them.
///
/// The block of an empty list holds a single 0, and a bit tells that the list is empty. Blocks are
/// held as plain numbers; what they take when they are encoded is for the encoder to say.
pub struct StreamVByteNeighbors {
    blocks: StreamVByteBlocks,
    empty_nodes: Vec<u64>,
    logical_len: usize,
}

/// Bit `node` is set in a sequence of words.
pub open spec fn has_bit(words: Seq<u64>, node: int) -> bool {
    &&& node / 64 < words.len()
    &&& words[node / 64] & (1u64 << ((node % 64) as u64)) != 0
}

/// Setting a bit changes no other bit.
proof fn lemma_set_bit(words: Seq<u64>, node: int)
    requires
        0 <= node,
        node / 64 < words.len(),
    ensures
        ({
            let word = words[node / 64] | (1u64 << ((node % 64) as u64));
            forall|other: int| 0 <= other ==> #[trigger] has_bit(
                words.update(node / 64, word),
                other,
            ) == (has_bit(words, other) || other == node)
        }),
{
    let b = (node % 64) as u64;
    let old_word = words[node / 64];
    let word = old_word | (1u64 << b);
    assert forall|other: int| 0 <= other implies #[trigger] has_bit(
        words.update(node / 64, word),
        other,
    ) == (has_bit(words, other) || other == node) by {
        if other / 64 == node / 64 {
            let c = (other % 64) as u64;
            assert(((old_word | (1u64 << b)) & (1u64 << c) != 0) == ((old_word & (1u64 << c) != 0)
                || b == c)) by (bit_vector)
                requires
                    b < 64,
                    c < 64,
            ;
        }
    }
}

impl StreamVByteNeighbors {
    pub closed spec fn inner(&self) -> StreamVByteBlocks {
        self.blocks
    }

    /// The words that tell which lists are empty.
    pub closed spec fn empty_words(&self) -> Seq<u64> {
        self.empty_nodes@
    }

    pub closed spec fn total(&self) -> nat {
        self.logical_len as nat
    }

    /// Lists that can be stored: each ascends and holds no more numbers than a block can.
    pub open spec fn fits(nd: NeighborData) -> bool {
        forall|node: int| #[trigger]
            Self::fits_at(nd, node)
    }

    pub open spec fn fits_at(nd: NeighborData, node: int) -> bool {
        0 <= node < nd.nodes() && nd.offsets@[node] != nd.offsets@[node + 1] ==> {
            &&& nd.has_segment(node)
            &&& nd.segment(node).len() <= STREAMVBYTE_BLOCKS_MAX_BUF
            &&& sorted::is_ascending(nd.segment(node))
        }
    }

    /// Stores raw lists.
    pub fn from(nd: NeighborData) -> (neighbors: Self)
        requires
            Self::fits(nd),
        ensures
            neighbors.wf(),
            neighbors.edge_count() == nd.data@.len(),
            neighbors.node_count() == nd.nodes(),
            forall|node: int|
                #![trigger neighbors.list(node)]
                #![trigger neighbors.has_node(node)]
                neighbors.has_node(node) == (0 <= node < nd.nodes()) && (0 <= node < nd.nodes()
                    ==> neighbors.list(node) == lists_of(nd)[node]),
            neighbors.blocks() == Some((flat_blocks(lists_of(nd)), block_bounds(lists_of(nd)))),
            neighbors.plain_bytes() == word_count(lists_of(nd)) * 8,
    {
        let ghost lists = lists_of(nd);
        let n: usize = nd.offsets.len().saturating_sub(1);
        let words: usize = n / 64 + if n % 64 > 0 {
            1
        } else {
            0
        };
        let mut deltas: Vec<u32> = Vec::new();
        let mut offsets: Vec<usize> = Vec::new();
        let mut empty_nodes: Vec<u64> = vec![0u64; words];
        let mut has_empty_nodes = false;
        offsets.push(0);
        proof {
            assert(lists.take(0).take(0) =~= lists.take(0));
            assert(offsets@ =~= block_bounds(lists.take(0)));
            assert forall|k: int| 0 <= k implies !(#[trigger] has_bit(empty_nodes@, k)) by {
                if k / 64 < empty_nodes@.len() {
                    let c = (k % 64) as u64;
                    assert(0u64 & (1u64 << c) == 0) by (bit_vector);
                }
            }
        }
        for node_id in 0..n
            invariant
                Self::fits(nd),
                n == nd.nodes(),
                lists == lists_of(nd),
                empty_nodes@.len() == n / 64 + (if n % 64 > 0 {
                    1int
                } else {
                    0int
                }),
                deltas@ == flat_blocks(lists.take(node_id as int)),
                offsets@ == block_bounds(lists.take(node_id as int)),
                forall|k: int|
                    0 <= k ==> #[trigger] has_bit(empty_nodes@, k) == (k < node_id && nd.offsets@[k]
                        == nd.offsets@[k + 1]),
                has_empty_nodes == exists|k: int|
                    0 <= k < node_id && (#[trigger] lists[k]).len() == 0,
        {
            let start: usize = nd.offsets[node_id];
            let end: usize = nd.offsets[node_id + 1];
            let ghost now = lists.take(node_id + 1);
            proof {
                assert(now.drop_last() =~= lists.take(node_id as int));
                assert(Self::fits_at(nd, node_id as int));
                assert((start == end) == (lists[node_id as int].len() == 0));
            }
            if start == end {
                has_empty_nodes = true;
                let word: u64 = empty_nodes[node_id / 64] | (1u64 << ((node_id % 64) as u64));
                proof {
                    lemma_set_bit(empty_nodes@, node_id as int);
                }
                empty_nodes.set(node_id / 64, word);
                deltas.push(0);
                assert(deltas@ =~= flat_blocks(now));
            } else {
                push_block(&mut deltas, &nd.data, start, end);
            }
            offsets.push(deltas.len());
            proof {
                assert forall|k: int| 0 <= k <= node_id + 1 implies offsets@[k] == #[trigger] block_bounds(
                    now,
                )[k] by {
                    if k <= node_id {
                        assert(now.take(k) =~= lists.take(node_id as int).take(k));
                    } else {
                        assert(now.take(k) =~= now);
                    }
                }
                assert(offsets@ =~= block_bounds(now));
            }
        }
        assert(lists.take(n as int) =~= lists);
        Self::assemble(nd, deltas, offsets, empty_nodes, has_empty_nodes)
    }

    /// Puts the blocks of all lists together with the words that tell which lists are empty.
    fn assemble(
        nd: NeighborData,
        deltas: Vec<u32>,
        offsets: Vec<usize>,
        empty_nodes: Vec<u64>,
        has_empty_nodes: bool,
    ) -> (neighbors: Self)
        requires
            Self::fits(nd),
            deltas@ == flat_blocks(lists_of(nd)),
            offsets@ == block_bounds(lists_of(nd)),
            empty_nodes@.len() == (nd.nodes() + 63) / 64,
            forall|k: int|
                0 <= k < nd.nodes() ==> #[trigger] has_bit(empty_nodes@, k) == (nd.offsets@[k]
                    == nd.offsets@[k + 1]),
            has_empty_nodes == exists|k: int|
                0 <= k < nd.nodes() && (#[trigger] lists_of(nd)[k]).len() == 0,
        ensures
            neighbors.wf(),
            neighbors.edge_count() == nd.data@.len(),
            neighbors.node_count() == nd.nodes(),
            forall|node: int|
                #![trigger neighbors.list(node)]
                #![trigger neighbors.has_node(node)]
                neighbors.has_node(node) == (0 <= node < nd.nodes()) && (0 <= node < nd.nodes()
                    ==> neighbors.list(node) == lists_of(nd)[node]),
            neighbors.blocks() == Some((flat_blocks(lists_of(nd)), block_bounds(lists_of(nd)))),
            neighbors.plain_bytes() == word_count(lists_of(nd)) * 8,
    {
        let ghost lists = lists_of(nd);
        let ghost bits = empty_nodes@;
        let kept: Vec<u64> = if has_empty_nodes {
            empty_nodes
        } else {
            Vec::new()
        };
        proof {
            assert(deltas@.len() == deltas.len());
            lemma_blocks_cut(lists);
        }
        let neighbors = StreamVByteNeighbors {
            blocks: StreamVByteBlocks::new(deltas, offsets),
            empty_nodes: kept,
            logical_len: nd.data.len(),
        };
        proof {
            assert forall|node: int| 0 <= node < nd.nodes() implies #[trigger] has_bit(
                neighbors.empty_nodes@,
                node,
            ) == (nd.offsets@[node] == nd.offsets@[node + 1]) by {
                assert(has_bit(bits, node) == (nd.offsets@[node] == nd.offsets@[node + 1]));
                assert(Self::fits_at(nd, node));
                assert((nd.offsets@[node] == nd.offsets@[node + 1]) == (lists[node].len() == 0));
            }
            assert forall|node: int| 0 <= node < nd.nodes() implies #[trigger] neighbors.blocks@[node]
                == block_of(lists[node]) by {
                lemma_block_at(lists, node);
            }
            neighbors.lemma_built(nd);
        }
        neighbors
    }

    /// Blocks made of lists hold these lists.
    proof fn lemma_built(&self, nd: NeighborData)
        requires
            Self::fits(nd),
            self.blocks.wf(),
            self.blocks@.len() == nd.nodes(),
            forall|node: int|
                0 <= node < nd.nodes() ==> #[trigger] has_bit(self.empty_nodes@, node) == (
                nd.offsets@[node] == nd.offsets@[node + 1]),
            forall|node: int|
                0 <= node < nd.nodes() ==> #[trigger] self.blocks@[node] == block_of(
                    lists_of(nd)[node],
                ),
        ensures
            self.wf(),
            forall|node: int|
                #![trigger self.list(node)]
                #![trigger self.has_node(node)]
                self.has_node(node) == (0 <= node < nd.nodes()) && (0 <= node < nd.nodes()
                    ==> self.list(node) == lists_of(nd)[node]),
    {
        assert forall|node: int|
            #![trigger self.list(node)]
            #![trigger self.blocks@[node]]
            0 <= node < nd.nodes() implies self.list(node) == lists_of(nd)[node] && Self::accepts(
            self.list(node),
        ) && self.blocks@[node].len() <= STREAMVBYTE_BLOCKS_MAX_BUF by {
            assert(self.blocks@[node] == block_of(lists_of(nd)[node]));
            assert(has_bit(self.empty_nodes@, node) == (nd.offsets@[node] == nd.offsets@[node
                + 1]));
            if nd.offsets@[node] != nd.offsets@[node + 1] {
                assert(Self::fits_at(nd, node));
                law_sums_undo_deltas(0, nd.segment(node), self.blocks@[node]);
            }
        }
    }

    /// Whether the list of a node is known to be empty.
    fn is_empty_node(&self, node_id: usize) -> (b: bool)
        ensures
            b == has_bit(self.empty_nodes@, node_id as int),
    {
        node_id / 64 < self.empty_nodes.len() && self.empty_nodes[node_id / 64] & (1u64 << ((node_id
            % 64) as u64)) != 0
    }
}

impl Neighbors for StreamVByteNeighbors {
    type Iter<'a> = StreamVByteIter;

    closed spec fn wf(&self) -> bool {
        &&& self.blocks.wf()
        &&& forall|node: int|
            0 <= node < self.blocks@.len() ==> (#[trigger] self.blocks@[node]).len()
                <= STREAMVBYTE_BLOCKS_MAX_BUF
        &&& forall|node: int|
            0 <= node < self.blocks@.len() ==> Self::accepts(#[trigger] self.list(node))
    }

    open spec fn edge_count(&self) -> nat {
        self.total()
    }

    open spec fn node_count(&self) -> nat {
        self.inner()@.len()
    }

    open spec fn has_node(&self, node: int) -> bool {
        &&& 0 <= node < self.inner()@.len()
        &&& self.inner()@[node].len() <= STREAMVBYTE_BLOCKS_MAX_BUF
    }

    open spec fn list(&self, node: int) -> Seq<u32> {
        if has_bit(self.empty_words(), node) {
            Seq::empty()
        } else {
            running_sums(0, self.inner()@[node])
        }
    }

    open spec fn blocks(&self) -> Option<(Seq<u32>, Seq<usize>)> {
        Some((self.inner().all_values(), self.inner().all_offsets()))
    }

    open spec fn plain_bytes(&self) -> nat {
        self.empty_words().len() * 8
    }

    open spec fn accepts(list: Seq<u32>) -> bool {
        list.len() <= STREAMVBYTE_BLOCKS_MAX_BUF && sorted::is_ascending(list)
    }

    proof fn law_accepts_own(&self, node: int) {
    }

    proof fn law_accepts_no_longer(list: Seq<u32>, other: Seq<u32>) {
        assert forall|i: int, j: int| 0 <= i <= j < other.len() implies #[trigger] other[i]
            <= #[trigger] other[j] by {
            if i < j {
                assert(other[i] < other[j]);
            }
        }
    }

    fn len(&self) -> (n: usize) {
        self.logical_len
    }

    fn n_nodes(&self) -> (n: usize) {
        self.blocks.num_blocks()
    }

    fn iter_node<'a>(&'a self, node_id: usize) -> (iter: StreamVByteIter) {
        if self.is_empty_node(node_id) {
            return StreamVByteIter::empty();
        }
        if self.blocks.block_len(node_id) <= STREAMVBYTE_BLOCKS_SMALL_BUF {
            let mut buf: [u32; 64] = [0u32; 64];
            let len: usize = self.blocks.get_block(node_id, &mut buf);
            let iter = StreamVByteIter::Small { buf, pos: 0, len, acc: 0 };
            assert(pending(buf@, 0, len) =~= buf@.take(len as int));
            iter
        } else {
            let mut buf: [u32; 256] = [0u32; 256];
            let len: usize = self.blocks.get_block(node_id, &mut buf);
            let iter = StreamVByteIter::Large { buf, pos: 0, len, acc: 0 };
            assert(pending(buf@, 0, len) =~= buf@.take(len as int));
            iter
        }
    }

    fn byte_size<F: Fn(&Vec<u32>, &Vec<usize>) -> usize>(&self, blocks_len: &F) -> (bytes: usize) {
        broadcast use vstd::layout::group_layout_axioms;

        let encoded: usize = blocks_len(self.blocks.values(), self.blocks.offsets());
        assert(encoded + self.empty_nodes@.len() * 8 <= usize::MAX);
        encoded + self.empty_nodes.len() * std::mem::size_of::<u64>()
    }

    fn none() -> (neighbors: Self)
        ensures
            neighbors.blocks() == Some((Seq::<u32>::empty(), Seq::<usize>::empty())),
            neighbors.plain_bytes() == 0,
    {
        StreamVByteNeighbors {
            blocks: StreamVByteBlocks::new(Vec::new(), Vec::new()),
            empty_nodes: Vec::new(),
            logical_len: 0,
        }
    }

    fn from_data(nd: NeighborData) -> (neighbors: Self)
        ensures
            neighbors.blocks() == Some((flat_blocks(lists_of(nd)), block_bounds(lists_of(nd)))),
            neighbors.plain_bytes() == word_count(lists_of(nd)) * 8,
    {
        proof {
            assert forall|node: int| #[trigger] StreamVByteNeighbors::fits_at(nd, node) by {
                if 0 <= node < nd.nodes() {
                    assert(nd.has_segment(node));
                }
            }
            assert forall|node: int|
                0 <= node < nd.nodes() && nd.offsets@[node] == nd.offsets@[node
                    + 1] implies #[trigger] nd.segment(node) == Seq::<u32>::empty() by {
                assert(nd.has_segment(node));
                assert(nd.segment(node) =~= Seq::<u32>::empty());
            }
        }
        StreamVByteNeighbors::from(nd)
    }
}

impl Clone for StreamVByteNeighbors {
    fn clone(&self) -> (copy: Self)
        ensures
            copy.wf() == self.wf(),
            copy.total() == self.total(),
            copy.empty_words() == self.empty_words(),
            copy.inner()@ == self.inner()@,
            copy.blocks() == self.blocks(),
    {
        let copy = StreamVByteNeighbors {
            blocks: self.blocks.clone(),
            empty_nodes: self.empty_nodes.clone(),
            logical_len: self.logical_len,
        };
        assert(copy.empty_nodes@ =~= self.empty_nodes@);
        assert forall|node: int|
            #![trigger copy.list(node)]
            #![trigger self.list(node)]
            copy.list(node) == self.list(node) by {}
        copy
    }
}

impl Default for StreamVByteNeighbors {
    fn default() -> (neighbors: Self)
        ensures
            neighbors.wf(),
            neighbors.edge_count() == 0,
            neighbors.node_count() == 0,
            neighbors.blocks() == Some((Seq::<u32>::empty(), Seq::<usize>::empty())),
            neighbors.plain_bytes() == 0,
    {
        Self::none()
    }
}

} // verus!
