//! Sequences of numbers cut into blocks that are read one at a time.

use vstd::prelude::*;

verus! {

/// The numbers of all blocks, and where each block begins and ends.
///
/// The numbers are held as they are.
pub struct StreamVByteBlocks {
    values: Vec<u32>,
    offsets: Vec<usize>,
}

impl View for StreamVByteBlocks {
    type V = Seq<Seq<u32>>;

    closed spec fn view(&self) -> Seq<Seq<u32>> {
        Seq::new(
            block_count(self.offsets@),
            |b: int| self.values@.subrange(self.offsets@[b] as int, self.offsets@[b + 1] as int),
        )
    }
}

/// The number of blocks between offsets.
pub open spec fn block_count(offsets: Seq<usize>) -> nat {
    if offsets.len() == 0 {
        0
    } else {
        (offsets.len() - 1) as nat
    }
}

/// `offsets` cut a sequence of `len` numbers into blocks.
pub open spec fn cuts(offsets: Seq<usize>, len: nat) -> bool {
    forall|i: int, j: int|
        0 <= i <= j < offsets.len() ==> #[trigger] offsets[i] <= #[trigger] offsets[j] <= len
}

impl Clone for StreamVByteBlocks {
    fn clone(&self) -> (copy: Self)
        ensures
            copy@ == self@,
            copy.wf() == self.wf(),
            copy.all_values() == self.all_values(),
            copy.all_offsets() == self.all_offsets(),
    {
        let copy = StreamVByteBlocks {
            values: self.values.clone(),
            offsets: self.offsets.clone(),
        };
        assert(copy.values@ =~= self.values@);
        assert(copy.offsets@ =~= self.offsets@);
        copy
    }
}

impl StreamVByteBlocks {
    pub closed spec fn wf(&self) -> bool {
        cuts(self.offsets@, self.values@.len())
    }

    /// The numbers of all blocks, one after the other.
    pub closed spec fn all_values(&self) -> Seq<u32> {
        self.values@
    }

    /// Where the blocks begin, and where the last one ends.
    pub closed spec fn all_offsets(&self) -> Seq<usize> {
        self.offsets@
    }

    /// Cuts `values` at `offsets`.
    pub fn new(values: Vec<u32>, offsets: Vec<usize>) -> (blocks: Self)
        requires
            cuts(offsets@, values@.len()),
        ensures
            blocks.wf(),
            blocks.all_values() == values@,
            blocks.all_offsets() == offsets@,
            blocks@ == Seq::new(
                block_count(offsets@),
                |b: int| values@.subrange(offsets@[b] as int, offsets@[b + 1] as int),
            ),
    {
        StreamVByteBlocks { values, offsets }
    }

    /// The number of blocks.
    pub fn num_blocks(&self) -> (n: usize)
        requires
            self.wf(),
        ensures
            n == self@.len(),
    {
        self.offsets.len().saturating_sub(1)
    }

    /// The length of a block.
    pub fn block_len(&self, id: usize) -> (n: usize)
        requires
            self.wf(),
            id < self@.len(),
        ensures
            n == self@[id as int].len(),
    {
        assert(id + 1 < self.offsets.len());
        self.offsets[id + 1] - self.offsets[id]
    }

    /// Copies a block to the front of a buffer; returns its length.
    pub fn get_block<const N: usize>(&self, id: usize, buf: &mut [u32; N]) -> (n: usize)
        requires
            self.wf(),
            id < self@.len(),
            self@[id as int].len() <= N,
        ensures
            n == self@[id as int].len(),
            final(buf)@.take(n as int) == self@[id as int],
    {
        assert(id + 1 < self.offsets.len());
        let begin: usize = self.offsets[id];
        let n: usize = self.offsets[id + 1] - begin;
        let mut i: usize = 0;
        while i < n
            invariant
                self.wf(),
                id < self@.len(),
                begin == self.offsets@[id as int],
                n == self@[id as int].len(),
                n <= N,
                i <= n,
                self@[id as int] == self.values@.subrange(begin as int, begin + n),
                begin + n <= self.values@.len(),
                forall|j: int| 0 <= j < i ==> #[trigger] buf@[j] == self@[id as int][j],
            decreases n - i,
        {
            buf[i] = self.values[begin + i];
            i = i + 1;
        }
        assert(buf@.take(n as int) =~= self@[id as int]);
        n
    }

    /// The numbers of all blocks, one after the other.
    pub fn values(&self) -> (values: &Vec<u32>)
        ensures
            values@ == self.all_values(),
    {
        &self.values
    }

    /// Where the blocks begin, and where the last one ends.
    pub fn offsets(&self) -> (offsets: &Vec<usize>)
        ensures
            offsets@ == self.all_offsets(),
    {
        &self.offsets
    }
}

} // verus!
