//! Offsets stored as a strictly increasing sequence.

use crate::graph::encoded;
use vstd::prelude::*;

verus! {

/// A non-decreasing sequence of offsets.
///
/// Each offset is stored with its index added to it, so that what is stored strictly increases, as
/// an Elias-Fano encoding wants it. It is held as plain numbers.
pub struct EliasFanoOffsets {
    shifted: Vec<usize>,
}

/// The offsets never fall, and stay in range when their indices are added.
pub open spec fn can_shift(offsets: Seq<usize>) -> bool {
    &&& forall|i: int, j: int|
        0 <= i <= j < offsets.len() ==> #[trigger] offsets[i] <= #[trigger] offsets[j]
    &&& forall|i: int| 0 <= i < offsets.len() ==> #[trigger] offsets[i] + i <= usize::MAX
}

/// The offsets with their indices added.
pub open spec fn shift(offsets: Seq<usize>) -> Seq<usize> {
    offsets.map(|i: int, v: usize| (v + i) as usize)
}

impl View for EliasFanoOffsets {
    type V = Seq<usize>;

    closed spec fn view(&self) -> Seq<usize> {
        self.shifted@.map(|i: int, v: usize| (v - i) as usize)
    }
}

impl EliasFanoOffsets {
    /// What is stored strictly increases.
    pub closed spec fn wf(&self) -> bool {
        &&& forall|i: int, j: int|
            0 <= i < j < self.shifted@.len() ==> #[trigger] self.shifted@[i]
                < #[trigger] self.shifted@[j]
        &&& forall|i: int| 0 <= i < self.shifted@.len() ==> #[trigger] self.shifted@[i] >= i
    }

    /// Stores offsets.
    pub fn from(data: Vec<usize>) -> (offsets: Self)
        requires
            can_shift(data@),
        ensures
            offsets.wf(),
            offsets@ == data@,
    {
        Self::from_slice(&data)
    }

    /// Stores offsets.
    pub fn from_slice(offsets: &[usize]) -> (stored: Self)
        requires
            can_shift(offsets@),
        ensures
            stored.wf(),
            stored@ == offsets@,
    {
        let mut shifted: Vec<usize> = Vec::new();
        for i in 0..offsets.len()
            invariant
                can_shift(offsets@),
                shifted@.len() == i,
                forall|j: int| 0 <= j < i ==> #[trigger] shifted@[j] == offsets@[j] + j,
        {
            shifted.push(offsets[i] + i);
        }
        let stored = EliasFanoOffsets { shifted };
        assert(stored@ =~= offsets@);
        stored
    }

    /// The number of offsets.
    pub fn len(&self) -> (n: usize)
        ensures
            n == self@.len(),
    {
        self.shifted.len()
    }

    /// The offset at an index.
    pub fn get(&self, i: usize) -> (offset: usize)
        requires
            self.wf(),
            i < self@.len(),
        ensures
            offset == self@[i as int],
    {
        self.shifted[i] - i
    }

    /// The offset at an index, if there is one.
    pub fn try_get(&self, i: usize) -> (offset: Option<usize>)
        requires
            self.wf(),
        ensures
            offset == if i < self@.len() {
                Some(self@[i as int])
            } else {
                None
            },
    {
        if i < self.shifted.len() {
            Some(self.shifted[i] - i)
        } else {
            None
        }
    }

    /// The bytes that the stored sequence takes in its encoding.
    ///
    /// `encoded_len` tells how many bytes an encoded sequence takes; it is given the offsets with
    /// their indices added.
    pub fn byte_size<P: Fn(&Vec<usize>) -> usize>(&self, encoded_len: &P) -> (bytes: usize)
        requires
            self.wf(),
            encoded::ids_can_be_sized(*encoded_len, Some(shift(self@)), 0),
        ensures
            encoded::is_ids_size(*encoded_len, Some(shift(self@)), 0, bytes as nat),
    {
        assert(shift(self@) =~= self.shifted@);
        encoded_len(&self.shifted)
    }
}

impl Clone for EliasFanoOffsets {
    fn clone(&self) -> (copy: Self)
        ensures
            copy.wf() == self.wf(),
            copy@ == self@,
    {
        let copy = EliasFanoOffsets { shifted: self.shifted.clone() };
        assert(copy.shifted@ =~= self.shifted@);
        copy
    }
}

impl Default for EliasFanoOffsets {
    fn default() -> (offsets: Self)
        ensures
            offsets.wf(),
            offsets@ == Seq::<usize>::empty(),
    {
        let offsets = EliasFanoOffsets { shifted: Vec::new() };
        assert(offsets@ =~= Seq::<usize>::empty());
        offsets
    }
}

} // verus!
