//! What lists and ids take where an encoder holds them.
//!
//! The library holds blocks, offsets and mappings as plain numbers. How many bytes they take in an
//! encoded form is for the encoder to say: it is given as a function of the numbers.

use vstd::prelude::*;

verus! {

/// An encoder of blocks can be asked about `blocks`, all numbers and where the blocks begin and
/// end; and what it says, with `plain` bytes more, can be counted. Where there are no blocks, it
/// is not asked.
pub open spec fn blocks_can_be_sized<F: Fn(&Vec<u32>, &Vec<usize>) -> usize>(
    blocks_len: F,
    blocks: Option<(Seq<u32>, Seq<usize>)>,
    plain: nat,
) -> bool {
    match blocks {
        None => plain <= usize::MAX,
        Some((values, offsets)) => {
            &&& forall|v: Vec<u32>, o: Vec<usize>|
                v@ == values && o@ == offsets ==> #[trigger] blocks_len.requires((&v, &o))
            &&& forall|v: Vec<u32>, o: Vec<usize>, n: usize|
                v@ == values && o@ == offsets && #[trigger] blocks_len.ensures((&v, &o), n)
                    ==> plain + n <= usize::MAX
        },
    }
}

/// `bytes` is what an encoder of blocks says of `blocks`, with `plain` bytes more.
pub open spec fn is_blocks_size<F: Fn(&Vec<u32>, &Vec<usize>) -> usize>(
    blocks_len: F,
    blocks: Option<(Seq<u32>, Seq<usize>)>,
    plain: nat,
    bytes: nat,
) -> bool {
    match blocks {
        None => bytes == plain,
        Some((values, offsets)) => exists|v: Vec<u32>, o: Vec<usize>, n: usize|
            v@ == values && o@ == offsets && #[trigger] blocks_len.ensures((&v, &o), n) && bytes
                == plain + n,
    }
}

/// An encoder of ids can be asked about `ids`, and what it says, with `plain` bytes more, can be
/// counted. Where there are no ids to encode, it is not asked.
pub open spec fn ids_can_be_sized<P: Fn(&Vec<usize>) -> usize>(
    ids_len: P,
    ids: Option<Seq<usize>>,
    plain: nat,
) -> bool {
    match ids {
        None => plain <= usize::MAX,
        Some(ids) => {
            &&& forall|i: Vec<usize>| i@ == ids ==> #[trigger] ids_len.requires((&i,))
            &&& forall|i: Vec<usize>, n: usize|
                i@ == ids && #[trigger] ids_len.ensures((&i,), n) ==> plain + n <= usize::MAX
        },
    }
}

/// `bytes` is what an encoder of ids says of `ids`, with `plain` bytes more.
pub open spec fn is_ids_size<P: Fn(&Vec<usize>) -> usize>(
    ids_len: P,
    ids: Option<Seq<usize>>,
    plain: nat,
    bytes: nat,
) -> bool {
    match ids {
        None => bytes == plain,
        Some(ids) => exists|i: Vec<usize>, n: usize|
            i@ == ids && #[trigger] ids_len.ensures((&i,), n) && bytes == plain + n,
    }
}

} // verus!
