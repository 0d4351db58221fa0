//! Permutations kept in `.npy` files.

use crate::hnsw_utils;
use crate::hnsw_utils::PermutationError;
use crate::npy::header::NpyError;
use crate::npy::laws;
use crate::npy::reader;
use crate::npy::writer;
use vstd::prelude::*;

verus! {

/// Why a permutation cannot be taken from a file.
#[derive(Clone, Copy, Debug, PartialEq, Eq, Structural)]
pub enum PermutationFileError {
    /// The file cannot be read.
    Unreadable { reason: NpyError },
    /// The file holds more or fewer numbers than there are nodes.
    WrongLength { expected: usize, got: usize },
    /// The file does not hold a permutation.
    Invalid { error: PermutationError },
}

/// The permutation of `n` nodes that the bytes of a file hold.
pub fn load_validated_permutation(bytes: &[u8], n: usize) -> (r: Result<
    Vec<usize>,
    PermutationFileError,
>)
    ensures
        match reader::read_array(bytes@) {
            Err(reason) => r == Err::<Vec<usize>, _>(PermutationFileError::Unreadable { reason }),
            Ok(items) => if items.len() != n {
                r == Err::<Vec<usize>, _>(
                    PermutationFileError::WrongLength { expected: n, got: items.len() as usize },
                )
            } else if hnsw_utils::is_permutation(items) {
                r is Ok && r->Ok_0@ == items
            } else {
                r matches Err(PermutationFileError::Invalid { error }) && hnsw_utils::is_complaint(
                    items,
                    error,
                )
            },
        },
{
    match reader::read_npy_usize_1d(bytes) {
        Err(reason) => Err(PermutationFileError::Unreadable { reason }),
        Ok(items) => if items.len() != n {
            Err(PermutationFileError::WrongLength { expected: n, got: items.len() })
        } else {
            match hnsw_utils::validate_permutation(items.as_slice()) {
                Ok(_) => Ok(items),
                Err(error) => Err(PermutationFileError::Invalid { error }),
            }
        },
    }
}

/// `i` is the first index at which a number does not fit into the stored width.
pub open spec fn is_first_too_large(items: Seq<usize>, i: int) -> bool {
    &&& 0 <= i < items.len()
    &&& items[i] > u32::MAX
    &&& forall|j: int| 0 <= j < i ==> #[trigger] items[j] <= u32::MAX
}

/// Why a permutation cannot be kept in a file.
#[derive(Clone, Copy, Debug, PartialEq, Eq, Structural)]
pub enum PermutationWriteError {
    /// It is no permutation.
    Invalid { error: PermutationError },
    /// A number does not fit into the stored width.
    TooLarge { value: usize },
}

/// Every number fits into the stored width.
pub open spec fn all_fit(items: Seq<usize>) -> bool {
    forall|i: int| 0 <= i < items.len() ==> #[trigger] items[i] <= u32::MAX
}

/// The numbers in the stored width.
pub open spec fn narrowed(items: Seq<usize>) -> Seq<u32> {
    items.map_values(|v: usize| v as u32)
}

/// The bytes of a file that holds a permutation.
pub fn permutation_file(permutation: &[usize]) -> (r: Result<Vec<u8>, PermutationWriteError>)
    ensures
        r is Ok <==> hnsw_utils::is_permutation(permutation@) && all_fit(permutation@),
        match r {
            Ok(bytes) => bytes@ == writer::u32_file(narrowed(permutation@)),
            Err(PermutationWriteError::Invalid { error }) => hnsw_utils::is_complaint(
                permutation@,
                error,
            ),
            Err(PermutationWriteError::TooLarge { value }) => {
                &&& hnsw_utils::is_permutation(permutation@)
                &&& exists|i: int| #[trigger]
                    is_first_too_large(permutation@, i) && value == permutation@[i]
            },
        },
{
    match hnsw_utils::validate_permutation(permutation) {
        Err(error) => {
            return Err(PermutationWriteError::Invalid { error });
        },
        Ok(_) => {},
    }
    let mut items: Vec<u32> = Vec::new();
    for i in 0..permutation.len()
        invariant
            hnsw_utils::is_permutation(permutation@),
            items@.len() == i,
            forall|j: int| 0 <= j < i ==> #[trigger] permutation@[j] <= u32::MAX,
            forall|j: int| 0 <= j < i ==> #[trigger] items@[j] == permutation@[j],
    {
        let value: usize = permutation[i];
        if value > 0xffff_ffff {
            assert(is_first_too_large(permutation@, i as int));
            return Err(PermutationWriteError::TooLarge { value });
        }
        items.push(value as u32);
    }
    assert(items@ =~= narrowed(permutation@));
    Ok(writer::write_npy_u32_1d(items.as_slice()))
}

/// A permutation that was written to a file is read back from it.
pub proof fn law_permutation_is_read_back(permutation: Seq<usize>)
    requires
        hnsw_utils::is_permutation(permutation),
        all_fit(permutation),
        4 * permutation.len() <= usize::MAX,
    ensures
        reader::read_array(writer::u32_file(narrowed(permutation))) == Ok::<Seq<usize>, NpyError>(
            permutation,
        ),
{
    let items = narrowed(permutation);
    laws::law_written_array_is_read_back(items);
    assert(laws::as_usize(items) =~= permutation);
}

} // verus!
