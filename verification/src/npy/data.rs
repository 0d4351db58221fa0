//! The items of a `.npy` file.

use crate::npy::header::NpyError;
use crate::text;
use vstd::prelude::*;

verus! {

/// How an item is stored.
#[derive(Clone, Copy, Debug, PartialEq, Eq, Structural)]
pub struct Dtype {
    /// The number of bytes.
    pub size: usize,
    /// Whether the highest byte comes first.
    pub big: bool,
}

/// How the items of a type are stored.
pub open spec fn dtype_of(descr: Seq<char>) -> Option<Dtype> {
    if descr == "|u1"@ || descr == "<u1"@ || descr == ">u1"@ {
        Some(Dtype { size: 1, big: false })
    } else if descr == "<u2"@ {
        Some(Dtype { size: 2, big: false })
    } else if descr == ">u2"@ {
        Some(Dtype { size: 2, big: true })
    } else if descr == "<u4"@ {
        Some(Dtype { size: 4, big: false })
    } else if descr == ">u4"@ {
        Some(Dtype { size: 4, big: true })
    } else if descr == "<u8"@ {
        Some(Dtype { size: 8, big: false })
    } else if descr == ">u8"@ {
        Some(Dtype { size: 8, big: true })
    } else {
        None
    }
}

/// The number that bytes stand for, the lowest byte first.
pub open spec fn le_value(bytes: Seq<u8>) -> nat
    decreases bytes.len(),
{
    if bytes.len() == 0 {
        0
    } else {
        bytes[0] as nat + 256 * le_value(bytes.drop_first())
    }
}

/// The number that bytes stand for, the highest byte first.
pub open spec fn be_value(bytes: Seq<u8>) -> nat
    decreases bytes.len(),
{
    if bytes.len() == 0 {
        0
    } else {
        bytes.last() as nat + 256 * be_value(bytes.drop_last())
    }
}

/// The number that an item stands for.
pub open spec fn item_value(bytes: Seq<u8>, big: bool) -> nat {
    if big {
        be_value(bytes)
    } else {
        le_value(bytes)
    }
}

/// The bytes of item `i`.
pub open spec fn item_bytes(body: Seq<u8>, size: nat, i: int) -> Seq<u8> {
    body.subrange(i * size, i * size + size)
}

/// The numbers that the items stand for; bytes that make up no item are left out.
pub open spec fn item_values(body: Seq<u8>, dtype: Dtype) -> Seq<nat> {
    Seq::new(
        body.len() / (dtype.size as nat),
        |i: int| item_value(item_bytes(body, dtype.size as nat, i), dtype.big),
    )
}

/// All numbers fit.
pub open spec fn all_fit(values: Seq<nat>) -> bool {
    forall|i: int| 0 <= i < values.len() ==> #[trigger] values[i] <= usize::MAX
}

/// Numbers that fit, as they are returned.
pub open spec fn fitted(values: Seq<nat>) -> Seq<usize> {
    values.map_values(|v: nat| v as usize)
}

/// The items of an array, by its type and its bytes.
pub open spec fn decoded(descr: Seq<char>, body: Seq<u8>) -> Result<Seq<usize>, NpyError> {
    match dtype_of(descr) {
        Some(dtype) => if all_fit(item_values(body, dtype)) {
            Ok(fitted(item_values(body, dtype)))
        } else {
            Err(NpyError::ValueTooLarge)
        },
        None => Err(NpyError::UnsupportedDtype),
    }
}

/// 256 to the power of `n`.
pub open spec fn pow256(n: nat) -> nat
    decreases n,
{
    if n == 0 {
        1
    } else {
        256 * pow256((n - 1) as nat)
    }
}

proof fn lemma_pow256(n: nat)
    requires
        n <= 8,
    ensures
        pow256(n) <= 0x1_0000_0000_0000_0000,
        n <= 4 ==> pow256(n) <= 0x1_0000_0000,
{
    reveal_with_fuel(pow256, 9);
}

fn parse_dtype(descr: &str) -> (dtype: Option<Dtype>)
    ensures
        dtype == dtype_of(descr@),
{
    if text::is_same(descr, "|u1") || text::is_same(descr, "<u1") || text::is_same(descr, ">u1") {
        Some(Dtype { size: 1, big: false })
    } else if text::is_same(descr, "<u2") {
        Some(Dtype { size: 2, big: false })
    } else if text::is_same(descr, ">u2") {
        Some(Dtype { size: 2, big: true })
    } else if text::is_same(descr, "<u4") {
        Some(Dtype { size: 4, big: false })
    } else if text::is_same(descr, ">u4") {
        Some(Dtype { size: 4, big: true })
    } else if text::is_same(descr, "<u8") {
        Some(Dtype { size: 8, big: false })
    } else if text::is_same(descr, ">u8") {
        Some(Dtype { size: 8, big: true })
    } else {
        None
    }
}

/// The number of bytes of an item.
pub fn npy_dtype_item_size(descr: &str) -> (r: Result<usize, NpyError>)
    ensures
        r == match dtype_of(descr@) {
            Some(dtype) => Ok(dtype.size),
            None => Err(NpyError::UnsupportedDtype),
        },
{
    match parse_dtype(descr) {
        Some(dtype) => Ok(dtype.size),
        None => Err(NpyError::UnsupportedDtype),
    }
}

/// The number that the bytes from `start` on stand for, the lowest byte first.
pub(crate) fn read_le(body: &[u8], start: usize, size: usize) -> (v: u64)
    requires
        size <= 8,
        start + size <= body@.len(),
    ensures
        v == le_value(body@.subrange(start as int, start + size)),
        v < pow256(size as nat),
{
    let mut v: u64 = 0;
    let mut j: usize = 0;
    while j < size
        invariant
            size <= 8,
            start + size <= body@.len(),
            j <= size,
            v == le_value(body@.subrange(start + size - j, start + size)),
            v < pow256(j as nat),
        decreases size - j,
    {
        proof {
            lemma_pow256((j + 1) as nat);
            assert(body@.len() == body.len());
            let next = body@.subrange(start + size - j - 1, start + size);
            assert(next.drop_first() =~= body@.subrange(start + size - j, start + size));
        }
        v = v * 256 + body[start + size - j - 1] as u64;
        j = j + 1;
    }
    assert(body@.subrange(start + size - size, start + size) =~= body@.subrange(
        start as int,
        start + size,
    ));
    v
}

/// The number that the bytes from `start` on stand for, the highest byte first.
fn read_be(body: &[u8], start: usize, size: usize) -> (v: u64)
    requires
        size <= 8,
        start + size <= body@.len(),
    ensures
        v == be_value(body@.subrange(start as int, start + size)),
        v < pow256(size as nat),
{
    let mut v: u64 = 0;
    let mut j: usize = 0;
    while j < size
        invariant
            size <= 8,
            start + size <= body@.len(),
            j <= size,
            v == be_value(body@.subrange(start as int, start + j)),
            v < pow256(j as nat),
        decreases size - j,
    {
        proof {
            lemma_pow256((j + 1) as nat);
            assert(body@.len() == body.len());
            let next = body@.subrange(start as int, start + j + 1);
            assert(next.drop_last() =~= body@.subrange(start as int, start + j));
        }
        v = v * 256 + body[start + j] as u64;
        j = j + 1;
    }
    v
}

/// The items of an array.
///
/// An item that does not fit is an error. Bytes behind the last whole item are left out.
pub fn npy_decode_unsigned_usize(descr: &str, body: &[u8]) -> (r: Result<Vec<usize>, NpyError>)
    ensures
        match r {
            Ok(items) => decoded(descr@, body@) == Ok::<Seq<usize>, NpyError>(items@),
            Err(e) => decoded(descr@, body@) == Err::<Seq<usize>, NpyError>(e),
        },
{
    let dtype = match parse_dtype(descr) {
        Some(dtype) => dtype,
        None => {
            return Err(NpyError::UnsupportedDtype);
        },
    };
    let size: usize = dtype.size;
    let n: usize = body.len() / size;
    let ghost values = item_values(body@, dtype);
    let mut out: Vec<usize> = Vec::new();
    assert(n * size <= body@.len()) by (nonlinear_arith)
        requires
            n == body@.len() / (size as nat),
            size > 0,
    ;
    for i in 0..n
        invariant
            1 <= size <= 8,
            size == dtype.size,
            n == body@.len() / (size as nat),
            n * size <= body@.len(),
            Some(dtype) == dtype_of(descr@),
            values == item_values(body@, dtype),
            out@.len() == i,
            forall|j: int| 0 <= j < i ==> #[trigger] values[j] <= usize::MAX,
            forall|j: int| 0 <= j < i ==> #[trigger] out@[j] == values[j],
    {
        assert(i * size + size <= n * size) by (nonlinear_arith)
            requires
                i < n,
        ;
        assert(body@.len() == body.len());
        let start: usize = i * size;
        let x: u64 = if dtype.big {
            read_be(body, start, size)
        } else {
            read_le(body, start, size)
        };
        assert(x == values[i as int]);
        if x > usize::MAX as u64 {
            return Err(NpyError::ValueTooLarge);
        }
        out.push(x as usize);
    }
    assert(out@ =~= fitted(values));
    Ok(out)
}

} // verus!
