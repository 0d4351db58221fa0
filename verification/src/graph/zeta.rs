//! Neighbour lists as zeta codes.

use dsi_bitstream::prelude::{BufBitWriter, MemWordWriterVec, ZetaWrite, LE};
use vstd::arithmetic::power2;
use vstd::prelude::*;

verus! {

/// A signed number as a natural one: 0, -1, 1, -2, 2 and so on become 0, 1, 2, 3, 4.
pub open spec fn zigzag(value: int) -> nat {
    if value >= 0 {
        (2 * value) as nat
    } else {
        (-2 * value - 1) as nat
    }
}

/// The signed number that a natural one stands for.
pub open spec fn unzigzag(value: nat) -> int {
    if value % 2 == 0 {
        (value / 2) as int
    } else {
        -((value / 2) as int) - 1
    }
}

/// A signed number as a natural one.
pub fn i64_to_nat(value: i64) -> (n: u64)
    requires
        value > i64::MIN,
    ensures
        n == zigzag(value as int),
{
    if value >= 0 {
        let v: u64 = value as u64;
        assert(v << 1 == 2 * v) by (bit_vector)
            requires
                v <= 0x7fff_ffff_ffff_ffff,
        ;
        v << 1
    } else {
        ((-value) as u64) * 2 - 1
    }
}

/// The signed number that a natural one stands for.
pub fn nat_to_i64(value: u64) -> (v: i64)
    ensures
        v == unzigzag(value as nat),
{
    assert(value & 1 == value % 2) by (bit_vector);
    assert(value >> 1 == value / 2) by (bit_vector);
    if value & 1 == 0 {
        (value >> 1) as i64
    } else {
        -((value >> 1) as i64) - 1
    }
}

/// A signed number comes back from the natural one that stands for it.
pub proof fn law_zigzag_is_undone(value: int)
    ensures
        unzigzag(zigzag(value)) == value,
{
}

/// A natural number stands for one signed number only, and comes back from it.
pub proof fn law_unzigzag_is_undone(value: nat)
    ensures
        zigzag(unzigzag(value)) == value,
{
}

/// The exponent of the greatest power of two that is not above `n`.
pub open spec fn floor_log2(n: nat) -> nat
    decreases n,
{
    if n < 2 {
        0
    } else {
        1 + floor_log2(n / 2)
    }
}

/// The lowest `len` bits of a number, the lowest first.
pub open spec fn low_bits(v: nat, len: nat) -> Seq<bool> {
    Seq::new(len, |i: int| (v / power2::pow2(i as nat)) % 2 == 1)
}

/// The minimal binary code of `x`, a number below `u`.
pub open spec fn minimal_binary(x: nat, u: nat) -> Seq<bool> {
    let len = floor_log2(u);
    let limit = power2::pow2(len + 1) - u;
    if x < limit {
        low_bits(x, len)
    } else {
        low_bits(((x + limit) / 2) as nat, len).push((x + limit) % 2 == 1)
    }
}

/// The zeta code of `n` with parameter `k`: which interval `n + 1` lies in, in unary, and where in
/// the interval it lies, in minimal binary.
pub open spec fn zeta_code(n: u64, k: usize) -> Seq<bool> {
    let m = (n + 1) as nat;
    let h = floor_log2(m) / (k as nat);
    let begin = power2::pow2(h * k as nat);
    let end = if (h + 1) * k >= 64 {
        power2::pow2(64)
    } else {
        power2::pow2(((h + 1) * k) as nat)
    };
    Seq::new(h, |i: int| false).push(true) + minimal_binary(
        (m - begin) as nat,
        (end - begin) as nat,
    )
}

/// A stream of bits in memory.
#[verifier::external_body]
pub struct ZetaSink {
    inner: BufBitWriter<LE, MemWordWriterVec<u64, Vec<u64>>>,
}

/// The bits that were written to a stream, in order.
pub uninterp spec fn bits_of(sink: ZetaSink) -> Seq<bool>;

/// A stream made by `BufBitWriter::new` on an empty vector of words.
///
/// Claimed: nothing was written to it yet.
#[verifier::external_body]
fn empty_sink() -> (sink: ZetaSink)
    ensures
        bits_of(sink) == Seq::<bool>::empty(),
{
    ZetaSink { inner: BufBitWriter::new(MemWordWriterVec::new(Vec::new())) }
}

/// Writes a number by `ZetaWrite::write_zeta` of the `dsi-bitstream` crate.
///
/// Claimed: it appends the zeta code of the number, little end first, and returns how many bits
/// that are. Writing to memory does not fail. The crate supports parameters from 1 to 63 and
/// numbers below the greatest `u64`.
#[verifier::external_body]
fn write_code(sink: &mut ZetaSink, n: u64, k: usize) -> (bits: usize)
    requires
        1 <= k < 64,
        n < u64::MAX,
    ensures
        bits_of(*final(sink)) == bits_of(*old(sink)) + zeta_code(n, k),
        bits == zeta_code(n, k).len(),
{
    sink.inner.write_zeta(n, k).unwrap()
}

impl ZetaSink {
    /// A stream with nothing written to it.
    pub fn new() -> (sink: Self)
        ensures
            bits_of(sink) == Seq::<bool>::empty(),
    {
        empty_sink()
    }
}

/// The numbers that are written for the list of a node: how far the first neighbour is from the
/// node, and how many ids lie between each other neighbour and the one before it.
pub open spec fn gaps(node_id: usize, neighbors: Seq<u32>) -> Seq<u64> {
    Seq::new(
        neighbors.len(),
        |i: int|
            if i == 0 {
                zigzag(neighbors[0] - node_id) as u64
            } else {
                (neighbors[i] - neighbors[i - 1] - 1) as u64
            },
    )
}

/// The codes of some numbers, one after the other.
pub open spec fn codes(values: Seq<u64>, k: usize) -> Seq<bool>
    decreases values.len(),
{
    if values.len() == 0 {
        Seq::empty()
    } else {
        codes(values.drop_last(), k) + zeta_code(values.last(), k)
    }
}

proof fn lemma_codes_grow(values: Seq<u64>, k: usize, n: int)
    requires
        0 <= n <= values.len(),
    ensures
        codes(values.take(n), k).len() <= codes(values, k).len(),
    decreases values.len(),
{
    if n < values.len() {
        assert(values.drop_last().take(n) =~= values.take(n));
        lemma_codes_grow(values.drop_last(), k, n);
    } else {
        assert(values.take(n) =~= values);
    }
}

/// Writes the list of a node; returns the number of bits written.
pub fn write_zeta_segment(
    writer: &mut ZetaSink,
    node_id: usize,
    neighbors: &[u32],
    codec_k: usize,
) -> (written_bits: usize)
    requires
        1 <= codec_k < 64,
        node_id <= i64::MAX,
        crate::sorted::is_strictly_ascending(neighbors@),
        codes(gaps(node_id, neighbors@), codec_k).len() <= usize::MAX,
    ensures
        bits_of(*final(writer)) == bits_of(*old(writer)) + codes(
            gaps(node_id, neighbors@),
            codec_k,
        ),
        written_bits == codes(gaps(node_id, neighbors@), codec_k).len(),
{
    let ghost values = gaps(node_id, neighbors@);
    if neighbors.len() == 0 {
        assert(bits_of(*writer) =~= bits_of(*writer) + codes(values, codec_k));
        return 0;
    }
    let first_delta: i64 = neighbors[0] as i64 - node_id as i64;
    let ghost bits0 = bits_of(*writer);
    proof {
        lemma_codes_grow(values, codec_k, 1);
        assert(values.take(1).drop_last() =~= Seq::<u64>::empty());
        assert(codes(Seq::<u64>::empty(), codec_k) =~= Seq::<bool>::empty());
        assert(codes(values.take(1), codec_k) =~= zeta_code(values[0], codec_k));
    }
    let mut written_bits: usize = write_code(writer, i64_to_nat(first_delta), codec_k);
    let mut prev: u32 = neighbors[0];
    for i in 1..neighbors.len()
        invariant
            1 <= codec_k < 64,
            crate::sorted::is_strictly_ascending(neighbors@),
            values == gaps(node_id, neighbors@),
            codes(values, codec_k).len() <= usize::MAX,
            1 <= i <= neighbors@.len(),
            prev == neighbors@[i - 1],
            bits_of(*writer) == bits0 + codes(values.take(i as int), codec_k),
            written_bits == codes(values.take(i as int), codec_k).len(),
    {
        let value: u32 = neighbors[i];
        assert(neighbors@[i - 1] < neighbors@[i as int]);
        proof {
            lemma_codes_grow(values, codec_k, i + 1);
            assert(values.take(i + 1).drop_last() =~= values.take(i as int));
        }
        let gap: u64 = (value - prev - 1) as u64;
        assert(gap == values[i as int]);
        let bits: usize = write_code(writer, gap, codec_k);
        assert(bits_of(*writer) =~= bits0 + codes(values.take(i + 1), codec_k));
        written_bits = written_bits + bits;
        prev = value;
    }
    assert(values.take(values.len() as int) =~= values);
    written_bits
}

/// The ids that the gaps of a node's list stand for.
pub open spec fn ids_behind(node_id: usize, gaps: Seq<u64>) -> Seq<int>
    decreases gaps.len(),
{
    if gaps.len() == 0 {
        Seq::empty()
    } else if gaps.len() == 1 {
        seq![node_id + unzigzag(gaps[0] as nat)]
    } else {
        let front = ids_behind(node_id, gaps.drop_last());
        front.push(front.last() + 1 + gaps.last())
    }
}

/// The list of a node comes back from its gaps.
pub proof fn law_gaps_are_undone(node_id: usize, neighbors: Seq<u32>)
    requires
        node_id <= i64::MAX,
        crate::sorted::is_strictly_ascending(neighbors),
    ensures
        ids_behind(node_id, gaps(node_id, neighbors)) == neighbors.map_values(|v: u32| v as int),
    decreases neighbors.len(),
{
    let all = gaps(node_id, neighbors);
    let ids = neighbors.map_values(|v: u32| v as int);
    if neighbors.len() == 1 {
        law_zigzag_is_undone(neighbors[0] - node_id);
        assert(ids_behind(node_id, all) =~= ids);
    } else if neighbors.len() > 1 {
        let front = neighbors.drop_last();
        let n = neighbors.len() as int;
        assert(crate::sorted::is_strictly_ascending(front)) by {
            assert forall|i: int, j: int| 0 <= i < j < front.len() implies #[trigger] front[i]
                < #[trigger] front[j] by {
                assert(neighbors[i] < neighbors[j]);
            }
        }
        law_gaps_are_undone(node_id, front);
        assert(all.drop_last() =~= gaps(node_id, front));
        assert(neighbors[n - 2] < neighbors[n - 1]);
        assert(front.map_values(|v: u32| v as int).last() == neighbors[n - 2]);
        assert(ids_behind(node_id, all) =~= ids);
    } else {
        assert(ids_behind(node_id, all) =~= ids);
    }
}

} // verus!
