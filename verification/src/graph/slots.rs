//! Rows of slots of a fixed length, each slot with an id or without.

use optional::Optioned;
use vstd::prelude::*;

verus! {

/// What a slot without an id holds.
pub const NO_ID: u32 = 0xffff_ffff;

/// The slot that holds `id`, as `Optioned::some` makes it and `unpack` shows it.
///
/// Claimed: a slot with an id holds that id. `Optioned::some` panics on the number that stands
/// for no id.
#[verifier::external_body]
pub(crate) fn slot_with(id: u32) -> (slot: u32)
    requires
        id != NO_ID,
    ensures
        slot == id,
{
    Optioned::<u32>::some(id).unpack()
}

/// The slot without an id, as `Optioned::none` makes it and `unpack` shows it.
///
/// Claimed: it holds the greatest `u32`.
#[verifier::external_body]
pub(crate) fn slot_without() -> (slot: u32)
    ensures
        slot == NO_ID,
{
    Optioned::<u32>::none().unpack()
}

/// The id in a slot, as `wrap` and `into_option` of the `optional` crate read it.
///
/// Claimed: there is none exactly if the slot holds the greatest `u32`.
#[verifier::external_body]
pub(crate) fn read_slot(slot: u32) -> (id: Option<u32>)
    ensures
        id == if slot == NO_ID {
            None
        } else {
            Some(slot)
        },
{
    optional::wrap(slot).into_option()
}

/// The slots of row `u`, where a row has `width` slots.
pub open spec fn row(slots: Seq<u32>, width: nat, u: int) -> Seq<u32> {
    slots.subrange(u * width, u * width + width)
}

/// The ids of a row up to the first slot without one.
pub open spec fn leading(row: Seq<u32>) -> Seq<u32>
    decreases row.len(),
{
    if row.len() == 0 || row[0] == NO_ID {
        Seq::empty()
    } else {
        seq![row[0]] + leading(row.drop_first())
    }
}

/// No slot with an id stands behind one without.
pub open spec fn is_gapless(row: Seq<u32>) -> bool {
    forall|i: int, j: int|
        0 <= i < j < row.len() && #[trigger] row[i] == NO_ID ==> #[trigger] row[j] == NO_ID
}

/// `ids`, followed by slots without an id up to length `width`.
pub open spec fn padded(ids: Seq<u32>, width: nat) -> Seq<u32> {
    Seq::new(
        width,
        |i: int|
            if i < ids.len() {
                ids[i]
            } else {
                NO_ID
            },
    )
}

/// There are slots for `n` rows, and no row has a gap.
pub open spec fn are_rows(slots: Seq<u32>, width: nat, n: nat) -> bool {
    &&& slots.len() == n * width
    &&& forall|u: int| 0 <= u < n ==> is_gapless(#[trigger] row(slots, width, u))
}

/// A row lies within the slots.
pub proof fn lemma_row_bounds(width: int, n: int, u: int)
    requires
        0 <= u < n,
        0 <= width,
    ensures
        0 <= u * width <= u * width + width <= n * width,
{
    assert(0 <= u * width && u * width + width <= n * width) by (nonlinear_arith)
        requires
            0 <= u < n,
            0 <= width,
    ;
}

/// Two different rows have no slot in common.
pub proof fn lemma_rows_apart(width: int, u: int, v: int)
    requires
        u != v,
        0 <= width,
    ensures
        u * width + width <= v * width || v * width + width <= u * width,
{
    assert(u < v ==> u * width + width <= v * width) by (nonlinear_arith)
        requires
            0 <= width,
    ;
    assert(v < u ==> v * width + width <= u * width) by (nonlinear_arith)
        requires
            0 <= width,
    ;
}

/// The leading ids of a row without gaps are all there are, and the rest is without ids.
pub proof fn lemma_leading(r: Seq<u32>)
    ensures
        leading(r).len() <= r.len(),
        forall|i: int| 0 <= i < leading(r).len() ==> #[trigger] leading(r)[i] == r[i] && r[i] != NO_ID,
        leading(r).len() < r.len() ==> r[leading(r).len() as int] == NO_ID,
    decreases r.len(),
{
    if r.len() > 0 && r[0] != NO_ID {
        let rest = r.drop_first();
        lemma_leading(rest);
        assert forall|i: int| 0 <= i < leading(r).len() implies #[trigger] leading(r)[i] == r[i]
            && r[i] != NO_ID by {
            if i > 0 {
                assert(leading(rest)[i - 1] == rest[i - 1]);
            }
        }
    }
}

/// A row whose first `n` slots have ids and whose next has none has these ids.
pub proof fn lemma_leading_is(r: Seq<u32>, n: int)
    requires
        0 <= n <= r.len(),
        forall|i: int| 0 <= i < n ==> #[trigger] r[i] != NO_ID,
        n < r.len() ==> r[n] == NO_ID,
    ensures
        leading(r) == r.take(n),
{
    lemma_leading(r);
    let k = leading(r).len() as int;
    if k < n {
        assert(r[k] != NO_ID);
    }
    if n < k {
        assert(leading(r)[n] == r[n]);
    }
    assert(leading(r) =~= r.take(n));
}

/// A padded list of ids is a row without gaps that holds the ids.
pub proof fn lemma_padded(ids: Seq<u32>, width: nat)
    requires
        ids.len() <= width,
        forall|i: int| 0 <= i < ids.len() ==> #[trigger] ids[i] != NO_ID,
    ensures
        is_gapless(padded(ids, width)),
        leading(padded(ids, width)) == ids,
{
    let r = padded(ids, width);
    lemma_leading_is(r, ids.len() as int);
    assert(r.take(ids.len() as int) =~= ids);
}

/// The ids at the front of a row.
pub(crate) fn read_row(slots: &Vec<u32>, start: usize, width: usize) -> (ids: Vec<u32>)
    requires
        start + width <= slots@.len(),
    ensures
        ids@ == leading(slots@.subrange(start as int, start + width)),
{
    let ghost r = slots@.subrange(start as int, start + width);
    let mut ids: Vec<u32> = Vec::new();
    for i in 0..width
        invariant
            start + width <= slots@.len(),
            r == slots@.subrange(start as int, start + width),
            ids@ == r.take(i as int),
            forall|j: int| 0 <= j < i ==> #[trigger] r[j] != NO_ID,
    {
        assert(start + i < slots.len());
        match read_slot(slots[start + i]) {
            Some(id) => {
                ids.push(id);
                assert(ids@ =~= r.take(i + 1));
            },
            None => {
                proof {
                    lemma_leading_is(r, i as int);
                }
                return ids;
            },
        }
    }
    proof {
        lemma_leading_is(r, width as int);
    }
    ids
}

/// The number of ids at the front of a row.
pub(crate) fn row_len(slots: &Vec<u32>, start: usize, width: usize) -> (n: usize)
    requires
        start + width <= slots@.len(),
    ensures
        n == leading(slots@.subrange(start as int, start + width)).len(),
        n <= width,
{
    let ghost r = slots@.subrange(start as int, start + width);
    for i in 0..width
        invariant
            start + width <= slots@.len(),
            r == slots@.subrange(start as int, start + width),
            forall|j: int| 0 <= j < i ==> #[trigger] r[j] != NO_ID,
    {
        assert(start + i < slots.len());
        if read_slot(slots[start + i]).is_none() {
            proof {
                lemma_leading_is(r, i as int);
            }
            return i;
        }
    }
    proof {
        lemma_leading_is(r, width as int);
    }
    width
}

} // verus!
