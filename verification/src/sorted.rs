//! Lists of ids in ascending order, each id once.

use vstd::prelude::*;

verus! {

/// The numbers of a list never fall.
pub open spec fn is_ascending(list: Seq<u32>) -> bool {
    forall|i: int, j: int| 0 <= i <= j < list.len() ==> #[trigger] list[i] <= #[trigger] list[j]
}

/// Each number of the list is greater than the one before it.
pub open spec fn is_strictly_ascending(list: Seq<u32>) -> bool {
    forall|i: int, j: int| 0 <= i < j < list.len() ==> #[trigger] list[i] < #[trigger] list[j]
}

/// `sorted` holds the numbers of `list`, each once, in ascending order.
pub open spec fn is_sorted_set_of(sorted: Seq<u32>, list: Seq<u32>) -> bool {
    &&& is_strictly_ascending(sorted)
    &&& forall|v: u32| #[trigger] sorted.contains(v) <==> list.contains(v)
}

/// The numbers of a list, each once, in ascending order.
pub open spec fn sorted_set(list: Seq<u32>) -> Seq<u32> {
    choose|sorted: Seq<u32>| is_sorted_set_of(sorted, list)
}

/// There is one way to put the numbers of a list in order.
pub proof fn lemma_sorted_set_unique(a: Seq<u32>, b: Seq<u32>)
    requires
        is_strictly_ascending(a),
        is_strictly_ascending(b),
        forall|v: u32| #[trigger] a.contains(v) <==> b.contains(v),
    ensures
        a == b,
    decreases a.len(),
{
    if a.len() == 0 {
        if b.len() > 0 {
            assert(b.contains(b[0]));
            assert(a.contains(b[0]));
        }
        assert(a =~= b);
    } else {
        assert(a.contains(a.last()));
        assert(b.contains(a.last()));
        assert(b.len() > 0);
        assert(b.contains(b.last()));
        assert(a.contains(b.last()));
        let i = choose|i: int| 0 <= i < b.len() && b[i] == a.last();
        let j = choose|j: int| 0 <= j < a.len() && a[j] == b.last();
        assert(a.last() == b.last()) by {
            if i < b.len() - 1 {
                assert(b[i] < b[b.len() - 1]);
                if j < a.len() - 1 {
                    assert(a[j] < a[a.len() - 1]);
                }
            }
        }
        let x = a.drop_last();
        let y = b.drop_last();
        assert forall|v: u32| #[trigger] x.contains(v) <==> y.contains(v) by {
            if x.contains(v) {
                let k = choose|k: int| 0 <= k < x.len() && x[k] == v;
                assert(a[k] == v && a[k] < a[a.len() - 1]);
                assert(a.contains(v));
                let l = choose|l: int| 0 <= l < b.len() && b[l] == v;
                assert(y[l] == v);
            }
            if y.contains(v) {
                let k = choose|k: int| 0 <= k < y.len() && y[k] == v;
                assert(b[k] == v && b[k] < b[b.len() - 1]);
                assert(b.contains(v));
                assert(a.contains(v));
                let l = choose|l: int| 0 <= l < a.len() && a[l] == v;
                assert(x[l] == v);
            }
        }
        lemma_sorted_set_unique(x, y);
        assert(a =~= x.push(a.last()));
        assert(b =~= y.push(b.last()));
    }
}

/// What is a sorted set of a list is its sorted set.
pub proof fn lemma_sorted_set(sorted: Seq<u32>, list: Seq<u32>)
    requires
        is_sorted_set_of(sorted, list),
    ensures
        sorted_set(list) == sorted,
        is_sorted_set_of(sorted_set(list), list),
{
    let other = sorted_set(list);
    assert(is_sorted_set_of(other, list));
    assert forall|v: u32| #[trigger] sorted.contains(v) <==> other.contains(v) by {
        assert(list.contains(v) <==> sorted.contains(v));
    }
    lemma_sorted_set_unique(sorted, other);
}

/// A number put at its place in a sorted list.
spec fn insert_sorted(sorted: Seq<u32>, v: u32) -> Seq<u32>
    decreases sorted.len(),
{
    if sorted.len() == 0 || sorted.last() < v {
        sorted.push(v)
    } else if sorted.last() == v {
        sorted
    } else {
        insert_sorted(sorted.drop_last(), v).push(sorted.last())
    }
}

proof fn lemma_insert_sorted(sorted: Seq<u32>, v: u32)
    requires
        is_strictly_ascending(sorted),
    ensures
        is_strictly_ascending(insert_sorted(sorted, v)),
        forall|w: u32| #[trigger]
            insert_sorted(sorted, v).contains(w) <==> sorted.contains(w) || w == v,
    decreases sorted.len(),
{
    let r = insert_sorted(sorted, v);
    if sorted.len() == 0 || sorted.last() < v {
        assert forall|w: u32| #[trigger] r.contains(w) <==> sorted.contains(w) || w == v by {
            if sorted.contains(w) {
                let i = choose|i: int| 0 <= i < sorted.len() && sorted[i] == w;
                assert(r[i] == w);
            }
            if w == v {
                assert(r[sorted.len() as int] == w);
            }
        }
        assert forall|i: int, j: int| 0 <= i < j < r.len() implies #[trigger] r[i]
            < #[trigger] r[j] by {
            if j == sorted.len() && i < sorted.len() - 1 {
                assert(sorted[i] < sorted[sorted.len() - 1]);
            }
        }
    } else if sorted.last() == v {
        assert(sorted[sorted.len() - 1] == v);
    } else {
        let front = sorted.drop_last();
        let last = sorted.last();
        lemma_insert_sorted(front, v);
        let f = insert_sorted(front, v);
        assert(r == f.push(last));
        assert forall|w: u32| #[trigger] f.contains(w) implies w < last by {
            if w != v {
                assert(front.contains(w));
                let i = choose|i: int| 0 <= i < front.len() && front[i] == w;
                assert(sorted[i] < sorted[sorted.len() - 1]);
            }
        }
        assert forall|i: int, j: int| 0 <= i < j < r.len() implies #[trigger] r[i]
            < #[trigger] r[j] by {
            if j == f.len() {
                assert(f.contains(f[i]));
            }
        }
        assert forall|w: u32| #[trigger] r.contains(w) <==> sorted.contains(w) || w == v by {
            if r.contains(w) {
                let i = choose|i: int| 0 <= i < r.len() && r[i] == w;
                if i < f.len() {
                    assert(f.contains(f[i]));
                    if w != v {
                        assert(front.contains(w));
                        let k = choose|k: int| 0 <= k < front.len() && front[k] == w;
                        assert(sorted[k] == w);
                    }
                } else {
                    assert(sorted[sorted.len() - 1] == w);
                }
            }
            if sorted.contains(w) {
                let i = choose|i: int| 0 <= i < sorted.len() && sorted[i] == w;
                if i < front.len() {
                    assert(front[i] == w);
                    assert(front.contains(w));
                    assert(f.contains(w));
                    let k = choose|k: int| 0 <= k < f.len() && f[k] == w;
                    assert(r[k] == w);
                } else {
                    assert(r[f.len() as int] == w);
                }
            }
            if w == v {
                assert(f.contains(v));
                let k = choose|k: int| 0 <= k < f.len() && f[k] == v;
                assert(r[k] == v);
            }
        }
    }
}

/// Every list can be put in order.
pub proof fn lemma_sorted_set_exists(list: Seq<u32>)
    ensures
        is_sorted_set_of(sorted_set(list), list),
    decreases list.len(),
{
    if list.len() == 0 {
        assert(is_sorted_set_of(list, list));
    } else {
        let front = list.drop_last();
        let v = list.last();
        lemma_sorted_set_exists(front);
        let f = sorted_set(front);
        lemma_insert_sorted(f, v);
        let r = insert_sorted(f, v);
        assert forall|w: u32| #[trigger] r.contains(w) <==> list.contains(w) by {
            if r.contains(w) {
                if w == v {
                    assert(list[list.len() - 1] == w);
                } else {
                    assert(f.contains(w));
                    assert(front.contains(w));
                    let i = choose|i: int| 0 <= i < front.len() && front[i] == w;
                    assert(list[i] == w);
                }
            }
            if list.contains(w) {
                let i = choose|i: int| 0 <= i < list.len() && list[i] == w;
                if i < front.len() {
                    assert(front[i] == w);
                    assert(front.contains(w));
                    assert(f.contains(w));
                }
            }
        }
        assert(is_sorted_set_of(r, list));
    }
}

/// Putting a list in order that is in order changes nothing.
pub proof fn law_sorted_set_of_sorted(list: Seq<u32>)
    requires
        is_strictly_ascending(list),
    ensures
        sorted_set(list) == list,
{
    lemma_sorted_set(list, list);
}

/// Putting a list in order leaves as many numbers as there are different ones.
pub proof fn law_sorted_set_len(list: Seq<u32>)
    ensures
        sorted_set(list).len() <= list.len(),
        list.no_duplicates() ==> sorted_set(list).len() == list.len(),
{
    let sorted = sorted_set(list);
    lemma_sorted_set_exists(list);
    assert(sorted.no_duplicates()) by {
        assert forall|i: int, j: int| 0 <= i < sorted.len() && 0 <= j < sorted.len() && i
            != j implies sorted[i] != sorted[j] by {
            if i < j {
                assert(sorted[i] < sorted[j]);
            } else {
                assert(sorted[j] < sorted[i]);
            }
        }
    }
    assert(sorted.to_set() =~= list.to_set()) by {
        assert forall|v: u32| sorted.to_set().contains(v) == list.to_set().contains(v) by {
            assert(sorted.contains(v) <==> list.contains(v));
        }
    }
    sorted.unique_seq_to_set();
    list.lemma_cardinality_of_set();
    if list.no_duplicates() {
        list.unique_seq_to_set();
    }
}

/// Sorts by `sort_unstable` of the standard library's slices.
///
/// Claimed: the numbers stand in ascending order afterwards, and are the same numbers as before.
#[verifier::external_body]
fn sort_ids(list: &mut Vec<u32>)
    ensures
        final(list)@.to_multiset() == old(list)@.to_multiset(),
        is_ascending(final(list)@),
{
    list.sort_unstable();
}

/// Drops the numbers that equal the one before them.
pub fn dedup(list: &Vec<u32>) -> (unique: Vec<u32>)
    requires
        is_ascending(list@),
    ensures
        is_sorted_set_of(unique@, list@),
{
    let mut unique: Vec<u32> = Vec::new();
    for i in 0..list.len()
        invariant
            is_ascending(list@),
            is_strictly_ascending(unique@),
            i > 0 <==> unique@.len() > 0,
            i > 0 ==> unique@.last() == list@[i - 1],
            forall|v: u32| #[trigger]
                unique@.contains(v) <==> exists|j: int| 0 <= j < i && #[trigger] list@[j] == v,
    {
        let v: u32 = list[i];
        let n: usize = unique.len();
        if n == 0 || unique[n - 1] != v {
            let ghost before = unique@;
            unique.push(v);
            proof {
                assert forall|a: int, b: int| 0 <= a < b < unique@.len() implies #[trigger] unique@[a]
                    < #[trigger] unique@[b] by {
                    if b == before.len() {
                        assert(before[a] <= before.last());
                        assert(list@[i - 1] <= list@[i as int]);
                    }
                }
                assert forall|w: u32| #[trigger] unique@.contains(w) <==> exists|j: int|
                    0 <= j < i + 1 && #[trigger] list@[j] == w by {
                    if unique@.contains(w) {
                        let k = choose|k: int| 0 <= k < unique@.len() && unique@[k] == w;
                        if k < before.len() {
                            assert(before.contains(before[k]));
                        } else {
                            assert(list@[i as int] == w);
                        }
                    }
                    if exists|j: int| 0 <= j < i + 1 && #[trigger] list@[j] == w {
                        let j = choose|j: int| 0 <= j < i + 1 && #[trigger] list@[j] == w;
                        if j < i {
                            assert(before.contains(w));
                            let k = choose|k: int| 0 <= k < before.len() && before[k] == w;
                            assert(unique@[k] == w);
                        } else {
                            assert(unique@[before.len() as int] == w);
                        }
                    }
                }
            }
        } else {
            proof {
                assert forall|w: u32| #[trigger] unique@.contains(w) <==> exists|j: int|
                    0 <= j < i + 1 && #[trigger] list@[j] == w by {
                    if exists|j: int| 0 <= j < i + 1 && #[trigger] list@[j] == w {
                        let j = choose|j: int| 0 <= j < i + 1 && #[trigger] list@[j] == w;
                        if j == i {
                            assert(list@[i - 1] == w);
                        }
                    }
                    if unique@.contains(w) {
                        let j = choose|j: int| 0 <= j < i && #[trigger] list@[j] == w;
                        assert(list@[j] == w);
                    }
                }
            }
        }
    }
    proof {
        assert forall|v: u32| #[trigger] unique@.contains(v) <==> list@.contains(v) by {
            if list@.contains(v) {
                let j = choose|j: int| 0 <= j < list@.len() && list@[j] == v;
                assert(list@[j] == v);
            }
        }
    }
    unique
}

/// The numbers of a list, each once, in ascending order.
pub fn sort_dedup(list: Vec<u32>) -> (unique: Vec<u32>)
    ensures
        unique@ == sorted_set(list@),
        is_sorted_set_of(unique@, list@),
{
    let mut sorted = list;
    sort_ids(&mut sorted);
    let unique = dedup(&sorted);
    proof {
        lemma_same_members(sorted@, list@);
        assert(is_sorted_set_of(unique@, list@));
        lemma_sorted_set(unique@, list@);
    }
    unique
}

/// Sequences with the same multiset have the same members.
pub proof fn lemma_same_members(a: Seq<u32>, b: Seq<u32>)
    requires
        a.to_multiset() == b.to_multiset(),
    ensures
        forall|v: u32| #[trigger] a.contains(v) <==> b.contains(v),
{
    a.to_multiset_ensures();
    b.to_multiset_ensures();
    assert forall|v: u32| #[trigger] a.contains(v) <==> b.contains(v) by {
        assert(a.contains(v) <==> a.to_multiset().count(v) > 0);
        assert(b.contains(v) <==> b.to_multiset().count(v) > 0);
    }
}

} // verus!
