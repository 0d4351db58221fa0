//! Scored items and the priority queues that the searches keep them in.

use vstd::multiset::Multiset;
use vstd::prelude::*;

verus! {

/// A node of the graph with its distance from the query.
///
/// Distances are integers ordered as the distances they stand for.
#[derive(Clone, Copy, Debug, PartialEq, Eq, Structural)]
pub struct ScoredItem {
    pub distance: u64,
    pub vector: usize,
}

/// The order of scored items: by distance, then by id.
pub open spec fn item_le(a: ScoredItem, b: ScoredItem) -> bool {
    a.distance < b.distance || (a.distance == b.distance && a.vector <= b.vector)
}

/// The greatest item of a multiset: the farthest one.
pub open spec fn farthest(m: Multiset<ScoredItem>) -> ScoredItem {
    extreme::<false>(m)
}

/// The least item of a multiset: the nearest one.
pub open spec fn nearest(m: Multiset<ScoredItem>) -> ScoredItem {
    extreme::<true>(m)
}

/// `a` leaves a queue no later than `b`.
///
/// A queue with `MIN` hands out the least item first, one without it the greatest.
pub open spec fn before<const MIN: bool>(a: ScoredItem, b: ScoredItem) -> bool {
    if MIN {
        item_le(a, b)
    } else {
        item_le(b, a)
    }
}

/// `x` is the item of `m` that a queue hands out first.
pub open spec fn is_extreme<const MIN: bool>(m: Multiset<ScoredItem>, x: ScoredItem) -> bool {
    &&& m.count(x) > 0
    &&& forall|y: ScoredItem| #[trigger] m.count(y) > 0 ==> before::<MIN>(x, y)
}

/// The item of a multiset that a queue hands out first.
pub open spec fn extreme<const MIN: bool>(m: Multiset<ScoredItem>) -> ScoredItem {
    choose|x: ScoredItem| is_extreme::<MIN>(m, x)
}

/// The items of `s` stand nearest first.
pub open spec fn items_sorted(s: Seq<ScoredItem>) -> bool {
    forall|i: int, j: int| 0 <= i < j < s.len() ==> item_le(#[trigger] s[i], #[trigger] s[j])
}

/// The items of a multiset, nearest first.
pub open spec fn sorted_items(m: Multiset<ScoredItem>) -> Seq<ScoredItem> {
    choose|s: Seq<ScoredItem>| items_sorted(s) && s.to_multiset() == m
}

/// There is one way to sort a multiset of scored items.
pub proof fn lemma_sorted_items(s: Seq<ScoredItem>)
    requires
        items_sorted(s),
    ensures
        sorted_items(s.to_multiset()) == s,
{
    let t = sorted_items(s.to_multiset());
    assert(items_sorted(t) && t.to_multiset() == s.to_multiset());
    let leq = |a: ScoredItem, b: ScoredItem| item_le(a, b);
    assert(vstd::relations::sorted_by(s, leq));
    assert(vstd::relations::sorted_by(t, leq));
    vstd::seq_lib::lemma_sorted_unique(t, s, leq);
}

/// Every multiset of scored items can be sorted.
pub proof fn lemma_sorted_items_exist(m: Multiset<ScoredItem>)
    ensures
        items_sorted(sorted_items(m)),
        sorted_items(m).to_multiset() == m,
    decreases m.len(),
{
    broadcast use vstd::multiset::group_multiset_axioms;

    if m.len() == 0 {
        let s = Seq::<ScoredItem>::empty();
        s.to_multiset_ensures();
        assert(s.to_multiset() =~= m);
        assert(items_sorted(s));
    } else {
        lemma_extreme_exists::<false>(m);
        let x = farthest(m);
        let rest = m.remove(x);
        assert(rest.insert(x) =~= m);
        lemma_sorted_items_exist(rest);
        let t = sorted_items(rest);
        let s = t.push(x);
        t.to_multiset_ensures();
        assert(s.to_multiset() == m);
        assert forall|i: int, j: int| 0 <= i < j < s.len() implies item_le(
            #[trigger] s[i],
            #[trigger] s[j],
        ) by {
            assert(t.contains(t[i]));
            assert(rest.count(t[i]) > 0);
            assert(m.count(t[i]) > 0);
        }
        assert(items_sorted(s));
    }
}

/// The first of the sorted items is the nearest one.
pub proof fn lemma_sorted_first(m: Multiset<ScoredItem>)
    requires
        m.len() > 0,
    ensures
        sorted_items(m).len() == m.len(),
        sorted_items(m)[0] == nearest(m),
        is_extreme::<true>(m, nearest(m)),
{
    lemma_sorted_items_exist(m);
    lemma_extreme_exists::<true>(m);
    let s = sorted_items(m);
    let x = nearest(m);
    s.to_multiset_ensures();
    assert(s.contains(x));
    let i = choose|i: int| 0 <= i < s.len() && s[i] == x;
    assert(s.contains(s[0]));
    assert(m.count(s[0]) > 0);
    if i > 0 {
        assert(item_le(s[0], s[i]));
    }
}

/// A multiset has at most one extreme item.
pub proof fn lemma_extreme_unique<const MIN: bool>(
    m: Multiset<ScoredItem>,
    x: ScoredItem,
    y: ScoredItem,
)
    requires
        is_extreme::<MIN>(m, x),
        is_extreme::<MIN>(m, y),
    ensures
        x == y,
{
    assert(m.count(x) > 0 && m.count(y) > 0);
}

/// A multiset that holds anything has an extreme item.
pub proof fn lemma_extreme_exists<const MIN: bool>(m: Multiset<ScoredItem>)
    requires
        m.len() > 0,
    ensures
        is_extreme::<MIN>(m, extreme::<MIN>(m)),
    decreases m.len(),
{
    broadcast use vstd::multiset::group_multiset_axioms;

    let a = m.choose();
    assert(m.count(a) > 0);
    let rest = m.remove(a);
    assert(rest.insert(a) =~= m);
    if rest.len() == 0 {
        assert(rest =~= Multiset::empty());
        assert(is_extreme::<MIN>(m, a));
    } else {
        lemma_extreme_exists::<MIN>(rest);
        let b = extreme::<MIN>(rest);
        let x = if before::<MIN>(a, b) { a } else { b };
        assert forall|y: ScoredItem| #[trigger] m.count(y) > 0 implies before::<MIN>(x, y) by {
            if y != a {
                assert(rest.count(y) > 0);
            }
        }
        assert(is_extreme::<MIN>(m, x));
    }
}

/// A binary heap of scored items.
///
/// With `MIN` the nearest item is on top, without it the farthest.
pub struct ScoredHeap<const MIN: bool> {
    items: Vec<ScoredItem>,
}

/// The heap that keeps the best results found: the worst of them is on top.
pub type TopHeap = ScoredHeap<false>;

/// The heap of nodes still to be visited: the nearest is on top.
pub type CandidateHeap = ScoredHeap<true>;

impl<const MIN: bool> View for ScoredHeap<MIN> {
    type V = Multiset<ScoredItem>;

    closed spec fn view(&self) -> Multiset<ScoredItem> {
        self.items@.to_multiset()
    }
}

/// Every item of `s` but the one at `hole` leaves no earlier than its parent.
spec fn ordered_but<const MIN: bool>(s: Seq<ScoredItem>, hole: int) -> bool {
    forall|i: int|
        0 < i < s.len() && i != hole ==> before::<MIN>(s[(i - 1) / 2], #[trigger] s[i])
}

/// The children of the item at `hole` leave no earlier than its parent.
spec fn bridged<const MIN: bool>(s: Seq<ScoredItem>, hole: int) -> bool {
    forall|i: int|
        0 < i < s.len() && (i - 1) / 2 == hole && hole > 0 ==> before::<MIN>(
            s[(hole - 1) / 2],
            #[trigger] s[i],
        )
}

/// Every item of `s` whose parent is not at `hole` leaves no earlier than its parent.
spec fn ordered_below_but<const MIN: bool>(s: Seq<ScoredItem>, hole: int) -> bool {
    forall|i: int|
        0 < i < s.len() && (i - 1) / 2 != hole ==> before::<MIN>(s[(i - 1) / 2], #[trigger] s[i])
}

proof fn lemma_root_first<const MIN: bool>(s: Seq<ScoredItem>, i: int)
    requires
        ordered_but::<MIN>(s, -1),
        0 <= i < s.len(),
    ensures
        before::<MIN>(s[0], s[i]),
    decreases i,
{
    if i > 0 {
        lemma_root_first::<MIN>(s, (i - 1) / 2);
        assert(before::<MIN>(s[(i - 1) / 2], s[i]));
    }
}

proof fn lemma_swap_multiset(s: Seq<ScoredItem>, i: int, j: int)
    requires
        0 <= i < s.len(),
        0 <= j < s.len(),
        i != j,
    ensures
        s.update(i, s[j]).update(j, s[i]).to_multiset() == s.to_multiset(),
{
    broadcast use vstd::multiset::group_multiset_axioms;

    let t = s.update(i, s[j]);
    vstd::seq_lib::to_multiset_update(s, i, s[j]);
    vstd::seq_lib::to_multiset_update(t, j, s[i]);
    s.to_multiset_ensures();
    assert(s.contains(s[i]) && s.contains(s[j]));
    assert(t.update(j, s[i]).to_multiset() =~= s.to_multiset());
}

impl<const MIN: bool> ScoredHeap<MIN> {
    /// The items are stored in heap order.
    pub closed spec fn wf(&self) -> bool {
        ordered_but::<MIN>(self.items@, -1)
    }

    /// An empty heap.
    pub fn new() -> (heap: Self)
        ensures
            heap.wf(),
            heap@ == Multiset::<ScoredItem>::empty(),
    {
        let heap = ScoredHeap { items: Vec::new() };
        proof {
            heap.items@.to_multiset_ensures();
            assert(heap@ =~= Multiset::<ScoredItem>::empty());
        }
        heap
    }

    /// The number of items in the heap.
    pub fn len(&self) -> (n: usize)
        ensures
            n == self@.len(),
    {
        proof {
            self.items@.to_multiset_ensures();
        }
        self.items.len()
    }

    /// Whether the heap holds nothing.
    pub fn is_empty(&self) -> (b: bool)
        ensures
            b == (self@.len() == 0),
    {
        self.len() == 0
    }

    /// The item that would leave first.
    pub fn peek(&self) -> (item: Option<ScoredItem>)
        requires
            self.wf(),
        ensures
            item is None <==> self@.len() == 0,
            item matches Some(x) ==> x == extreme::<MIN>(self@) && is_extreme::<MIN>(self@, x),
    {
        proof {
            self.items@.to_multiset_ensures();
        }
        if self.items.len() == 0 {
            None
        } else {
            proof {
                self.lemma_root_extreme();
            }
            Some(self.items[0])
        }
    }

    proof fn lemma_root_extreme(&self)
        requires
            self.wf(),
            self.items@.len() > 0,
        ensures
            is_extreme::<MIN>(self@, self.items@[0]),
            extreme::<MIN>(self@) == self.items@[0],
    {
        let s = self.items@;
        s.to_multiset_ensures();
        assert(s.contains(s[0]));
        assert forall|y: ScoredItem| #[trigger] self@.count(y) > 0 implies before::<MIN>(
            s[0],
            y,
        ) by {
            assert(s.contains(y));
            let i = choose|i: int| 0 <= i < s.len() && s[i] == y;
            lemma_root_first::<MIN>(s, i);
        }
        lemma_extreme_unique::<MIN>(self@, s[0], extreme::<MIN>(self@));
    }

    fn leaves_before(a: ScoredItem, b: ScoredItem) -> (r: bool)
        ensures
            r == before::<MIN>(a, b),
    {
        if MIN {
            a.distance < b.distance || (a.distance == b.distance && a.vector <= b.vector)
        } else {
            b.distance < a.distance || (b.distance == a.distance && b.vector <= a.vector)
        }
    }

    /// Adds an item.
    pub fn push(&mut self, item: ScoredItem)
        requires
            old(self).wf(),
        ensures
            final(self).wf(),
            final(self)@ == old(self)@.insert(item),
    {
        proof {
            self.items@.to_multiset_ensures();
        }
        let mut at: usize = self.items.len();
        self.items.push(item);
        proof {
            let s = self.items@;
            assert forall|i: int| 0 < i < s.len() && i != at implies before::<MIN>(
                s[(i - 1) / 2],
                #[trigger] s[i],
            ) by {
                assert(old(self).items@[i] == s[i]);
                assert(old(self).items@[(i - 1) / 2] == s[(i - 1) / 2]);
            }
        }
        while at > 0 && !Self::leaves_before(self.items[(at - 1) / 2], self.items[at])
            invariant
                at < self.items@.len(),
                ordered_but::<MIN>(self.items@, at as int),
                bridged::<MIN>(self.items@, at as int),
                self.items@.to_multiset() == old(self)@.insert(item),
            decreases at,
        {
            let parent: usize = (at - 1) / 2;
            let low = self.items[parent];
            let high = self.items[at];
            let ghost before_swap = self.items@;
            self.items.set(parent, high);
            self.items.set(at, low);
            proof {
                let s = self.items@;
                lemma_swap_multiset(before_swap, parent as int, at as int);
                assert(s =~= before_swap.update(parent as int, high).update(at as int, low));
                assert forall|i: int| 0 < i < s.len() && i != parent implies before::<MIN>(
                    s[(i - 1) / 2],
                    #[trigger] s[i],
                ) by {
                    if i != at {
                        assert(before::<MIN>(before_swap[(i - 1) / 2], before_swap[i]));
                    }
                }
                if parent > 0 {
                    assert(before::<MIN>(
                        before_swap[(parent - 1) / 2],
                        before_swap[parent as int],
                    ));
                }
                assert(bridged::<MIN>(s, parent as int)) by {
                    assert forall|i: int|
                        0 < i < s.len() && (i - 1) / 2 == parent && parent > 0 implies before::<MIN>(
                        s[(parent - 1) / 2],
                        #[trigger] s[i],
                    ) by {
                        if i != at {
                            assert(before::<MIN>(before_swap[(i - 1) / 2], before_swap[i]));
                        }
                    }
                }
            }
            at = parent;
        }
        proof {
            let s = self.items@;
            assert forall|i: int| 0 < i < s.len() implies before::<MIN>(
                s[(i - 1) / 2],
                #[trigger] s[i],
            ) by {
                if i == at {
                    assert(before::<MIN>(s[(at - 1) / 2], s[at as int]));
                }
            }
        }
    }

    /// Moves the item at the root down until the heap is in order.
    fn sift_down(&mut self)
        requires
            ordered_below_but::<MIN>(old(self).items@, 0),
        ensures
            final(self).wf(),
            final(self)@ == old(self)@,
    {
        let n: usize = self.items.len();
        let mut at: usize = 0;
        loop
            invariant_except_break
                at < n || n == 0,
            invariant
                n == self.items@.len(),
                ordered_below_but::<MIN>(self.items@, at as int),
                bridged::<MIN>(self.items@, at as int),
                self.items@.to_multiset() == old(self)@,
            ensures
                ordered_but::<MIN>(self.items@, -1),
            decreases n - at,
        {
            if n == 0 || at > (n - 1) / 2 || 2 * at + 1 >= n {
                proof {
                    let s = self.items@;
                    assert forall|i: int| 0 < i < s.len() implies before::<MIN>(
                        s[(i - 1) / 2],
                        #[trigger] s[i],
                    ) by {}
                }
                break;
            }
            let left: usize = 2 * at + 1;
            let child: usize = if left + 1 < n && Self::leaves_before(
                self.items[left + 1],
                self.items[left],
            ) {
                left + 1
            } else {
                left
            };
            if Self::leaves_before(self.items[at], self.items[child]) {
                proof {
                    let s = self.items@;
                    assert forall|i: int| 0 < i < s.len() implies before::<MIN>(
                        s[(i - 1) / 2],
                        #[trigger] s[i],
                    ) by {
                        if (i - 1) / 2 == at {
                            assert(i == left || i == left + 1);
                        }
                    }
                }
                break;
            }
            let low = self.items[at];
            let high = self.items[child];
            let ghost before_swap = self.items@;
            self.items.set(at, high);
            self.items.set(child, low);
            proof {
                let s = self.items@;
                lemma_swap_multiset(before_swap, at as int, child as int);
                assert(s =~= before_swap.update(at as int, high).update(child as int, low));
                assert((child - 1) / 2 == at);
                assert forall|i: int|
                    0 < i < s.len() && (i - 1) / 2 != child implies before::<MIN>(
                    s[(i - 1) / 2],
                    #[trigger] s[i],
                ) by {
                    if (i - 1) / 2 == at {
                        assert(i == left || i == left + 1);
                    } else if i == at {
                        assert(before::<MIN>(before_swap[(at - 1) / 2], before_swap[child as int]));
                    } else {
                        assert(before::<MIN>(before_swap[(i - 1) / 2], before_swap[i]));
                    }
                }
                assert forall|i: int|
                    0 < i < s.len() && (i - 1) / 2 == child && child > 0 implies before::<MIN>(
                    s[(child - 1) / 2],
                    #[trigger] s[i],
                ) by {
                    assert(before::<MIN>(before_swap[(i - 1) / 2], before_swap[i]));
                }
            }
            at = child;
        }
    }

    /// Takes out the item on top.
    pub fn pop(&mut self) -> (item: Option<ScoredItem>)
        requires
            old(self).wf(),
        ensures
            final(self).wf(),
            item is None <==> old(self)@.len() == 0,
            item is None ==> final(self)@ == old(self)@,
            item matches Some(x) ==> x == extreme::<MIN>(old(self)@) && is_extreme::<MIN>(
                old(self)@,
                x,
            ) && final(self)@ == old(self)@.remove(x),
    {
        broadcast use vstd::multiset::group_multiset_axioms;

        proof {
            self.items@.to_multiset_ensures();
        }
        if self.items.len() == 0 {
            return None;
        }
        proof {
            self.lemma_root_extreme();
        }
        let first = self.items[0];
        let ghost s0 = self.items@;
        let last = self.items.pop();
        if let Some(x) = last {
            if self.items.len() > 0 {
                let ghost s1 = self.items@;
                self.items.set(0, x);
                proof {
                    s1.to_multiset_ensures();
                    assert(s0 =~= s1.push(x));
                    vstd::seq_lib::to_multiset_update(s1, 0, x);
                    assert(s1.contains(s1[0]));
                    assert(self.items@.to_multiset() =~= s0.to_multiset().remove(first));
                    let s = self.items@;
                    assert forall|i: int|
                        0 < i < s.len() && (i - 1) / 2 != 0 implies before::<MIN>(
                        s[(i - 1) / 2],
                        #[trigger] s[i],
                    ) by {
                        assert(before::<MIN>(s0[(i - 1) / 2], s0[i]));
                    }
                }
                self.sift_down();
            } else {
                proof {
                    self.items@.to_multiset_ensures();
                    assert(s0 =~= self.items@.push(x));
                    assert(self.items@.to_multiset() =~= s0.to_multiset().remove(first));
                }
            }
        }
        Some(first)
    }
}

impl ScoredHeap<false> {
    /// The items, nearest first.
    pub fn into_sorted_vec(self) -> (sorted: Vec<ScoredItem>)
        requires
            self.wf(),
        ensures
            sorted@ == sorted_items(self@),
    {
        broadcast use vstd::multiset::group_multiset_axioms;

        let mut heap = self;
        let mut falling: Vec<ScoredItem> = Vec::new();
        let ghost all = heap@;
        proof {
            falling@.to_multiset_ensures();
            assert(falling@.to_multiset().add(heap@) =~= all);
        }
        loop
            invariant
                heap.wf(),
                falling@.to_multiset().add(heap@) == all,
                forall|i: int, j: int|
                    0 <= i < j < falling@.len() ==> item_le(
                        #[trigger] falling@[j],
                        #[trigger] falling@[i],
                    ),
                forall|i: int, y: ScoredItem|
                    0 <= i < falling@.len() && #[trigger] heap@.count(y) > 0 ==> item_le(
                        y,
                        #[trigger] falling@[i],
                    ),
            ensures
                falling@.to_multiset() == all,
                forall|i: int, j: int|
                    0 <= i < j < falling@.len() ==> item_le(
                        #[trigger] falling@[j],
                        #[trigger] falling@[i],
                    ),
            decreases heap@.len(),
        {
            let ghost rest = heap@;
            match heap.pop() {
                None => {
                    proof {
                        assert(falling@.to_multiset() =~= all);
                    }
                    break;
                },
                Some(x) => {
                    proof {
                        falling@.to_multiset_ensures();
                    }
                    falling.push(x);
                    proof {
                        assert(falling@.to_multiset().add(heap@) =~= all);
                    }
                },
            }
        }
        let ghost down = falling@;
        let n: usize = falling.len();
        let mut sorted: Vec<ScoredItem> = Vec::new();
        for k in 0..n
            invariant
                n == falling@.len(),
                falling@ == down,
                sorted@.len() == k,
                forall|i: int| 0 <= i < k ==> #[trigger] sorted@[i] == down[n - 1 - i],
        {
            sorted.push(falling[n - 1 - k]);
        }
        proof {
            assert(sorted@ =~= down.reverse());
            down.lemma_reverse_to_multiset();
            assert(items_sorted(sorted@));
            lemma_sorted_items(sorted@);
        }
        sorted
    }
}

/// Items come nearest first, and at the same distance the lower id first; none is lost or added.
pub proof fn law_items_go_by_distance_then_id(m: Multiset<ScoredItem>, i: int, j: int)
    requires
        0 <= i < j < sorted_items(m).len(),
    ensures
        sorted_items(m).to_multiset() == m,
        sorted_items(m)[i].distance <= sorted_items(m)[j].distance,
        sorted_items(m)[i].distance == sorted_items(m)[j].distance ==> sorted_items(m)[i].vector
            <= sorted_items(m)[j].vector,
{
    lemma_sorted_items_exist(m);
    assert(item_le(sorted_items(m)[i], sorted_items(m)[j]));
}

/// Of the items of a multiset, none is nearer than the nearest one nor farther than the farthest
/// one; at the same distance, the nearest one has the lowest id and the farthest one the highest.
pub proof fn law_extremes_go_by_distance_then_id(m: Multiset<ScoredItem>, x: ScoredItem)
    requires
        m.count(x) > 0,
    ensures
        m.count(nearest(m)) > 0,
        m.count(farthest(m)) > 0,
        nearest(m).distance <= x.distance <= farthest(m).distance,
        nearest(m).distance == x.distance ==> nearest(m).vector <= x.vector,
        farthest(m).distance == x.distance ==> x.vector <= farthest(m).vector,
{
    broadcast use vstd::multiset::group_multiset_axioms;

    assert(m.len() > 0);
    lemma_extreme_exists::<true>(m);
    lemma_extreme_exists::<false>(m);
}

} // verus!
