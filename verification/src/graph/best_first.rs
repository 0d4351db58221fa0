//! Every search is a best-first search: what it expands, in which order, and when it stops.

use crate::graph::model;
use crate::graph::model::GraphModel;
use crate::graph::search;
use crate::graph::search::{Search, SearchState, Walk};
use crate::graph::search_laws;
use crate::heap;
use crate::heap::ScoredItem;
use vstd::multiset::Multiset;
use vstd::prelude::*;

verus! {

broadcast use vstd::multiset::group_multiset_axioms;

/// What is no farther away than the worst result is good enough; what is nearer than something
/// good enough is good enough, and so is what is good enough beside a better worst result.
pub open spec fn is_relaxing(s: Search) -> bool {
    &&& forall|a: u64, b: u64| a <= b ==> #[trigger] (s.within)(a, b)
    &&& forall|a: u64, b: u64, c: u64|
        #![trigger (s.within)(a, c), (s.within)(b, c)]
        a <= b && (s.within)(b, c) ==> (s.within)(a, c)
    &&& forall|a: u64, b: u64, c: u64|
        #![trigger (s.within)(a, b), (s.within)(a, c)]
        b <= c && (s.within)(a, b) ==> (s.within)(a, c)
}

/// A search without relaxation is one of them.
pub proof fn law_strict_is_relaxing(s: Search)
    requires
        search_laws::is_strict(s),
    ensures
        is_relaxing(s),
{
}

/// Node `w` is a neighbour of `u` that is seen for the first time and rejected by the filter.
pub open spec fn is_passed_over(s: Search, seen: Set<usize>, u: usize, w: usize) -> bool {
    &&& (s.adjacent)(u).contains(w)
    &&& !(s.keep)(w)
    &&& !seen.contains(w)
}

/// Node `v` is a neighbour of a node that is passed over.
pub open spec fn is_jumped_to(s: Search, seen: Set<usize>, u: usize, v: usize) -> bool {
    exists|w: usize| #[trigger] is_passed_over(s, seen, u, w) && (s.adjacent)(w).contains(v)
}

/// The nodes that have been seen once `u` was expanded: those seen before, the neighbours of `u`,
/// and where the search jumps over rejected nodes, the neighbours of all that it jumped over.
pub open spec fn widened(s: Search, seen: Set<usize>, u: usize) -> Set<usize> {
    Set::new(
        |v: usize|
            seen.contains(v) || (s.adjacent)(u).contains(v) || (s.walk == Walk::JumpOver
                && is_jumped_to(s, seen, u, v)),
    )
}

/// The nodes that have been seen once the nodes of a list were expanded in turn.
pub open spec fn seen_after(s: Search, entry: ScoredItem, expanded: Seq<usize>) -> Set<usize>
    decreases expanded.len(),
{
    if expanded.len() == 0 {
        set![entry.vector]
    } else {
        widened(s, seen_after(s, entry, expanded.drop_last()), expanded.last())
    }
}

/// Node `v` may be expanded: the entry may, and every other node but for the rejected ones that
/// the search jumps over.
pub open spec fn may_be_expanded(s: Search, entry: ScoredItem, v: usize) -> bool {
    v == entry.vector || s.walk != Walk::JumpOver || (s.keep)(v)
}

/// `top` holds the nearest of the nodes that have been seen and can be results: as many as `ef`, or
/// all of them. Of two nodes at the same distance, the one with the smaller id comes first.
pub open spec fn are_nearest(
    s: Search,
    entry: ScoredItem,
    seen: Set<usize>,
    top: Multiset<ScoredItem>,
) -> bool {
    &&& top.len() <= s.ef
    &&& forall|x: ScoredItem| #[trigger]
        top.count(x) > 0 ==> {
            &&& seen.contains(x.vector)
            &&& search_laws::is_eligible(s, x.vector)
            &&& x == search_laws::item_of(s, entry, x.vector)
        }
    &&& forall|x: ScoredItem| #[trigger] top.count(x) <= 1
    &&& forall|v: usize| #[trigger]
        seen.contains(v) && search_laws::is_eligible(s, v) ==> is_among_or_beaten(s, entry, top, v)
}

/// Node `v` is a result, or there are `ef` results and none comes after it.
pub open spec fn is_among_or_beaten(
    s: Search,
    entry: ScoredItem,
    top: Multiset<ScoredItem>,
    v: usize,
) -> bool {
    let item = search_laws::item_of(s, entry, v);
    top.count(item) > 0 || (top.len() >= s.ef && forall|x: ScoredItem| #[trigger]
        top.count(x) > 0 ==> heap::item_le(x, item))
}

/// Node `v` is worth expanding: there is room for results, or it is good enough beside one of them.
pub open spec fn is_worthwhile(
    s: Search,
    entry: ScoredItem,
    top: Multiset<ScoredItem>,
    v: usize,
) -> bool {
    top.len() < s.ef || exists|x: ScoredItem| #[trigger]
        top.count(x) > 0 && (s.within)(search_laws::item_of(s, entry, v).distance, x.distance)
}

/// Node `v` has been seen, may be expanded, and has not been.
pub open spec fn is_open(
    s: Search,
    entry: ScoredItem,
    seen: Set<usize>,
    expanded: Seq<usize>,
    v: usize,
) -> bool {
    &&& seen.contains(v)
    &&& may_be_expanded(s, entry, v)
    &&& !expanded.contains(v)
}

/// Node `u` is the one to be expanded next: an open one. Unless more results are wanted than are
/// kept, it is worth it, and the nearest of all open ones.
pub open spec fn comes_next(
    s: Search,
    entry: ScoredItem,
    expanded: Seq<usize>,
    top: Multiset<ScoredItem>,
    u: usize,
) -> bool {
    let seen = seen_after(s, entry, expanded);
    &&& is_open(s, entry, seen, expanded, u)
    &&& s.k <= s.ef ==> {
        &&& is_worthwhile(s, entry, top, u)
        &&& forall|v: usize| #[trigger]
            is_open(s, entry, seen, expanded, v) ==> heap::item_le(
                search_laws::item_of(s, entry, u),
                search_laws::item_of(s, entry, v),
            )
    }
}

/// The nodes of `expanded` were expanded in turn, and `tops` holds the results before each of them
/// and at the end.
pub open spec fn is_course(
    s: Search,
    entry: ScoredItem,
    expanded: Seq<usize>,
    tops: Seq<Multiset<ScoredItem>>,
) -> bool {
    &&& tops.len() == expanded.len() + 1
    &&& forall|i: int|
        0 <= i < tops.len() ==> are_nearest(
            s,
            entry,
            seen_after(s, entry, expanded.take(i)),
            #[trigger] tops[i],
        )
    &&& forall|i: int|
        0 <= i < expanded.len() ==> comes_next(
            s,
            entry,
            expanded.take(i),
            tops[i],
            #[trigger] expanded[i],
        )
}

/// Nothing is left that would be worth expanding. Where more results are wanted than are kept,
/// everything was expanded that ever was a result.
pub open spec fn is_complete(
    s: Search,
    entry: ScoredItem,
    expanded: Seq<usize>,
    tops: Seq<Multiset<ScoredItem>>,
) -> bool {
    &&& forall|v: usize| #[trigger]
        is_open(s, entry, seen_after(s, entry, expanded), expanded, v) ==> !is_worthwhile(
            s,
            entry,
            tops.last(),
            v,
        )
    &&& s.k > s.ef ==> forall|i: int, x: ScoredItem|
        0 <= i < tops.len() && #[trigger] tops[i].count(x) > 0 ==> expanded.contains(x.vector)
}

proof fn lemma_visit_all_seen(s: Search, st: SearchState, list: Seq<usize>)
    ensures
        forall|v: usize| #[trigger]
            search::visit_all(s, st, list).visited.contains(v) <==> st.visited.contains(v)
                || list.contains(v),
    decreases list.len(),
{
    if list.len() > 0 {
        let front = list.drop_last();
        lemma_visit_all_seen(s, st, front);
        let mid = search::visit_all(s, st, front);
        let next = search::visit_all(s, st, list);
        assert(next.visited =~= mid.visited.insert(list.last()));
        assert forall|v: usize| #[trigger] next.visited.contains(v) <==> st.visited.contains(v)
            || list.contains(v) by {
            assert(mid.visited.contains(v) <==> st.visited.contains(v) || front.contains(v));
            if front.contains(v) {
                let i = choose|i: int| 0 <= i < front.len() && front[i] == v;
                assert(list[i] == v);
            }
            if list.contains(v) {
                let i = choose|i: int| 0 <= i < list.len() && list[i] == v;
                if i < front.len() {
                    assert(front[i] == v);
                }
            }
            if v == list.last() {
                assert(list[list.len() - 1] == v);
            }
        }
    }
}

proof fn lemma_passed_over_exact(s: Search, st: SearchState, list: Seq<usize>)
    ensures
        forall|w: usize| #[trigger]
            search::passed_over(s, st, list).contains(w) <==> list.contains(w) && !(s.keep)(w)
                && !st.visited.contains(w),
    decreases list.len(),
{
    if list.len() > 0 {
        let front = list.drop_last();
        let last = list.last();
        lemma_passed_over_exact(s, st, front);
        lemma_visit_all_seen(s, st, front);
        let earlier = search::passed_over(s, st, front);
        let all = search::passed_over(s, st, list);
        assert forall|w: usize| #[trigger] all.contains(w) <==> list.contains(w) && !(s.keep)(w)
            && !st.visited.contains(w) by {
            assert(list[list.len() - 1] == last);
            if front.contains(w) {
                let i = choose|i: int| 0 <= i < front.len() && front[i] == w;
                assert(list[i] == w);
            }
            if list.contains(w) {
                let i = choose|i: int| 0 <= i < list.len() && list[i] == w;
                if i < front.len() {
                    assert(front[i] == w);
                }
            }
            if earlier.contains(w) {
                let i = choose|i: int| 0 <= i < earlier.len() && earlier[i] == w;
                assert(all[i] == w);
            }
            if all.contains(w) {
                let i = choose|i: int| 0 <= i < all.len() && all[i] == w;
                if i < earlier.len() {
                    assert(earlier[i] == w);
                }
            }
            if all.len() > earlier.len() {
                assert(all[earlier.len() as int] == last);
            }
        }
    }
}

proof fn lemma_visit_around_seen(s: Search, st: SearchState, mids: Seq<usize>)
    ensures
        forall|v: usize| #[trigger]
            search::visit_around(s, st, mids).visited.contains(v) <==> st.visited.contains(v) || (
            exists|i: int|
                0 <= i < mids.len() && (s.adjacent)(#[trigger] mids[i]).contains(v)),
    decreases mids.len(),
{
    if mids.len() > 0 {
        let front = mids.drop_last();
        lemma_visit_around_seen(s, st, front);
        let mid = search::visit_around(s, st, front);
        lemma_visit_all_seen(s, mid, (s.adjacent)(mids.last()));
        let next = search::visit_around(s, st, mids);
        assert forall|v: usize| #[trigger] next.visited.contains(v) <==> st.visited.contains(v) || (
        exists|i: int| 0 <= i < mids.len() && (s.adjacent)(#[trigger] mids[i]).contains(v)) by {
            if exists|i: int| 0 <= i < front.len() && (s.adjacent)(#[trigger] front[i]).contains(v) {
                let i = choose|i: int|
                    0 <= i < front.len() && (s.adjacent)(#[trigger] front[i]).contains(v);
                assert((s.adjacent)(mids[i]).contains(v));
            }
            if exists|i: int| 0 <= i < mids.len() && (s.adjacent)(#[trigger] mids[i]).contains(v) {
                let i = choose|i: int|
                    0 <= i < mids.len() && (s.adjacent)(#[trigger] mids[i]).contains(v);
                if i < front.len() {
                    assert((s.adjacent)(front[i]).contains(v));
                }
            }
            if (s.adjacent)(mids.last()).contains(v) {
                assert((s.adjacent)(mids[mids.len() - 1]).contains(v));
            }
        }
    }
}

/// After the expansion of a node, all its neighbours have been looked at; where the search jumps
/// over rejected nodes, so have all neighbours of each neighbour that the filter rejects and that
/// had not been looked at before; and nothing else was.
pub proof fn law_expansion_looks_around(s: Search, st: SearchState, u: usize)
    ensures
        forall|v: usize| #[trigger]
            search::expand(s, st, u).visited.contains(v) <==> widened(s, st.visited, u).contains(
                v,
            ),
{
    let list = (s.adjacent)(u);
    let direct = search::visit_all(s, st, list);
    let mids = search::passed_over(s, st, list);
    lemma_visit_all_seen(s, st, list);
    lemma_passed_over_exact(s, st, list);
    lemma_visit_around_seen(s, direct, mids);
    assert forall|v: usize| #[trigger]
        search::expand(s, st, u).visited.contains(v) <==> widened(s, st.visited, u).contains(v) by {
        if s.walk == Walk::JumpOver {
            if exists|i: int| 0 <= i < mids.len() && (s.adjacent)(#[trigger] mids[i]).contains(v) {
                let i = choose|i: int|
                    0 <= i < mids.len() && (s.adjacent)(#[trigger] mids[i]).contains(v);
                assert(mids.contains(mids[i]));
                assert(is_passed_over(s, st.visited, u, mids[i]));
            }
            if is_jumped_to(s, st.visited, u, v) {
                let w = choose|w: usize| #[trigger]
                    is_passed_over(s, st.visited, u, w) && (s.adjacent)(w).contains(v);
                assert(mids.contains(w));
                let i = choose|i: int| 0 <= i < mids.len() && mids[i] == w;
                assert((s.adjacent)(mids[i]).contains(v));
            }
        }
    }
}

/// What holds of the candidates while the nodes of `expanded` have been expanded, or the last of
/// them is being so: they are open nodes, and the open nodes that are no candidates are not worth
/// it; every result is a candidate or was expanded.
spec fn keeps_up(s: Search, entry: ScoredItem, st: SearchState, expanded: Seq<usize>) -> bool {
    &&& search_laws::inv(s, entry, st)
    &&& are_nearest(s, entry, st.visited, st.top)
    &&& forall|i: int| 0 <= i < expanded.len() ==> st.visited.contains(#[trigger] expanded[i])
    &&& forall|x: ScoredItem| #[trigger]
        st.candidates.count(x) > 0 ==> is_open(s, entry, st.visited, expanded, x.vector)
    &&& forall|x: ScoredItem| #[trigger] st.candidates.count(x) <= 1
    &&& forall|v: usize| #[trigger]
        is_open(s, entry, st.visited, expanded, v) ==> is_pending(s, entry, st, v)
            || !is_worthwhile(s, entry, st.top, v)
    &&& forall|x: ScoredItem| #[trigger]
        st.top.count(x) > 0 ==> st.candidates.count(x) > 0 || expanded.contains(x.vector)
}

spec fn is_pending(s: Search, entry: ScoredItem, st: SearchState, v: usize) -> bool {
    st.candidates.count(search_laws::item_of(s, entry, v)) > 0
}

/// No candidate is lost.
spec fn keeps_candidates(a: SearchState, b: SearchState) -> bool {
    forall|x: ScoredItem| a.candidates.count(x) <= #[trigger] b.candidates.count(x)
}

/// What is worth it beside the farthest result is worth it.
proof fn lemma_worthwhile(s: Search, entry: ScoredItem, top: Multiset<ScoredItem>, v: usize)
    requires
        is_relaxing(s),
        top.len() > 0,
    ensures
        is_worthwhile(s, entry, top, v) <==> (top.len() < s.ef || (s.within)(
            search_laws::item_of(s, entry, v).distance,
            heap::farthest(top).distance,
        )),
{
    heap::lemma_extreme_exists::<false>(top);
    let worst = heap::farthest(top);
    let d = search_laws::item_of(s, entry, v).distance;
    assert(top.count(worst) > 0);
    if exists|x: ScoredItem| #[trigger] top.count(x) > 0 && (s.within)(d, x.distance) {
        let x = choose|x: ScoredItem| #[trigger] top.count(x) > 0 && (s.within)(d, x.distance);
        assert(heap::item_le(x, worst));
        assert((s.within)(d, x.distance));
        assert((s.within)(d, worst.distance));
    }
}

/// What a result set becomes when an item is offered to it.
spec fn offered(s: Search, top: Multiset<ScoredItem>, item: ScoredItem) -> Multiset<ScoredItem> {
    search::trim(s.ef, top.insert(item))
}

/// Results that are full get no worse when an item joins them.
proof fn lemma_offered(s: Search, top: Multiset<ScoredItem>, item: ScoredItem)
    requires
        s.ef > 0,
        top.len() <= s.ef,
        top.count(item) == 0,
        forall|x: ScoredItem| #[trigger] top.count(x) <= 1,
    ensures
        ({
            let next = offered(s, top, item);
            &&& next.len() <= s.ef
            &&& next.len() >= top.len()
            &&& next.len() < s.ef ==> next == top.insert(item)
            &&& forall|x: ScoredItem| #[trigger] next.count(x) <= 1
            &&& forall|x: ScoredItem| #[trigger]
                next.count(x) > 0 ==> top.count(x) > 0 || x == item
            &&& forall|x: ScoredItem|
                (top.count(x) > 0 || x == item) && #[trigger] next.count(x) == 0 ==> next.len()
                    == s.ef && forall|y: ScoredItem| #[trigger]
                    next.count(y) > 0 ==> heap::item_le(y, x)
            &&& top.len() == s.ef ==> forall|y: ScoredItem| #[trigger]
                next.count(y) > 0 ==> exists|x: ScoredItem| #[trigger]
                    top.count(x) > 0 && heap::item_le(y, x)
        }),
{
    let grown = top.insert(item);
    let next = offered(s, top, item);
    search_laws::lemma_trim(s, grown);
    if grown.len() > s.ef {
        heap::lemma_extreme_exists::<false>(grown);
        let last = heap::farthest(grown);
        assert(grown.count(last) > 0);
        assert(next == grown.remove(last));
        assert forall|x: ScoredItem|
            (top.count(x) > 0 || x == item) && #[trigger] next.count(x) == 0 implies next.len()
            == s.ef && forall|y: ScoredItem| #[trigger]
            next.count(y) > 0 ==> heap::item_le(y, x) by {
            assert(grown.count(x) > 0);
            assert(x == last);
            assert forall|y: ScoredItem| #[trigger] next.count(y) > 0 implies heap::item_le(
                y,
                x,
            ) by {
                assert(grown.count(y) > 0);
            }
        }
        assert forall|y: ScoredItem| #[trigger] next.count(y) > 0 implies exists|x: ScoredItem|
            #[trigger] top.count(x) > 0 && heap::item_le(y, x) by {
            assert(grown.count(y) > 0);
            if y == item {
                assert(last != item);
                assert(top.count(last) > 0);
                assert(heap::item_le(y, last));
            } else {
                assert(top.count(y) > 0);
                assert(heap::item_le(y, y));
            }
        }
    }
}

/// What was not worth it beside results is not worth it beside those that replace them.
proof fn lemma_not_worth_later(
    s: Search,
    entry: ScoredItem,
    top: Multiset<ScoredItem>,
    item: ScoredItem,
    v: usize,
)
    requires
        is_relaxing(s),
        s.ef > 0,
        top.len() <= s.ef,
        top.count(item) == 0,
        forall|x: ScoredItem| #[trigger] top.count(x) <= 1,
        !is_worthwhile(s, entry, top, v),
    ensures
        !is_worthwhile(s, entry, offered(s, top, item), v),
{
    lemma_offered(s, top, item);
    let next = offered(s, top, item);
    let d = search_laws::item_of(s, entry, v).distance;
    if exists|y: ScoredItem| #[trigger] next.count(y) > 0 && (s.within)(d, y.distance) {
        let y = choose|y: ScoredItem| #[trigger] next.count(y) > 0 && (s.within)(d, y.distance);
        let x = choose|x: ScoredItem| #[trigger] top.count(x) > 0 && heap::item_le(y, x);
        assert((s.within)(d, y.distance));
        assert((s.within)(d, x.distance));
    }
}

/// The nearest of what has been seen, once one more node is seen that can be a result.
proof fn lemma_nearest_offered(
    s: Search,
    entry: ScoredItem,
    seen: Set<usize>,
    top: Multiset<ScoredItem>,
    v: usize,
)
    requires
        s.ef > 0,
        are_nearest(s, entry, seen, top),
        !seen.contains(v),
        search_laws::is_eligible(s, v),
    ensures
        are_nearest(
            s,
            entry,
            seen.insert(v),
            offered(s, top, search_laws::item_of(s, entry, v)),
        ),
{
    let item = search_laws::item_of(s, entry, v);
    assert(item.vector == v);
    assert(top.count(item) == 0);
    lemma_offered(s, top, item);
    let next = offered(s, top, item);
    let now = seen.insert(v);
    assert forall|w: usize| #[trigger]
        now.contains(w) && search_laws::is_eligible(s, w) implies is_among_or_beaten(
        s,
        entry,
        next,
        w,
    ) by {
        let other = search_laws::item_of(s, entry, w);
        if next.count(other) == 0 {
            if w != v {
                assert(seen.contains(w));
                if top.count(other) == 0 {
                    assert(is_among_or_beaten(s, entry, top, w));
                    assert forall|y: ScoredItem| #[trigger] next.count(y) > 0 implies heap::item_le(
                        y,
                        other,
                    ) by {
                        let x = choose|x: ScoredItem| #[trigger]
                            top.count(x) > 0 && heap::item_le(y, x);
                        assert(heap::item_le(x, other));
                    }
                }
            }
        }
    }
}

/// The nearest of what has been seen stay so when a node is seen that cannot be a result, or that
/// all of them come before.
proof fn lemma_nearest_kept(
    s: Search,
    entry: ScoredItem,
    seen: Set<usize>,
    top: Multiset<ScoredItem>,
    v: usize,
)
    requires
        are_nearest(s, entry, seen, top),
        search_laws::is_eligible(s, v) ==> is_among_or_beaten(s, entry, top, v),
    ensures
        are_nearest(s, entry, seen.insert(v), top),
{
    let now = seen.insert(v);
    assert forall|w: usize| #[trigger]
        now.contains(w) && search_laws::is_eligible(s, w) implies is_among_or_beaten(
        s,
        entry,
        top,
        w,
    ) by {
        if w != v {
            assert(seen.contains(w));
        }
    }
}

proof fn lemma_visit_keeps_up(
    s: Search,
    entry: ScoredItem,
    st: SearchState,
    expanded: Seq<usize>,
    v: usize,
)
    requires
        is_relaxing(s),
        s.ef > 0,
        keeps_up(s, entry, st, expanded),
        v < s.nodes,
        search_laws::reaches(s.adjacent, entry.vector, v),
    ensures
        keeps_up(s, entry, search::visit(s, st, v), expanded),
        keeps_candidates(st, search::visit(s, st, v)),
{
    let next = search::visit(s, st, v);
    search_laws::lemma_visit(s, entry, st, v);
    if !st.visited.contains(v) {
        let item = search::scored(s, v);
        assert(item == search_laws::item_of(s, entry, v));
        assert(st.top.count(item) == 0);
        assert(st.candidates.count(item) == 0);
        assert(!expanded.contains(v)) by {
            if expanded.contains(v) {
                let i = choose|i: int| 0 <= i < expanded.len() && expanded[i] == v;
                assert(st.visited.contains(expanded[i]));
            }
        }
        lemma_offered(s, st.top, item);
        search_laws::lemma_trim(s, st.top);
        let welcome = search::is_welcome(s.ef, s.within, st.top, item.distance);
        if st.top.len() > 0 {
            heap::lemma_extreme_exists::<false>(st.top);
            lemma_worthwhile(s, entry, st.top, v);
        }
        assert(welcome <==> is_worthwhile(s, entry, st.top, v));
        let eligible = search_laws::is_eligible(s, v);
        if welcome && eligible {
            lemma_nearest_offered(s, entry, st.visited, st.top, v);
            assert(next.top == offered(s, st.top, item));
        } else {
            if eligible {
                assert forall|x: ScoredItem| #[trigger] st.top.count(x) > 0 implies heap::item_le(
                    x,
                    item,
                ) by {
                    assert(!(s.within)(item.distance, x.distance));
                }
            }
            lemma_nearest_kept(s, entry, st.visited, st.top, v);
            assert(next.top == st.top);
        }
        assert forall|w: usize| #[trigger]
            is_open(s, entry, next.visited, expanded, w) implies is_pending(s, entry, next, w)
            || !is_worthwhile(s, entry, next.top, w) by {
            if w != v {
                assert(is_open(s, entry, st.visited, expanded, w));
                if !is_pending(s, entry, st, w) {
                    if welcome && eligible {
                        lemma_not_worth_later(s, entry, st.top, item, w);
                    }
                }
            }
        }
        assert forall|x: ScoredItem| #[trigger] next.candidates.count(x) > 0 implies is_open(
            s,
            entry,
            next.visited,
            expanded,
            x.vector,
        ) by {
            if x != item {
                assert(st.candidates.count(x) > 0);
            }
        }
        assert forall|x: ScoredItem| #[trigger] next.top.count(x) > 0 implies next.candidates.count(
            x,
        ) > 0 || expanded.contains(x.vector) by {
            if x != item {
                assert(st.top.count(x) > 0);
            }
        }
    }
}

proof fn lemma_visit_all_keeps_up(
    s: Search,
    entry: ScoredItem,
    st: SearchState,
    expanded: Seq<usize>,
    list: Seq<usize>,
)
    requires
        is_relaxing(s),
        s.ef > 0,
        keeps_up(s, entry, st, expanded),
        forall|i: int|
            0 <= i < list.len() ==> #[trigger] list[i] < s.nodes && search_laws::reaches(
                s.adjacent,
                entry.vector,
                list[i],
            ),
    ensures
        keeps_up(s, entry, search::visit_all(s, st, list), expanded),
        keeps_candidates(st, search::visit_all(s, st, list)),
    decreases list.len(),
{
    if list.len() > 0 {
        let front = list.drop_last();
        lemma_visit_all_keeps_up(s, entry, st, expanded, front);
        let mid = search::visit_all(s, st, front);
        assert(list[list.len() - 1] == list.last());
        lemma_visit_keeps_up(s, entry, mid, expanded, list.last());
        let next = search::visit_all(s, st, list);
        assert forall|x: ScoredItem| st.candidates.count(x) <= #[trigger] next.candidates.count(
            x,
        ) by {
            assert(st.candidates.count(x) <= mid.candidates.count(x));
        }
    }
}

proof fn lemma_visit_around_keeps_up(
    s: Search,
    entry: ScoredItem,
    st: SearchState,
    expanded: Seq<usize>,
    mids: Seq<usize>,
)
    requires
        is_relaxing(s),
        s.ef > 0,
        search::is_closed(s),
        keeps_up(s, entry, st, expanded),
        forall|i: int|
            0 <= i < mids.len() ==> #[trigger] mids[i] < s.nodes && search_laws::reaches(
                s.adjacent,
                entry.vector,
                mids[i],
            ),
    ensures
        keeps_up(s, entry, search::visit_around(s, st, mids), expanded),
        keeps_candidates(st, search::visit_around(s, st, mids)),
    decreases mids.len(),
{
    if mids.len() > 0 {
        let front = mids.drop_last();
        lemma_visit_around_keeps_up(s, entry, st, expanded, front);
        let mid = search::visit_around(s, st, front);
        assert(mids[mids.len() - 1] == mids.last());
        search_laws::lemma_neighbours_fit(s, entry, mids.last());
        lemma_visit_all_keeps_up(s, entry, mid, expanded, (s.adjacent)(mids.last()));
        let next = search::visit_around(s, st, mids);
        assert forall|x: ScoredItem| st.candidates.count(x) <= #[trigger] next.candidates.count(
            x,
        ) by {
            assert(st.candidates.count(x) <= mid.candidates.count(x));
        }
    }
}

proof fn lemma_expand_keeps_up(
    s: Search,
    entry: ScoredItem,
    st: SearchState,
    expanded: Seq<usize>,
    u: usize,
)
    requires
        is_relaxing(s),
        s.ef > 0,
        search::is_closed(s),
        keeps_up(s, entry, st, expanded),
        st.visited.contains(u),
    ensures
        keeps_up(s, entry, search::expand(s, st, u), expanded),
        keeps_candidates(st, search::expand(s, st, u)),
{
    let list = (s.adjacent)(u);
    search_laws::lemma_neighbours_fit(s, entry, u);
    lemma_visit_all_keeps_up(s, entry, st, expanded, list);
    if s.walk == Walk::JumpOver {
        let direct = search::visit_all(s, st, list);
        let mids = search::passed_over(s, st, list);
        lemma_passed_over_exact(s, st, list);
        assert forall|i: int| 0 <= i < mids.len() implies #[trigger] mids[i] < s.nodes
            && search_laws::reaches(s.adjacent, entry.vector, mids[i]) by {
            assert(mids.contains(mids[i]));
            assert(list.contains(mids[i]));
            let j = choose|j: int| 0 <= j < list.len() && list[j] == mids[i];
            assert(list[j] < s.nodes);
        }
        lemma_visit_around_keeps_up(s, entry, direct, expanded, mids);
        let next = search::expand(s, st, u);
        assert forall|x: ScoredItem| st.candidates.count(x) <= #[trigger] next.candidates.count(
            x,
        ) by {
            assert(st.candidates.count(x) <= direct.candidates.count(x));
        }
    }
}

/// A search has come to state `st` by a course.
spec fn is_under_way(
    s: Search,
    entry: ScoredItem,
    st: SearchState,
    expanded: Seq<usize>,
    tops: Seq<Multiset<ScoredItem>>,
) -> bool {
    &&& keeps_up(s, entry, st, expanded)
    &&& is_course(s, entry, expanded, tops)
    &&& tops.last() == st.top
    &&& st.visited =~= seen_after(s, entry, expanded)
    &&& forall|i: int, x: ScoredItem|
        0 <= i < tops.len() && #[trigger] tops[i].count(x) > 0 ==> st.candidates.count(x) > 0
            || expanded.contains(x.vector)
}

proof fn lemma_under_way_starts(s: Search, entry: ScoredItem)
    requires
        is_relaxing(s),
        s.ef > 0,
        entry.vector < s.nodes,
    ensures
        is_under_way(
            s,
            entry,
            search::start(s, entry),
            Seq::empty(),
            seq![search::start(s, entry).top],
        ),
{
    let st = search::start(s, entry);
    let none = Seq::<usize>::empty();
    search_laws::lemma_start(s, entry);
    assert(none.take(0) =~= none);
    assert(st.visited =~= seen_after(s, entry, none));
    assert(st.candidates.count(entry) == 1);
    assert(are_nearest(s, entry, st.visited, st.top));
    assert(keeps_up(s, entry, st, none));
}

proof fn lemma_step_under_way(
    s: Search,
    entry: ScoredItem,
    st: SearchState,
    expanded: Seq<usize>,
    tops: Seq<Multiset<ScoredItem>>,
)
    requires
        is_relaxing(s),
        s.ef > 0,
        search::is_closed(s),
        is_under_way(s, entry, st, expanded, tops),
        !search::is_done(s, st),
    ensures
        is_under_way(
            s,
            entry,
            search::step(s, st),
            expanded.push(heap::nearest(st.candidates).vector),
            tops.push(search::step(s, st).top),
        ),
{
    search_laws::lemma_take_nearest(s, entry, st);
    heap::lemma_extreme_exists::<true>(st.candidates);
    let node = heap::nearest(st.candidates);
    let u = node.vector;
    let taken = search::take_nearest(st);
    let more = expanded.push(u);
    let next = search::step(s, st);
    let all = tops.push(next.top);
    assert(st.candidates.count(node) == 1);
    assert(more[expanded.len() as int] == u);
    assert forall|v: usize| expanded.contains(v) implies #[trigger] more.contains(v) by {
        let i = choose|i: int| 0 <= i < expanded.len() && expanded[i] == v;
        assert(more[i] == v);
    }
    assert forall|v: usize| #[trigger] more.contains(v) && v != u implies expanded.contains(v) by {
        let i = choose|i: int| 0 <= i < more.len() && more[i] == v;
        assert(expanded[i] == v);
    }
    assert(keeps_up(s, entry, taken, more)) by {
        assert forall|i: int| 0 <= i < more.len() implies taken.visited.contains(
            #[trigger] more[i],
        ) by {
            if i < expanded.len() {
                assert(st.visited.contains(expanded[i]));
            }
        }
        assert forall|x: ScoredItem| #[trigger] taken.candidates.count(x) > 0 implies is_open(
            s,
            entry,
            taken.visited,
            more,
            x.vector,
        ) by {
            assert(st.candidates.count(x) > 0);
            assert(is_open(s, entry, st.visited, expanded, x.vector));
            if x.vector == u {
                assert(x == node);
            }
        }
        assert forall|v: usize| #[trigger]
            is_open(s, entry, taken.visited, more, v) implies is_pending(s, entry, taken, v)
            || !is_worthwhile(s, entry, taken.top, v) by {
            assert(v != u);
            assert(is_open(s, entry, st.visited, expanded, v));
            assert(search_laws::item_of(s, entry, v) != node);
        }
        assert forall|x: ScoredItem| #[trigger] taken.top.count(x) > 0 implies taken.candidates.count(
            x,
        ) > 0 || more.contains(x.vector) by {
            if x == node {
                assert(more.contains(u));
            }
        }
    }
    lemma_expand_keeps_up(s, entry, taken, more, u);
    law_expansion_looks_around(s, taken, u);
    assert(more.drop_last() =~= expanded);
    assert(next.visited =~= seen_after(s, entry, more));
    assert(comes_next(s, entry, expanded, st.top, u)) by {
        let seen = seen_after(s, entry, expanded);
        assert(is_open(s, entry, st.visited, expanded, u));
        if s.k <= s.ef {
            if st.top.len() > 0 {
                lemma_worthwhile(s, entry, st.top, u);
            }
            assert(is_worthwhile(s, entry, st.top, u));
            assert forall|v: usize| #[trigger]
                is_open(s, entry, seen, expanded, v) implies heap::item_le(
                node,
                search_laws::item_of(s, entry, v),
            ) by {
                assert(is_open(s, entry, st.visited, expanded, v));
                if !is_pending(s, entry, st, v) {
                    lemma_worthwhile(s, entry, st.top, v);
                    let d = search_laws::item_of(s, entry, v).distance;
                    let worst = heap::farthest(st.top).distance;
                    assert((s.within)(node.distance, worst));
                    assert(!(s.within)(d, worst));
                }
            }
        }
    }
    assert(is_course(s, entry, more, all)) by {
        assert forall|i: int| 0 <= i < all.len() implies are_nearest(
            s,
            entry,
            seen_after(s, entry, more.take(i)),
            #[trigger] all[i],
        ) by {
            if i < tops.len() {
                assert(more.take(i) =~= expanded.take(i));
                assert(all[i] == tops[i]);
            } else {
                assert(more.take(i) =~= more);
            }
        }
        assert forall|i: int| 0 <= i < more.len() implies comes_next(
            s,
            entry,
            more.take(i),
            all[i],
            #[trigger] more[i],
        ) by {
            assert(more.take(i) =~= expanded.take(i));
            assert(all[i] == tops[i]);
            if i == expanded.len() {
                assert(expanded.take(i) =~= expanded);
            } else {
                assert(more[i] == expanded[i]);
            }
        }
    }
    assert forall|i: int, x: ScoredItem|
        0 <= i < all.len() && #[trigger] all[i].count(x) > 0 implies next.candidates.count(x) > 0
        || more.contains(x.vector) by {
        if i < tops.len() {
            assert(tops[i].count(x) > 0);
            if st.candidates.count(x) > 0 && x != node {
                assert(taken.candidates.count(x) > 0);
                assert(taken.candidates.count(x) <= next.candidates.count(x));
            } else if x == node {
                assert(more.contains(u));
            } else {
                assert(expanded.contains(x.vector));
            }
        }
    }
}

proof fn lemma_run_under_way(
    s: Search,
    entry: ScoredItem,
    st: SearchState,
    fuel: nat,
    expanded: Seq<usize>,
    tops: Seq<Multiset<ScoredItem>>,
) -> (r: (Seq<usize>, Seq<Multiset<ScoredItem>>))
    requires
        is_relaxing(s),
        s.ef > 0,
        search::is_closed(s),
        is_under_way(s, entry, st, expanded, tops),
    ensures
        is_under_way(s, entry, search::run(s, st, fuel), r.0, r.1),
    decreases fuel,
{
    if fuel > 0 && !search::is_done(s, st) {
        lemma_step_under_way(s, entry, st, expanded, tops);
        lemma_run_under_way(
            s,
            entry,
            search::step(s, st),
            (fuel - 1) as nat,
            expanded.push(heap::nearest(st.candidates).vector),
            tops.push(search::step(s, st).top),
        )
    } else {
        (expanded, tops)
    }
}

/// A search expands the nearest of the nodes that it has seen and that are open, for as long as
/// that is worth it beside the results; and its results are at all times the nearest of what it
/// has seen. It ends when nothing is left that would be worth expanding.
pub proof fn law_search_is_best_first(s: Search, entry: ScoredItem)
    requires
        search::is_closed(s),
        is_relaxing(s),
        s.ef > 0,
        entry.vector < s.nodes,
    ensures
        exists|expanded: Seq<usize>, tops: Seq<Multiset<ScoredItem>>| #[trigger]
            is_course(s, entry, expanded, tops) && is_complete(s, entry, expanded, tops)
                && tops.last() == search::found(s, entry),
{
    let first = search::start(s, entry);
    lemma_under_way_starts(s, entry);
    let (expanded, tops) = lemma_run_under_way(
        s,
        entry,
        first,
        s.nodes,
        Seq::empty(),
        seq![first.top],
    );
    let last = search::outcome(s, entry);
    search_laws::lemma_start(s, entry);
    search_laws::lemma_run(s, entry, first, s.nodes);
    assert(search::is_done(s, last));
    if last.candidates.len() > 0 {
        heap::lemma_extreme_exists::<true>(last.candidates);
    }
    assert forall|v: usize| #[trigger]
        is_open(s, entry, seen_after(s, entry, expanded), expanded, v) implies !is_worthwhile(
        s,
        entry,
        tops.last(),
        v,
    ) by {
        assert(is_open(s, entry, last.visited, expanded, v));
        if is_pending(s, entry, last, v) {
            let item = search_laws::item_of(s, entry, v);
            let node = heap::nearest(last.candidates);
            assert(last.candidates.count(item) > 0);
            assert(heap::item_le(node, item));
            lemma_worthwhile(s, entry, last.top, v);
            let worst = heap::farthest(last.top).distance;
            assert(!(s.within)(node.distance, worst));
            assert(!(s.within)(item.distance, worst));
        }
    }
    assert(is_complete(s, entry, expanded, tops)) by {
        if s.k > s.ef {
            assert(last.candidates.len() == 0);
        }
    }
}

/// What has been seen stays seen.
proof fn lemma_seen_grows(s: Search, entry: ScoredItem, expanded: Seq<usize>, i: int, v: usize)
    requires
        0 <= i <= expanded.len(),
        seen_after(s, entry, expanded.take(i)).contains(v),
    ensures
        seen_after(s, entry, expanded).contains(v),
    decreases expanded.len() - i,
{
    if i < expanded.len() {
        assert(expanded.take(i + 1).drop_last() =~= expanded.take(i));
        lemma_seen_grows(s, entry, expanded, i + 1, v);
    } else {
        assert(expanded.take(i) =~= expanded);
    }
}

/// Whatever the expansion of a node shows has been seen in the end.
proof fn lemma_expansion_is_seen(
    s: Search,
    entry: ScoredItem,
    expanded: Seq<usize>,
    i: int,
    v: usize,
)
    requires
        0 <= i < expanded.len(),
        widened(s, seen_after(s, entry, expanded.take(i)), expanded[i]).contains(v),
    ensures
        seen_after(s, entry, expanded).contains(v),
{
    assert(expanded.take(i + 1).drop_last() =~= expanded.take(i));
    lemma_seen_grows(s, entry, expanded, i + 1, v);
}

/// The entry is expanded first.
proof fn lemma_entry_is_expanded(
    s: Search,
    entry: ScoredItem,
    expanded: Seq<usize>,
    tops: Seq<Multiset<ScoredItem>>,
)
    requires
        is_relaxing(s),
        s.ef > 0,
        is_course(s, entry, expanded, tops),
        is_complete(s, entry, expanded, tops),
    ensures
        expanded.len() > 0,
        expanded[0] == entry.vector,
        seen_after(s, entry, expanded).contains(entry.vector),
{
    let none = Seq::<usize>::empty();
    assert(expanded.take(0) =~= none);
    assert(seen_after(s, entry, none).contains(entry.vector));
    lemma_seen_grows(s, entry, expanded, 0, entry.vector);
    if expanded.len() == 0 {
        assert(expanded =~= none);
        assert(is_open(s, entry, seen_after(s, entry, expanded), expanded, entry.vector));
        assert(are_nearest(s, entry, seen_after(s, entry, none), tops[0]));
        let top = tops[0];
        assert(top.len() >= s.ef);
        let x = top.choose();
        assert(top.count(x) > 0);
        assert(x == entry);
        assert((s.within)(entry.distance, entry.distance));
    } else {
        assert(comes_next(s, entry, expanded.take(0), tops[0], expanded[0]));
    }
}

/// Every node that has been seen can be reached.
proof fn lemma_seen_is_reached(s: Search, entry: ScoredItem, expanded: Seq<usize>, v: usize)
    requires
        seen_after(s, entry, expanded).contains(v),
        forall|i: int|
            0 <= i < expanded.len() ==> seen_after(s, entry, expanded.take(i)).contains(
                #[trigger] expanded[i],
            ),
    ensures
        search_laws::reaches(s.adjacent, entry.vector, v),
    decreases expanded.len(),
{
    if expanded.len() == 0 {
        search_laws::lemma_reaches_self(s.adjacent, v);
    } else {
        let front = expanded.drop_last();
        let u = expanded.last();
        let n = front.len() as int;
        assert forall|i: int| 0 <= i < front.len() implies seen_after(
            s,
            entry,
            front.take(i),
        ).contains(#[trigger] front[i]) by {
            assert(front.take(i) =~= expanded.take(i));
            assert(expanded[i] == front[i]);
        }
        assert(expanded.take(n) =~= front);
        assert(expanded[n] == u);
        let seen = seen_after(s, entry, front);
        if seen.contains(v) {
            lemma_seen_is_reached(s, entry, front, v);
        } else {
            lemma_seen_is_reached(s, entry, front, u);
            if (s.adjacent)(u).contains(v) {
                search_laws::lemma_reaches_next(s.adjacent, entry.vector, u, v);
            } else {
                let w = choose|w: usize| #[trigger]
                    is_passed_over(s, seen, u, w) && (s.adjacent)(w).contains(v);
                search_laws::lemma_reaches_next(s.adjacent, entry.vector, u, w);
                search_laws::lemma_reaches_next(s.adjacent, entry.vector, w, v);
            }
        }
    }
}

proof fn lemma_course_is_seen(
    s: Search,
    entry: ScoredItem,
    expanded: Seq<usize>,
    tops: Seq<Multiset<ScoredItem>>,
)
    requires
        is_course(s, entry, expanded, tops),
    ensures
        forall|i: int|
            0 <= i < expanded.len() ==> seen_after(s, entry, expanded.take(i)).contains(
                #[trigger] expanded[i],
            ) && may_be_expanded(s, entry, expanded[i]),
{
    assert forall|i: int| 0 <= i < expanded.len() implies seen_after(
        s,
        entry,
        expanded.take(i),
    ).contains(#[trigger] expanded[i]) && may_be_expanded(s, entry, expanded[i]) by {
        assert(comes_next(s, entry, expanded.take(i), tops[i], expanded[i]));
    }
}

/// Rejected node `w` lies behind another one: it is a neighbour of a rejected node that itself is a
/// neighbour of a node that can be reached and may be expanded. Where the search comes upon `w` by
/// a jump over the other one, it does not jump over `w` too.
pub open spec fn is_behind_another(s: Search, entry: ScoredItem, w: usize) -> bool {
    exists|u: usize, r: usize|
        {
            &&& #[trigger] (s.adjacent)(u).contains(r)
            &&& #[trigger] (s.adjacent)(r).contains(w)
            &&& may_be_expanded(s, entry, u)
            &&& search_laws::reaches(s.adjacent, entry.vector, u)
            &&& !(s.keep)(r)
            &&& r != w
        }
}

/// Node `w` is a rejected neighbour of `u` that the search has to jump over.
pub open spec fn is_to_be_jumped(s: Search, entry: ScoredItem, u: usize, w: usize) -> bool {
    &&& s.walk == Walk::JumpOver
    &&& (s.adjacent)(u).contains(w)
    &&& !(s.keep)(w)
    &&& !is_behind_another(s, entry, w)
}

/// The expansion of `u` leads to `v`: it is a neighbour, or a neighbour of a rejected neighbour that
/// the search has to jump over.
pub open spec fn leads_to(s: Search, entry: ScoredItem, u: usize, v: usize) -> bool {
    (s.adjacent)(u).contains(v) || exists|w: usize| #[trigger]
        is_to_be_jumped(s, entry, u, w) && (s.adjacent)(w).contains(v)
}

/// A rejected node that has been seen was jumped over, or lies behind another one.
proof fn lemma_rejected_is_jumped(
    s: Search,
    entry: ScoredItem,
    expanded: Seq<usize>,
    w: usize,
    v: usize,
)
    requires
        s.walk == Walk::JumpOver,
        forall|i: int|
            0 <= i < expanded.len() ==> seen_after(s, entry, expanded.take(i)).contains(
                #[trigger] expanded[i],
            ) && may_be_expanded(s, entry, expanded[i]),
        seen_after(s, entry, expanded).contains(w),
        w != entry.vector,
        !(s.keep)(w),
        (s.adjacent)(w).contains(v),
    ensures
        seen_after(s, entry, expanded).contains(v) || is_behind_another(s, entry, w),
    decreases expanded.len(),
{
    if expanded.len() > 0 {
        let front = expanded.drop_last();
        let u = expanded.last();
        let n = front.len() as int;
        assert forall|i: int| 0 <= i < front.len() implies seen_after(
            s,
            entry,
            front.take(i),
        ).contains(#[trigger] front[i]) && may_be_expanded(s, entry, front[i]) by {
            assert(front.take(i) =~= expanded.take(i));
            assert(expanded[i] == front[i]);
        }
        assert(expanded.take(n) =~= front);
        assert(expanded[n] == u);
        let seen = seen_after(s, entry, front);
        if seen.contains(w) {
            lemma_rejected_is_jumped(s, entry, front, w, v);
        } else if (s.adjacent)(u).contains(w) {
            assert(is_passed_over(s, seen, u, w));
            assert(is_jumped_to(s, seen, u, v));
        } else {
            let r = choose|r: usize| #[trigger]
                is_passed_over(s, seen, u, r) && (s.adjacent)(r).contains(w);
            lemma_seen_is_reached(s, entry, front, u);
            if r == w {
                assert((s.adjacent)(u).contains(w));
            }
            assert((s.adjacent)(u).contains(r) && (s.adjacent)(r).contains(w));
            assert(is_behind_another(s, entry, w));
        }
    }
}

/// Where the expansion of an expanded node leads has been seen.
proof fn lemma_leads_to_seen(
    s: Search,
    entry: ScoredItem,
    expanded: Seq<usize>,
    tops: Seq<Multiset<ScoredItem>>,
    u: usize,
    v: usize,
)
    requires
        is_relaxing(s),
        s.ef > 0,
        is_course(s, entry, expanded, tops),
        is_complete(s, entry, expanded, tops),
        expanded.contains(u),
        leads_to(s, entry, u, v),
    ensures
        seen_after(s, entry, expanded).contains(v),
{
    let i = choose|i: int| 0 <= i < expanded.len() && expanded[i] == u;
    lemma_course_is_seen(s, entry, expanded, tops);
    lemma_entry_is_expanded(s, entry, expanded, tops);
    if (s.adjacent)(u).contains(v) {
        lemma_expansion_is_seen(s, entry, expanded, i, v);
    } else {
        let w = choose|w: usize| #[trigger]
            is_to_be_jumped(s, entry, u, w) && (s.adjacent)(w).contains(v);
        lemma_expansion_is_seen(s, entry, expanded, i, w);
        if w == entry.vector {
            lemma_expansion_is_seen(s, entry, expanded, 0, v);
        } else {
            lemma_rejected_is_jumped(s, entry, expanded, w, v);
        }
    }
}

/// A node that has been seen and is worthwhile in the end was expanded.
proof fn lemma_worthwhile_is_expanded(
    s: Search,
    entry: ScoredItem,
    expanded: Seq<usize>,
    tops: Seq<Multiset<ScoredItem>>,
    u: usize,
)
    requires
        is_complete(s, entry, expanded, tops),
        seen_after(s, entry, expanded).contains(u),
        may_be_expanded(s, entry, u),
        is_worthwhile(s, entry, tops.last(), u),
    ensures
        expanded.contains(u),
{
    if !expanded.contains(u) {
        assert(is_open(s, entry, seen_after(s, entry, expanded), expanded, u));
    }
}

/// A path on which the search has to go on from each node to the next: it begins at the entry, and
/// every other node but the last may be expanded and is worth it beside the results.
pub open spec fn is_followed(
    s: Search,
    entry: ScoredItem,
    top: Multiset<ScoredItem>,
    p: Seq<usize>,
) -> bool {
    &&& p.len() > 0
    &&& p[0] == entry.vector
    &&& forall|i: int|
        0 <= i < p.len() - 1 ==> leads_to(s, entry, #[trigger] p[i], p[i + 1])
    &&& forall|i: int|
        0 < i < p.len() - 1 ==> may_be_expanded(s, entry, #[trigger] p[i]) && is_worthwhile(
            s,
            entry,
            top,
            p[i],
        )
}

proof fn lemma_path_is_seen(
    s: Search,
    entry: ScoredItem,
    expanded: Seq<usize>,
    tops: Seq<Multiset<ScoredItem>>,
    p: Seq<usize>,
    i: int,
)
    requires
        is_relaxing(s),
        s.ef > 0,
        is_course(s, entry, expanded, tops),
        is_complete(s, entry, expanded, tops),
        is_followed(s, entry, tops.last(), p),
        0 <= i < p.len(),
    ensures
        seen_after(s, entry, expanded).contains(p[i]),
    decreases i,
{
    lemma_entry_is_expanded(s, entry, expanded, tops);
    if i > 0 {
        lemma_path_is_seen(s, entry, expanded, tops, p, i - 1);
        if i - 1 > 0 {
            lemma_worthwhile_is_expanded(s, entry, expanded, tops, p[i - 1]);
        }
        assert(expanded.contains(p[i - 1]));
        assert(leads_to(s, entry, p[i - 1], p[i - 1 + 1]));
        lemma_leads_to_seen(s, entry, expanded, tops, p[i - 1], p[i]);
    }
}

/// Whatever lies at the end of a path of worthwhile nodes is weighed against the results: if it can
/// be a result it is one, or there are `ef` results and none comes after it. On such a path rejected
/// nodes are walked through, or jumped over, as the search does.
pub proof fn law_worthwhile_paths_are_followed(s: Search, entry: ScoredItem, p: Seq<usize>)
    requires
        search::is_closed(s),
        is_relaxing(s),
        s.ef > 0,
        entry.vector < s.nodes,
        is_followed(s, entry, search::found(s, entry), p),
        search_laws::is_eligible(s, p.last()),
    ensures
        is_among_or_beaten(s, entry, search::found(s, entry), p.last()),
{
    law_search_is_best_first(s, entry);
    let (expanded, tops) = choose|expanded: Seq<usize>, tops: Seq<Multiset<ScoredItem>>| #[trigger]
        is_course(s, entry, expanded, tops) && is_complete(s, entry, expanded, tops)
            && tops.last() == search::found(s, entry);
    lemma_path_is_seen(s, entry, expanded, tops, p, p.len() - 1);
    assert(expanded.take(expanded.len() as int) =~= expanded);
    assert(are_nearest(
        s,
        entry,
        seen_after(s, entry, expanded.take(tops.len() - 1)),
        tops[tops.len() - 1],
    ));
}

/// Where the expansion of a result or of the entry leads, by an edge or by a jump over a rejected
/// neighbour, is weighed against the results: if it can be a result it is one, or there are `ef`
/// results and none comes after it. So what is nearer than some result is a result itself.
pub proof fn law_neighbours_of_results_are_weighed(
    s: Search,
    entry: ScoredItem,
    x: ScoredItem,
    v: usize,
)
    requires
        search::is_closed(s),
        is_relaxing(s),
        s.ef > 0,
        entry.vector < s.nodes,
        search::found(s, entry).count(x) > 0 || x == entry,
        leads_to(s, entry, x.vector, v),
        search_laws::is_eligible(s, v),
    ensures
        is_among_or_beaten(s, entry, search::found(s, entry), v),
        search::found(s, entry).len() < s.ef ==> search::found(s, entry).count(
            search_laws::item_of(s, entry, v),
        ) == 1,
        forall|y: ScoredItem| #[trigger]
            search::found(s, entry).count(y) > 0 && search_laws::item_of(s, entry, v).distance
                < y.distance ==> search::found(s, entry).count(search_laws::item_of(s, entry, v))
                == 1,
{
    law_search_is_best_first(s, entry);
    let found = search::found(s, entry);
    let (expanded, tops) = choose|expanded: Seq<usize>, tops: Seq<Multiset<ScoredItem>>| #[trigger]
        is_course(s, entry, expanded, tops) && is_complete(s, entry, expanded, tops)
            && tops.last() == found;
    assert(expanded.take(expanded.len() as int) =~= expanded);
    assert(are_nearest(
        s,
        entry,
        seen_after(s, entry, expanded.take(tops.len() - 1)),
        tops[tops.len() - 1],
    ));
    lemma_entry_is_expanded(s, entry, expanded, tops);
    if found.count(x) > 0 {
        assert((s.within)(x.distance, x.distance));
        assert(is_worthwhile(s, entry, found, x.vector));
        lemma_worthwhile_is_expanded(s, entry, expanded, tops, x.vector);
    }
    assert(expanded.contains(x.vector));
    lemma_leads_to_seen(s, entry, expanded, tops, x.vector, v);
    assert(is_among_or_beaten(s, entry, found, v));
    assert(found.count(search_laws::item_of(s, entry, v)) <= 1);
}

/// Where a search walks through rejected nodes, a neighbour of the entry, rejected or not, that is
/// worth it beside the results leads on to its own neighbours: those that can be results are
/// weighed against the results.
pub proof fn law_rejected_nodes_lead_on(s: Search, entry: ScoredItem, w: usize, v: usize)
    requires
        search::is_closed(s),
        is_relaxing(s),
        s.ef > 0,
        s.walk == Walk::PassThrough,
        entry.vector < s.nodes,
        (s.adjacent)(entry.vector).contains(w),
        is_worthwhile(s, entry, search::found(s, entry), w),
        (s.adjacent)(w).contains(v),
        (s.keep)(v),
    ensures
        is_among_or_beaten(s, entry, search::found(s, entry), v),
{
    law_worthwhile_paths_are_followed(s, entry, seq![entry.vector, w, v]);
}

/// One step of a search: an edge, or where rejected nodes are jumped over, a jump over one of them.
pub open spec fn is_step(s: Search, a: usize, b: usize) -> bool {
    (s.adjacent)(a).contains(b) || (s.walk == Walk::JumpOver && exists|w: usize|
        #[trigger] (s.adjacent)(a).contains(w) && !(s.keep)(w) && (s.adjacent)(w).contains(b))
}

/// A path by which a search can come to its last node: every node before that may be expanded.
pub open spec fn is_way(s: Search, entry: ScoredItem, p: Seq<usize>) -> bool {
    &&& p.len() > 0
    &&& p[0] == entry.vector
    &&& forall|i: int|
        0 <= i < p.len() - 1 ==> may_be_expanded(s, entry, #[trigger] p[i]) && is_step(
            s,
            p[i],
            p[i + 1],
        )
}

proof fn lemma_seen_has_way(s: Search, entry: ScoredItem, expanded: Seq<usize>, v: usize) -> (p: Seq<
    usize,
>)
    requires
        seen_after(s, entry, expanded).contains(v),
        forall|i: int|
            0 <= i < expanded.len() ==> seen_after(s, entry, expanded.take(i)).contains(
                #[trigger] expanded[i],
            ) && may_be_expanded(s, entry, expanded[i]),
    ensures
        is_way(s, entry, p),
        p.last() == v,
    decreases expanded.len(),
{
    if expanded.len() == 0 {
        seq![v]
    } else {
        let front = expanded.drop_last();
        let u = expanded.last();
        let n = front.len() as int;
        assert forall|i: int| 0 <= i < front.len() implies seen_after(
            s,
            entry,
            front.take(i),
        ).contains(#[trigger] front[i]) && may_be_expanded(s, entry, front[i]) by {
            assert(front.take(i) =~= expanded.take(i));
            assert(expanded[i] == front[i]);
        }
        assert(expanded.take(n) =~= front);
        assert(expanded[n] == u);
        let seen = seen_after(s, entry, front);
        if seen.contains(v) {
            lemma_seen_has_way(s, entry, front, v)
        } else {
            let q = lemma_seen_has_way(s, entry, front, u);
            let p = q.push(v);
            if !(s.adjacent)(u).contains(v) {
                let w = choose|w: usize| #[trigger]
                    is_passed_over(s, seen, u, w) && (s.adjacent)(w).contains(v);
                assert((s.adjacent)(u).contains(w));
            }
            assert(is_step(s, u, v));
            assert forall|i: int| 0 <= i < p.len() - 1 implies may_be_expanded(
                s,
                entry,
                #[trigger] p[i],
            ) && is_step(s, p[i], p[i + 1]) by {
                if i < q.len() - 1 {
                    assert(may_be_expanded(s, entry, q[i]) && is_step(s, q[i], q[i + 1]));
                }
            }
            p
        }
    }
}

/// Every result lies at the end of a path of single steps: a search that jumps over rejected nodes
/// never jumps over two of them in a row.
pub proof fn law_results_lie_on_ways(s: Search, entry: ScoredItem, x: ScoredItem)
    requires
        search::is_closed(s),
        is_relaxing(s),
        s.ef > 0,
        entry.vector < s.nodes,
        search::found(s, entry).count(x) > 0,
    ensures
        exists|p: Seq<usize>| #[trigger] is_way(s, entry, p) && p.last() == x.vector,
{
    law_search_is_best_first(s, entry);
    let (expanded, tops) = choose|expanded: Seq<usize>, tops: Seq<Multiset<ScoredItem>>| #[trigger]
        is_course(s, entry, expanded, tops) && is_complete(s, entry, expanded, tops)
            && tops.last() == search::found(s, entry);
    assert(expanded.take(expanded.len() as int) =~= expanded);
    assert(are_nearest(
        s,
        entry,
        seen_after(s, entry, expanded.take(tops.len() - 1)),
        tops[tops.len() - 1],
    ));
    lemma_course_is_seen(s, entry, expanded, tops);
    let p = lemma_seen_has_way(s, entry, expanded, x.vector);
}

/// There is one way to pick the nearest of what has been seen.
proof fn lemma_nearest_are_unique(
    s: Search,
    entry: ScoredItem,
    seen: Set<usize>,
    a: Multiset<ScoredItem>,
    b: Multiset<ScoredItem>,
)
    requires
        are_nearest(s, entry, seen, a),
        are_nearest(s, entry, seen, b),
    ensures
        a == b,
{
    lemma_nearest_are_within(s, entry, seen, a, b);
    lemma_nearest_are_within(s, entry, seen, b, a);
    assert forall|x: ScoredItem| a.count(x) == b.count(x) by {
        assert(a.count(x) <= 1 && b.count(x) <= 1);
    }
    assert(a =~= b);
}

proof fn lemma_nearest_are_within(
    s: Search,
    entry: ScoredItem,
    seen: Set<usize>,
    a: Multiset<ScoredItem>,
    b: Multiset<ScoredItem>,
)
    requires
        are_nearest(s, entry, seen, a),
        are_nearest(s, entry, seen, b),
    ensures
        forall|x: ScoredItem| #[trigger] a.count(x) > 0 ==> b.count(x) > 0,
{
    assert forall|x: ScoredItem| #[trigger] a.count(x) > 0 implies b.count(x) > 0 by {
        if b.count(x) == 0 {
            assert(is_among_or_beaten(s, entry, b, x.vector));
            if forall|y: ScoredItem| #[trigger] b.count(y) > 0 ==> a.count(y) > 0 {
                let more = b.insert(x);
                assert forall|y: ScoredItem| more.count(y) <= a.count(y) by {
                    assert(b.count(y) <= 1);
                    if b.count(y) > 0 {
                        assert(a.count(y) > 0);
                    }
                }
                assert(more.subset_of(a));
                let rest = a.sub(more);
                assert(a =~= more.add(rest));
                assert(a.len() == more.len() + rest.len());
            } else {
                let y = choose|y: ScoredItem| #[trigger] b.count(y) > 0 && a.count(y) == 0;
                assert(is_among_or_beaten(s, entry, a, y.vector));
                assert(heap::item_le(x, y));
                assert(heap::item_le(y, x));
            }
        }
    }
}

proof fn lemma_courses_agree(
    s: Search,
    entry: ScoredItem,
    a: Seq<usize>,
    tops_a: Seq<Multiset<ScoredItem>>,
    b: Seq<usize>,
    tops_b: Seq<Multiset<ScoredItem>>,
    i: int,
)
    requires
        s.k <= s.ef,
        is_course(s, entry, a, tops_a),
        is_course(s, entry, b, tops_b),
        0 <= i <= a.len(),
        i <= b.len(),
    ensures
        a.take(i) == b.take(i),
    decreases i,
{
    if i > 0 {
        let n = i - 1;
        lemma_courses_agree(s, entry, a, tops_a, b, tops_b, n);
        assert(comes_next(s, entry, a.take(n), tops_a[n], a[n]));
        assert(comes_next(s, entry, b.take(n), tops_b[n], b[n]));
        let seen = seen_after(s, entry, a.take(n));
        assert(is_open(s, entry, seen, a.take(n), b[n]));
        assert(is_open(s, entry, seen, a.take(n), a[n]));
        let x = search_laws::item_of(s, entry, a[n]);
        let y = search_laws::item_of(s, entry, b[n]);
        assert(heap::item_le(x, y) && heap::item_le(y, x));
        assert(x.vector == a[n] && y.vector == b[n]);
        assert(a.take(i) =~= a.take(n).push(a[n]));
        assert(b.take(i) =~= b.take(n).push(b[n]));
    } else {
        assert(a.take(0) =~= b.take(0));
    }
}

proof fn lemma_course_is_no_longer(
    s: Search,
    entry: ScoredItem,
    a: Seq<usize>,
    tops_a: Seq<Multiset<ScoredItem>>,
    b: Seq<usize>,
    tops_b: Seq<Multiset<ScoredItem>>,
)
    requires
        s.k <= s.ef,
        is_course(s, entry, a, tops_a),
        is_complete(s, entry, a, tops_a),
        is_course(s, entry, b, tops_b),
    ensures
        b.len() <= a.len(),
{
    if b.len() > a.len() {
        let n = a.len() as int;
        lemma_courses_agree(s, entry, a, tops_a, b, tops_b, n);
        assert(a.take(n) =~= a);
        assert(comes_next(s, entry, b.take(n), tops_b[n], b[n]));
        assert(are_nearest(s, entry, seen_after(s, entry, a.take(n)), tops_a[n]));
        assert(are_nearest(s, entry, seen_after(s, entry, b.take(n)), tops_b[n]));
        lemma_nearest_are_unique(s, entry, seen_after(s, entry, a), tops_a[n], tops_b[n]);
        assert(is_open(s, entry, seen_after(s, entry, a), a, b[n]));
    }
}

/// The results of a search are those of its one complete best-first course, unless more results
/// are wanted than are kept: whatever course is complete, the search returns what it ends with.
pub proof fn law_best_first_results_are_unique(
    s: Search,
    entry: ScoredItem,
    expanded: Seq<usize>,
    tops: Seq<Multiset<ScoredItem>>,
)
    requires
        search::is_closed(s),
        is_relaxing(s),
        s.ef > 0,
        s.k <= s.ef,
        entry.vector < s.nodes,
        is_course(s, entry, expanded, tops),
        is_complete(s, entry, expanded, tops),
    ensures
        search::found(s, entry) == tops.last(),
{
    law_search_is_best_first(s, entry);
    let (a, tops_a) = choose|a: Seq<usize>, tops_a: Seq<Multiset<ScoredItem>>| #[trigger]
        is_course(s, entry, a, tops_a) && is_complete(s, entry, a, tops_a) && tops_a.last()
            == search::found(s, entry);
    lemma_course_is_no_longer(s, entry, a, tops_a, expanded, tops);
    lemma_course_is_no_longer(s, entry, expanded, tops, a, tops_a);
    let n = a.len() as int;
    lemma_courses_agree(s, entry, a, tops_a, expanded, tops, n);
    assert(a.take(n) =~= a);
    assert(expanded.take(n) =~= expanded);
    assert(are_nearest(s, entry, seen_after(s, entry, a.take(n)), tops_a[n]));
    assert(are_nearest(s, entry, seen_after(s, entry, expanded.take(n)), tops[n]));
    lemma_nearest_are_unique(s, entry, seen_after(s, entry, a), tops_a[n], tops[n]);
}

/// The search for the neighbours of a node to be inserted weighs every neighbour of what it finds.
///
/// A neighbour of the entry or of a result is a result, or there are `ef` results and none comes
/// after it. So of two nodes at the same distance, the one with the lower id is preferred, even if
/// it is seen when there are `ef` results already.
pub proof fn law_insertion_weighs_neighbours(
    g: GraphModel,
    dist: spec_fn(usize) -> u64,
    ef: nat,
    entry: ScoredItem,
    x: ScoredItem,
    v: usize,
)
    requires
        g.is_searchable(),
        ef > 0,
        entry.vector < g.nodes(),
        ({
            let s = model::query(
                g,
                dist,
                model::no_relaxation(),
                model::no_filter(),
                ef,
                model::wanted(None),
                Walk::Plain,
            );
            search::found(s, entry).count(x) > 0 || x == entry
        }),
        x.vector < g.nodes(),
        g.lists[x.vector as int].contains(v),
    ensures
        ({
            let s = model::query(
                g,
                dist,
                model::no_relaxation(),
                model::no_filter(),
                ef,
                model::wanted(None),
                Walk::Plain,
            );
            let found = search::found(s, entry);
            ||| found.count(search_laws::item_of(s, entry, v)) > 0
            ||| found.len() >= ef && forall|y: ScoredItem| #[trigger]
                found.count(y) > 0 ==> heap::item_le(y, search_laws::item_of(s, entry, v))
        }),
{
    let s = model::query(
        g,
        dist,
        model::no_relaxation(),
        model::no_filter(),
        ef,
        model::wanted(None),
        Walk::Plain,
    );
    let list = g.lists[x.vector as int];
    assert((s.adjacent)(x.vector) == list);
    assert forall|u: usize, i: int|
        #![trigger (s.adjacent)(u)[i]]
        u < s.nodes && 0 <= i < (s.adjacent)(u).len() implies (s.adjacent)(u)[i] < s.nodes by {
        assert(g.lists[u as int][i] < g.nodes());
    }
    law_neighbours_of_results_are_weighed(s, entry, x, v);
}

/// A search that no number of results is asked of can stop once it holds all that it keeps; one
/// that is asked for `k` waits for those too.
pub proof fn law_wanted_results_are_waited_for(
    g: GraphModel,
    dist: spec_fn(usize) -> u64,
    within: spec_fn(u64, u64) -> bool,
    ef: nat,
    k: Option<usize>,
    walk: Walk,
    top: Multiset<ScoredItem>,
    node: ScoredItem,
)
    ensures
        search::halts(
            model::query(g, dist, within, model::no_filter(), ef, model::wanted(k), walk),
            top,
            node,
        ) <==> {
            &&& top.len() >= ef
            &&& k matches Some(k) ==> top.len() >= k
            &&& !within(node.distance, heap::farthest(top).distance)
        },
{
}

} // verus!
