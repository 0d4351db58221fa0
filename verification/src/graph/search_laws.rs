//! What holds of the results of every search.

use crate::graph::model;
use crate::graph::model::GraphModel;
use crate::graph::search;
use crate::graph::search::{Search, SearchState, Walk};
use crate::heap;
use crate::heap::ScoredItem;
use vstd::multiset::Multiset;
use vstd::prelude::*;

verus! {

broadcast use vstd::multiset::group_multiset_axioms;

/// Each node of the list but the first is a neighbour of the one before it.
pub open spec fn is_path(adjacent: spec_fn(usize) -> Seq<usize>, p: Seq<usize>) -> bool {
    &&& p.len() > 0
    &&& forall|i: int| 0 <= i < p.len() - 1 ==> (#[trigger] adjacent(p[i])).contains(p[i + 1])
}

/// `b` can be reached from `a` along the edges of the graph.
pub open spec fn reaches(adjacent: spec_fn(usize) -> Seq<usize>, a: usize, b: usize) -> bool {
    exists|p: Seq<usize>| #[trigger] is_path(adjacent, p) && p[0] == a && p.last() == b
}

/// The item that stands for node `v` in a search from `entry`.
pub open spec fn item_of(s: Search, entry: ScoredItem, v: usize) -> ScoredItem {
    if v == entry.vector {
        entry
    } else {
        search::scored(s, v)
    }
}

/// Node `v` can become a result.
pub open spec fn is_eligible(s: Search, v: usize) -> bool {
    s.walk == Walk::Plain || (s.keep)(v)
}

/// The most results that a search returns.
pub open spec fn most(s: Search) -> nat {
    if s.ef == 0 {
        1
    } else {
        s.ef
    }
}

/// What holds in every state of a search from `entry`.
pub open spec fn inv(s: Search, entry: ScoredItem, st: SearchState) -> bool {
    &&& st.visited.finite()
    &&& st.visited.contains(entry.vector)
    &&& forall|v: usize| #[trigger]
        st.visited.contains(v) ==> v < s.nodes && reaches(s.adjacent, entry.vector, v)
    &&& forall|x: ScoredItem| #[trigger]
        st.top.count(x) > 0 ==> st.visited.contains(x.vector) && x == item_of(s, entry, x.vector)
            && is_eligible(s, x.vector)
    &&& forall|x: ScoredItem| #[trigger] st.top.count(x) <= 1
    &&& forall|x: ScoredItem| #[trigger]
        st.candidates.count(x) > 0 ==> st.visited.contains(x.vector) && x == item_of(
            s,
            entry,
            x.vector,
        )
    &&& st.top.len() <= most(s)
}

/// `b` follows `a` in a search: no node is forgotten, and no more candidates than nodes were added.
pub open spec fn follows(a: SearchState, b: SearchState) -> bool {
    &&& a.visited.subset_of(b.visited)
    &&& b.candidates.len() - a.candidates.len() <= b.visited.len() - a.visited.len()
}

pub(crate) proof fn lemma_reaches_next(
    adjacent: spec_fn(usize) -> Seq<usize>,
    a: usize,
    b: usize,
    c: usize,
)
    requires
        reaches(adjacent, a, b),
        adjacent(b).contains(c),
    ensures
        reaches(adjacent, a, c),
{
    let p = choose|p: Seq<usize>| #[trigger] is_path(adjacent, p) && p[0] == a && p.last() == b;
    let q = p.push(c);
    assert forall|i: int| 0 <= i < q.len() - 1 implies (#[trigger] adjacent(q[i])).contains(
        q[i + 1],
    ) by {
        if i < p.len() - 1 {
            assert(adjacent(p[i]).contains(p[i + 1]));
        }
    }
    assert(is_path(adjacent, q));
}

proof fn lemma_reaches_from(
    adjacent: spec_fn(usize) -> Seq<usize>,
    a: usize,
    b: usize,
    c: usize,
)
    requires
        adjacent(a).contains(b),
        reaches(adjacent, b, c),
    ensures
        reaches(adjacent, a, c),
{
    let p = choose|p: Seq<usize>| #[trigger] is_path(adjacent, p) && p[0] == b && p.last() == c;
    let q = seq![a] + p;
    assert forall|i: int| 0 <= i < q.len() - 1 implies (#[trigger] adjacent(q[i])).contains(
        q[i + 1],
    ) by {
        if i > 0 {
            assert(adjacent(p[i - 1]).contains(p[i - 1 + 1]));
        }
    }
    assert(is_path(adjacent, q));
}

pub(crate) proof fn lemma_reaches_self(adjacent: spec_fn(usize) -> Seq<usize>, a: usize)
    ensures
        reaches(adjacent, a, a),
{
    assert(is_path(adjacent, seq![a]));
}

pub(crate) proof fn lemma_trim(s: Search, top: Multiset<ScoredItem>)
    ensures
        forall|x: ScoredItem| #[trigger] search::trim(s.ef, top).count(x) <= top.count(x),
        top.len() <= s.ef ==> search::trim(s.ef, top) == top,
        top.len() > s.ef ==> search::trim(s.ef, top).len() == top.len() - 1,
        top.len() > s.ef ==> heap::is_extreme::<false>(top, heap::farthest(top)),
{
    if top.len() > s.ef {
        heap::lemma_extreme_exists::<false>(top);
    }
}

pub proof fn lemma_start(s: Search, entry: ScoredItem)
    requires
        entry.vector < s.nodes,
    ensures
        inv(s, entry, search::start(s, entry)),
        search::start(s, entry).candidates.len() == 1,
        search::start(s, entry).visited.len() == 1,
{
    lemma_reaches_self(s.adjacent, entry.vector);
}

pub(crate) proof fn lemma_visit(s: Search, entry: ScoredItem, st: SearchState, v: usize)
    requires
        inv(s, entry, st),
        v < s.nodes,
        reaches(s.adjacent, entry.vector, v),
    ensures
        inv(s, entry, search::visit(s, st, v)),
        follows(st, search::visit(s, st, v)),
        search::visit(s, st, v).visited == st.visited.insert(v),
{
    let next = search::visit(s, st, v);
    if st.visited.contains(v) {
        assert(st.visited.insert(v) =~= st.visited);
    } else {
        let item = search::scored(s, v);
        assert(st.top.count(item) == 0);
        lemma_trim(s, st.top);
        lemma_trim(s, st.top.insert(item));
    }
}

pub(crate) proof fn lemma_visit_all(s: Search, entry: ScoredItem, st: SearchState, list: Seq<usize>)
    requires
        inv(s, entry, st),
        forall|i: int|
            0 <= i < list.len() ==> #[trigger] list[i] < s.nodes && reaches(
                s.adjacent,
                entry.vector,
                list[i],
            ),
    ensures
        inv(s, entry, search::visit_all(s, st, list)),
        follows(st, search::visit_all(s, st, list)),
        forall|i: int|
            0 <= i < list.len() ==> search::visit_all(s, st, list).visited.contains(
                #[trigger] list[i],
            ),
    decreases list.len(),
{
    if list.len() > 0 {
        let front = list.drop_last();
        lemma_visit_all(s, entry, st, front);
        lemma_visit(s, entry, search::visit_all(s, st, front), list.last());
        assert forall|i: int| 0 <= i < list.len() implies search::visit_all(
            s,
            st,
            list,
        ).visited.contains(#[trigger] list[i]) by {
            if i < front.len() {
                assert(front[i] == list[i]);
            }
        }
    }
}

/// The neighbours of a node that a search has visited are fit to be visited.
pub(crate) proof fn lemma_neighbours_fit(s: Search, entry: ScoredItem, u: usize)
    requires
        search::is_closed(s),
        u < s.nodes,
        reaches(s.adjacent, entry.vector, u),
    ensures
        forall|i: int|
            0 <= i < (s.adjacent)(u).len() ==> #[trigger] (s.adjacent)(u)[i] < s.nodes && reaches(
                s.adjacent,
                entry.vector,
                (s.adjacent)(u)[i],
            ),
{
    let list = (s.adjacent)(u);
    assert forall|i: int| 0 <= i < list.len() implies #[trigger] list[i] < s.nodes && reaches(
        s.adjacent,
        entry.vector,
        list[i],
    ) by {
        assert((s.adjacent)(u)[i] < s.nodes);
        assert(list.contains(list[i]));
        lemma_reaches_next(s.adjacent, entry.vector, u, list[i]);
    }
}

proof fn lemma_passed_over(s: Search, st: SearchState, list: Seq<usize>, i: int)
    requires
        0 <= i < search::passed_over(s, st, list).len(),
    ensures
        list.contains(search::passed_over(s, st, list)[i]),
        !(s.keep)(search::passed_over(s, st, list)[i]),
    decreases list.len(),
{
    if list.len() > 0 {
        let front = list.drop_last();
        let earlier = search::passed_over(s, st, front);
        if i < earlier.len() {
            lemma_passed_over(s, st, front, i);
            let j = choose|j: int| 0 <= j < front.len() && front[j] == earlier[i];
            assert(list[j] == earlier[i]);
        } else {
            assert(list[list.len() - 1] == list.last());
        }
    }
}

pub(crate) proof fn lemma_visit_around(s: Search, entry: ScoredItem, st: SearchState, mids: Seq<usize>)
    requires
        inv(s, entry, st),
        search::is_closed(s),
        forall|i: int|
            0 <= i < mids.len() ==> #[trigger] mids[i] < s.nodes && reaches(
                s.adjacent,
                entry.vector,
                mids[i],
            ),
    ensures
        inv(s, entry, search::visit_around(s, st, mids)),
        follows(st, search::visit_around(s, st, mids)),
    decreases mids.len(),
{
    if mids.len() > 0 {
        let front = mids.drop_last();
        lemma_visit_around(s, entry, st, front);
        assert(mids[mids.len() - 1] == mids.last());
        lemma_neighbours_fit(s, entry, mids.last());
        lemma_visit_all(
            s,
            entry,
            search::visit_around(s, st, front),
            (s.adjacent)(mids.last()),
        );
    }
}

pub(crate) proof fn lemma_expand(s: Search, entry: ScoredItem, st: SearchState, u: usize)
    requires
        inv(s, entry, st),
        search::is_closed(s),
        u < s.nodes,
        reaches(s.adjacent, entry.vector, u),
    ensures
        inv(s, entry, search::expand(s, st, u)),
        follows(st, search::expand(s, st, u)),
        forall|i: int|
            0 <= i < (s.adjacent)(u).len() ==> search::expand(s, st, u).visited.contains(
                #[trigger] (s.adjacent)(u)[i],
            ),
{
    let list = (s.adjacent)(u);
    lemma_neighbours_fit(s, entry, u);
    lemma_visit_all(s, entry, st, list);
    if s.walk == Walk::JumpOver {
        let mids = search::passed_over(s, st, list);
        assert forall|i: int| 0 <= i < mids.len() implies #[trigger] mids[i] < s.nodes && reaches(
            s.adjacent,
            entry.vector,
            mids[i],
        ) by {
            lemma_passed_over(s, st, list, i);
            let j = choose|j: int| 0 <= j < list.len() && list[j] == mids[i];
            assert(list[j] == mids[i]);
        }
        lemma_visit_around(s, entry, search::visit_all(s, st, list), mids);
    }
}

pub(crate) proof fn lemma_take_nearest(s: Search, entry: ScoredItem, st: SearchState)
    requires
        inv(s, entry, st),
        st.candidates.len() > 0,
    ensures
        inv(s, entry, search::take_nearest(st)),
        search::take_nearest(st).candidates.len() == st.candidates.len() - 1,
        st.candidates.count(heap::nearest(st.candidates)) > 0,
        ({
            let node = heap::nearest(st.candidates);
            node.vector < s.nodes && reaches(s.adjacent, entry.vector, node.vector)
        }),
{
    heap::lemma_extreme_exists::<true>(st.candidates);
}

pub proof fn lemma_step(s: Search, entry: ScoredItem, st: SearchState)
    requires
        inv(s, entry, st),
        search::is_closed(s),
        st.candidates.len() > 0,
    ensures
        inv(s, entry, search::step(s, st)),
        search::step(s, st).candidates.len() + 1 - st.candidates.len() <= search::step(
            s,
            st,
        ).visited.len() - st.visited.len(),
{
    lemma_take_nearest(s, entry, st);
    lemma_expand(s, entry, search::take_nearest(st), heap::nearest(st.candidates).vector);
}

/// No more nodes are visited than there are.
pub proof fn lemma_visited_bounded(s: Search, entry: ScoredItem, st: SearchState)
    requires
        inv(s, entry, st),
    ensures
        st.visited.len() <= s.nodes,
{
    let all = vstd::set_lib::set_int_range(0, s.nodes as int);
    let ids = st.visited.map(|v: usize| v as int);
    vstd::set_lib::lemma_int_range(0, s.nodes as int);
    vstd::set_lib::lemma_map_size(st.visited, ids, |v: usize| v as int);
    assert(ids.subset_of(all));
    vstd::set_lib::lemma_len_subset(ids, all);
}

pub(crate) proof fn lemma_run(s: Search, entry: ScoredItem, st: SearchState, fuel: nat)
    requires
        inv(s, entry, st),
        search::is_closed(s),
    ensures
        inv(s, entry, search::run(s, st, fuel)),
        s.nodes - fuel + st.candidates.len() <= st.visited.len() ==> search::is_done(
            s,
            search::run(s, st, fuel),
        ),
    decreases fuel,
{
    if fuel > 0 && !search::is_done(s, st) {
        lemma_step(s, entry, st);
        lemma_run(s, entry, search::step(s, st), (fuel - 1) as nat);
    } else if fuel == 0 {
        lemma_visited_bounded(s, entry, st);
    }
}

/// A search from `entry` that has come to state `st` and has `fuel` steps left.
pub open spec fn is_on_course(s: Search, entry: ScoredItem, st: SearchState, fuel: nat) -> bool {
    &&& search::is_closed(s)
    &&& inv(s, entry, st)
    &&& search::run(s, st, fuel) == search::outcome(s, entry)
    &&& s.nodes - fuel + st.candidates.len() <= st.visited.len()
}

/// A search that is not done has a step left, and stays on course when it takes it.
pub proof fn lemma_on_course_continues(s: Search, entry: ScoredItem, st: SearchState, fuel: nat)
    requires
        is_on_course(s, entry, st, fuel),
        !search::is_done(s, st),
    ensures
        fuel > 0,
        heap::nearest(st.candidates).vector < s.nodes,
        is_on_course(s, entry, search::step(s, st), (fuel - 1) as nat),
{
    lemma_visited_bounded(s, entry, st);
    lemma_take_nearest(s, entry, st);
    lemma_step(s, entry, st);
}

/// A result is a node that the search can reach and that the filter accepts, with its own
/// distance from the query, or for the entry the one it came with; and no result comes twice.
pub proof fn law_results_are_sound(s: Search, entry: ScoredItem)
    requires
        search::is_closed(s),
        entry.vector < s.nodes,
    ensures
        forall|x: ScoredItem| #[trigger]
            search::found(s, entry).count(x) > 0 ==> {
                &&& x.vector < s.nodes
                &&& x == item_of(s, entry, x.vector)
                &&& reaches(s.adjacent, entry.vector, x.vector)
                &&& s.walk == Walk::Plain || (s.keep)(x.vector)
            },
        forall|x: ScoredItem| #[trigger] search::found(s, entry).count(x) <= 1,
{
    lemma_start(s, entry);
    lemma_run(s, entry, search::start(s, entry), s.nodes);
}

/// Every result is a node.
pub proof fn law_results_are_nodes(s: Search, entry: ScoredItem)
    requires
        search::is_closed(s),
        entry.vector < s.nodes,
    ensures
        forall|x: ScoredItem| #[trigger]
            search::found(s, entry).count(x) > 0 ==> x.vector < s.nodes,
{
    lemma_start(s, entry);
    lemma_run(s, entry, search::start(s, entry), s.nodes);
}

/// A search returns at most `ef` results, and one where `ef` is zero.
pub proof fn law_results_are_bounded(s: Search, entry: ScoredItem)
    requires
        search::is_closed(s),
        entry.vector < s.nodes,
    ensures
        search::found(s, entry).len() <= most(s),
{
    lemma_start(s, entry);
    lemma_run(s, entry, search::start(s, entry), s.nodes);
}

/// A search ends because nothing is left to be done.
pub proof fn law_search_ends(s: Search, entry: ScoredItem)
    requires
        search::is_closed(s),
        entry.vector < s.nodes,
    ensures
        search::is_done(s, search::outcome(s, entry)),
{
    lemma_start(s, entry);
    lemma_run(s, entry, search::start(s, entry), s.nodes);
}

/// A search that keeps or wants any result has an answer.
pub proof fn law_wanted_results_are_answered(s: Search, entry: ScoredItem)
    requires
        search::enough(s) > 0,
    ensures
        search::is_answerable(s, entry),
{
    lemma_wanted_always_judges(s, search::start(s, entry), s.nodes);
}

proof fn lemma_wanted_always_judges(s: Search, st: SearchState, fuel: nat)
    requires
        search::enough(s) > 0,
    ensures
        search::always_judges(s, st, fuel),
    decreases fuel,
{
    if fuel > 0 && !search::is_done(s, st) {
        lemma_wanted_always_judges(s, search::step(s, st), (fuel - 1) as nat);
    }
}

/// A search from an entry that has no neighbours and can be a result has an answer, even if it
/// neither keeps nor wants any result: the entry.
pub proof fn law_lone_entry_is_answered(s: Search, entry: ScoredItem)
    requires
        (s.adjacent)(entry.vector).len() == 0,
        is_eligible(s, entry.vector),
    ensures
        search::is_answerable(s, entry),
        search::found(s, entry) == Multiset::empty().insert(entry),
{
    let first = search::start(s, entry);
    heap::lemma_extreme_exists::<true>(first.candidates);
    assert(heap::nearest(first.candidates) == entry);
    let second = search::step(s, first);
    assert(second.candidates.len() == 0);
    assert(second.top == first.top);
    reveal_with_fuel(search::run, 3);
    reveal_with_fuel(search::always_judges, 3);
    reveal_with_fuel(search::visit_around, 2);
    reveal_with_fuel(search::passed_over, 2);
}

/// An item is good enough exactly if it is no farther away than the worst of the results.
pub open spec fn is_strict(s: Search) -> bool {
    forall|a: u64, b: u64| #[trigger] (s.within)(a, b) <==> a <= b
}

/// Every node that was looked at and can be a result is one, or there are `ef` results at least
/// as near.
pub open spec fn holds_nearest(s: Search, entry: ScoredItem, st: SearchState) -> bool {
    forall|v: usize| #[trigger]
        st.visited.contains(v) && is_eligible(s, v) ==> st.top.count(item_of(s, entry, v)) > 0 || (
        st.top.len() >= s.ef && forall|x: ScoredItem| #[trigger]
            st.top.count(x) > 0 ==> x.distance <= item_of(s, entry, v).distance)
}

proof fn lemma_visit_nearest(s: Search, entry: ScoredItem, st: SearchState, v: usize)
    requires
        inv(s, entry, st),
        holds_nearest(s, entry, st),
        is_strict(s),
        v < s.nodes,
        reaches(s.adjacent, entry.vector, v),
    ensures
        holds_nearest(s, entry, search::visit(s, st, v)),
{
    let next = search::visit(s, st, v);
    if !st.visited.contains(v) {
        let item = search::scored(s, v);
        lemma_visit(s, entry, st, v);
        lemma_trim(s, st.top);
        lemma_trim(s, st.top.insert(item));
        if st.top.len() > 0 {
            heap::lemma_extreme_exists::<false>(st.top);
        }
        let worst = heap::farthest(st.top);
        let grown = st.top.insert(item);
        let last = heap::farthest(grown);
        heap::lemma_extreme_exists::<false>(grown);
        assert forall|w: usize| #[trigger]
            next.visited.contains(w) && is_eligible(s, w) && !(next.top.count(
                item_of(s, entry, w),
            ) > 0) implies next.top.len() >= s.ef && forall|x: ScoredItem| #[trigger]
            next.top.count(x) > 0 ==> x.distance <= item_of(s, entry, w).distance by {
            let other = item_of(s, entry, w);
            assert forall|x: ScoredItem| #[trigger] next.top.count(x) > 0 implies x.distance
                <= other.distance by {
                if w == v {
                    assert(other == item);
                    if search::is_welcome(s.ef, s.within, st.top, item.distance) {
                        assert(grown.count(item) > 0);
                        assert(last == item);
                        assert(grown.count(x) > 0);
                    } else {
                        assert(st.top.count(x) > 0);
                        assert(heap::item_le(x, worst));
                    }
                } else {
                    assert(st.visited.contains(w));
                    if st.top.count(other) > 0 {
                        // It was the farthest of the results, and was dropped.
                        if search::is_welcome(s.ef, s.within, st.top, item.distance) {
                            assert(grown.count(other) > 0);
                            assert(grown.count(x) > 0);
                            assert(last == other);
                        } else {
                            assert(st.top.count(x) > 0);
                            assert(worst == other);
                        }
                    } else {
                        if st.top.count(x) == 0 {
                            assert(x == item);
                            assert(st.top.len() >= s.ef);
                            assert(st.top.len() > 0);
                            assert(st.top.count(worst) > 0);
                        }
                    }
                }
            }
        }
    }
}

proof fn lemma_visit_all_nearest(s: Search, entry: ScoredItem, st: SearchState, list: Seq<usize>)
    requires
        inv(s, entry, st),
        holds_nearest(s, entry, st),
        is_strict(s),
        forall|i: int|
            0 <= i < list.len() ==> #[trigger] list[i] < s.nodes && reaches(
                s.adjacent,
                entry.vector,
                list[i],
            ),
    ensures
        holds_nearest(s, entry, search::visit_all(s, st, list)),
    decreases list.len(),
{
    if list.len() > 0 {
        let front = list.drop_last();
        lemma_visit_all(s, entry, st, front);
        lemma_visit_all_nearest(s, entry, st, front);
        lemma_visit_nearest(s, entry, search::visit_all(s, st, front), list.last());
    }
}

proof fn lemma_visit_around_nearest(
    s: Search,
    entry: ScoredItem,
    st: SearchState,
    mids: Seq<usize>,
)
    requires
        inv(s, entry, st),
        holds_nearest(s, entry, st),
        is_strict(s),
        search::is_closed(s),
        forall|i: int|
            0 <= i < mids.len() ==> #[trigger] mids[i] < s.nodes && reaches(
                s.adjacent,
                entry.vector,
                mids[i],
            ),
    ensures
        holds_nearest(s, entry, search::visit_around(s, st, mids)),
    decreases mids.len(),
{
    if mids.len() > 0 {
        let front = mids.drop_last();
        lemma_visit_around(s, entry, st, front);
        lemma_visit_around_nearest(s, entry, st, front);
        assert(mids[mids.len() - 1] == mids.last());
        lemma_neighbours_fit(s, entry, mids.last());
        lemma_visit_all_nearest(
            s,
            entry,
            search::visit_around(s, st, front),
            (s.adjacent)(mids.last()),
        );
    }
}

proof fn lemma_step_nearest(s: Search, entry: ScoredItem, st: SearchState)
    requires
        inv(s, entry, st),
        holds_nearest(s, entry, st),
        is_strict(s),
        search::is_closed(s),
        st.candidates.len() > 0,
    ensures
        holds_nearest(s, entry, search::step(s, st)),
{
    lemma_take_nearest(s, entry, st);
    let taken = search::take_nearest(st);
    let u = heap::nearest(st.candidates).vector;
    let list = (s.adjacent)(u);
    lemma_neighbours_fit(s, entry, u);
    lemma_visit_all(s, entry, taken, list);
    lemma_visit_all_nearest(s, entry, taken, list);
    if s.walk == Walk::JumpOver {
        let mids = search::passed_over(s, taken, list);
        assert forall|i: int| 0 <= i < mids.len() implies #[trigger] mids[i] < s.nodes && reaches(
            s.adjacent,
            entry.vector,
            mids[i],
        ) by {
            lemma_passed_over(s, taken, list, i);
            let j = choose|j: int| 0 <= j < list.len() && list[j] == mids[i];
            assert(list[j] == mids[i]);
        }
        lemma_visit_around_nearest(s, entry, search::visit_all(s, taken, list), mids);
    }
}

proof fn lemma_run_nearest(s: Search, entry: ScoredItem, st: SearchState, fuel: nat)
    requires
        inv(s, entry, st),
        holds_nearest(s, entry, st),
        is_strict(s),
        search::is_closed(s),
    ensures
        holds_nearest(s, entry, search::run(s, st, fuel)),
    decreases fuel,
{
    if fuel > 0 && !search::is_done(s, st) {
        lemma_step(s, entry, st);
        lemma_step_nearest(s, entry, st);
        lemma_run_nearest(s, entry, search::step(s, st), (fuel - 1) as nat);
    }
}

/// Without relaxation the results are the nearest of all the nodes that the search looked at: a
/// node that it looked at and that the filter accepts is among the results, or there are `ef`
/// results and none of them is farther away.
pub proof fn law_results_are_nearest(s: Search, entry: ScoredItem)
    requires
        search::is_closed(s),
        is_strict(s),
        entry.vector < s.nodes,
    ensures
        holds_nearest(s, entry, search::outcome(s, entry)),
{
    lemma_start(s, entry);
    lemma_run_nearest(s, entry, search::start(s, entry), s.nodes);
}

/// While there is room for results, every node that was looked at and can be a result is one; and
/// every node that was looked at is a candidate, or the node that is being expanded, or all its neighbours were looked at too.
spec fn is_thorough(s: Search, entry: ScoredItem, st: SearchState, busy: Option<usize>) -> bool {
    st.top.len() < s.ef ==> forall|v: usize| #[trigger]
        st.visited.contains(v) ==> {
            &&& is_eligible(s, v) ==> st.top.count(item_of(s, entry, v)) > 0
            &&& st.candidates.count(item_of(s, entry, v)) > 0 || busy == Some(v) || forall|i: int|
                0 <= i < (s.adjacent)(v).len() ==> st.visited.contains(
                    #[trigger] (s.adjacent)(v)[i],
                )
        }
}

proof fn lemma_visit_all_thorough(
    s: Search,
    entry: ScoredItem,
    st: SearchState,
    list: Seq<usize>,
    busy: Option<usize>,
)
    requires
        s.walk != Walk::JumpOver,
        inv(s, entry, st),
        is_thorough(s, entry, st, busy),
        forall|i: int|
            0 <= i < list.len() ==> #[trigger] list[i] < s.nodes && reaches(
                s.adjacent,
                entry.vector,
                list[i],
            ),
    ensures
        is_thorough(s, entry, search::visit_all(s, st, list), busy),
    decreases list.len(),
{
    if list.len() > 0 {
        let front = list.drop_last();
        let mid = search::visit_all(s, st, front);
        let v = list.last();
        lemma_visit_all(s, entry, st, front);
        lemma_visit_all_thorough(s, entry, st, front, busy);
        lemma_visit(s, entry, mid, v);
        let item = search::scored(s, v);
        lemma_trim(s, mid.top);
        lemma_trim(s, mid.top.insert(item));
    }
}

proof fn lemma_run_thorough(s: Search, entry: ScoredItem, st: SearchState, fuel: nat)
    requires
        s.walk != Walk::JumpOver,
        inv(s, entry, st),
        is_thorough(s, entry, st, None),
        search::is_closed(s),
    ensures
        is_thorough(s, entry, search::run(s, st, fuel), None),
    decreases fuel,
{
    if fuel > 0 && !search::is_done(s, st) {
        lemma_take_nearest(s, entry, st);
        let taken = search::take_nearest(st);
        let node = heap::nearest(st.candidates);
        let u = node.vector;
        assert(is_thorough(s, entry, taken, Some(u)));
        lemma_neighbours_fit(s, entry, u);
        lemma_visit_all_thorough(s, entry, taken, (s.adjacent)(u), Some(u));
        lemma_expand(s, entry, taken, u);
        lemma_step(s, entry, st);
        lemma_run_thorough(s, entry, search::step(s, st), (fuel - 1) as nat);
    }
}

/// A search that returns fewer than `ef` results returns every node that can be reached from its
/// entry and that the filter accepts. This holds of the plain search, which accepts every node, and
/// of the one that goes through the nodes that the filter rejects.
pub proof fn law_short_results_are_complete(s: Search, entry: ScoredItem, v: usize)
    requires
        search::is_closed(s),
        s.walk != Walk::JumpOver,
        entry.vector < s.nodes,
        search::found(s, entry).len() < s.ef,
        reaches(s.adjacent, entry.vector, v),
        is_eligible(s, v),
    ensures
        search::found(s, entry).count(item_of(s, entry, v)) == 1,
{
    let first = search::start(s, entry);
    let last = search::outcome(s, entry);
    lemma_start(s, entry);
    lemma_run_thorough(s, entry, first, s.nodes);
    lemma_run(s, entry, first, s.nodes);
    let p = choose|p: Seq<usize>|
        #[trigger] is_path(s.adjacent, p) && p[0] == entry.vector && p.last() == v;
    lemma_path_visited(s, entry, last, p, p.len() - 1);
    assert(last.top.count(item_of(s, entry, v)) <= 1);
}

proof fn lemma_path_visited(
    s: Search,
    entry: ScoredItem,
    st: SearchState,
    p: Seq<usize>,
    i: int,
)
    requires
        is_path(s.adjacent, p),
        p[0] == entry.vector,
        inv(s, entry, st),
        is_thorough(s, entry, st, None),
        st.top.len() < s.ef,
        st.candidates.len() == 0,
        0 <= i < p.len(),
    ensures
        st.visited.contains(p[i]),
    decreases i,
{
    if i > 0 {
        lemma_path_visited(s, entry, st, p, i - 1);
        let list = (s.adjacent)(p[i - 1]);
        assert(list.contains(p[i - 1 + 1]));
        let j = choose|j: int| 0 <= j < list.len() && list[j] == p[i];
        assert(st.candidates.count(item_of(s, entry, p[i - 1])) == 0);
        assert(st.visited.contains((s.adjacent)(p[i - 1])[j]));
    }
}

/// The same query without a filter.
pub open spec fn unfiltered(s: Search) -> Search {
    Search {
        nodes: s.nodes,
        adjacent: s.adjacent,
        distance: s.distance,
        within: s.within,
        keep: s.keep,
        ef: s.ef,
        k: s.k,
        walk: Walk::Plain,
    }
}

proof fn lemma_visit_all_unfiltered(s: Search, entry: ScoredItem, st: SearchState, list: Seq<usize>)
    requires
        forall|v: usize| #[trigger] (s.keep)(v),
        s.ef > 0,
        inv(s, entry, st),
        forall|i: int|
            0 <= i < list.len() ==> #[trigger] list[i] < s.nodes && reaches(
                s.adjacent,
                entry.vector,
                list[i],
            ),
    ensures
        search::visit_all(s, st, list) == search::visit_all(unfiltered(s), st, list),
        search::passed_over(s, st, list).len() == 0,
    decreases list.len(),
{
    if list.len() > 0 {
        let front = list.drop_last();
        let t = unfiltered(s);
        let v = list.last();
        lemma_visit_all_unfiltered(s, entry, st, front);
        lemma_visit_all(s, entry, st, front);
        let mid = search::visit_all(s, st, front);
        assert((s.keep)(v));
        lemma_trim(s, mid.top);
        assert(search::trim(s.ef, mid.top) == search::trim(t.ef, mid.top));
        assert(search::visit(s, mid, v) =~= search::visit(t, mid, v));
    }
}

proof fn lemma_run_unfiltered(s: Search, entry: ScoredItem, st: SearchState, fuel: nat)
    requires
        forall|v: usize| #[trigger] (s.keep)(v),
        s.ef > 0,
        inv(s, entry, st),
        search::is_closed(s),
    ensures
        search::run(s, st, fuel) == search::run(unfiltered(s), st, fuel),
    decreases fuel,
{
    let t = unfiltered(s);
    if fuel > 0 && !search::is_done(s, st) {
        lemma_take_nearest(s, entry, st);
        let taken = search::take_nearest(st);
        let u = heap::nearest(st.candidates).vector;
        lemma_neighbours_fit(s, entry, u);
        lemma_visit_all_unfiltered(s, entry, taken, (s.adjacent)(u));
        lemma_step(s, entry, st);
        assert(search::step(s, st) == search::step(t, st));
        lemma_run_unfiltered(s, entry, search::step(s, st), (fuel - 1) as nat);
    }
}

/// A filter that accepts every node changes nothing: the filtered searches return what the plain
/// search returns.
pub proof fn law_open_filter_changes_nothing(s: Search, entry: ScoredItem)
    requires
        search::is_closed(s),
        entry.vector < s.nodes,
        s.ef > 0,
        forall|v: usize| #[trigger] (s.keep)(v),
    ensures
        search::found(s, entry) == search::found(unfiltered(s), entry),
{
    assert((s.keep)(entry.vector));
    lemma_start(s, entry);
    lemma_run_unfiltered(s, entry, search::start(s, entry), s.nodes);
}

pub proof fn lemma_nearest_among(distance: spec_fn(usize) -> u64, best: ScoredItem, list: Seq<usize>)
    ensures
        ({
            let r = search::nearest_among(distance, best, list);
            &&& r.distance <= best.distance
            &&& r == best || (r.distance < best.distance && r.distance == distance(r.vector)
                && list.contains(r.vector))
            &&& forall|i: int| 0 <= i < list.len() ==> r.distance <= distance(#[trigger] list[i])
        }),
    decreases list.len(),
{
    if list.len() > 0 {
        let front = list.drop_last();
        lemma_nearest_among(distance, best, front);
        let earlier = search::nearest_among(distance, best, front);
        assert(list[list.len() - 1] == list.last());
        if earlier != best {
            let j = choose|j: int| 0 <= j < front.len() && front[j] == earlier.vector;
            assert(list[j] == earlier.vector);
        }
        let r = search::nearest_among(distance, best, list);
        assert forall|i: int| 0 <= i < list.len() implies r.distance <= distance(
            #[trigger] list[i],
        ) by {
            if i < front.len() {
                assert(front[i] == list[i]);
            }
        }
    }
}

/// A descent ends no farther from the query than it began, and at a node that has no neighbour
/// nearer to the query; what it returns is the entry, or a node that can be reached from the entry
/// and is strictly nearer, with its own distance.
pub proof fn law_descent_ends_at_minimum(
    adjacent: spec_fn(usize) -> Seq<usize>,
    distance: spec_fn(usize) -> u64,
    entry: ScoredItem,
)
    ensures
        ({
            let r = search::descend(adjacent, distance, entry);
            &&& r.distance <= entry.distance
            &&& r == entry || (r.distance == distance(r.vector) && r.distance < entry.distance)
            &&& reaches(adjacent, entry.vector, r.vector)
            &&& forall|i: int|
                0 <= i < adjacent(r.vector).len() ==> r.distance <= distance(
                    #[trigger] adjacent(r.vector)[i],
                )
        }),
    decreases entry.distance,
{
    let list = adjacent(entry.vector);
    lemma_nearest_among(distance, entry, list);
    let best = search::nearest_among(distance, entry, list);
    if best.distance < entry.distance {
        law_descent_ends_at_minimum(adjacent, distance, best);
        lemma_reaches_from(
            adjacent,
            entry.vector,
            best.vector,
            search::descend(adjacent, distance, best).vector,
        );
    } else {
        lemma_reaches_self(adjacent, entry.vector);
    }
}

proof fn lemma_visit_all_keeps_some(s: Search, st: SearchState, list: Seq<usize>)
    requires
        s.walk == Walk::Plain,
        s.ef > 0,
        st.top.len() > 0,
    ensures
        search::visit_all(s, st, list).top.len() > 0,
    decreases list.len(),
{
    if list.len() > 0 {
        let mid = search::visit_all(s, st, list.drop_last());
        lemma_visit_all_keeps_some(s, st, list.drop_last());
        lemma_trim(s, mid.top);
        lemma_trim(s, mid.top.insert(search::scored(s, list.last())));
    }
}

proof fn lemma_run_keeps_some(s: Search, st: SearchState, fuel: nat)
    requires
        s.walk == Walk::Plain,
        s.ef > 0,
        st.top.len() > 0,
    ensures
        search::run(s, st, fuel).top.len() > 0,
    decreases fuel,
{
    if fuel > 0 && !search::is_done(s, st) {
        let node = heap::nearest(st.candidates);
        lemma_visit_all_keeps_some(s, search::take_nearest(st), (s.adjacent)(node.vector));
        lemma_run_keeps_some(s, search::step(s, st), (fuel - 1) as nat);
    }
}

/// A plain search that holds on to anything returns something.
pub proof fn law_plain_search_finds_something(s: Search, entry: ScoredItem)
    requires
        s.walk == Walk::Plain,
        s.ef > 0,
    ensures
        search::found(s, entry).len() > 0,
{
    lemma_run_keeps_some(s, search::start(s, entry), s.nodes);
}

/// Item `b` is the first of the nearest neighbours of `a`, and nearer to the query than `a`.
pub open spec fn is_steepest(
    adjacent: spec_fn(usize) -> Seq<usize>,
    distance: spec_fn(usize) -> u64,
    a: ScoredItem,
    b: ScoredItem,
) -> bool {
    &&& b.distance < a.distance
    &&& b.distance == distance(b.vector)
    &&& exists|j: int|
        {
            &&& 0 <= j < adjacent(a.vector).len()
            &&& #[trigger] adjacent(a.vector)[j] == b.vector
            &&& forall|i: int| 0 <= i < j ==> b.distance < distance(#[trigger] adjacent(a.vector)[i])
            &&& forall|i: int|
                0 <= i < adjacent(a.vector).len() ==> b.distance <= distance(
                    #[trigger] adjacent(a.vector)[i],
                )
        }
}

/// Each item of the list but the first is the nearest neighbour of the one before it.
pub open spec fn is_descent(
    adjacent: spec_fn(usize) -> Seq<usize>,
    distance: spec_fn(usize) -> u64,
    p: Seq<ScoredItem>,
) -> bool {
    &&& p.len() > 0
    &&& forall|i: int|
        0 <= i < p.len() - 1 ==> is_steepest(adjacent, distance, #[trigger] p[i], p[i + 1])
}

proof fn lemma_nearest_among_first(
    distance: spec_fn(usize) -> u64,
    best: ScoredItem,
    list: Seq<usize>,
)
    ensures
        ({
            let r = search::nearest_among(distance, best, list);
            r.distance < best.distance ==> exists|j: int|
                {
                    &&& 0 <= j < list.len()
                    &&& #[trigger] list[j] == r.vector
                    &&& r.distance == distance(r.vector)
                    &&& forall|i: int| 0 <= i < j ==> r.distance < distance(#[trigger] list[i])
                }
        }),
    decreases list.len(),
{
    if list.len() > 0 {
        let front = list.drop_last();
        let earlier = search::nearest_among(distance, best, front);
        let r = search::nearest_among(distance, best, list);
        lemma_nearest_among_first(distance, best, front);
        lemma_nearest_among(distance, best, front);
        let n = front.len() as int;
        if distance(list.last()) < earlier.distance {
            assert(list[n] == r.vector);
            assert forall|i: int| 0 <= i < n implies r.distance < distance(#[trigger] list[i]) by {
                assert(front[i] == list[i]);
            }
        } else if r.distance < best.distance {
            let j = choose|j: int|
                {
                    &&& 0 <= j < front.len()
                    &&& #[trigger] front[j] == earlier.vector
                    &&& earlier.distance == distance(earlier.vector)
                    &&& forall|i: int|
                        0 <= i < j ==> earlier.distance < distance(#[trigger] front[i])
                };
            assert(list[j] == r.vector);
            assert forall|i: int| 0 <= i < j implies r.distance < distance(#[trigger] list[i]) by {
                assert(front[i] == list[i]);
            }
        }
    }
}

/// A descent always moves on to the first of the nearest neighbours, for as long as that is nearer
/// to the query, and returns where it ends.
pub proof fn law_descent_is_steepest(
    adjacent: spec_fn(usize) -> Seq<usize>,
    distance: spec_fn(usize) -> u64,
    entry: ScoredItem,
)
    ensures
        exists|p: Seq<ScoredItem>| #[trigger]
            is_descent(adjacent, distance, p) && p[0] == entry && p.last() == search::descend(
                adjacent,
                distance,
                entry,
            ),
    decreases entry.distance,
{
    let list = adjacent(entry.vector);
    lemma_nearest_among(distance, entry, list);
    lemma_nearest_among_first(distance, entry, list);
    let best = search::nearest_among(distance, entry, list);
    let end = search::descend(adjacent, distance, entry);
    if best.distance < entry.distance {
        law_descent_is_steepest(adjacent, distance, best);
        let q = choose|q: Seq<ScoredItem>| #[trigger]
            is_descent(adjacent, distance, q) && q[0] == best && q.last() == search::descend(
                adjacent,
                distance,
                best,
            );
        let p = seq![entry] + q;
        assert(is_steepest(adjacent, distance, entry, best));
        assert forall|i: int| 0 <= i < p.len() - 1 implies is_steepest(
            adjacent,
            distance,
            #[trigger] p[i],
            p[i + 1],
        ) by {
            if i > 0 {
                assert(is_steepest(adjacent, distance, q[i - 1], q[i - 1 + 1]));
            }
        }
        assert(is_descent(adjacent, distance, p));
        assert(p.last() == end);
    } else {
        assert(is_descent(adjacent, distance, seq![entry]));
    }
}

/// The first `k` of sorted results are the `k` nearest of them, or all, nearest first.
pub proof fn law_top_k_are_nearest(m: Multiset<ScoredItem>, k: nat)
    ensures
        ({
            let top = model::at_most(heap::sorted_items(m), k);
            &&& top.len() == if k < m.len() {
                k
            } else {
                m.len()
            }
            &&& heap::items_sorted(top)
            &&& top.to_multiset().subset_of(m)
            &&& forall|x: ScoredItem, i: int|
                #![trigger m.count(x), top[i]]
                top.to_multiset().count(x) < m.count(x) && 0 <= i < top.len() ==> heap::item_le(
                    top[i],
                    x,
                )
        }),
{
    let items = heap::sorted_items(m);
    let top = model::at_most(items, k);
    heap::lemma_sorted_items_exist(m);
    items.to_multiset_ensures();
    if k < items.len() {
        let rest = items.skip(k as int);
        rest.to_multiset_ensures();
        assert(items =~= top + rest);
        vstd::seq_lib::lemma_multiset_commutative(top, rest);
        assert forall|x: ScoredItem, i: int|
            #![trigger m.count(x), top[i]]
            top.to_multiset().count(x) < m.count(x) && 0 <= i < top.len() implies heap::item_le(
            top[i],
            x,
        ) by {
            assert(rest.to_multiset().count(x) > 0);
            assert(rest.contains(x));
            let j = choose|j: int| 0 <= j < rest.len() && rest[j] == x;
            assert(items[k + j] == x);
            assert(items[i] == top[i]);
        }
    }
}

/// A query goes by the edges of the graph, and asks about the external ids of its nodes.
pub proof fn law_queries_go_by_external_ids(
    g: GraphModel,
    distance: spec_fn(usize) -> u64,
    within: spec_fn(u64, u64) -> bool,
    keep: spec_fn(usize) -> bool,
    ef: nat,
    k: nat,
    walk: Walk,
)
    ensures
        ({
            let s = model::query(g, distance, within, keep, ef, k, walk);
            &&& s.nodes == g.lists.len()
            &&& forall|u: usize| #[trigger] (s.adjacent)(u) == g.lists[u as int]
            &&& forall|u: usize| #[trigger]
                (s.distance)(u) == distance(
                    match g.mapping {
                        Some(ids) => ids[u as int],
                        None => u,
                    },
                )
            &&& forall|u: usize| #[trigger]
                (s.keep)(u) == keep(
                    match g.mapping {
                        Some(ids) => ids[u as int],
                        None => u,
                    },
                )
            &&& s.within == within
            &&& s.ef == ef && s.k == k && s.walk == walk
            &&& g.is_searchable() ==> search::is_closed(s)
        }),
{
}

} // verus!
