//! What the graph searches compute, and what holds of their results.
//!
//! A search keeps the best results found so far and the candidates still to be expanded. It takes
//! the nearest candidate, looks at its neighbours, and stops when the candidate is too far away
//! to improve on the results.

use crate::heap;
use crate::heap::ScoredItem;
use vstd::multiset::Multiset;
use vstd::prelude::*;

verus! {

/// What a search does with the nodes that its filter rejects.
#[derive(Clone, Copy, Debug, PartialEq, Eq, Structural)]
pub enum Walk {
    /// There is no filter: every node can become a result.
    Plain,
    /// A rejected node is neither a result nor a candidate, but its neighbours are looked at in
    /// its place.
    JumpOver,
    /// A rejected node can become a candidate, but no result.
    PassThrough,
}

/// A query on a graph.
pub struct Search {
    /// The number of nodes: they are numbered from 0.
    pub nodes: nat,
    /// The neighbours of a node, in the order in which they are looked at.
    pub adjacent: spec_fn(usize) -> Seq<usize>,
    /// The distance of a node from the query.
    pub distance: spec_fn(usize) -> u64,
    /// Whether the first distance is good enough beside the second, the worst of the results.
    pub within: spec_fn(u64, u64) -> bool,
    /// Whether the filter accepts a node.
    pub keep: spec_fn(usize) -> bool,
    /// How many results the search holds on to.
    pub ef: nat,
    /// How many results are wanted: the search does not stop before it has as many.
    pub k: nat,
    pub walk: Walk,
}

/// How far a search has come.
#[verifier::ext_equal]
pub struct SearchState {
    /// The results so far.
    pub top: Multiset<ScoredItem>,
    /// The nodes still to be expanded.
    pub candidates: Multiset<ScoredItem>,
    /// The nodes that have been looked at.
    pub visited: Set<usize>,
}

/// The neighbours of every node are nodes.
pub open spec fn is_closed(s: Search) -> bool {
    forall|u: usize, i: int|
        #![trigger (s.adjacent)(u)[i]]
        u < s.nodes && 0 <= i < (s.adjacent)(u).len() ==> (s.adjacent)(u)[i] < s.nodes
}

/// Whether an item at distance `d` may join the results.
pub open spec fn is_welcome(
    ef: nat,
    within: spec_fn(u64, u64) -> bool,
    top: Multiset<ScoredItem>,
    d: u64,
) -> bool {
    top.len() < ef || (top.len() > 0 && within(d, heap::farthest(top).distance))
}

/// Drops the farthest result where there are more than `ef`.
pub open spec fn trim(ef: nat, top: Multiset<ScoredItem>) -> Multiset<ScoredItem> {
    if top.len() > ef {
        top.remove(heap::farthest(top))
    } else {
        top
    }
}

/// Adds an item to the results and to the candidates, if it is welcome.
pub open spec fn offer(
    ef: nat,
    within: spec_fn(u64, u64) -> bool,
    st: SearchState,
    item: ScoredItem,
) -> SearchState {
    if is_welcome(ef, within, st.top, item.distance) {
        SearchState {
            top: trim(ef, st.top.insert(item)),
            candidates: st.candidates.insert(item),
            visited: st.visited,
        }
    } else {
        SearchState { top: trim(ef, st.top), candidates: st.candidates, visited: st.visited }
    }
}

/// Adds an item to the candidates, and where `kept` to the results, if it is welcome.
pub open spec fn offer_through(
    ef: nat,
    within: spec_fn(u64, u64) -> bool,
    st: SearchState,
    item: ScoredItem,
    kept: bool,
) -> SearchState {
    if is_welcome(ef, within, st.top, item.distance) {
        SearchState {
            top: if kept {
                trim(ef, st.top.insert(item))
            } else {
                st.top
            },
            candidates: st.candidates.insert(item),
            visited: st.visited,
        }
    } else {
        st
    }
}

pub open spec fn mark(st: SearchState, v: usize) -> SearchState {
    SearchState { top: st.top, candidates: st.candidates, visited: st.visited.insert(v) }
}

/// A node with its distance from the query.
pub open spec fn scored(s: Search, v: usize) -> ScoredItem {
    ScoredItem { distance: (s.distance)(v), vector: v }
}

/// Looks at node `v`, unless that was done before.
pub open spec fn visit(s: Search, st: SearchState, v: usize) -> SearchState {
    if st.visited.contains(v) {
        st
    } else {
        match s.walk {
            Walk::Plain => offer(s.ef, s.within, mark(st, v), scored(s, v)),
            Walk::JumpOver => if (s.keep)(v) {
                offer(s.ef, s.within, mark(st, v), scored(s, v))
            } else {
                mark(st, v)
            },
            Walk::PassThrough => offer_through(
                s.ef,
                s.within,
                mark(st, v),
                scored(s, v),
                (s.keep)(v),
            ),
        }
    }
}

/// Looks at each node of a list in turn.
pub open spec fn visit_all(s: Search, st: SearchState, list: Seq<usize>) -> SearchState
    decreases list.len(),
{
    if list.len() == 0 {
        st
    } else {
        visit(s, visit_all(s, st, list.drop_last()), list.last())
    }
}

/// The nodes of a list that are looked at for the first time and rejected by the filter.
pub open spec fn passed_over(s: Search, st: SearchState, list: Seq<usize>) -> Seq<usize>
    decreases list.len(),
{
    if list.len() == 0 {
        Seq::empty()
    } else {
        let earlier = passed_over(s, st, list.drop_last());
        let v = list.last();
        if !visit_all(s, st, list.drop_last()).visited.contains(v) && !(s.keep)(v) {
            earlier.push(v)
        } else {
            earlier
        }
    }
}

/// Looks at the neighbours of each node of a list in turn.
pub open spec fn visit_around(s: Search, st: SearchState, mids: Seq<usize>) -> SearchState
    decreases mids.len(),
{
    if mids.len() == 0 {
        st
    } else {
        visit_all(s, visit_around(s, st, mids.drop_last()), (s.adjacent)(mids.last()))
    }
}

/// Looks at the neighbours of a node, and at those of the ones it jumps over.
pub open spec fn expand(s: Search, st: SearchState, u: usize) -> SearchState {
    let direct = visit_all(s, st, (s.adjacent)(u));
    if s.walk == Walk::JumpOver {
        visit_around(s, direct, passed_over(s, st, (s.adjacent)(u)))
    } else {
        direct
    }
}

/// How many results there must be before the search can stop.
pub open spec fn enough(s: Search) -> nat {
    if s.ef >= s.k {
        s.ef
    } else {
        s.k
    }
}

/// There are enough results, and the candidate `node` is no match for the worst of them.
pub open spec fn halts(s: Search, top: Multiset<ScoredItem>, node: ScoredItem) -> bool {
    top.len() >= enough(s) && !(s.within)(node.distance, heap::farthest(top).distance)
}

/// Nothing is left to be done.
pub open spec fn is_done(s: Search, st: SearchState) -> bool {
    st.candidates.len() == 0 || halts(s, st.top, heap::nearest(st.candidates))
}

/// Takes the nearest candidate out.
pub open spec fn take_nearest(st: SearchState) -> SearchState {
    SearchState {
        top: st.top,
        candidates: st.candidates.remove(heap::nearest(st.candidates)),
        visited: st.visited,
    }
}

/// Expands the nearest candidate.
pub open spec fn step(s: Search, st: SearchState) -> SearchState {
    expand(s, take_nearest(st), heap::nearest(st.candidates).vector)
}

/// Expands candidates until nothing is left to be done, but no more than `fuel` of them.
pub open spec fn run(s: Search, st: SearchState, fuel: nat) -> SearchState
    decreases fuel,
{
    if fuel == 0 || is_done(s, st) {
        st
    } else {
        run(s, step(s, st), (fuel - 1) as nat)
    }
}

/// Whenever a candidate has to be held against the worst of the results, there is a result: a
/// search for no results at all is not left without one while it has candidates.
pub open spec fn always_judges(s: Search, st: SearchState, fuel: nat) -> bool
    decreases fuel,
{
    &&& enough(s) > 0 || st.candidates.len() == 0 || st.top.len() > 0
    &&& fuel > 0 && !is_done(s, st) ==> always_judges(s, step(s, st), (fuel - 1) as nat)
}

/// The state in which a search begins.
pub open spec fn start(s: Search, entry: ScoredItem) -> SearchState {
    SearchState {
        top: if s.walk == Walk::Plain || (s.keep)(entry.vector) {
            Multiset::empty().insert(entry)
        } else {
            Multiset::empty()
        },
        candidates: Multiset::empty().insert(entry),
        visited: Set::empty().insert(entry.vector),
    }
}

/// A search from `entry` has an answer. It always has one where any result is kept or wanted.
pub open spec fn is_answerable(s: Search, entry: ScoredItem) -> bool {
    always_judges(s, start(s, entry), s.nodes)
}

/// The state in which a search from `entry` ends.
///
/// No node becomes a candidate twice, so there are never more steps than nodes.
pub open spec fn outcome(s: Search, entry: ScoredItem) -> SearchState {
    run(s, start(s, entry), s.nodes)
}

/// The results of a search from `entry`.
pub open spec fn found(s: Search, entry: ScoredItem) -> Multiset<ScoredItem> {
    outcome(s, entry).top
}

/// The first of the nearest nodes among `best` and the nodes of a list.
pub open spec fn nearest_among(
    distance: spec_fn(usize) -> u64,
    best: ScoredItem,
    list: Seq<usize>,
) -> ScoredItem
    decreases list.len(),
{
    if list.len() == 0 {
        best
    } else {
        let earlier = nearest_among(distance, best, list.drop_last());
        if distance(list.last()) < earlier.distance {
            ScoredItem { distance: distance(list.last()), vector: list.last() }
        } else {
            earlier
        }
    }
}

/// Moves on to the nearest neighbour for as long as that leads nearer to the query.
pub open spec fn descend(
    adjacent: spec_fn(usize) -> Seq<usize>,
    distance: spec_fn(usize) -> u64,
    item: ScoredItem,
) -> ScoredItem
    decreases item.distance,
{
    let best = nearest_among(distance, item, adjacent(item.vector));
    if best.distance < item.distance {
        descend(adjacent, distance, best)
    } else {
        item
    }
}

} // verus!
