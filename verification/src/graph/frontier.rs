//! The working state of a search.

use crate::graph::answers;
use crate::graph::search;
use crate::graph::search::SearchState;
use crate::heap::{CandidateHeap, ScoredItem, TopHeap};
use crate::visited::VisitedSet;
use vstd::multiset::Multiset;
use vstd::prelude::*;

verus! {

/// The results so far, the candidates still to be expanded, and the nodes looked at.
pub struct Frontier {
    top: TopHeap,
    candidates: CandidateHeap,
    visited: VisitedSet,
}

impl View for Frontier {
    type V = SearchState;

    closed spec fn view(&self) -> SearchState {
        SearchState {
            top: self.top@,
            candidates: self.candidates@,
            visited: self.visited@,
        }
    }
}

impl Frontier {
    pub closed spec fn wf(&self) -> bool {
        self.top.wf() && self.candidates.wf()
    }

    /// The number of nodes in the graph.
    pub closed spec fn nodes(&self) -> nat {
        self.visited.capacity()
    }

    /// The start of a search in a graph of `n` nodes, where `kept` tells whether the entry is a
    /// result.
    pub fn new(n: usize, entry: ScoredItem, kept: bool) -> (frontier: Self)
        requires
            entry.vector < n,
        ensures
            frontier.wf(),
            frontier.nodes() == n,
            frontier@ == (SearchState {
                top: if kept {
                    Multiset::empty().insert(entry)
                } else {
                    Multiset::empty()
                },
                candidates: Multiset::empty().insert(entry),
                visited: Set::empty().insert(entry.vector),
            }),
    {
        let mut top: TopHeap = TopHeap::new();
        let mut candidates: CandidateHeap = CandidateHeap::new();
        let mut visited = VisitedSet::new(n);
        if kept {
            top.push(entry);
        }
        candidates.push(entry);
        visited.insert(entry.vector);
        Frontier { top, candidates, visited }
    }

    /// Takes the nearest candidate out.
    pub fn take_nearest(&mut self) -> (node: Option<ScoredItem>)
        requires
            old(self).wf(),
        ensures
            final(self).wf(),
            final(self).nodes() == old(self).nodes(),
            node is None <==> old(self)@.candidates.len() == 0,
            node is None ==> final(self)@ == old(self)@,
            node matches Some(x) ==> x == crate::heap::nearest(old(self)@.candidates)
                && final(self)@ == search::take_nearest(old(self)@),
    {
        self.candidates.pop()
    }

    /// Whether there are enough results and `node` is no match for the worst of them.
    pub fn halts<W: Fn(u64, u64) -> bool>(
        &self,
        node: ScoredItem,
        enough: usize,
        within: &W,
    ) -> (stop: bool)
        requires
            self.wf(),
            enough > 0 || self@.top.len() > 0,
            answers::judges(*within),
        ensures
            forall|judge: spec_fn(u64, u64) -> bool| #[trigger]
                answers::judged_by(*within, judge) ==> stop == (self@.top.len() >= enough && !judge(
                    node.distance,
                    crate::heap::farthest(self@.top).distance,
                )),
    {
        if self.top.len() >= enough {
            match self.top.peek() {
                Some(worst) => {
                    let near: bool = within(node.distance, worst.distance);
                    !near
                },
                None => false,
            }
        } else {
            false
        }
    }

    /// Whether node `v` was looked at.
    pub fn was_visited(&self, v: usize) -> (b: bool)
        requires
            v < self.nodes(),
        ensures
            b == self@.visited.contains(v),
    {
        self.visited.contains(v)
    }

    /// Notes that node `v` was looked at.
    pub fn mark(&mut self, v: usize)
        requires
            old(self).wf(),
            v < old(self).nodes(),
        ensures
            final(self).wf(),
            final(self).nodes() == old(self).nodes(),
            final(self)@ == search::mark(old(self)@, v),
    {
        self.visited.insert(v);
    }

    /// Whether an item at distance `d` may join the results.
    fn is_welcome<W: Fn(u64, u64) -> bool>(&self, d: u64, ef: usize, within: &W) -> (welcome: bool)
        requires
            self.wf(),
            answers::judges(*within),
        ensures
            forall|judge: spec_fn(u64, u64) -> bool| #[trigger]
                answers::judged_by(*within, judge) ==> welcome == search::is_welcome(
                    ef as nat,
                    judge,
                    self@.top,
                    d,
                ),
    {
        if self.top.len() < ef {
            true
        } else {
            match self.top.peek() {
                Some(worst) => within(d, worst.distance),
                None => false,
            }
        }
    }

    /// Adds an item to the results and to the candidates, if it is welcome.
    pub fn offer<W: Fn(u64, u64) -> bool>(&mut self, item: ScoredItem, ef: usize, within: &W)
        requires
            old(self).wf(),
            answers::judges(*within),
        ensures
            final(self).wf(),
            final(self).nodes() == old(self).nodes(),
            forall|judge: spec_fn(u64, u64) -> bool| #[trigger]
                answers::judged_by(*within, judge) ==> final(self)@ == search::offer(
                    ef as nat,
                    judge,
                    old(self)@,
                    item,
                ),
    {
        if self.is_welcome(item.distance, ef, within) {
            self.candidates.push(item);
            self.top.push(item);
        }
        if self.top.len() > ef {
            self.top.pop();
        }
    }

    /// Adds an item to the candidates, and where `kept` to the results, if it is welcome.
    pub fn offer_through<W: Fn(u64, u64) -> bool>(
        &mut self,
        item: ScoredItem,
        kept: bool,
        ef: usize,
        within: &W,
    )
        requires
            old(self).wf(),
            answers::judges(*within),
        ensures
            final(self).wf(),
            final(self).nodes() == old(self).nodes(),
            forall|judge: spec_fn(u64, u64) -> bool| #[trigger]
                answers::judged_by(*within, judge) ==> final(self)@ == search::offer_through(
                    ef as nat,
                    judge,
                    old(self)@,
                    item,
                    kept,
                ),
    {
        if self.is_welcome(item.distance, ef, within) {
            self.candidates.push(item);
            if kept {
                self.top.push(item);
                if self.top.len() > ef {
                    self.top.pop();
                }
            }
        }
    }

    /// The results.
    pub fn into_top(self) -> (top: TopHeap)
        requires
            self.wf(),
        ensures
            top.wf(),
            top@ == self@.top,
    {
        self.top
    }
}

} // verus!
