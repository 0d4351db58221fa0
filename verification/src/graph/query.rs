//! A query: what is asked of a graph, and how far the search for the answer goes.

use crate::graph::answers;
use crate::graph::model;
use crate::graph::model::GraphModel;
use crate::graph::search;
use crate::graph::search::{Search, Walk};
use crate::heap::ScoredItem;
use vstd::prelude::*;

verus! {

/// What a search is given.
pub struct Query<'a, F: Fn(usize) -> u64, W: Fn(u64, u64) -> bool, P: Fn(usize) -> bool> {
    /// The distance of a vector from the query.
    pub distance: &'a F,
    /// Whether a distance is good enough beside the worst of the results.
    pub within: &'a W,
    /// Whether a vector can be a result.
    pub predicate: &'a P,
    /// How many results the search holds on to.
    pub ef: usize,
    /// How many results are wanted.
    pub k: usize,
    /// What happens to the nodes that the filter rejects.
    pub walk: Walk,
}

impl<'a, F: Fn(usize) -> u64, W: Fn(u64, u64) -> bool, P: Fn(usize) -> bool> Query<'a, F, W, P> {
    /// The query can be put to a graph.
    pub open spec fn suits(&self, g: GraphModel) -> bool {
        &&& answers::measures(g, *self.distance)
        &&& answers::judges(*self.within)
        &&& answers::filters(g, *self.predicate)
    }

    /// A search from `entry` for what is asked has an answer.
    pub open spec fn is_answerable(&self, g: GraphModel, entry: ScoredItem) -> bool {
        self.ef > 0 || self.k > 0 || exists|
            dist: spec_fn(usize) -> u64,
            judge: spec_fn(u64, u64) -> bool,
            keep: spec_fn(usize) -> bool,
        | #[trigger]
            self.answered_by(dist, judge, keep) && search::is_answerable(
                self.search(g, dist, judge, keep),
                entry,
            )
    }

    /// The functions of the query answer as these do.
    pub open spec fn answered_by(
        &self,
        dist: spec_fn(usize) -> u64,
        judge: spec_fn(u64, u64) -> bool,
        keep: spec_fn(usize) -> bool,
    ) -> bool {
        &&& answers::measured_by(*self.distance, dist)
        &&& answers::judged_by(*self.within, judge)
        &&& answers::filtered_by(*self.predicate, keep)
    }

    /// The search that the query asks for, where its functions answer as these do.
    pub open spec fn search(
        &self,
        g: GraphModel,
        dist: spec_fn(usize) -> u64,
        judge: spec_fn(u64, u64) -> bool,
        keep: spec_fn(usize) -> bool,
    ) -> Search {
        model::query(g, dist, judge, keep, self.ef as nat, self.k as nat, self.walk)
    }

    /// How many results there must be before the search can stop.
    pub fn enough(&self) -> (n: usize)
        ensures
            n == if self.ef >= self.k {
                self.ef
            } else {
                self.k
            },
    {
        if self.ef >= self.k {
            self.ef
        } else {
            self.k
        }
    }
}

} // verus!
