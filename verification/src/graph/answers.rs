//! What the functions that a search is given answer.

use crate::graph::model::GraphModel;
use vstd::prelude::*;

verus! {

/// `dist` tells what a distance function returns for each vector.
pub open spec fn measured_by<F: Fn(usize) -> u64>(
    distance: F,
    dist: spec_fn(usize) -> u64,
) -> bool {
    forall|id: usize, d: u64| #[trigger] distance.ensures((id,), d) ==> d == dist(id)
}

/// A distance function can be asked about every vector that a node stands for, and always gives
/// the same answer.
pub open spec fn measures<F: Fn(usize) -> u64>(g: GraphModel, distance: F) -> bool {
    &&& forall|v: usize| v < g.nodes() ==> distance.requires((#[trigger] g.external_id(v),))
    &&& exists|dist: spec_fn(usize) -> u64| measured_by(distance, dist)
}

/// `judge` tells what a relaxation test says of two distances.
pub open spec fn judged_by<W: Fn(u64, u64) -> bool>(
    within: W,
    judge: spec_fn(u64, u64) -> bool,
) -> bool {
    forall|a: u64, b: u64, r: bool| #[trigger] within.ensures((a, b), r) ==> r == judge(a, b)
}

/// A relaxation test can be asked about all distances, and always gives the same answer.
pub open spec fn judges<W: Fn(u64, u64) -> bool>(within: W) -> bool {
    &&& forall|a: u64, b: u64| #[trigger] within.requires((a, b))
    &&& exists|judge: spec_fn(u64, u64) -> bool| judged_by(within, judge)
}

/// `keep` tells what a filter says of each vector.
pub open spec fn filtered_by<P: Fn(usize) -> bool>(
    predicate: P,
    keep: spec_fn(usize) -> bool,
) -> bool {
    forall|id: usize, r: bool| #[trigger] predicate.ensures((id,), r) ==> r == keep(id)
}

/// A filter can be asked about every vector that a node stands for, and always gives the same
/// answer.
pub open spec fn filters<P: Fn(usize) -> bool>(g: GraphModel, predicate: P) -> bool {
    &&& forall|v: usize| v < g.nodes() ==> predicate.requires((#[trigger] g.external_id(v),))
    &&& exists|keep: spec_fn(usize) -> bool| filtered_by(predicate, keep)
}

/// `pair` tells what a distance function returns for each two vectors.
pub open spec fn paired_by<F: Fn(usize, usize) -> u64>(
    distance: F,
    pair: spec_fn(usize, usize) -> u64,
) -> bool {
    forall|a: usize, b: usize, d: u64| #[trigger] distance.ensures((a, b), d) ==> d == pair(a, b)
}

/// A distance function can be asked about every two vectors that nodes stand for, and always gives
/// the same answer.
pub open spec fn compares<F: Fn(usize, usize) -> u64>(g: GraphModel, distance: F) -> bool {
    &&& forall|u: usize, v: usize|
        u < g.nodes() && v < g.nodes() ==> distance.requires(
            (#[trigger] g.external_id(u), #[trigger] g.external_id(v)),
        )
    &&& exists|pair: spec_fn(usize, usize) -> u64| paired_by(distance, pair)
}

} // verus!
