//! The interface that all graphs share, with the searches on it.

use crate::graph::answers;
use crate::graph::encoded;
use crate::graph::frontier::Frontier;
use crate::graph::model;
use crate::graph::model::GraphModel;
use crate::graph::query::Query;
use crate::graph::search;
use crate::graph::search::Walk;
use crate::graph::search_laws;
use crate::heap;
use crate::heap::{ScoredItem, TopHeap};
use vstd::prelude::*;

verus! {

/// A graph as the searches see it.
pub trait GraphTrait: Sized + View<V = GraphModel> {
    /// The neighbours of every node can be listed.
    spec fn wf(&self) -> bool;

    /// All numbers of the blocks that hold the neighbours, and where the blocks begin and end;
    /// nothing where the neighbours are not in blocks.
    spec fn blocks(&self) -> Option<(Seq<u32>, Seq<usize>)>;

    /// The bytes that the neighbours take beside their blocks.
    spec fn neighbors_bytes(&self) -> nat;

    /// The external ids, where they are to be packed.
    spec fn packed_ids(&self) -> Option<Seq<usize>>;

    /// The bytes that external ids take where they are not to be packed.
    spec fn ids_bytes(&self) -> nat;

    /// The edges are as many as there are neighbours in all lists.
    proof fn lemma_edges_counted(&self)
        requires
            self.wf(),
        ensures
            self@.edges == model::total_len(self@.lists),
    ;

    /// The local ids of the neighbours of `u`.
    fn neighbors(&self, u: usize) -> (list: Vec<usize>)
        requires
            self.wf(),
            u < self@.nodes(),
        ensures
            list@ == self@.lists[u as int],
    ;

    /// The number of nodes in the graph.
    fn n_nodes(&self) -> (n: usize)
        ensures
            n == self@.nodes(),
    ;

    /// Whether the graph has no node.
    fn is_empty(&self) -> (b: bool)
        ensures
            b == (self@.nodes() == 0),
    {
        self.n_nodes() == 0
    }

    /// The number of edges in the graph.
    fn n_edges(&self) -> (n: usize)
        ensures
            n == self@.edges,
    ;

    /// The bound on the degree of every node in the graph.
    fn max_degree(&self) -> (n: usize)
        ensures
            n == self@.max_degree,
    ;

    /// The external id of a node; its local id where the graph has no mapping.
    fn get_external_id(&self, id: usize) -> (external: usize)
        requires
            self@.has_external_id(id),
        ensures
            external == self@.external_id(id),
    ;

    /// The bytes that the graph takes: those of the neighbours and those of the external ids.
    ///
    /// `blocks_len` and `ids_len` tell how many bytes blocks and packed ids take in their encoding.
    fn get_space_usage_bytes<
        F: Fn(&Vec<u32>, &Vec<usize>) -> usize,
        P: Fn(&Vec<usize>) -> usize,
    >(&self, blocks_len: &F, ids_len: &P) -> (bytes: usize)
        requires
            self.wf(),
            encoded::blocks_can_be_sized(*blocks_len, self.blocks(), self.neighbors_bytes()),
            encoded::ids_can_be_sized(*ids_len, self.packed_ids(), self.ids_bytes()),
            forall|a: nat, b: nat| #[trigger]
                encoded::is_blocks_size(*blocks_len, self.blocks(), self.neighbors_bytes(), a)
                    && #[trigger] encoded::is_ids_size(
                    *ids_len,
                    self.packed_ids(),
                    self.ids_bytes(),
                    b,
                ) ==> a + b <= usize::MAX,
        ensures
            exists|a: nat, b: nat| #[trigger]
                encoded::is_blocks_size(*blocks_len, self.blocks(), self.neighbors_bytes(), a)
                    && #[trigger] encoded::is_ids_size(
                    *ids_len,
                    self.packed_ids(),
                    self.ids_bytes(),
                    b,
                ) && bytes == a + b,
    ;

    /// The bytes that the neighbours take.
    ///
    /// `blocks_len` tells how many bytes blocks take in their encoding.
    fn neighbors_size_bytes<F: Fn(&Vec<u32>, &Vec<usize>) -> usize>(
        &self,
        blocks_len: &F,
    ) -> (bytes: usize)
        requires
            self.wf(),
            encoded::blocks_can_be_sized(*blocks_len, self.blocks(), self.neighbors_bytes()),
        ensures
            encoded::is_blocks_size(
                *blocks_len,
                self.blocks(),
                self.neighbors_bytes(),
                bytes as nat,
            ),
    ;

    /// Searches greedily for the node nearest to a query, from `entry_point` on.
    ///
    /// `distance` tells how far the vector with an external id is from the query.
    fn greedy_search_nearest<F: Fn(usize) -> u64>(
        &self,
        distance: &F,
        entry_point: ScoredItem,
    ) -> (nearest: ScoredItem)
        requires
            self.wf(),
            self@.is_searchable(),
            entry_point.vector < self@.nodes(),
            answers::measures(self@, *distance),
        ensures
            forall|dist: spec_fn(usize) -> u64| #[trigger]
                answers::measured_by(*distance, dist) ==> nearest == search::descend(
                    self@.adjacency(),
                    self@.node_distances(dist),
                    entry_point,
                ),
    {
        let mut nearest = entry_point;
        let mut updated = true;
        while updated
            invariant
                self.wf(),
                self@.is_searchable(),
                answers::measures(self@, *distance),
                nearest.vector < self@.nodes(),
                forall|dist: spec_fn(usize) -> u64| #[trigger]
                    answers::measured_by(*distance, dist) ==> {
                        let target = search::descend(
                            self@.adjacency(),
                            self@.node_distances(dist),
                            entry_point,
                        );
                        if updated {
                            target == search::descend(
                                self@.adjacency(),
                                self@.node_distances(dist),
                                nearest,
                            )
                        } else {
                            target == nearest
                        }
                    },
            decreases nearest.distance, updated as int,
        {
            updated = false;
            let list = self.neighbors(nearest.vector);
            let ghost from = nearest;
            for i in 0..list.len()
                invariant
                    self@.is_searchable(),
                    answers::measures(self@, *distance),
                    from.vector < self@.nodes(),
                    list@ == self@.lists[from.vector as int],
                    nearest.vector < self@.nodes(),
                    updated <==> nearest.distance < from.distance,
                    nearest.distance <= from.distance,
                    forall|dist: spec_fn(usize) -> u64| #[trigger]
                        answers::measured_by(*distance, dist) ==> nearest == search::nearest_among(
                            self@.node_distances(dist),
                            from,
                            list@.take(i as int),
                        ),
            {
                let v: usize = list[i];
                assert(self@.lists[from.vector as int][i as int] < self@.nodes());
                assert(list@.take(i + 1).drop_last() =~= list@.take(i as int));
                let external: usize = self.get_external_id(v);
                let d: u64 = distance(external);
                if d < nearest.distance {
                    nearest = ScoredItem { distance: d, vector: v };
                    updated = true;
                }
            }
            proof {
                assert(list@.take(list@.len() as int) =~= list@);
                assert forall|dist: spec_fn(usize) -> u64| #[trigger]
                    answers::measured_by(*distance, dist) implies {
                    let target = search::descend(
                        self@.adjacency(),
                        self@.node_distances(dist),
                        entry_point,
                    );
                    if updated {
                        target == search::descend(
                            self@.adjacency(),
                            self@.node_distances(dist),
                            nearest,
                        )
                    } else {
                        target == nearest
                    }
                } by {
                    search_laws::lemma_nearest_among(self@.node_distances(dist), from, list@);
                }
                if !updated {
                    let dist = choose|dist: spec_fn(usize) -> u64| answers::measured_by(*distance, dist);
                    search_laws::lemma_nearest_among(self@.node_distances(dist), from, list@);
                }
            }
        }
        nearest
    }

    /// The `k` best results of a search from `starting_node`, nearest first.
    ///
    /// The search holds on to `ef` results while it goes on; `within` tells whether a distance is
    /// good enough beside the worst of them.
    fn greedy_search_topk<F: Fn(usize) -> u64, W: Fn(u64, u64) -> bool>(
        &self,
        starting_node: ScoredItem,
        distance: &F,
        k: usize,
        ef: usize,
        within: &W,
    ) -> (top_k: Vec<ScoredItem>)
        requires
            self.wf(),
            self@.is_searchable(),
            starting_node.vector < self@.nodes(),
            answers::measures(self@, *distance),
            answers::judges(*within),
            ef > 0 || k > 0 || exists|
                dist: spec_fn(usize) -> u64,
                judge: spec_fn(u64, u64) -> bool,
            |
                #![trigger answers::measured_by(*distance, dist), answers::judged_by(*within, judge)]
                answers::measured_by(*distance, dist) && answers::judged_by(*within, judge)
                    && search::is_answerable(
                    model::query(
                        self@,
                        dist,
                        judge,
                        model::no_filter(),
                        ef as nat,
                        k as nat,
                        Walk::Plain,
                    ),
                    starting_node,
                ),
        ensures
            forall|dist: spec_fn(usize) -> u64, judge: spec_fn(u64, u64) -> bool|
                #![trigger answers::measured_by(*distance, dist), answers::judged_by(*within, judge)]
                answers::measured_by(*distance, dist) && answers::judged_by(*within, judge)
                    ==> top_k@ == model::at_most(
                    heap::sorted_items(
                        search::found(
                            model::query(
                                self@,
                                dist,
                                judge,
                                model::no_filter(),
                                ef as nat,
                                k as nat,
                                Walk::Plain,
                            ),
                            starting_node,
                        ),
                    ),
                    k as nat,
                ),
    {
        let top = self.search_candidates_for_query(starting_node, distance, ef, k, within);
        let mut top_k = top.into_sorted_vec();
        let ghost results = top_k@;
        top_k.truncate(k);
        assert(top_k@ =~= model::at_most(results, k as nat));
        top_k
    }

    /// Searches for the results of a query.
    fn search_candidates_for_query<F: Fn(usize) -> u64, W: Fn(u64, u64) -> bool>(
        &self,
        entry_node: ScoredItem,
        distance: &F,
        ef_search: usize,
        k: usize,
        within: &W,
    ) -> (top: TopHeap)
        requires
            self.wf(),
            self@.is_searchable(),
            entry_node.vector < self@.nodes(),
            answers::measures(self@, *distance),
            answers::judges(*within),
            ef_search > 0 || k > 0 || exists|
                dist: spec_fn(usize) -> u64,
                judge: spec_fn(u64, u64) -> bool,
            |
                #![trigger answers::measured_by(*distance, dist), answers::judged_by(*within, judge)]
                answers::measured_by(*distance, dist) && answers::judged_by(*within, judge)
                    && search::is_answerable(
                    model::query(
                        self@,
                        dist,
                        judge,
                        model::no_filter(),
                        ef_search as nat,
                        k as nat,
                        Walk::Plain,
                    ),
                    entry_node,
                ),
        ensures
            top.wf(),
            forall|dist: spec_fn(usize) -> u64, judge: spec_fn(u64, u64) -> bool|
                #![trigger answers::measured_by(*distance, dist), answers::judged_by(*within, judge)]
                answers::measured_by(*distance, dist) && answers::judged_by(*within, judge)
                    ==> top@ == search::found(
                    model::query(
                        self@,
                        dist,
                        judge,
                        model::no_filter(),
                        ef_search as nat,
                        k as nat,
                        Walk::Plain,
                    ),
                    entry_node,
                ),
    {
        self.search_candidates_impl(entry_node, distance, ef_search, Some(k), within)
    }

    /// Searches for the neighbours of a node to be inserted: there is no bound on the results but
    /// `ef_construction`, and no relaxation.
    fn search_candidates_for_insert<F: Fn(usize) -> u64>(
        &self,
        entry_node: ScoredItem,
        distance: &F,
        ef_construction: usize,
    ) -> (top: TopHeap)
        requires
            self.wf(),
            self@.is_searchable(),
            entry_node.vector < self@.nodes(),
            answers::measures(self@, *distance),
            ef_construction > 0 || exists|dist: spec_fn(usize) -> u64| #[trigger]
                answers::measured_by(*distance, dist) && search::is_answerable(
                    model::query(
                        self@,
                        dist,
                        model::no_relaxation(),
                        model::no_filter(),
                        ef_construction as nat,
                        0,
                        Walk::Plain,
                    ),
                    entry_node,
                ),
        ensures
            top.wf(),
            forall|dist: spec_fn(usize) -> u64| #[trigger]
                answers::measured_by(*distance, dist) ==> top@ == search::found(
                    model::query(
                        self@,
                        dist,
                        model::no_relaxation(),
                        model::no_filter(),
                        ef_construction as nat,
                        0,
                        Walk::Plain,
                    ),
                    entry_node,
                ),
    {
        let within = |a: u64, b: u64| -> (r: bool)
            ensures
                r == (a <= b),
            { a <= b };
        assert(answers::judged_by(within, model::no_relaxation()));
        proof {
            if ef_construction == 0 {
                let dist = choose|dist: spec_fn(usize) -> u64| #[trigger]
                    answers::measured_by(*distance, dist) && search::is_answerable(
                        model::query(
                            self@,
                            dist,
                            model::no_relaxation(),
                            model::no_filter(),
                            0,
                            0,
                            Walk::Plain,
                        ),
                        entry_node,
                    );
                assert(answers::measured_by(*distance, dist));
            }
        }
        self.search_candidates_impl(entry_node, distance, ef_construction, None, &within)
    }

    /// Searches for candidates; where `k` is given, the search does not stop before it has as
    /// many.
    ///
    /// A search that neither keeps nor wants a result holds candidates against the results all the
    /// same. It has an answer only if there is a result whenever there is a candidate.
    fn search_candidates_impl<F: Fn(usize) -> u64, W: Fn(u64, u64) -> bool>(
        &self,
        entry_node: ScoredItem,
        distance: &F,
        ef: usize,
        k: Option<usize>,
        within: &W,
    ) -> (top: TopHeap)
        requires
            self.wf(),
            self@.is_searchable(),
            entry_node.vector < self@.nodes(),
            answers::measures(self@, *distance),
            answers::judges(*within),
            ef > 0 || model::wanted(k) > 0 || exists|
                dist: spec_fn(usize) -> u64,
                judge: spec_fn(u64, u64) -> bool,
            |
                #![trigger answers::measured_by(*distance, dist), answers::judged_by(*within, judge)]
                answers::measured_by(*distance, dist) && answers::judged_by(*within, judge)
                    && search::is_answerable(
                    model::query(
                        self@,
                        dist,
                        judge,
                        model::no_filter(),
                        ef as nat,
                        model::wanted(k),
                        Walk::Plain,
                    ),
                    entry_node,
                ),
        ensures
            top.wf(),
            forall|dist: spec_fn(usize) -> u64, judge: spec_fn(u64, u64) -> bool|
                #![trigger answers::measured_by(*distance, dist), answers::judged_by(*within, judge)]
                answers::measured_by(*distance, dist) && answers::judged_by(*within, judge)
                    ==> top@ == search::found(
                    model::query(
                        self@,
                        dist,
                        judge,
                        model::no_filter(),
                        ef as nat,
                        model::wanted(k),
                        Walk::Plain,
                    ),
                    entry_node,
                ),
    {
        let predicate = |id: usize| -> (r: bool)
            ensures
                r,
            { true };
        assert(answers::filtered_by(predicate, model::no_filter()));
        let query = Query {
            distance,
            within,
            predicate: &predicate,
            ef,
            k: match k {
                Some(k) => k,
                None => 0,
            },
            walk: Walk::Plain,
        };
        proof {
            if ef == 0 && model::wanted(k) == 0 {
                let (dist, judge) = choose|
                    dist: spec_fn(usize) -> u64,
                    judge: spec_fn(u64, u64) -> bool,
                |
                    #![trigger answers::measured_by(*distance, dist), answers::judged_by(*within, judge)]
                    answers::measured_by(*distance, dist) && answers::judged_by(*within, judge)
                        && search::is_answerable(
                        model::query(self@, dist, judge, model::no_filter(), 0, 0, Walk::Plain),
                        entry_node,
                    );
                assert(query.answered_by(dist, judge, model::no_filter()));
            }
        }
        let top = self.walk(entry_node, &query);
        proof {
            assert forall|dist: spec_fn(usize) -> u64, judge: spec_fn(u64, u64) -> bool|
                #![trigger answers::measured_by(*distance, dist), answers::judged_by(*within, judge)]
                answers::measured_by(*distance, dist) && answers::judged_by(
                    *within,
                    judge,
                ) implies top@ == search::found(
                model::query(
                    self@,
                    dist,
                    judge,
                    model::no_filter(),
                    ef as nat,
                    model::wanted(k),
                    Walk::Plain,
                ),
                entry_node,
            ) by {
                assert(query.answered_by(dist, judge, model::no_filter()));
            }
        }
        top
    }

    /// Filtered search that jumps over what the filter rejects: only vectors that satisfy
    /// `predicate` are returned, and where a neighbour does not, its own neighbours are looked at
    /// in its place.
    ///
    /// `predicate` is asked about external ids.
    fn acorn_search_candidates_filtered<
        F: Fn(usize) -> u64,
        W: Fn(u64, u64) -> bool,
        P: Fn(usize) -> bool,
    >(
        &self,
        entry_node: ScoredItem,
        distance: &F,
        ef: usize,
        k: usize,
        within: &W,
        predicate: &P,
    ) -> (top: TopHeap)
        requires
            self.wf(),
            self@.is_searchable(),
            entry_node.vector < self@.nodes(),
            answers::measures(self@, *distance),
            answers::judges(*within),
            answers::filters(self@, *predicate),
            ef > 0 || k > 0 || exists|
                dist: spec_fn(usize) -> u64,
                judge: spec_fn(u64, u64) -> bool,
                keep: spec_fn(usize) -> bool,
            |
                #![trigger answers::measured_by(*distance, dist), answers::judged_by(*within, judge), answers::filtered_by(*predicate, keep)]
                answers::measured_by(*distance, dist) && answers::judged_by(*within, judge)
                    && answers::filtered_by(*predicate, keep) && search::is_answerable(
                    model::query(self@, dist, judge, keep, ef as nat, k as nat, Walk::JumpOver),
                    entry_node,
                ),
        ensures
            top.wf(),
            forall|dist: spec_fn(usize) -> u64, judge: spec_fn(u64, u64) -> bool, keep: spec_fn(
                usize,
            ) -> bool|
                #![trigger answers::measured_by(*distance, dist), answers::judged_by(*within, judge), answers::filtered_by(*predicate, keep)]
                answers::measured_by(*distance, dist) && answers::judged_by(*within, judge)
                    && answers::filtered_by(*predicate, keep) ==> top@ == search::found(
                    model::query(
                        self@,
                        dist,
                        judge,
                        keep,
                        ef as nat,
                        k as nat,
                        Walk::JumpOver,
                    ),
                    entry_node,
                ),
    {
        let query = Query { distance, within, predicate, ef, k, walk: Walk::JumpOver };
        proof {
            if ef == 0 && k == 0 {
                let (dist, judge, keep) = choose|
                    dist: spec_fn(usize) -> u64,
                    judge: spec_fn(u64, u64) -> bool,
                    keep: spec_fn(usize) -> bool,
                |
                    #![trigger answers::measured_by(*distance, dist), answers::judged_by(*within, judge), answers::filtered_by(*predicate, keep)]
                    answers::measured_by(*distance, dist) && answers::judged_by(*within, judge)
                        && answers::filtered_by(*predicate, keep) && search::is_answerable(
                        model::query(self@, dist, judge, keep, 0, 0, Walk::JumpOver),
                        entry_node,
                    );
                assert(query.answered_by(dist, judge, keep));
            }
        }
        let top = self.walk(entry_node, &query);
        proof {
            assert forall|
                dist: spec_fn(usize) -> u64,
                judge: spec_fn(u64, u64) -> bool,
                keep: spec_fn(usize) -> bool,
            |
                #![trigger answers::measured_by(*distance, dist), answers::judged_by(*within, judge), answers::filtered_by(*predicate, keep)]
                answers::measured_by(*distance, dist) && answers::judged_by(*within, judge)
                    && answers::filtered_by(*predicate, keep) implies top@ == search::found(
                model::query(
                    self@,
                    dist,
                    judge,
                    keep,
                    ef as nat,
                    k as nat,
                    Walk::JumpOver,
                ),
                entry_node,
            ) by {
                assert(query.answered_by(dist, judge, keep));
            }
        }
        top
    }

    /// Filtered search that passes through what the filter rejects: only vectors that satisfy
    /// `predicate` are returned, but the others lead on to their neighbours.
    ///
    /// It suits graphs whose neighbour lists were expanded beforehand.
    fn acorn_gamma_search_filtered<
        F: Fn(usize) -> u64,
        W: Fn(u64, u64) -> bool,
        P: Fn(usize) -> bool,
    >(
        &self,
        entry_node: ScoredItem,
        distance: &F,
        ef: usize,
        k: usize,
        within: &W,
        predicate: &P,
    ) -> (top: TopHeap)
        requires
            self.wf(),
            self@.is_searchable(),
            entry_node.vector < self@.nodes(),
            answers::measures(self@, *distance),
            answers::judges(*within),
            answers::filters(self@, *predicate),
            ef > 0 || k > 0 || exists|
                dist: spec_fn(usize) -> u64,
                judge: spec_fn(u64, u64) -> bool,
                keep: spec_fn(usize) -> bool,
            |
                #![trigger answers::measured_by(*distance, dist), answers::judged_by(*within, judge), answers::filtered_by(*predicate, keep)]
                answers::measured_by(*distance, dist) && answers::judged_by(*within, judge)
                    && answers::filtered_by(*predicate, keep) && search::is_answerable(
                    model::query(self@, dist, judge, keep, ef as nat, k as nat, Walk::PassThrough),
                    entry_node,
                ),
        ensures
            top.wf(),
            forall|dist: spec_fn(usize) -> u64, judge: spec_fn(u64, u64) -> bool, keep: spec_fn(
                usize,
            ) -> bool|
                #![trigger answers::measured_by(*distance, dist), answers::judged_by(*within, judge), answers::filtered_by(*predicate, keep)]
                answers::measured_by(*distance, dist) && answers::judged_by(*within, judge)
                    && answers::filtered_by(*predicate, keep) ==> top@ == search::found(
                    model::query(
                        self@,
                        dist,
                        judge,
                        keep,
                        ef as nat,
                        k as nat,
                        Walk::PassThrough,
                    ),
                    entry_node,
                ),
    {
        let query = Query { distance, within, predicate, ef, k, walk: Walk::PassThrough };
        proof {
            if ef == 0 && k == 0 {
                let (dist, judge, keep) = choose|
                    dist: spec_fn(usize) -> u64,
                    judge: spec_fn(u64, u64) -> bool,
                    keep: spec_fn(usize) -> bool,
                |
                    #![trigger answers::measured_by(*distance, dist), answers::judged_by(*within, judge), answers::filtered_by(*predicate, keep)]
                    answers::measured_by(*distance, dist) && answers::judged_by(*within, judge)
                        && answers::filtered_by(*predicate, keep) && search::is_answerable(
                        model::query(self@, dist, judge, keep, 0, 0, Walk::PassThrough),
                        entry_node,
                    );
                assert(query.answered_by(dist, judge, keep));
            }
        }
        let top = self.walk(entry_node, &query);
        proof {
            assert forall|
                dist: spec_fn(usize) -> u64,
                judge: spec_fn(u64, u64) -> bool,
                keep: spec_fn(usize) -> bool,
            |
                #![trigger answers::measured_by(*distance, dist), answers::judged_by(*within, judge), answers::filtered_by(*predicate, keep)]
                answers::measured_by(*distance, dist) && answers::judged_by(*within, judge)
                    && answers::filtered_by(*predicate, keep) implies top@ == search::found(
                model::query(
                    self@,
                    dist,
                    judge,
                    keep,
                    ef as nat,
                    k as nat,
                    Walk::PassThrough,
                ),
                entry_node,
            ) by {
                assert(query.answered_by(dist, judge, keep));
            }
        }
        top
    }

    /// Looks at node `v`, unless that was done before; tells whether the filter rejects it.
    fn look_at<F: Fn(usize) -> u64, W: Fn(u64, u64) -> bool, P: Fn(usize) -> bool>(
        &self,
        frontier: &mut Frontier,
        v: usize,
        query: &Query<F, W, P>,
    ) -> (rejected: bool)
        requires
            self@.is_searchable(),
            query.suits(self@),
            v < self@.nodes(),
            old(frontier).wf(),
            old(frontier).nodes() == self@.nodes(),
        ensures
            final(frontier).wf(),
            final(frontier).nodes() == self@.nodes(),
            forall|dist: spec_fn(usize) -> u64, judge: spec_fn(u64, u64) -> bool, keep: spec_fn(
                usize,
            ) -> bool| #[trigger]
                query.answered_by(dist, judge, keep) ==> {
                    let s = query.search(self@, dist, judge, keep);
                    &&& final(frontier)@ == search::visit(s, old(frontier)@, v)
                    &&& query.walk == Walk::JumpOver ==> rejected == (!old(
                        frontier,
                    )@.visited.contains(v) && !(s.keep)(v))
                },
    {
        if frontier.was_visited(v) {
            return false;
        }
        frontier.mark(v);
        let external: usize = self.get_external_id(v);
        match query.walk {
            Walk::Plain => {
                let d: u64 = (query.distance)(external);
                frontier.offer(ScoredItem { distance: d, vector: v }, query.ef, query.within);
                false
            },
            Walk::JumpOver => {
                let kept: bool = (query.predicate)(external);
                if kept {
                    let d: u64 = (query.distance)(external);
                    frontier.offer(ScoredItem { distance: d, vector: v }, query.ef, query.within);
                }
                !kept
            },
            Walk::PassThrough => {
                let d: u64 = (query.distance)(external);
                let kept: bool = (query.predicate)(external);
                frontier.offer_through(
                    ScoredItem { distance: d, vector: v },
                    kept,
                    query.ef,
                    query.within,
                );
                false
            },
        }
    }

    /// Looks at the neighbours of node `u`; returns those that the filter rejects.
    fn look_around<F: Fn(usize) -> u64, W: Fn(u64, u64) -> bool, P: Fn(usize) -> bool>(
        &self,
        frontier: &mut Frontier,
        u: usize,
        query: &Query<F, W, P>,
    ) -> (rejected: Vec<usize>)
        requires
            self.wf(),
            self@.is_searchable(),
            query.suits(self@),
            u < self@.nodes(),
            old(frontier).wf(),
            old(frontier).nodes() == self@.nodes(),
        ensures
            final(frontier).wf(),
            final(frontier).nodes() == self@.nodes(),
            forall|i: int| 0 <= i < rejected@.len() ==> #[trigger] rejected@[i] < self@.nodes(),
            forall|dist: spec_fn(usize) -> u64, judge: spec_fn(u64, u64) -> bool, keep: spec_fn(
                usize,
            ) -> bool| #[trigger]
                query.answered_by(dist, judge, keep) ==> {
                    let s = query.search(self@, dist, judge, keep);
                    let list = self@.lists[u as int];
                    &&& final(frontier)@ == search::visit_all(s, old(frontier)@, list)
                    &&& query.walk == Walk::JumpOver ==> rejected@ == search::passed_over(
                        s,
                        old(frontier)@,
                        list,
                    )
                },
    {
        let list = self.neighbors(u);
        let mut rejected: Vec<usize> = Vec::new();
        let ghost first = frontier@;
        for i in 0..list.len()
            invariant
                self@.is_searchable(),
                query.suits(self@),
                u < self@.nodes(),
                list@ == self@.lists[u as int],
                frontier.wf(),
                frontier.nodes() == self@.nodes(),
                forall|j: int| 0 <= j < rejected@.len() ==> #[trigger] rejected@[j] < self@.nodes(),
                forall|
                    dist: spec_fn(usize) -> u64,
                    judge: spec_fn(u64, u64) -> bool,
                    keep: spec_fn(usize) -> bool,
                | #[trigger]
                    query.answered_by(dist, judge, keep) ==> {
                        let s = query.search(self@, dist, judge, keep);
                        let part = list@.take(i as int);
                        &&& frontier@ == search::visit_all(s, first, part)
                        &&& query.walk == Walk::JumpOver ==> rejected@ == search::passed_over(
                            s,
                            first,
                            part,
                        )
                    },
        {
            let v: usize = list[i];
            assert(self@.lists[u as int][i as int] < self@.nodes());
            assert(list@.take(i + 1).drop_last() =~= list@.take(i as int));
            let r: bool = self.look_at(frontier, v, query);
            if r {
                rejected.push(v);
            }
        }
        assert(list@.take(list@.len() as int) =~= list@);
        rejected
    }

    /// The results of a search from `entry_node`.
    fn walk<F: Fn(usize) -> u64, W: Fn(u64, u64) -> bool, P: Fn(usize) -> bool>(
        &self,
        entry_node: ScoredItem,
        query: &Query<F, W, P>,
    ) -> (top: TopHeap)
        requires
            self.wf(),
            self@.is_searchable(),
            query.suits(self@),
            query.is_answerable(self@, entry_node),
            entry_node.vector < self@.nodes(),
        ensures
            top.wf(),
            forall|dist: spec_fn(usize) -> u64, judge: spec_fn(u64, u64) -> bool, keep: spec_fn(
                usize,
            ) -> bool| #[trigger]
                query.answered_by(dist, judge, keep) ==> top@ == search::found(
                    query.search(self@, dist, judge, keep),
                    entry_node,
                ),
    {
        let n: usize = self.n_nodes();
        let enough: usize = query.enough();
        let external: usize = self.get_external_id(entry_node.vector);
        let kept: bool = match query.walk {
            Walk::Plain => true,
            _ => (query.predicate)(external),
        };
        let mut frontier = Frontier::new(n, entry_node, kept);
        let ghost mut fuel: nat = self@.nodes();
        let ghost (dist0, judge0, keep0) = choose|
            dist: spec_fn(usize) -> u64,
            judge: spec_fn(u64, u64) -> bool,
            keep: spec_fn(usize) -> bool,
        | #[trigger]
            query.answered_by(dist, judge, keep) && (enough > 0 || search::is_answerable(
                query.search(self@, dist, judge, keep),
                entry_node,
            ));
        proof {
            let dist = choose|dist: spec_fn(usize) -> u64|
                answers::measured_by(*query.distance, dist);
            let judge = choose|judge: spec_fn(u64, u64) -> bool|
                answers::judged_by(*query.within, judge);
            let keep = choose|keep: spec_fn(usize) -> bool|
                answers::filtered_by(*query.predicate, keep);
            assert(query.answered_by(dist, judge, keep));
        }
        assert(query.answered_by(dist0, judge0, keep0));
        proof {
            assert forall|
                dist: spec_fn(usize) -> u64,
                judge: spec_fn(u64, u64) -> bool,
                keep: spec_fn(usize) -> bool,
            | #[trigger] query.answered_by(dist, judge, keep) implies search_laws::is_on_course(
                query.search(self@, dist, judge, keep),
                entry_node,
                frontier@,
                fuel,
            ) by {
                let s = query.search(self@, dist, judge, keep);
                assert(frontier@ =~= search::start(s, entry_node));
                search_laws::lemma_start(s, entry_node);
            }
            assert(frontier@ =~= search::start(
                query.search(self@, dist0, judge0, keep0),
                entry_node,
            ));
        }
        loop
            invariant_except_break
                forall|
                    dist: spec_fn(usize) -> u64,
                    judge: spec_fn(u64, u64) -> bool,
                    keep: spec_fn(usize) -> bool,
                | #[trigger]
                    query.answered_by(dist, judge, keep) ==> search_laws::is_on_course(
                        query.search(self@, dist, judge, keep),
                        entry_node,
                        frontier@,
                        fuel,
                    ),
                enough > 0 || search::always_judges(
                    query.search(self@, dist0, judge0, keep0),
                    frontier@,
                    fuel,
                ),
            invariant
                self.wf(),
                self@.is_searchable(),
                query.suits(self@),
                query.answered_by(dist0, judge0, keep0),
                enough == if query.ef >= query.k {
                    query.ef
                } else {
                    query.k
                },
                frontier.wf(),
                frontier.nodes() == self@.nodes(),
            ensures
                forall|
                    dist: spec_fn(usize) -> u64,
                    judge: spec_fn(u64, u64) -> bool,
                    keep: spec_fn(usize) -> bool,
                | #[trigger]
                    query.answered_by(dist, judge, keep) ==> frontier@.top == search::found(
                        query.search(self@, dist, judge, keep),
                        entry_node,
                    ),
            decreases fuel,
        {
            let ghost before = frontier@;
            let ghost s0 = query.search(self@, dist0, judge0, keep0);
            assert(search_laws::is_on_course(s0, entry_node, before, fuel));
            let node = match frontier.take_nearest() {
                Some(node) => node,
                None => {
                    break;
                },
            };
            if frontier.halts(node, enough, query.within) {
                break;
            }
            proof {
                search_laws::lemma_on_course_continues(s0, entry_node, before, fuel);
            }
            let rejected = self.look_around(&mut frontier, node.vector, query);
            if query.walk == Walk::JumpOver {
                let ghost direct = frontier@;
                for i in 0..rejected.len()
                    invariant
                        self.wf(),
                        self@.is_searchable(),
                        query.suits(self@),
                        frontier.wf(),
                        frontier.nodes() == self@.nodes(),
                        forall|j: int|
                            0 <= j < rejected@.len() ==> #[trigger] rejected@[j] < self@.nodes(),
                        forall|
                            dist: spec_fn(usize) -> u64,
                            judge: spec_fn(u64, u64) -> bool,
                            keep: spec_fn(usize) -> bool,
                        | #[trigger]
                            query.answered_by(dist, judge, keep) ==> frontier@
                                == search::visit_around(
                                query.search(self@, dist, judge, keep),
                                direct,
                                rejected@.take(i as int),
                            ),
                {
                    assert(rejected@.take(i + 1).drop_last() =~= rejected@.take(i as int));
                    self.look_around(&mut frontier, rejected[i], query);
                }
                assert(rejected@.take(rejected@.len() as int) =~= rejected@);
            }
            proof {
                assert forall|
                    dist: spec_fn(usize) -> u64,
                    judge: spec_fn(u64, u64) -> bool,
                    keep: spec_fn(usize) -> bool,
                | #[trigger] query.answered_by(dist, judge, keep) implies search_laws::is_on_course(
                    query.search(self@, dist, judge, keep),
                    entry_node,
                    frontier@,
                    (fuel - 1) as nat,
                ) by {
                    let s = query.search(self@, dist, judge, keep);
                    assert(search_laws::is_on_course(s, entry_node, before, fuel));
                    search_laws::lemma_on_course_continues(s, entry_node, before, fuel);
                    assert(frontier@ == search::step(s, before));
                }
                assert(frontier@ == search::step(s0, before));
                fuel = (fuel - 1) as nat;
            }
        }
        frontier.into_top()
    }
}

} // verus!
