//! How a node chooses its neighbours, and which nodes link back to it.

use crate::graph::answers;
use crate::graph::graph_trait::GraphTrait;
use crate::graph::growable;
use crate::graph::growable::GrowableGraph;
use crate::graph::slots::NO_ID;
use crate::graph::model;
use crate::graph::model::GraphModel;
use crate::graph::search;
use crate::graph::search::Walk;
use crate::graph::search_laws;
use crate::heap;
use crate::heap::{ScoredItem, TopHeap};
use vstd::multiset::Multiset;
use vstd::prelude::*;

verus! {

/// The distance between two nodes, where `pair` goes by external ids.
pub open spec fn between(
    g: GraphModel,
    pair: spec_fn(usize, usize) -> u64,
    a: usize,
    b: usize,
) -> u64 {
    pair(g.external_id(a), g.external_id(b))
}

/// No node that was kept is nearer to `item` than `item` is to the query.
pub open spec fn stands_apart(
    g: GraphModel,
    pair: spec_fn(usize, usize) -> u64,
    item: ScoredItem,
    kept: Seq<ScoredItem>,
) -> bool {
    forall|i: int|
        0 <= i < kept.len() ==> between(g, pair, item.vector, (#[trigger] kept[i]).vector)
            >= item.distance
}

/// Goes through the items in turn, and keeps those that stand apart from the ones kept before,
/// until `max_size` are kept.
pub open spec fn prune(
    g: GraphModel,
    pair: spec_fn(usize, usize) -> u64,
    items: Seq<ScoredItem>,
    max_size: nat,
) -> Seq<ScoredItem>
    decreases items.len(),
{
    if items.len() == 0 {
        Seq::empty()
    } else {
        let kept = prune(g, pair, items.drop_last(), max_size);
        if kept.len() > 0 && kept.len() >= max_size {
            kept
        } else if stands_apart(g, pair, items.last(), kept) {
            kept.push(items.last())
        } else {
            kept
        }
    }
}

/// The items that are chosen: all of them if there are no more than `max_size`.
pub open spec fn chosen(
    g: GraphModel,
    pair: spec_fn(usize, usize) -> u64,
    items: Seq<ScoredItem>,
    max_size: nat,
) -> Seq<ScoredItem> {
    if items.len() <= max_size {
        items
    } else {
        prune(g, pair, items, max_size)
    }
}

/// The nodes of scored items.
pub open spec fn ids_of(items: Seq<ScoredItem>) -> Seq<usize> {
    items.map_values(|item: ScoredItem| item.vector)
}

/// The nodes of a list with their distances from node `from`.
pub open spec fn scored_from(
    g: GraphModel,
    pair: spec_fn(usize, usize) -> u64,
    from: usize,
    list: Seq<usize>,
) -> Multiset<ScoredItem>
    decreases list.len(),
{
    if list.len() == 0 {
        Multiset::empty()
    } else {
        scored_from(g, pair, from, list.drop_last()).insert(
            ScoredItem {
                distance: between(g, pair, from, list.last()),
                vector: list.last(),
            },
        )
    }
}

/// The neighbours of node `u` once `node` was added to them and the list was pruned.
pub open spec fn linked_back(
    g: GraphModel,
    pair: spec_fn(usize, usize) -> u64,
    u: usize,
    node: usize,
) -> Seq<usize> {
    ids_of(
        chosen(
            g,
            pair,
            heap::sorted_items(scored_from(g, pair, u, g.lists[u as int].push(node))),
            g.max_degree,
        ),
    )
}

/// All items are nodes.
pub open spec fn are_nodes(g: GraphModel, items: Seq<ScoredItem>) -> bool {
    forall|i: int| 0 <= i < items.len() ==> (#[trigger] items[i]).vector < g.nodes()
}

/// Two nodes have external ids, and a distance function can be asked about these.
pub open spec fn is_comparable<F: Fn(usize, usize) -> u64>(
    g: GraphModel,
    distance: F,
    a: usize,
    b: usize,
) -> bool {
    &&& g.has_external_id(a)
    &&& g.has_external_id(b)
    &&& distance.requires((g.external_id(a), g.external_id(b)))
}

/// Every two items can be compared.
pub open spec fn are_comparable<F: Fn(usize, usize) -> u64>(
    g: GraphModel,
    distance: F,
    items: Multiset<ScoredItem>,
) -> bool {
    forall|x: ScoredItem, y: ScoredItem| #[trigger]
        items.count(x) > 0 && #[trigger] items.count(y) > 0 ==> is_comparable(
            g,
            distance,
            x.vector,
            y.vector,
        )
}

/// The positions of the items that `prune` keeps.
pub open spec fn kept_at(
    g: GraphModel,
    pair: spec_fn(usize, usize) -> u64,
    items: Seq<ScoredItem>,
    max_size: nat,
) -> Seq<int>
    decreases items.len(),
{
    if items.len() == 0 {
        Seq::empty()
    } else {
        let front = items.drop_last();
        let kept = prune(g, pair, front, max_size);
        let at = kept_at(g, pair, front, max_size);
        if (kept.len() == 0 || kept.len() < max_size) && stands_apart(g, pair, items.last(), kept) {
            at.push(items.len() - 1)
        } else {
            at
        }
    }
}

/// An item that was kept earlier is nearer to `items[i]` than `items[i]` is to the query.
pub open spec fn is_shadowed(
    g: GraphModel,
    pair: spec_fn(usize, usize) -> u64,
    items: Seq<ScoredItem>,
    at: Seq<int>,
    i: int,
) -> bool {
    exists|k: int|
        0 <= k < at.len() && #[trigger] at[k] < i && between(
            g,
            pair,
            items[i].vector,
            items[at[k]].vector,
        ) < items[i].distance
}

/// What `prune` keeps are items in their order, each standing apart from those before it. The first
/// item is kept. Every other item is nearer to one that was kept before it than to the query, or
/// comes after the last one that was kept, and there are `max_size` of these.
pub proof fn law_pruned_stand_apart(
    g: GraphModel,
    pair: spec_fn(usize, usize) -> u64,
    items: Seq<ScoredItem>,
    max_size: nat,
)
    ensures
        ({
            let kept = prune(g, pair, items, max_size);
            let at = kept_at(g, pair, items, max_size);
            &&& at.len() == kept.len()
            &&& forall|i: int|
                0 <= i < kept.len() ==> 0 <= #[trigger] at[i] < items.len() && kept[i]
                    == items[at[i]]
            &&& forall|i: int, j: int|
                0 <= i < j < at.len() ==> #[trigger] at[i] < #[trigger] at[j]
            &&& forall|i: int| 0 <= i < kept.len() ==> items.contains(#[trigger] kept[i])
            &&& forall|i: int|
                0 <= i < kept.len() ==> stands_apart(g, pair, #[trigger] kept[i], kept.take(i))
            &&& max_size > 0 ==> kept.len() <= max_size
            &&& items.len() > 0 ==> kept.len() > 0 && kept[0] == items[0]
            &&& kept.len() < max_size ==> forall|i: int|
                0 <= i < items.len() ==> at.contains(i) || #[trigger] is_shadowed(
                    g,
                    pair,
                    items,
                    at,
                    i,
                )
            &&& forall|i: int|
                0 <= i < items.len() ==> at.contains(i) || #[trigger] is_shadowed(
                    g,
                    pair,
                    items,
                    at,
                    i,
                ) || (kept.len() > 0 && kept.len() >= max_size && at.last() < i)
        }),
    decreases items.len(),
{
    if items.len() > 0 {
        let front = items.drop_last();
        let before = prune(g, pair, front, max_size);
        let kept = prune(g, pair, items, max_size);
        let at = kept_at(g, pair, items, max_size);
        let earlier = kept_at(g, pair, front, max_size);
        law_pruned_stand_apart(g, pair, front, max_size);
        assert forall|i: int| 0 <= i < kept.len() implies 0 <= #[trigger] at[i] < items.len()
            && kept[i] == items[at[i]] by {
            if i < before.len() {
                assert(0 <= earlier[i] < front.len());
            }
        }
        assert forall|i: int, j: int| 0 <= i < j < at.len() implies #[trigger] at[i]
            < #[trigger] at[j] by {
            assert(earlier[i] < front.len());
            if j < earlier.len() {
                assert(earlier[i] < earlier[j]);
            }
        }
        assert forall|i: int| 0 <= i < kept.len() implies items.contains(#[trigger] kept[i]) by {
            assert(kept[i] == items[at[i]]);
        }
        assert forall|i: int| 0 <= i < kept.len() implies stands_apart(
            g,
            pair,
            #[trigger] kept[i],
            kept.take(i),
        ) by {
            if i < before.len() {
                assert(kept[i] == before[i]);
                assert(kept.take(i) =~= before.take(i));
            } else {
                assert(kept.take(i) =~= before);
            }
        }
        if before.len() > 0 && before.len() >= max_size {
            assert(at == earlier);
            assert forall|i: int| 0 <= i < items.len() && !at.contains(i) implies #[trigger] is_shadowed(
                g,
                pair,
                items,
                at,
                i,
            ) || at.last() < i by {
                if i < front.len() && is_shadowed(g, pair, front, earlier, i) {
                    let k = choose|k: int|
                        0 <= k < earlier.len() && #[trigger] earlier[k] < i && between(
                            g,
                            pair,
                            front[i].vector,
                            front[earlier[k]].vector,
                        ) < front[i].distance;
                    assert(at[k] < i);
                } else if i == front.len() {
                    assert(at[at.len() - 1] < front.len());
                }
            }
        } else {
            assert forall|i: int| 0 <= i < items.len() && !at.contains(i) implies #[trigger] is_shadowed(
                g,
                pair,
                items,
                at,
                i,
            ) by {
                if i < front.len() {
                    if earlier.contains(i) {
                        let k = choose|k: int| 0 <= k < earlier.len() && earlier[k] == i;
                        assert(at[k] == i);
                    }
                    assert(is_shadowed(g, pair, front, earlier, i));
                    let k = choose|k: int|
                        0 <= k < earlier.len() && #[trigger] earlier[k] < i && between(
                            g,
                            pair,
                            front[i].vector,
                            front[earlier[k]].vector,
                        ) < front[i].distance;
                    assert(at[k] < i);
                } else {
                    if stands_apart(g, pair, items.last(), before) {
                        assert(at[at.len() - 1] == i);
                    }
                    let k = choose|k: int|
                        0 <= k < before.len() && !(between(
                            g,
                            pair,
                            items[i].vector,
                            (#[trigger] before[k]).vector,
                        ) >= items[i].distance);
                    assert(before[k] == front[earlier[k]]);
                    assert(at[k] < i);
                }
            }
        }
    }
}

/// What is chosen of the items of a heap: all of them if there are no more than `max_size`.
/// Otherwise at most `max_size` of them, the nearest among them, each standing apart from the ones
/// chosen before it, which are no farther from the query; and where fewer than `max_size` are
/// chosen, every other item has one that was chosen and that is no farther from the query, and
/// nearer to the item than the query is.
pub proof fn law_chosen_cover(
    g: GraphModel,
    pair: spec_fn(usize, usize) -> u64,
    m: Multiset<ScoredItem>,
    max_size: nat,
)
    requires
        max_size > 0,
    ensures
        ({
            let kept = chosen(g, pair, heap::sorted_items(m), max_size);
            &&& m.len() <= max_size ==> kept.to_multiset() == m
            &&& kept.len() <= max_size
            &&& m.len() > 0 ==> kept.len() > 0 && kept[0] == heap::nearest(m)
            &&& heap::items_sorted(kept)
            &&& forall|i: int| 0 <= i < kept.len() ==> m.count(#[trigger] kept[i]) > 0
            &&& m.len() > max_size ==> forall|i: int|
                0 <= i < kept.len() ==> stands_apart(g, pair, #[trigger] kept[i], kept.take(i))
            &&& kept.len() < max_size ==> forall|c: ScoredItem| #[trigger]
                m.count(c) > 0 ==> kept.contains(c) || exists|k: int|
                    0 <= k < kept.len() && (#[trigger] kept[k]).distance <= c.distance && between(
                        g,
                        pair,
                        c.vector,
                        kept[k].vector,
                    ) < c.distance
        }),
{
    let items = heap::sorted_items(m);
    let kept = chosen(g, pair, items, max_size);
    let at = kept_at(g, pair, items, max_size);
    heap::lemma_sorted_items_exist(m);
    items.to_multiset_ensures();
    law_pruned_stand_apart(g, pair, items, max_size);
    if m.len() > 0 {
        heap::lemma_sorted_first(m);
    }
    assert forall|i: int| 0 <= i < kept.len() implies m.count(#[trigger] kept[i]) > 0 by {
        assert(items.contains(kept[i]));
    }
    if items.len() > max_size {
        assert forall|i: int, j: int| 0 <= i < j < kept.len() implies heap::item_le(
            #[trigger] kept[i],
            #[trigger] kept[j],
        ) by {
            assert(at[i] < at[j]);
            assert(kept[i] == items[at[i]] && kept[j] == items[at[j]]);
        }
    }
    if kept.len() < max_size {
        assert forall|c: ScoredItem| #[trigger]
            m.count(c) > 0 && !kept.contains(c) implies exists|k: int|
            0 <= k < kept.len() && (#[trigger] kept[k]).distance <= c.distance && between(
                g,
                pair,
                c.vector,
                kept[k].vector,
            ) < c.distance by {
            assert(items.contains(c));
            let i = choose|i: int| 0 <= i < items.len() && items[i] == c;
            if at.contains(i) {
                let k = choose|k: int| 0 <= k < at.len() && at[k] == i;
                assert(kept[k] == items[at[k]]);
            }
            assert(is_shadowed(g, pair, items, at, i));
            let k = choose|k: int|
                0 <= k < at.len() && #[trigger] at[k] < i && between(
                    g,
                    pair,
                    items[i].vector,
                    items[at[k]].vector,
                ) < items[i].distance;
            assert(kept[k] == items[at[k]]);
            assert(heap::item_le(items[at[k]], items[i]));
        }
    }
}

/// The nodes that are chosen are among the items; there are at most `max_size` of them, and the
/// first of the items is one.
pub proof fn law_chosen_bounded(
    g: GraphModel,
    pair: spec_fn(usize, usize) -> u64,
    items: Seq<ScoredItem>,
    max_size: nat,
)
    ensures
        ({
            let kept = chosen(g, pair, items, max_size);
            &&& forall|i: int| 0 <= i < kept.len() ==> items.contains(#[trigger] kept[i])
            &&& max_size > 0 ==> kept.len() <= max_size
            &&& items.len() > 0 ==> kept.len() > 0 && kept[0] == items[0]
        }),
{
    law_pruned_stand_apart(g, pair, items, max_size);
}

proof fn lemma_prune_prefix(
    g: GraphModel,
    pair: spec_fn(usize, usize) -> u64,
    items: Seq<ScoredItem>,
    max_size: nat,
    n: int,
)
    requires
        0 <= n <= items.len(),
        prune(g, pair, items.take(n), max_size).len() > 0,
        prune(g, pair, items.take(n), max_size).len() >= max_size,
    ensures
        prune(g, pair, items, max_size) == prune(g, pair, items.take(n), max_size),
    decreases items.len(),
{
    if n < items.len() {
        assert(items.drop_last().take(n) =~= items.take(n));
        lemma_prune_prefix(g, pair, items.drop_last(), max_size, n);
    } else {
        assert(items.take(n) =~= items);
    }
}

proof fn lemma_scored_from_nodes(
    g: GraphModel,
    pair: spec_fn(usize, usize) -> u64,
    from: usize,
    list: Seq<usize>,
)
    requires
        forall|i: int| 0 <= i < list.len() ==> #[trigger] list[i] < g.nodes(),
    ensures
        are_nodes(g, heap::sorted_items(scored_from(g, pair, from, list))),
{
    lemma_scored_from_members(g, pair, from, list);
    lemma_sorted_are_nodes(g, scored_from(g, pair, from, list));
}

proof fn lemma_scored_from_members(
    g: GraphModel,
    pair: spec_fn(usize, usize) -> u64,
    from: usize,
    list: Seq<usize>,
)
    requires
        forall|i: int| 0 <= i < list.len() ==> #[trigger] list[i] < g.nodes(),
    ensures
        forall|x: ScoredItem| #[trigger]
            scored_from(g, pair, from, list).count(x) > 0 ==> x.vector < g.nodes(),
    decreases list.len(),
{
    broadcast use vstd::multiset::group_multiset_axioms;

    if list.len() > 0 {
        let front = list.drop_last();
        assert forall|i: int| 0 <= i < front.len() implies #[trigger] front[i] < g.nodes() by {
            assert(list[i] < g.nodes());
        }
        lemma_scored_from_members(g, pair, from, front);
        assert(list[list.len() - 1] < g.nodes());
        let earlier = scored_from(g, pair, from, front);
        let item = ScoredItem {
            distance: between(g, pair, from, list.last()),
            vector: list.last(),
        };
        assert forall|x: ScoredItem| #[trigger]
            scored_from(g, pair, from, list).count(x) > 0 implies x.vector < g.nodes() by {
            assert(scored_from(g, pair, from, list) == earlier.insert(item));
            if x != item {
                assert(earlier.count(x) > 0);
            }
        }
    }
}

impl GrowableGraph {
    /// Chooses neighbours among sorted items.
    fn choose_neighbors<F: Fn(usize, usize) -> u64>(
        &self,
        items: &Vec<ScoredItem>,
        distance: &F,
        max_size: usize,
    ) -> (ids: Vec<usize>)
        requires
            items@.len() > max_size ==> are_comparable(self@, *distance, items@.to_multiset()),
        ensures
            forall|pair: spec_fn(usize, usize) -> u64| #[trigger]
                answers::paired_by(*distance, pair) ==> ids@ == ids_of(
                    chosen(self@, pair, items@, max_size as nat),
                ),
    {
        let mut ids: Vec<usize> = Vec::new();
        if items.len() <= max_size {
            for i in 0..items.len()
                invariant
                    ids@ == ids_of(items@).take(i as int),
            {
                ids.push(items[i].vector);
                assert(ids@ =~= ids_of(items@).take(i + 1));
            }
            assert(ids@ =~= ids_of(items@));
            return ids;
        }
        let ghost mut kept: Seq<ScoredItem> = Seq::empty();
        let ghost all = items@.to_multiset();
        proof {
            items@.to_multiset_ensures();
            assert forall|i: int| 0 <= i < items@.len() implies all.count(#[trigger] items@[i])
                > 0 by {
                assert(items@.contains(items@[i]));
            }
        }
        assert(ids@ =~= ids_of(kept));
        for i in 0..items.len()
            invariant
                are_comparable(self@, *distance, all),
                forall|j: int|
                    0 <= j < items@.len() ==> all.count(#[trigger] items@[j]) > 0,
                items@.len() > max_size,
                ids@ == ids_of(kept),
                forall|j: int| 0 <= j < kept.len() ==> all.count(#[trigger] kept[j]) > 0,
                kept.len() == 0 || kept.len() < max_size,
                forall|pair: spec_fn(usize, usize) -> u64| #[trigger]
                    answers::paired_by(*distance, pair) ==> kept == prune(
                        self@,
                        pair,
                        items@.take(i as int),
                        max_size as nat,
                    ),
        {
            let item = items[i];
            let mut keep = true;
            let mut j: usize = 0;
            while keep && j < ids.len()
                invariant
                    are_comparable(self@, *distance, all),
                    forall|x: int| 0 <= x < kept.len() ==> all.count(#[trigger] kept[x]) > 0,
                    all.count(item) > 0,
                    ids@ == ids_of(kept),
                    j <= ids@.len(),
                    forall|pair: spec_fn(usize, usize) -> u64| #[trigger]
                        answers::paired_by(*distance, pair) ==> {
                            if keep {
                                stands_apart(self@, pair, item, kept.take(j as int))
                            } else {
                                !stands_apart(self@, pair, item, kept)
                            }
                        },
                decreases ids@.len() - j,
            {
                assert(ids@[j as int] == kept[j as int].vector);
                assert(all.count(kept[j as int]) > 0);
                assert(is_comparable(self@, *distance, item.vector, kept[j as int].vector));
                let other: usize = ids[j];
                let a: usize = self.get_external_id(item.vector);
                let b: usize = self.get_external_id(other);
                let d: u64 = distance(a, b);
                if d < item.distance {
                    keep = false;
                    assert forall|pair: spec_fn(usize, usize) -> u64| #[trigger]
                        answers::paired_by(*distance, pair) implies !stands_apart(
                        self@,
                        pair,
                        item,
                        kept,
                    ) by {
                        assert(between(self@, pair, item.vector, kept[j as int].vector)
                            < item.distance);
                    }
                } else {
                    assert forall|pair: spec_fn(usize, usize) -> u64| #[trigger]
                        answers::paired_by(*distance, pair) implies stands_apart(
                        self@,
                        pair,
                        item,
                        kept.take(j + 1),
                    ) by {
                        let longer = kept.take(j + 1);
                        assert forall|x: int| 0 <= x < longer.len() implies between(
                            self@,
                            pair,
                            item.vector,
                            (#[trigger] longer[x]).vector,
                        ) >= item.distance by {
                            if x < j {
                                assert(kept.take(j as int)[x] == longer[x]);
                            }
                        }
                    }
                }
                j = j + 1;
            }
            proof {
                if keep {
                    assert(kept.take(kept.len() as int) =~= kept);
                }
                assert(items@.take(i + 1).drop_last() =~= items@.take(i as int));
            }
            if keep {
                ids.push(item.vector);
                proof {
                    kept = kept.push(item);
                    assert(ids@ =~= ids_of(kept));
                }
                if ids.len() >= max_size {
                    proof {
                        assert forall|pair: spec_fn(usize, usize) -> u64| #[trigger]
                            answers::paired_by(*distance, pair) implies ids@ == ids_of(
                            chosen(self@, pair, items@, max_size as nat),
                        ) by {
                            lemma_prune_prefix(self@, pair, items@, max_size as nat, i + 1);
                        }
                    }
                    return ids;
                }
            }
        }
        assert(items@.take(items@.len() as int) =~= items@);
        ids
    }

    /// Chooses at most `max_size` neighbours among the items of a heap, nearest first.
    ///
    /// Where there are more, an item is passed over if it is nearer to one that was chosen than to
    /// the query.
    pub fn shrink_neighbor_list<F: Fn(usize, usize) -> u64>(
        &self,
        distance: &F,
        closest_vectors: TopHeap,
        max_size: usize,
    ) -> (ids: Vec<usize>)
        requires
            closest_vectors.wf(),
            closest_vectors@.len() > max_size ==> are_comparable(
                self@,
                *distance,
                closest_vectors@,
            ),
        ensures
            forall|pair: spec_fn(usize, usize) -> u64| #[trigger]
                answers::paired_by(*distance, pair) ==> ids@ == ids_of(
                    chosen(
                        self@,
                        pair,
                        heap::sorted_items(closest_vectors@),
                        max_size as nat,
                    ),
                ),
    {
        proof {
            heap::lemma_sorted_items_exist(closest_vectors@);
            heap::sorted_items(closest_vectors@).to_multiset_ensures();
        }
        let items = closest_vectors.into_sorted_vec();
        self.choose_neighbors(&items, distance, max_size)
    }

    /// For each node that `node_to_insert_local_id` links to, the list it gets when the link is
    /// returned.
    pub fn precompute_reverse_links<F: Fn(usize, usize) -> u64>(
        &self,
        distance: &F,
        node_to_insert_local_id: usize,
        forward_neighbors: &[usize],
    ) -> (links: Vec<(usize, Vec<usize>)>)
        requires
            self.wf(),
            self@.is_searchable(),
            answers::compares(self@, *distance),
            node_to_insert_local_id < self@.nodes(),
            forall|i: int|
                0 <= i < forward_neighbors@.len() ==> #[trigger] forward_neighbors@[i]
                    < self@.nodes(),
        ensures
            links@.len() == forward_neighbors@.len(),
            forall|i: int|
                0 <= i < links@.len() ==> (#[trigger] links@[i]).0 == forward_neighbors@[i],
            forall|pair: spec_fn(usize, usize) -> u64, i: int|
                #![trigger answers::paired_by(*distance, pair), links@[i]]
                answers::paired_by(*distance, pair) && 0 <= i < links@.len() ==> links@[i].1@
                    == linked_back(self@, pair, forward_neighbors@[i], node_to_insert_local_id),
    {
        let mut links: Vec<(usize, Vec<usize>)> = Vec::new();
        for i in 0..forward_neighbors.len()
            invariant
                self.wf(),
                self@.is_searchable(),
                answers::compares(self@, *distance),
                node_to_insert_local_id < self@.nodes(),
                forall|j: int|
                    0 <= j < forward_neighbors@.len() ==> #[trigger] forward_neighbors@[j]
                        < self@.nodes(),
                links@.len() == i,
                forall|j: int|
                    0 <= j < links@.len() ==> (#[trigger] links@[j]).0 == forward_neighbors@[j],
                forall|pair: spec_fn(usize, usize) -> u64, j: int|
                    #![trigger answers::paired_by(*distance, pair), links@[j]]
                    answers::paired_by(*distance, pair) && 0 <= j < links@.len() ==> links@[j].1@
                        == linked_back(
                        self@,
                        pair,
                        forward_neighbors@[j],
                        node_to_insert_local_id,
                    ),
        {
            let u: usize = forward_neighbors[i];
            assert(forward_neighbors@[i as int] < self@.nodes());
            let from: usize = self.get_external_id(u);
            let mut list = self.neighbors(u);
            list.push(node_to_insert_local_id);
            assert forall|j: int| 0 <= j < list@.len() implies #[trigger] list@[j]
                < self@.nodes() by {
                if j < list@.len() - 1 {
                    assert(self@.lists[u as int][j] < self@.nodes());
                }
            }
            let mut closest: TopHeap = TopHeap::new();
            for j in 0..list.len()
                invariant
                    self@.is_searchable(),
                    answers::compares(self@, *distance),
                    u < self@.nodes(),
                    from == self@.external_id(u),
                    forall|x: int| 0 <= x < list@.len() ==> #[trigger] list@[x] < self@.nodes(),
                    closest.wf(),
                    forall|pair: spec_fn(usize, usize) -> u64| #[trigger]
                        answers::paired_by(*distance, pair) ==> closest@ == scored_from(
                            self@,
                            pair,
                            u,
                            list@.take(j as int),
                        ),
            {
                let v: usize = list[j];
                let to: usize = self.get_external_id(v);
                let d: u64 = distance(from, to);
                assert(list@.take(j + 1).drop_last() =~= list@.take(j as int));
                closest.push(ScoredItem { distance: d, vector: v });
            }
            proof {
                assert(list@.take(list@.len() as int) =~= list@);
                assert(list@ =~= self@.lists[u as int].push(node_to_insert_local_id));
                let pair0 = choose|pair: spec_fn(usize, usize) -> u64|
                    answers::paired_by(*distance, pair);
                assert(answers::paired_by(*distance, pair0));
                lemma_scored_from_members(self@, pair0, u, list@);
                lemma_nodes_are_comparable(self@, *distance, closest@);
            }
            let max_degree: usize = self.max_degree();
            let shrunk = self.shrink_neighbor_list(distance, closest, max_degree);
            links.push((u, shrunk));
        }
        links
    }

    /// Finds the neighbours of a node to be inserted and chooses among them; finds the lists of the
    /// nodes that link back to it; and returns the nearest node found, from which the search on the
    /// next lower level starts.
    pub fn find_and_prune_neighbors<F: Fn(usize) -> u64, P: Fn(usize, usize) -> u64>(
        &self,
        distance: &F,
        pair_distance: &P,
        entry_node: ScoredItem,
        ef_construction: usize,
        m: usize,
        future_local_id: usize,
    ) -> (r: (Vec<usize>, Vec<(usize, Vec<usize>)>, ScoredItem))
        requires
            self.wf(),
            self@.is_searchable(),
            entry_node.vector < self@.nodes(),
            future_local_id < self@.nodes(),
            answers::measures(self@, *distance),
            answers::compares(self@, *pair_distance),
            ef_construction > 0 || exists|dist: spec_fn(usize) -> u64| #[trigger]
                answers::measured_by(*distance, dist) && {
                    let s = model::query(
                        self@,
                        dist,
                        model::no_relaxation(),
                        model::no_filter(),
                        ef_construction as nat,
                        0,
                        Walk::Plain,
                    );
                    search::is_answerable(s, entry_node) && search::found(s, entry_node).len() > 0
                },
        ensures
            forall|dist: spec_fn(usize) -> u64, pair: spec_fn(usize, usize) -> u64|
                #![trigger answers::measured_by(*distance, dist), answers::paired_by(*pair_distance, pair)]
                answers::measured_by(*distance, dist) && answers::paired_by(*pair_distance, pair)
                    ==> {
                    let found = search::found(
                        model::query(
                            self@,
                            dist,
                            model::no_relaxation(),
                            model::no_filter(),
                            ef_construction as nat,
                            0,
                            Walk::Plain,
                        ),
                        entry_node,
                    );
                    &&& r.0@ == ids_of(
                        chosen(self@, pair, heap::sorted_items(found), m as nat),
                    )
                    &&& r.2 == heap::nearest(found)
                    &&& r.1@.len() == r.0@.len()
                    &&& forall|i: int|
                        0 <= i < r.1@.len() ==> (#[trigger] r.1@[i]).0 == r.0@[i] && r.1@[i].1@
                            == linked_back(self@, pair, r.0@[i], future_local_id)
                },
    {
        let top = self.search_candidates_for_insert(entry_node, distance, ef_construction);
        let ghost found = top@;
        let ghost dist0 = choose|dist: spec_fn(usize) -> u64|
            answers::measured_by(*distance, dist);
        let ghost pair0 = choose|pair: spec_fn(usize, usize) -> u64|
            answers::paired_by(*pair_distance, pair);
        let ghost s0 = model::query(
            self@,
            dist0,
            model::no_relaxation(),
            model::no_filter(),
            ef_construction as nat,
            0,
            Walk::Plain,
        );
        proof {
            assert(answers::measured_by(*distance, dist0));
            assert(answers::paired_by(*pair_distance, pair0));
            assert(found == search::found(s0, entry_node));
            if ef_construction > 0 {
                search_laws::law_plain_search_finds_something(s0, entry_node);
            }
            search_laws::law_results_are_nodes(s0, entry_node);
            heap::lemma_sorted_first(found);
            heap::lemma_sorted_items_exist(found);
            lemma_sorted_are_nodes(self@, found);
            lemma_nodes_are_comparable(self@, *pair_distance, found);
        }
        let items = top.into_sorted_vec();
        let nearest = items[0];
        let forward = self.choose_neighbors(&items, pair_distance, m);
        proof {
            let kept = chosen(self@, pair0, items@, m as nat);
            law_chosen_bounded(self@, pair0, items@, m as nat);
            assert forall|i: int| 0 <= i < forward@.len() implies #[trigger] forward@[i]
                < self@.nodes() by {
                assert(items@.contains(kept[i]));
            }
        }
        let links = self.precompute_reverse_links(
            pair_distance,
            future_local_id,
            forward.as_slice(),
        );
        (forward, links, nearest)
    }
}

/// Nodes can be compared where the distance function takes all nodes.
proof fn lemma_nodes_are_comparable<F: Fn(usize, usize) -> u64>(
    g: GraphModel,
    distance: F,
    items: Multiset<ScoredItem>,
)
    requires
        g.is_searchable(),
        answers::compares(g, distance),
        forall|x: ScoredItem| #[trigger] items.count(x) > 0 ==> x.vector < g.nodes(),
    ensures
        are_comparable(g, distance, items),
{
    assert forall|x: ScoredItem, y: ScoredItem| #[trigger]
        items.count(x) > 0 && #[trigger] items.count(y) > 0 implies is_comparable(
        g,
        distance,
        x.vector,
        y.vector,
    ) by {
        assert(distance.requires((g.external_id(x.vector), g.external_id(y.vector))));
    }
}

proof fn lemma_sorted_are_nodes(g: GraphModel, m: Multiset<ScoredItem>)
    requires
        forall|x: ScoredItem| #[trigger] m.count(x) > 0 ==> x.vector < g.nodes(),
    ensures
        are_nodes(g, heap::sorted_items(m)),
{
    heap::lemma_sorted_items_exist(m);
    let items = heap::sorted_items(m);
    items.to_multiset_ensures();
    assert forall|i: int| 0 <= i < items.len() implies (#[trigger] items[i]).vector < g.nodes() by {
        assert(items.contains(items[i]));
        assert(m.count(items[i]) > 0);
    }
}

/// What is chosen for a node, and for the nodes that link back to it, fits into the rows of the
/// graph.
pub proof fn law_links_fit(
    g: GraphModel,
    pair: spec_fn(usize, usize) -> u64,
    items: Seq<ScoredItem>,
    m: nat,
    u: usize,
    node: usize,
)
    requires
        g.is_searchable(),
        g.nodes() <= NO_ID,
        0 < m <= g.max_degree,
        are_nodes(g, items),
        u < g.nodes(),
        node < g.nodes(),
    ensures
        growable::fit_in_row(ids_of(chosen(g, pair, items, m)), g.max_degree),
        growable::fit_in_row(linked_back(g, pair, u, node), g.max_degree),
{
    lemma_chosen_fit(g, pair, items, m);
    let list = g.lists[u as int].push(node);
    assert forall|i: int| 0 <= i < list.len() implies #[trigger] list[i] < g.nodes() by {
        if i < list.len() - 1 {
            assert(g.lists[u as int][i] < g.nodes());
        }
    }
    lemma_scored_from_nodes(g, pair, u, list);
    lemma_chosen_fit(g, pair, heap::sorted_items(scored_from(g, pair, u, list)), g.max_degree);
}

proof fn lemma_chosen_fit(
    g: GraphModel,
    pair: spec_fn(usize, usize) -> u64,
    items: Seq<ScoredItem>,
    m: nat,
)
    requires
        g.nodes() <= NO_ID,
        0 < m <= g.max_degree,
        are_nodes(g, items),
    ensures
        growable::fit_in_row(ids_of(chosen(g, pair, items, m)), g.max_degree),
{
    law_chosen_bounded(g, pair, items, m);
    let kept = chosen(g, pair, items, m);
    let ids = ids_of(kept);
    assert forall|i: int| 0 <= i < ids.len() implies #[trigger] ids[i] < NO_ID by {
        assert(items.contains(kept[i]));
    }
}

/// Item `a` is nearer to item `c` than the query is.
pub open spec fn hides(
    g: GraphModel,
    pair: spec_fn(usize, usize) -> u64,
    a: ScoredItem,
    c: ScoredItem,
) -> bool {
    pair(g.external_id(c.vector), g.external_id(a.vector)) < c.distance
}

/// `kept` holds the items at the positions `at`: they are taken in turn, an item is taken exactly if
/// none that was taken before hides it, and this goes on until `max_size` are taken.
pub open spec fn are_taken_in_turn(
    g: GraphModel,
    pair: spec_fn(usize, usize) -> u64,
    items: Seq<ScoredItem>,
    max_size: nat,
    kept: Seq<ScoredItem>,
    at: Seq<int>,
) -> bool {
    &&& at.len() == kept.len()
    &&& forall|k: int|
        0 <= k < at.len() ==> 0 <= #[trigger] at[k] < items.len() && kept[k] == items[at[k]]
    &&& forall|j: int, k: int| 0 <= j < k < at.len() ==> #[trigger] at[j] < #[trigger] at[k]
    &&& forall|j: int, k: int|
        0 <= j < k < kept.len() ==> !hides(g, pair, #[trigger] kept[j], #[trigger] kept[k])
    &&& kept.len() > 1 ==> kept.len() <= max_size
    &&& forall|i: int| #[trigger]
        is_position(items, i) ==> at.contains(i) || (exists|k: int|
            0 <= k < at.len() && #[trigger] at[k] < i && hides(g, pair, kept[k], items[i])) || (
        kept.len() > 0 && kept.len() >= max_size && at.last() < i)
}

/// There is an item at position `i`.
pub open spec fn is_position(items: Seq<ScoredItem>, i: int) -> bool {
    0 <= i < items.len()
}

/// Where there are more items than `max_size`, those that are chosen are taken in turn, nearest
/// first: an item is left out only because an item taken before it is nearer to it than the query,
/// or because the list was full before it came to it.
pub proof fn law_chosen_are_taken_in_turn(
    g: GraphModel,
    pair: spec_fn(usize, usize) -> u64,
    m: Multiset<ScoredItem>,
    max_size: nat,
)
    ensures
        heap::items_sorted(heap::sorted_items(m)),
        heap::sorted_items(m).to_multiset() == m,
        m.len() <= max_size ==> chosen(g, pair, heap::sorted_items(m), max_size)
            == heap::sorted_items(m),
        m.len() > max_size ==> exists|at: Seq<int>| #[trigger]
            are_taken_in_turn(
                g,
                pair,
                heap::sorted_items(m),
                max_size,
                chosen(g, pair, heap::sorted_items(m), max_size),
                at,
            ),
{
    let items = heap::sorted_items(m);
    heap::lemma_sorted_items_exist(m);
    items.to_multiset_ensures();
    if m.len() > max_size {
        lemma_chosen_in_turn(g, pair, items, max_size);
    }
}

proof fn lemma_chosen_in_turn(
    g: GraphModel,
    pair: spec_fn(usize, usize) -> u64,
    items: Seq<ScoredItem>,
    max_size: nat,
)
    requires
        items.len() > max_size,
    ensures
        are_taken_in_turn(
            g,
            pair,
            items,
            max_size,
            chosen(g, pair, items, max_size),
            kept_at(g, pair, items, max_size),
        ),
{
    let kept = chosen(g, pair, items, max_size);
    let at = kept_at(g, pair, items, max_size);
    law_pruned_stand_apart(g, pair, items, max_size);
    lemma_prune_stays_small(g, pair, items, max_size);
    assert forall|j: int, k: int| 0 <= j < k < kept.len() implies !hides(
        g,
        pair,
        #[trigger] kept[j],
        #[trigger] kept[k],
    ) by {
        assert(stands_apart(g, pair, kept[k], kept.take(k)));
        assert(kept.take(k)[j] == kept[j]);
    }
    assert forall|i: int| #[trigger] is_position(items, i) implies at.contains(i) || (exists|k: int|
        0 <= k < at.len() && #[trigger] at[k] < i && hides(g, pair, kept[k], items[i])) || (
    kept.len() > 0 && kept.len() >= max_size && at.last() < i) by {
        if is_shadowed(g, pair, items, at, i) {
            let k = choose|k: int|
                0 <= k < at.len() && #[trigger] at[k] < i && between(
                    g,
                    pair,
                    items[i].vector,
                    items[at[k]].vector,
                ) < items[i].distance;
            assert(hides(g, pair, kept[k], items[i]));
        }
    }
}

proof fn lemma_prune_stays_small(
    g: GraphModel,
    pair: spec_fn(usize, usize) -> u64,
    items: Seq<ScoredItem>,
    max_size: nat,
)
    ensures
        prune(g, pair, items, max_size).len() > 1 ==> prune(g, pair, items, max_size).len()
            <= max_size,
    decreases items.len(),
{
    if items.len() > 0 {
        lemma_prune_stays_small(g, pair, items.drop_last(), max_size);
    }
}

/// Node `v` with its distance from node `u`.
pub open spec fn seen_from(
    g: GraphModel,
    pair: spec_fn(usize, usize) -> u64,
    u: usize,
    v: usize,
) -> ScoredItem {
    ScoredItem { distance: pair(g.external_id(u), g.external_id(v)), vector: v }
}

/// The nodes of a list as they are seen from node `u`.
spec fn all_seen_from(
    g: GraphModel,
    pair: spec_fn(usize, usize) -> u64,
    u: usize,
    list: Seq<usize>,
) -> Seq<ScoredItem> {
    list.map_values(|v: usize| seen_from(g, pair, u, v))
}

proof fn lemma_scored_from_is_list(
    g: GraphModel,
    pair: spec_fn(usize, usize) -> u64,
    u: usize,
    list: Seq<usize>,
)
    ensures
        scored_from(g, pair, u, list) == all_seen_from(g, pair, u, list).to_multiset(),
    decreases list.len(),
{
    broadcast use vstd::multiset::group_multiset_axioms;

    let all = all_seen_from(g, pair, u, list);
    all.to_multiset_ensures();
    if list.len() > 0 {
        let front = list.drop_last();
        lemma_scored_from_is_list(g, pair, u, front);
        let before = all_seen_from(g, pair, u, front);
        before.to_multiset_ensures();
        assert(all =~= before.push(all.last()));
    } else {
        assert(scored_from(g, pair, u, list) =~= all.to_multiset());
    }
}

/// The nodes of items are the same whatever order the items stand in.
proof fn lemma_ids_of_same_items(a: Seq<ScoredItem>, b: Seq<ScoredItem>)
    requires
        a.to_multiset() == b.to_multiset(),
    ensures
        ids_of(a).to_multiset() == ids_of(b).to_multiset(),
    decreases a.len(),
{
    broadcast use vstd::multiset::group_multiset_axioms;

    a.to_multiset_ensures();
    b.to_multiset_ensures();
    assert(a.len() == b.len());
    if a.len() > 0 {
        let x = a.last();
        let front = a.drop_last();
        assert(a.contains(x)) by {
            assert(a[a.len() - 1] == x);
        }
        assert(b.to_multiset().count(x) > 0);
        assert(b.contains(x));
        let i = choose|i: int| 0 <= i < b.len() && b[i] == x;
        let rest = b.remove(i);
        front.to_multiset_ensures();
        rest.to_multiset_ensures();
        assert(a =~= front.push(x));
        assert(b.to_multiset() == rest.to_multiset().insert(x)) by {
            assert(rest.to_multiset() =~= b.to_multiset().remove(x));
        }
        assert(front.to_multiset() =~= rest.to_multiset());
        lemma_ids_of_same_items(front, rest);
        let ids_a = ids_of(front);
        let ids_b = ids_of(rest);
        ids_a.to_multiset_ensures();
        ids_b.to_multiset_ensures();
        ids_of(b).to_multiset_ensures();
        assert(ids_of(a) =~= ids_a.push(x.vector));
        assert(ids_of(b).remove(i) =~= ids_b);
        assert(ids_of(b)[i] == x.vector);
        assert(ids_of(b).to_multiset() =~= ids_b.to_multiset().insert(x.vector));
    } else {
        assert(ids_of(a) =~= ids_of(b));
    }
}

/// The list that node `u` gets when `node` is linked back to it is made of its old neighbours and
/// `node`, nearest first. It is all of them where there is room. Otherwise no node of the list is
/// nearer to a later one than `u` is; and a node is left out only if a node of the list, no farther
/// from `u` than it, is nearer to it than `u` is, or if the list is full of nodes that come before
/// it. So a new node that comes before all old neighbours is in the list.
pub proof fn law_links_back_keep_the_nearest(
    g: GraphModel,
    pair: spec_fn(usize, usize) -> u64,
    u: usize,
    node: usize,
)
    ensures
        ({
            let old_list = g.lists[u as int];
            let all = old_list.push(node);
            let list = linked_back(g, pair, u, node);
            let seen = |v: usize| seen_from(g, pair, u, v);
            &&& all.len() <= g.max_degree ==> list.to_multiset() == all.to_multiset()
            &&& g.max_degree > 0 ==> 0 < list.len() <= g.max_degree
            &&& forall|i: int, j: int|
                0 <= i < j < list.len() ==> heap::item_le(
                    seen(#[trigger] list[i]),
                    seen(#[trigger] list[j]),
                )
            &&& forall|i: int| 0 <= i < list.len() ==> all.contains(#[trigger] list[i])
            &&& all.len() > g.max_degree ==> forall|i: int, j: int|
                0 <= i < j < list.len() ==> !hides(
                    g,
                    pair,
                    seen(#[trigger] list[i]),
                    seen(#[trigger] list[j]),
                )
            &&& forall|v: usize| #[trigger]
                all.contains(v) ==> list.contains(v) || is_hidden_in(g, pair, u, list, v) || (
                list.len() >= g.max_degree && forall|i: int|
                    0 <= i < list.len() ==> heap::item_le(seen(#[trigger] list[i]), seen(v)))
            &&& (forall|i: int|
                0 <= i < old_list.len() ==> heap::item_le(seen(node), seen(#[trigger] old_list[i])))
                ==> list[0] == node
        }),
{
    let old_list = g.lists[u as int];
    let all = old_list.push(node);
    let list = linked_back(g, pair, u, node);
    let scored = all_seen_from(g, pair, u, all);
    let m = scored_from(g, pair, u, all);
    lemma_scored_from_is_list(g, pair, u, all);
    law_chosen_are_taken_in_turn(g, pair, m, g.max_degree);
    law_chosen_bounded(g, pair, heap::sorted_items(m), g.max_degree);
    let items = heap::sorted_items(m);
    let kept = chosen(g, pair, items, g.max_degree);
    scored.to_multiset_ensures();
    items.to_multiset_ensures();
    assert(items.len() == all.len());
    assert forall|x: ScoredItem| #[trigger] items.contains(x) <==> scored.contains(x) by {
        assert(items.contains(x) <==> items.to_multiset().count(x) > 0);
        assert(scored.contains(x) <==> scored.to_multiset().count(x) > 0);
    }
    assert forall|i: int| 0 <= i < items.len() implies (#[trigger] items[i]) == seen_from(
        g,
        pair,
        u,
        items[i].vector,
    ) && all.contains(items[i].vector) by {
        assert(items.contains(items[i]));
        let j = choose|j: int| 0 <= j < scored.len() && scored[j] == items[i];
        assert(all[j] == items[i].vector);
    }
    assert forall|v: usize| #[trigger] all.contains(v) implies items.contains(
        seen_from(g, pair, u, v),
    ) by {
        let j = choose|j: int| 0 <= j < all.len() && all[j] == v;
        assert(scored[j] == seen_from(g, pair, u, v));
        assert(scored.contains(scored[j]));
    }
    if all.len() <= g.max_degree {
        lemma_ids_of_same_items(items, scored);
        assert(ids_of(scored) =~= all);
        assert forall|v: usize| #[trigger] all.contains(v) implies list.contains(v) by {
            let item = seen_from(g, pair, u, v);
            assert(items.contains(item));
            let i = choose|i: int| 0 <= i < items.len() && items[i] == item;
            assert(list[i] == v);
        }
        assert forall|i: int, j: int| 0 <= i < j < list.len() implies heap::item_le(
            seen_from(g, pair, u, #[trigger] list[i]),
            seen_from(g, pair, u, #[trigger] list[j]),
        ) by {
            assert(heap::item_le(items[i], items[j]));
        }
        assert forall|i: int| 0 <= i < list.len() implies all.contains(#[trigger] list[i]) by {
            assert(all.contains(items[i].vector));
        }
    } else {
        let at = choose|at: Seq<int>| #[trigger]
            are_taken_in_turn(g, pair, items, g.max_degree, kept, at);
        assert forall|i: int| 0 <= i < list.len() implies #[trigger] list[i] == items[at[i]].vector
            && kept[i] == seen_from(g, pair, u, list[i]) && all.contains(list[i]) by {
            assert(kept[i] == items[at[i]]);
        }
        assert forall|i: int, j: int| 0 <= i < j < list.len() implies heap::item_le(
            seen_from(g, pair, u, #[trigger] list[i]),
            seen_from(g, pair, u, #[trigger] list[j]),
        ) && !hides(
            g,
            pair,
            seen_from(g, pair, u, list[i]),
            seen_from(g, pair, u, list[j]),
        ) by {
            assert(kept[i] == items[at[i]] && kept[j] == items[at[j]]);
            assert(at[i] < at[j]);
            assert(!hides(g, pair, kept[i], kept[j]));
        }
        assert forall|v: usize| #[trigger] all.contains(v) && !list.contains(v) && !is_hidden_in(
            g,
            pair,
            u,
            list,
            v,
        ) implies list.len() >= g.max_degree && forall|i: int|
            0 <= i < list.len() ==> heap::item_le(
                seen_from(g, pair, u, #[trigger] list[i]),
                seen_from(g, pair, u, v),
            ) by {
            let item = seen_from(g, pair, u, v);
            assert(items.contains(item));
            let n = choose|n: int| 0 <= n < items.len() && items[n] == item;
            assert(is_position(items, n));
            if at.contains(n) {
                let k = choose|k: int| 0 <= k < at.len() && at[k] == n;
                assert(list[k] == v);
            }
            if exists|k: int| 0 <= k < at.len() && #[trigger] at[k] < n && hides(
                g,
                pair,
                kept[k],
                items[n],
            ) {
                let k = choose|k: int|
                    0 <= k < at.len() && #[trigger] at[k] < n && hides(g, pair, kept[k], items[n]);
                assert(kept[k] == seen_from(g, pair, u, list[k]));
                assert(heap::item_le(items[at[k]], items[n]));
                assert(is_hidden_in(g, pair, u, list, v));
            }
            assert forall|i: int| 0 <= i < list.len() implies heap::item_le(
                seen_from(g, pair, u, #[trigger] list[i]),
                item,
            ) by {
                if i < at.len() - 1 {
                    assert(at[i] < at[at.len() - 1]);
                }
                assert(kept[i] == items[at[i]]);
                assert(heap::item_le(items[at[i]], items[n]));
            }
        }
    }
    if forall|i: int|
        0 <= i < old_list.len() ==> heap::item_le(
            seen_from(g, pair, u, node),
            seen_from(g, pair, u, #[trigger] old_list[i]),
        ) {
        assert(all[old_list.len() as int] == node);
        assert(all.contains(node));
        let item = seen_from(g, pair, u, node);
        let n = choose|n: int| 0 <= n < items.len() && items[n] == item;
        if n > 0 {
            assert(heap::item_le(items[0], items[n]));
        }
        assert(all.contains(items[0].vector));
        let j = choose|j: int| 0 <= j < all.len() && all[j] == items[0].vector;
        if j < old_list.len() {
            assert(old_list[j] == items[0].vector);
        }
        assert(items[0] == seen_from(g, pair, u, items[0].vector));
        assert(heap::item_le(item, items[0]));
        assert(kept[0] == items[0]);
    }
}

/// A node of `list` comes before `v` as seen from `u`, and is nearer to `v` than `u` is.
pub open spec fn is_hidden_in(
    g: GraphModel,
    pair: spec_fn(usize, usize) -> u64,
    u: usize,
    list: Seq<usize>,
    v: usize,
) -> bool {
    exists|i: int|
        {
            &&& 0 <= i < list.len()
            &&& heap::item_le(
                seen_from(g, pair, u, #[trigger] list[i]),
                seen_from(g, pair, u, v),
            )
            &&& hides(g, pair, seen_from(g, pair, u, list[i]), seen_from(g, pair, u, v))
        }
}

} // verus!
