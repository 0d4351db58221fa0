use kannolo::graph::{GraphTrait, GrowableGraph};
use kannolo::heap::{ScoredItem, TopHeap};

/// A line graph of `n` nodes (each connected to i-1 and i+1).
fn build_line_graph(n: usize, max_degree: usize) -> GrowableGraph {
    let mut g = GrowableGraph::with_max_degree(max_degree);
    g.reserve(n);
    g.advance_inserted_nodes(n);
    for i in 0..n {
        let mut nbrs: Vec<usize> = Vec::new();
        if i > 0 {
            nbrs.push(i - 1);
        }
        if i + 1 < n {
            nbrs.push(i + 1);
        }
        g.push_with_precomputed_reverse_links(None, &nbrs, i, &[]);
    }
    g
}

fn squared(a: usize, b: usize) -> u64 {
    let d = a.abs_diff(b) as u64;
    d * d
}

fn item(distance: u64, vector: usize) -> ScoredItem {
    ScoredItem { distance, vector }
}

fn not_farther(a: u64, b: u64) -> bool {
    a <= b
}

#[test]
fn search_candidates_for_insert_bounded_by_ef_and_finds_nearest() {
    let n = 20usize;
    let ef = 5usize;

    // Vectors 0, 1, ..., 19 on a line, the query at 10.
    let graph = build_line_graph(n, 4);
    let distance = |id: usize| squared(id, 10);
    let entry = item(distance(0), 0);

    let top = graph.search_candidates_for_insert(entry, &distance, ef);

    assert!(top.len() <= ef, "heap size {} exceeds ef={}", top.len(), ef);

    let best = top.into_sorted_vec().into_iter().next().unwrap();
    assert_eq!(
        best.vector, 10,
        "expected nearest node 10, got {}",
        best.vector
    );
    assert_eq!(best.distance, 0);
}

#[test]
fn search_candidates_for_query_bounded_and_correct() {
    let n = 20usize;
    let ef = 6usize;
    let k = 3usize;

    let graph = build_line_graph(n, 4);
    let distance = |id: usize| squared(id, 5);
    let entry = item(distance(0), 0);

    let top_heap = graph.search_candidates_for_query(entry, &distance, ef, k, &not_farther);

    assert!(top_heap.len() <= ef);
    let mut results = top_heap.into_sorted_vec();
    results.truncate(k);

    assert_eq!(
        results[0].vector, 5,
        "expected nearest node 5, got {}",
        results[0].vector
    );
    assert_eq!(results[0].distance, 0);
}

#[test]
fn greedy_descent_ends_at_the_minimum() {
    let graph = build_line_graph(20, 4);
    let distance = |id: usize| squared(id, 10);
    assert_eq!(graph.greedy_search_nearest(&distance, item(100, 0)), item(0, 10));
    // Nothing is nearer than the entry point: it is returned as it was given.
    assert_eq!(graph.greedy_search_nearest(&distance, item(0, 3)), item(0, 3));
}

#[test]
fn top_k_comes_sorted_and_cut() {
    let graph = build_line_graph(20, 4);
    let distance = |id: usize| squared(id, 5);
    let top = graph.greedy_search_topk(item(25, 0), &distance, 3, 6, &not_farther);
    assert_eq!(top, vec![item(0, 5), item(1, 4), item(1, 6)]);
}

#[test]
fn short_results_hold_every_reachable_node() {
    let graph = build_line_graph(7, 2);
    let distance = |id: usize| squared(id, 6);
    let all = graph.search_candidates_impl(item(36, 0), &distance, 50, None, &not_farther);
    let ids: Vec<usize> = all.into_sorted_vec().iter().map(|i| i.vector).collect();
    assert_eq!(ids, vec![6, 5, 4, 3, 2, 1, 0]);
}

#[test]
fn the_entry_keeps_the_distance_it_came_with() {
    let graph = build_line_graph(4, 2);
    let distance = |id: usize| squared(id, 3);
    let all = graph.search_candidates_impl(item(1000, 0), &distance, 50, None, &not_farther);
    assert_eq!(all.into_sorted_vec(), vec![item(0, 3), item(1, 2), item(4, 1), item(1000, 0)]);
}

#[test]
fn a_search_for_nothing_can_have_an_answer() {
    let distance = |id: usize| squared(id, 2);
    let lone = build_line_graph(1, 2);
    let top = lone.search_candidates_impl(item(4, 0), &distance, 0, None, &not_farther);
    assert_eq!(top.into_sorted_vec(), vec![item(4, 0)]);
    let top = lone.search_candidates_for_insert(item(4, 0), &distance, 0);
    assert_eq!(top.into_sorted_vec(), vec![item(4, 0)]);
    assert!(lone.greedy_search_topk(item(4, 0), &distance, 0, 0, &not_farther).is_empty());
    // All neighbours are farther away: the entry is given up, and nothing is left to be done.
    let line = build_line_graph(5, 2);
    let top = line.search_candidates_impl(item(0, 2), &distance, 0, None, &not_farther);
    assert!(top.is_empty());
    let pair = |a: usize, b: usize| squared(a, b);
    let (forward, links, nearest) =
        lone.find_and_prune_neighbors(&distance, &pair, item(4, 0), 0, 2, 0);
    assert_eq!((forward, nearest), (vec![0], item(4, 0)));
    assert_eq!(links, vec![(0, vec![0])]);
}

#[test]
fn short_filtered_results_hold_every_reachable_accepted_node() {
    let graph = build_line_graph(12, 2);
    let distance = |id: usize| squared(id, 11);
    let fifths = |id: usize| id % 5 == 2;
    let top =
        graph.acorn_gamma_search_filtered(item(121, 0), &distance, 4, 4, &not_farther, &fifths);
    assert_eq!(top.into_sorted_vec(), vec![item(16, 7), item(81, 2)]);
}

#[test]
fn a_search_can_wait_for_more_results_than_it_keeps() {
    let graph = build_line_graph(9, 2);
    let distance = |id: usize| squared(id, 8);
    let top = graph.search_candidates_impl(item(64, 0), &distance, 2, Some(5), &not_farther);
    assert_eq!(top.into_sorted_vec(), vec![item(0, 8), item(1, 7)]);
}

#[test]
fn relaxation_admits_more_nodes() {
    // From node 0, the way to node 3 leads over node 1, which is farther than node 0.
    let mut g = GrowableGraph::with_max_degree(2);
    g.reserve(4);
    g.push_with_precomputed_reverse_links(None, &[1], 0, &[]);
    g.push_with_precomputed_reverse_links(None, &[0, 2], 1, &[]);
    g.push_with_precomputed_reverse_links(None, &[1, 3], 2, &[]);
    g.push_with_precomputed_reverse_links(None, &[2], 3, &[]);
    let far = [10u64, 15, 12, 1];
    let distance = |id: usize| far[id];
    let strict = g.search_candidates_for_query(item(10, 0), &distance, 1, 1, &not_farther);
    assert_eq!(strict.into_sorted_vec(), vec![item(10, 0)]);
    let relaxed = |a: u64, b: u64| a <= 2 * b;
    let found = g.search_candidates_for_query(item(10, 0), &distance, 1, 1, &relaxed);
    assert_eq!(found.into_sorted_vec(), vec![item(1, 3)]);
}

#[test]
fn filtered_search_jumps_over_other_nodes() {
    let graph = build_line_graph(20, 4);
    let distance = |id: usize| squared(id, 11);
    let even = |id: usize| id % 2 == 0;
    let top =
        graph.acorn_search_candidates_filtered(item(121, 0), &distance, 4, 2, &not_farther, &even);
    let found = top.into_sorted_vec();
    assert_eq!(found[0], item(1, 10));
    assert_eq!(found[1], item(1, 12));
    assert!(found.len() <= 4);
    for i in found.iter() {
        assert!(i.vector % 2 == 0);
    }
}

#[test]
fn filtered_search_does_not_jump_over_two_nodes() {
    let graph = build_line_graph(9, 2);
    let distance = |id: usize| squared(id, 8);
    let thirds = |id: usize| id % 3 == 0;
    let top =
        graph.acorn_search_candidates_filtered(item(64, 0), &distance, 9, 9, &not_farther, &thirds);
    assert_eq!(top.into_sorted_vec(), vec![item(64, 0)]);
}

#[test]
fn gamma_search_walks_through_other_nodes() {
    let graph = build_line_graph(9, 2);
    let distance = |id: usize| squared(id, 8);
    let thirds = |id: usize| id % 3 == 0;
    let top =
        graph.acorn_gamma_search_filtered(item(64, 0), &distance, 9, 9, &not_farther, &thirds);
    assert_eq!(top.into_sorted_vec(), vec![item(4, 6), item(25, 3), item(64, 0)]);
}

#[test]
fn nothing_is_found_where_the_filter_accepts_nothing() {
    let graph = build_line_graph(9, 2);
    let distance = |id: usize| squared(id, 8);
    let never = |_: usize| false;
    let jumped =
        graph.acorn_search_candidates_filtered(item(64, 0), &distance, 3, 3, &not_farther, &never);
    assert!(jumped.is_empty());
    let walked =
        graph.acorn_gamma_search_filtered(item(64, 0), &distance, 3, 3, &not_farther, &never);
    assert!(walked.is_empty());
}

#[test]
fn an_open_filter_changes_nothing() {
    let graph = build_line_graph(20, 4);
    let distance = |id: usize| squared(id, 13);
    let always = |_: usize| true;
    let plain = graph
        .search_candidates_for_query(item(169, 0), &distance, 4, 4, &not_farther)
        .into_sorted_vec();
    let jumped = graph
        .acorn_search_candidates_filtered(item(169, 0), &distance, 4, 4, &not_farther, &always)
        .into_sorted_vec();
    let walked = graph
        .acorn_gamma_search_filtered(item(169, 0), &distance, 4, 4, &not_farther, &always)
        .into_sorted_vec();
    assert_eq!(plain, jumped);
    assert_eq!(plain, walked);
}

#[test]
fn searches_ask_about_external_ids() {
    let mut graph = build_line_graph(4, 2);
    assert_eq!(graph.set_mapping(vec![100, 101, 102, 103]), Ok(()));
    let distance = |id: usize| squared(id, 103);
    let nearest = graph.greedy_search_nearest(&distance, item(9, 0));
    assert_eq!(nearest, item(0, 3));
    let odd = |id: usize| id == 101 || id == 103;
    let top = graph.acorn_search_candidates_filtered(item(9, 0), &distance, 4, 4, &not_farther, &odd);
    assert_eq!(top.into_sorted_vec(), vec![item(0, 3), item(4, 1)]);
}

#[test]
fn neighbours_of_a_new_node_are_pruned() {
    // Nodes at 0, 1 and 2 on a line, a new one at 10.
    let at = [0usize, 1, 2, 10];
    let mut g = GrowableGraph::with_max_degree(2);
    g.reserve(4);
    g.push_with_precomputed_reverse_links(None, &[1], 0, &[]);
    g.push_with_precomputed_reverse_links(None, &[0, 2], 1, &[]);
    g.push_with_precomputed_reverse_links(None, &[1], 2, &[]);
    let distance = |id: usize| squared(at[id], 10);
    let pair = |a: usize, b: usize| squared(at[a], at[b]);

    let (forward, reverse, entry) = g.find_and_prune_neighbors(&distance, &pair, item(100, 0), 4, 2, 3);
    // Node 2 stands between the new node and the others.
    assert_eq!(forward, vec![2]);
    assert_eq!(reverse, vec![(2, vec![1, 3])]);
    // The best candidate is the entry point of the next level.
    assert_eq!(entry, item(64, 2));

    g.push_with_precomputed_reverse_links(None, &forward, 3, &reverse);
    assert_eq!(g.neighbors(3), vec![2]);
    assert_eq!(g.neighbors(2), vec![1, 3]);
}

#[test]
fn short_neighbour_lists_are_kept_whole() {
    let g = build_line_graph(5, 2);
    let pair = |a: usize, b: usize| squared(a, b);
    let mut heap = TopHeap::new();
    heap.push(item(4, 2));
    heap.push(item(1, 1));
    assert_eq!(g.shrink_neighbor_list(&pair, heap, 2), vec![1, 2]);
}

#[test]
fn long_neighbour_lists_keep_what_stands_apart() {
    let g = build_line_graph(9, 2);
    let pair = |a: usize, b: usize| squared(a, b);
    // Seen from node 4: nodes 3 and 5 stand apart, 2 and 6 hide behind them.
    let mut heap = TopHeap::new();
    for v in [2usize, 3, 5, 6] {
        heap.push(item(squared(v, 4), v));
    }
    assert_eq!(g.shrink_neighbor_list(&pair, heap, 3), vec![3, 5]);
    let mut full = TopHeap::new();
    for v in [2usize, 3, 5, 6] {
        full.push(item(squared(v, 4), v));
    }
    assert_eq!(g.shrink_neighbor_list(&pair, full, 1), vec![3]);
}

#[test]
fn neighbours_are_chosen_before_the_nodes_are_there() {
    let at = [0i64, 1, 2, -3];
    let g = GrowableGraph::with_max_degree(4);
    let pair = |a: usize, b: usize| ((at[a] - at[b]) * (at[a] - at[b])) as u64;
    let mut heap = TopHeap::new();
    heap.push(item(1, 1));
    heap.push(item(4, 2));
    heap.push(item(9, 3));
    assert_eq!(g.shrink_neighbor_list(&pair, heap, 2), vec![1, 3]);
}

#[test]
fn few_items_are_not_compared() {
    let g = GrowableGraph::with_max_degree(4);
    let never = |a: usize, b: usize| panic!("{a} and {b} were compared");
    let mut heap = TopHeap::new();
    heap.push(item(4, 2));
    heap.push(item(1, 1));
    assert_eq!(g.shrink_neighbor_list(&never, heap, 2), vec![1, 2]);
}

#[test]
fn full_nodes_drop_a_neighbour_to_link_back() {
    // Node 1 has neighbours on both sides already; the new node 4 at 9 is hidden behind node 2.
    let at = [0usize, 5, 6, 20, 9];
    let mut g = GrowableGraph::with_max_degree(2);
    g.reserve(5);
    g.push_with_precomputed_reverse_links(None, &[0, 2], 1, &[]);
    let pair = |a: usize, b: usize| squared(at[a], at[b]);
    let links = g.precompute_reverse_links(&pair, 4, &[1, 3]);
    assert_eq!(links, vec![(1, vec![2, 0]), (3, vec![4])]);
}
