use kannolo::graph::graph::Graph;
use kannolo::graph::stream_vbyte::StreamVByteNeighbors;
use kannolo::graph::{GraphFixedDegree, GraphTrait, GrowableGraph, PlainNeighbors};

/// Rows of slots are not encoded.
fn no_blocks(_: &Vec<u32>, _: &Vec<usize>) -> usize {
    panic!("there are no blocks")
}

/// The ids of these graphs are not packed.
fn no_ids(_: &Vec<usize>) -> usize {
    panic!("no ids are packed")
}

fn sample() -> GrowableGraph {
    let mut g = GrowableGraph::with_max_degree(3);
    g.reserve(3);
    g.push_with_precomputed_reverse_links(None, &[2, 1], 0, &[]);
    g.push_with_precomputed_reverse_links(None, &[0], 1, &[]);
    g
}

#[test]
fn reserved_nodes_have_no_neighbours() {
    let mut g = GrowableGraph::with_max_degree(3);
    assert!(g.is_empty());
    assert_eq!(g.max_degree(), 3);
    g.reserve(2);
    assert_eq!(g.n_nodes(), 2);
    assert_eq!(g.inserted_nodes(), 0);
    g.advance_inserted_nodes(2);
    assert_eq!(g.inserted_nodes(), 2);
    assert!(g.neighbors(1).is_empty());
    assert_eq!(g.get_external_id(1), 1);
}

#[test]
fn pushed_neighbours_are_read_back_in_order() {
    let g = sample();
    assert_eq!(g.neighbors(0), vec![2, 1]);
    assert_eq!(g.neighbors(1), vec![0]);
    assert!(g.neighbors(2).is_empty());
    assert_eq!(g.n_edges(), 3);
}

#[test]
fn a_shorter_list_leaves_the_rest_of_the_row() {
    let mut g = sample();
    g.push_with_precomputed_reverse_links(None, &[1], 0, &[]);
    assert_eq!(g.neighbors(0), vec![1, 1]);
    assert_eq!(g.neighbors(1), vec![0]);
    assert_eq!(g.n_edges(), 3);
}

#[test]
fn reverse_links_replace_lists() {
    let mut g = sample();
    g.push_with_precomputed_reverse_links(None, &[0], 2, &[(0, vec![2]), (1, vec![2, 0])]);
    assert_eq!(g.neighbors(0), vec![2]);
    assert_eq!(g.neighbors(1), vec![2, 0]);
    assert_eq!(g.neighbors(2), vec![0]);
    assert_eq!(g.n_edges(), 4);
}

#[test]
fn edges_are_those_in_the_lists() {
    let mut g = GrowableGraph::with_max_degree(3);
    g.reserve(2);
    g.push_with_precomputed_reverse_links(None, &[0], 1, &[(0, vec![1])]);
    assert_eq!(g.neighbors(0), vec![1]);
    assert_eq!(g.neighbors(1), vec![0]);
    assert_eq!(g.n_edges(), 2);
    // A reverse link that shortens a list takes edges away.
    g.push_with_precomputed_reverse_links(None, &[0, 0, 0], 1, &[(0, vec![])]);
    assert_eq!(g.n_edges(), 3);
    let graph: Graph<PlainNeighbors> = Graph::from_growable(g);
    assert_eq!(graph.neighbors(1), vec![0]);
    assert_eq!(graph.n_edges(), 1);
}

#[test]
fn reserving_again_drops_the_edges() {
    let mut g = sample();
    g.reserve(4);
    assert_eq!(g.n_nodes(), 4);
    assert_eq!(g.n_edges(), 0);
    assert!(g.neighbors(0).is_empty());
    g.push_with_precomputed_reverse_links(None, &[3], 0, &[]);
    assert_eq!(g.n_edges(), 1);
}

#[test]
fn graphs_come_back_from_growable_ones() {
    let plain: Graph<PlainNeighbors> = Graph::from_growable(sample());
    let packed: Graph<StreamVByteNeighbors> = Graph::from(&plain);
    let growable = GrowableGraph::from_graph(plain);
    let again: Graph<StreamVByteNeighbors> = Graph::from_growable(growable);
    for u in 0..3 {
        assert_eq!(again.neighbors(u), packed.neighbors(u));
    }
    assert_eq!(again.n_edges(), packed.n_edges());
    assert_eq!(again.max_degree(), packed.max_degree());
}

#[test]
fn mappings_of_the_wrong_length_are_refused() {
    let mut g = sample();
    assert_eq!(
        g.set_mapping(vec![5, 6]),
        Err(String::from("Mapping length mismatch: got 2, expected 3"))
    );
    assert_eq!(g.get_external_id(2), 2);
    assert_eq!(g.set_mapping(vec![5, 6, 7]), Ok(()));
    assert_eq!(g.get_external_id(2), 7);
}

#[test]
fn pushing_writes_external_ids() {
    let mut g = sample();
    assert!(g.set_mapping(vec![5, 6, 7]).is_ok());
    g.push_with_precomputed_reverse_links(Some(40), &[0], 2, &[]);
    assert_eq!(g.get_external_id(2), 40);
    g.push_with_precomputed_reverse_links(None, &[0], 2, &[]);
    assert_eq!(g.get_external_id(2), 2);
}

#[test]
fn space_is_counted_by_slots_and_ids() {
    let mut g = sample();
    assert_eq!(g.neighbors_size_bytes(&no_blocks), 9 * 4);
    assert_eq!(g.get_space_usage_bytes(&no_blocks, &no_ids), 9 * 4);
    assert!(g.set_mapping(vec![5, 6, 7]).is_ok());
    assert_eq!(g.get_space_usage_bytes(&no_blocks, &no_ids), 9 * 4 + 3 * std::mem::size_of::<usize>());
}

#[test]
fn fixed_degree_graphs_keep_everything() {
    let mut g = sample();
    assert!(g.set_mapping(vec![5, 6, 7]).is_ok());
    let fixed = GraphFixedDegree::from(g);
    assert_eq!(fixed.n_nodes(), 3);
    assert_eq!(fixed.n_edges(), 3);
    assert_eq!(fixed.max_degree(), 3);
    assert_eq!(fixed.neighbors(0), vec![2, 1]);
    assert_eq!(fixed.get_external_id(1), 6);
    assert_eq!(fixed.neighbors_size_bytes(&no_blocks), 9 * 4);
    assert_eq!(fixed.get_space_usage_bytes(&no_blocks, &no_ids), 9 * 4 + 3 * std::mem::size_of::<usize>());
    let back = GrowableGraph::from(fixed);
    assert_eq!(back.neighbors(0), vec![2, 1]);
    assert_eq!(back.inserted_nodes(), 3);
    assert_eq!(back.get_external_id(1), 6);
}

#[test]
fn default_graphs_are_empty() {
    assert!(GraphFixedDegree::default().is_empty());
    assert!(GrowableGraph::default().is_empty());
    let g: Graph<PlainNeighbors> = Graph::default();
    assert!(g.is_empty());
    assert_eq!(g.n_edges(), 0);
    assert_eq!(g.max_degree(), 0);
}

#[test]
fn compressed_graphs_hold_sorted_lists_without_repetition() {
    let mut g = sample();
    g.push_with_precomputed_reverse_links(None, &[1, 0, 1], 2, &[]);
    assert!(g.set_mapping(vec![5, 6, 7]).is_ok());
    let plain: Graph<PlainNeighbors> = Graph::from_growable(g);
    assert_eq!(plain.neighbors(0), vec![1, 2]);
    assert_eq!(plain.neighbors(1), vec![0]);
    assert_eq!(plain.neighbors(2), vec![0, 1]);
    assert_eq!(plain.n_edges(), 5);
    assert_eq!(plain.max_degree(), 3);
    assert_eq!(plain.get_external_id(0), 5);

    let growable = GrowableGraph::from_graph(plain);
    assert_eq!(growable.neighbors(2), vec![0, 1]);
    assert_eq!(growable.n_edges(), 5);
    assert_eq!(growable.inserted_nodes(), 3);
    assert_eq!(growable.get_external_id(2), 7);

    let packed: Graph<StreamVByteNeighbors> = Graph::from_growable(growable);
    assert_eq!(packed.neighbors(0), vec![1, 2]);
    assert_eq!(packed.neighbors(2), vec![0, 1]);
}
