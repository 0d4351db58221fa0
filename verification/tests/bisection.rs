use kannolo::graph::egb::{
    bisection_docs, permutation_of_docs, permute_graph_bisection_from_graph, Doc,
};
use kannolo::graph::graph::Graph;
use kannolo::graph::neighbors::NeighborData;
use kannolo::graph::zeta::{i64_to_nat, nat_to_i64, write_zeta_segment, ZetaSink};
use kannolo::graph::PlainNeighbors;

fn sample() -> Graph<PlainNeighbors> {
    // Only nodes 1 and 3 are neighbours of others.
    let nd = NeighborData { data: vec![3, 3, 1, 3, 1], offsets: vec![0, 1, 4, 4, 5] };
    Graph::from_parts(PlainNeighbors::from(nd), None, 3, 4)
}

#[test]
fn documents_hold_the_ranks_of_neighbours() {
    let (docs, num_terms) = bisection_docs(&sample());
    assert_eq!(num_terms, 2);
    let terms: Vec<Vec<u32>> = docs.iter().map(|d| d.terms.clone()).collect();
    assert_eq!(terms, vec![vec![1], vec![0, 1], vec![], vec![0]]);
    let ids: Vec<u32> = docs.iter().map(|d| d.org_id).collect();
    assert_eq!(ids, vec![0, 1, 2, 3]);
    assert!(docs.iter().all(|d| d.leaf_id == -1));
}

#[test]
fn the_order_of_documents_names_the_nodes() {
    let order = [2u32, 0, 3, 1];
    let docs: Vec<Doc> =
        order.iter().map(|&org_id| Doc { terms: vec![], org_id, leaf_id: 0 }).collect();
    assert_eq!(permutation_of_docs(&docs), vec![1, 3, 0, 2]);
}

#[test]
fn a_bisection_gives_a_permutation() {
    let reverse = |docs: Vec<Doc>, terms: usize| {
        assert_eq!(terms, 2);
        docs.into_iter().rev().collect::<Vec<Doc>>()
    };
    assert_eq!(permute_graph_bisection_from_graph(&sample(), &reverse), vec![3, 2, 1, 0]);
}

#[test]
fn signed_numbers_alternate() {
    let naturals: Vec<u64> = [0i64, -1, 1, -2, 2].iter().map(|&v| i64_to_nat(v)).collect();
    assert_eq!(naturals, vec![0, 1, 2, 3, 4]);
    for v in [0i64, 1, -1, 77, -78, i64::MAX, i64::MIN + 1] {
        assert_eq!(nat_to_i64(i64_to_nat(v)), v);
    }
    for n in [0u64, 1, 2, 9, u64::MAX - 1] {
        assert_eq!(i64_to_nat(nat_to_i64(n)), n);
    }
}

#[test]
fn zeta_segments_take_the_bits_of_their_codes() {
    let mut sink = ZetaSink::new();
    assert_eq!(write_zeta_segment(&mut sink, 5, &[], 3), 0);
    // The numbers 2, 0 and 1 take 4, 3 and 4 bits.
    assert_eq!(write_zeta_segment(&mut sink, 5, &[6, 7, 9], 3), 11);
    // The first neighbour is before the node: 1 stands for -1.
    assert_eq!(write_zeta_segment(&mut sink, 5, &[4], 3), 4);
    // With parameter 1, the number 7 takes four bits in unary and three in binary.
    assert_eq!(write_zeta_segment(&mut sink, 0, &[0, 8], 1), 1 + 7);
}
