use kannolo::datasets::{permute_dense_dataset, DenseDataset};
use kannolo::graph::graph::Graph;
use kannolo::graph::neighbors::NeighborData;
use kannolo::graph::stream_vbyte::StreamVByteNeighbors;
use kannolo::graph::{GraphTrait, PlainNeighbors};

fn make_plain_graph() -> Graph<PlainNeighbors> {
    let data: Vec<u32> = vec![
        1, 3, // node 0
        0, 2, 4, // node 1
        // node 2 (empty)
        1, // node 3
        0, 2, 3, // node 4
    ];

    let offsets: Vec<usize> = vec![
        0, // start node 0
        2, // end node 0
        5, // end node 1
        5, // node 2 empty
        6, // node 3
        9, // node 4
    ];

    Graph::from_parts(
        PlainNeighbors::from(NeighborData { data, offsets }),
        Some(vec![10, 11, 12, 13, 14]),
        3,
        5,
    )
}

fn assert_same_graph<G1: GraphTrait, G2: GraphTrait>(g1: &G1, g2: &G2) {
    assert_eq!(g1.n_nodes(), g2.n_nodes());
    assert_eq!(g1.max_degree(), g2.max_degree());

    for id in 0..g1.n_nodes() {
        let a: Vec<_> = g1.neighbors(id);
        let b: Vec<_> = g2.neighbors(id);
        assert_eq!(a, b, "neighbors mismatch for node {id}");
    }
}

fn lists_of<G: GraphTrait>(g: &G) -> Vec<Vec<usize>> {
    (0..g.n_nodes()).map(|id| g.neighbors(id)).collect()
}

#[test]
fn from_plain_to_plain() {
    let src = make_plain_graph();
    let dst: Graph<PlainNeighbors> = Graph::from(&src);

    assert_same_graph(&src, &dst);

    for i in 0..src.n_nodes() {
        assert_eq!(src.get_external_id(i), dst.get_external_id(i));
    }
}

#[test]
fn from_plain_to_stream_vbyte() {
    let src = make_plain_graph();
    let dst: Graph<StreamVByteNeighbors> = Graph::from(&src);

    assert_same_graph(&src, &dst);
}

#[test]
fn from_stream_vbyte_to_plain_roundtrip() {
    let src_plain = make_plain_graph();
    let src_svb: Graph<StreamVByteNeighbors> = Graph::from(&src_plain);

    let dst: Graph<PlainNeighbors> = Graph::from(&src_svb);

    assert_same_graph(&src_plain, &dst);
}

#[test]
fn from_preserves_empty_lists() {
    let data: Vec<u32> = vec![
        1, 2, // node 0
        // node 1 empty
        3, // node 2
    ];

    let offsets: Vec<usize> = vec![0, 2, 2, 3];

    let src = Graph::from_parts(PlainNeighbors::from(NeighborData { data, offsets }), None, 2, 3);

    let dst: Graph<StreamVByteNeighbors> = Graph::from(&src);
    let roundtrip: Graph<PlainNeighbors> = Graph::from(&dst);

    assert_same_graph(&src, &roundtrip);
}

#[test]
fn edges_and_bytes_are_counted() {
    let g = make_plain_graph();
    let word = std::mem::size_of::<usize>();
    assert_eq!(g.n_edges(), 9);
    let no_blocks = |_: &Vec<u32>, _: &Vec<usize>| panic!("there are no blocks");
    assert_eq!(g.neighbors_size_bytes(&no_blocks), 9 * 4 + 6 * word);
    // The mapping is packed: its encoder is asked.
    let packed = |ids: &Vec<usize>| {
        assert_eq!(ids, &vec![10, 11, 12, 13, 14]);
        7
    };
    assert_eq!(g.get_space_usage_bytes(&no_blocks, &packed), 9 * 4 + 6 * word + 7);

    let blocks = |values: &Vec<u32>, offsets: &Vec<usize>| values.len() + offsets.len();
    let svb: Graph<StreamVByteNeighbors> = Graph::from(&g);
    // One list is empty: it has a block of its own, and there is a word for it.
    assert_eq!(svb.neighbors_size_bytes(&blocks), 10 + 6 + 8);
    assert_eq!(svb.get_space_usage_bytes(&blocks, &packed), 10 + 6 + 8 + 7);
}

#[test]
fn ground_graphs_and_datasets_stay_consistent() {
    let src = make_plain_graph();
    let nd = NeighborData { data: vec![1, 2, 0, 3, 4, 2], offsets: vec![0, 2, 3, 3, 5, 6] };
    let ground = Graph::from_parts(PlainNeighbors::from(nd), None, 3, 5);
    let vectors = DenseDataset::from_raw((0..10).collect::<Vec<u32>>(), 5, 2);
    let mapping = [2usize, 0, 1, 4, 3];
    let permuted = permute_dense_dataset(&vectors, &mapping);
    let (dst, _): (Graph<PlainNeighbors>, Vec<usize>) =
        ground.remap_ground_and_compress_with_permutation(&mapping);
    let row = |values: &Vec<u32>, id: usize| values[2 * id..2 * id + 2].to_vec();
    for u in 0..5 {
        let old = row(vectors.values(), ground.get_external_id(u));
        assert_eq!(row(permuted.values(), dst.get_external_id(mapping[u])), old);
        let mut renamed: Vec<usize> = ground.neighbors(u).iter().map(|&v| mapping[v]).collect();
        renamed.sort_unstable();
        assert_eq!(dst.neighbors(mapping[u]), renamed);
    }

    // A level stands for some of the vectors of a larger dataset.
    let vectors = DenseDataset::from_raw((0..30).collect::<Vec<u32>>(), 15, 2);
    let global: Vec<usize> = (0..15).map(|i| 14 - i).collect();
    let permuted = permute_dense_dataset(&vectors, &global);
    let (level, local): (Graph<PlainNeighbors>, Vec<usize>) =
        src.remap_level_and_compress_with_old_local_order(&[1, 2, 0, 4, 3], &global);
    for u in 0..5 {
        let old = row(vectors.values(), src.get_external_id(u));
        assert_eq!(row(permuted.values(), level.get_external_id(local[u])), old);
    }
}

#[test]
fn conversions_sort_lists_and_drop_repetitions() {
    let nd = NeighborData { data: vec![2, 0, 2, 1, 0, 0], offsets: vec![0, 4, 6, 6] };
    let src = Graph::from_parts(PlainNeighbors::from(nd), None, 4, 3);
    let dst: Graph<PlainNeighbors> = Graph::from(&src);
    assert_eq!(lists_of(&dst), vec![vec![0, 1, 2], vec![0], vec![]]);
    assert_eq!(dst.n_edges(), 4);
}

#[test]
fn ground_graphs_are_renamed_by_a_permutation() {
    let src = make_plain_graph();
    let mapping = [2usize, 0, 1, 4, 3];
    let (dst, inverse): (Graph<StreamVByteNeighbors>, Vec<usize>) =
        src.remap_ground_and_compress_with_permutation(&mapping);
    assert_eq!(inverse, vec![1, 2, 0, 4, 3]);
    assert_eq!(
        lists_of(&dst),
        vec![vec![1, 2, 3], vec![], vec![0, 4], vec![1, 2, 4], vec![0]]
    );
    assert_eq!(dst.max_degree(), 3);
    // External ids are gone: the vectors have moved along.
    assert_eq!(dst.get_external_id(2), 2);
}

#[test]
fn renaming_back_gives_the_same_lists() {
    let src = make_plain_graph();
    let mapping = [2usize, 0, 1, 4, 3];
    let (there, inverse): (Graph<PlainNeighbors>, Vec<usize>) =
        src.remap_ground_and_compress_with_permutation(&mapping);
    let (back, again): (Graph<PlainNeighbors>, Vec<usize>) =
        there.remap_ground_and_compress_with_permutation(&inverse);
    assert_eq!(again, mapping.to_vec());
    assert_eq!(lists_of(&back), lists_of(&src));
    assert_eq!(there.n_edges(), src.n_edges());
    assert_eq!(back.n_edges(), src.n_edges());
}

#[test]
fn compressed_graphs_can_be_renamed_and_stored_again() {
    let src: Graph<StreamVByteNeighbors> = Graph::from(&make_plain_graph());
    let mapping = [2usize, 0, 1, 4, 3];
    let (there, inverse): (Graph<StreamVByteNeighbors>, Vec<usize>) =
        src.remap_ground_and_compress_with_permutation(&mapping);
    let (back, _): (Graph<StreamVByteNeighbors>, Vec<usize>) =
        there.remap_ground_and_compress_with_permutation(&inverse);
    let copy: Graph<StreamVByteNeighbors> = Graph::from(&back);
    assert_eq!(lists_of(&copy), lists_of(&src));
    assert_eq!(copy.n_edges(), src.n_edges());
}

#[test]
fn levels_are_renamed_by_an_order() {
    let src = make_plain_graph();
    let order = [1usize, 2, 0, 4, 3];
    let global: Vec<usize> = (0..15).map(|i| 14 - i).collect();
    let (dst, local): (Graph<PlainNeighbors>, Vec<usize>) =
        src.remap_level_and_compress_with_old_local_order(&order, &global);
    assert_eq!(local, vec![2, 0, 1, 4, 3]);
    assert_eq!(
        lists_of(&dst),
        vec![vec![1, 2, 3], vec![], vec![0, 4], vec![1, 2, 4], vec![0]]
    );
    let externals: Vec<usize> = (0..5).map(|id| dst.get_external_id(id)).collect();
    assert_eq!(externals, vec![3, 2, 4, 0, 1]);
}
