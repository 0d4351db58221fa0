use kannolo::graph::elias_fano::EliasFanoOffsets;
use kannolo::graph::neighbors::{NeighborData, NeighborIter, Neighbors, PlainNeighbors};
use kannolo::graph::stream_vbyte::StreamVByteNeighbors;

/// What blocks take when their numbers and offsets are written out.
fn blocks_len(values: &Vec<u32>, offsets: &Vec<usize>) -> usize {
    postcard::to_allocvec(&(values, offsets)).unwrap().len()
}

/// What a sequence takes when it is written out.
fn sequence_len(values: &Vec<usize>) -> usize {
    postcard::to_allocvec(values).unwrap().len()
}

fn nd(data: Vec<u32>, offsets: Vec<usize>) -> NeighborData {
    NeighborData { data, offsets }
}

fn collect_all<N: Neighbors>(n: &N) -> Vec<u32> {
    let mut out = Vec::new();
    for node_id in 0..n.n_nodes() {
        out.extend(n.iter_node(node_id).collect());
    }
    out
}

fn collect_node<N: Neighbors>(n: &N, node_id: usize) -> Vec<u32> {
    n.iter_node(node_id).collect()
}

fn expected_concat_segments(data: &[u32], offsets: &[usize]) -> Vec<u32> {
    let mut out = Vec::new();
    if offsets.len() < 2 {
        return out;
    }
    for w in offsets.windows(2) {
        out.extend_from_slice(&data[w[0]..w[1]]);
    }
    out
}

fn assert_neighbor_impl_matches_plain_by_segments<N>(neighbors: N, data: &[u32], offsets: &[usize])
where
    N: Neighbors,
{
    let expected = expected_concat_segments(data, offsets);
    assert_eq!(neighbors.len(), expected.len());

    if offsets.len() < 2 {
        assert!(collect_all(&neighbors).is_empty());
        return;
    }

    for (node_id, w) in offsets.windows(2).enumerate() {
        let start = w[0];
        let end = w[1];
        assert_eq!(
            collect_node(&neighbors, node_id),
            data[start..end].to_vec(),
            "segment mismatch for node {node_id}"
        );
    }
}

#[test]
fn plain_neighbors_full_and_ranges() {
    let raw = nd(vec![1, 3, 7, 2, 4, 9], vec![0, 3, 6]);
    let plain = PlainNeighbors::from(raw.clone());

    assert_eq!(plain.len(), 6);
    assert_eq!(collect_all(&plain), vec![1, 3, 7, 2, 4, 9]);
    assert_eq!(collect_node(&plain, 0), vec![1, 3, 7]);
    assert_eq!(collect_node(&plain, 1), vec![2, 4, 9]);
    assert_eq!(
        plain.byte_size(&blocks_len),
        6 * std::mem::size_of::<u32>() + 3 * std::mem::size_of::<usize>()
    );
}

#[test]
fn elias_fano_offsets_roundtrip() {
    let raw = vec![0usize, 3, 7, 7, 10, 15];
    let ef = EliasFanoOffsets::from(raw.clone());

    assert_eq!(ef.len(), raw.len());
    for i in 0..raw.len() {
        assert_eq!(ef.get(i), raw[i], "offset mismatch at index {i}");
    }
    assert!(ef.byte_size(&sequence_len) > 0 || ef.len() == 0);
}

#[test]
fn stream_vbyte_neighbors_match_plain_single_segment() {
    let raw = nd(vec![1, 3, 7, 15, 31], vec![0, 5]);
    let svb = StreamVByteNeighbors::from(raw.clone());

    assert_neighbor_impl_matches_plain_by_segments(svb, &raw.data, &raw.offsets);
}

#[test]
fn stream_vbyte_neighbors_match_plain_multiple_segments() {
    let raw = nd(vec![2, 4, 8, 9, 3, 5, 11, 100, 101], vec![0, 4, 7, 9]);
    let svb = StreamVByteNeighbors::from(raw.clone());

    assert_neighbor_impl_matches_plain_by_segments(svb, &raw.data, &raw.offsets);
}

#[test]
fn stream_vbyte_neighbors_with_empty_segments() {
    let raw = nd(vec![1, 5, 9, 20], vec![0, 0, 2, 2, 4]);
    let svb = StreamVByteNeighbors::from(raw.clone());

    assert_neighbor_impl_matches_plain_by_segments(svb, &raw.data, &raw.offsets);
}

#[test]
fn empty_neighbors_are_supported() {
    let raw = nd(vec![], vec![0]);

    let plain = PlainNeighbors::from(raw.clone());
    let svb = StreamVByteNeighbors::from(raw.clone());

    assert_eq!(plain.len(), 0);
    assert_eq!(svb.len(), 0);

    assert!(collect_all(&plain).is_empty());
    assert!(collect_all(&svb).is_empty());
}

#[test]
fn default_stream_vbyte_is_empty() {
    let svb = StreamVByteNeighbors::default();
    assert_eq!(svb.len(), 0);
    assert!(collect_all(&svb).is_empty());
}

#[test]
fn byte_size_is_nonzero_for_nonempty_structures() {
    let raw = nd(vec![1, 2, 3, 8, 13, 21], vec![0, 3, 6]);

    let plain = PlainNeighbors::from(raw.clone());
    let svb = StreamVByteNeighbors::from(raw.clone());

    assert!(plain.byte_size(&blocks_len) > 0);
    assert!(svb.byte_size(&blocks_len) > 0);
}

#[test]
fn iterators_come_to_an_end() {
    let plain = PlainNeighbors::from(nd(vec![4, 6], vec![0, 2]));
    let mut iter = plain.iter_node(0);
    assert_eq!(iter.next(), Some(4));
    assert_eq!(iter.next(), Some(6));
    assert_eq!(iter.next(), None);
    assert_eq!(iter.next(), None);

    let svb = StreamVByteNeighbors::from(nd(vec![4, 6], vec![0, 2, 2]));
    let mut iter = svb.iter_node(0);
    assert_eq!(iter.next(), Some(4));
    assert_eq!(iter.next(), Some(6));
    assert_eq!(iter.next(), None);
    assert!(iter.collect().is_empty());
    assert_eq!(svb.iter_node(1).next(), None);
}

#[test]
fn lists_of_any_supported_length_are_read_back() {
    // Lists of up to 64 ids are read through a small buffer, longer ones through a large one.
    let mut data: Vec<u32> = Vec::new();
    let mut offsets: Vec<usize> = vec![0];
    for len in [64u32, 65, 256, 0, 1] {
        for i in 0..len {
            data.push(3 * i + len);
        }
        offsets.push(data.len());
    }
    let svb = StreamVByteNeighbors::from(nd(data.clone(), offsets.clone()));
    assert_eq!(svb.n_nodes(), 5);
    assert_neighbor_impl_matches_plain_by_segments(svb, &data, &offsets);
}

#[test]
fn empty_nodes_are_found_beyond_the_first_word() {
    let mut data: Vec<u32> = Vec::new();
    let mut offsets: Vec<usize> = vec![0];
    for node in 0..130u32 {
        if node % 3 != 0 {
            data.push(node);
        }
        offsets.push(data.len());
    }
    let svb = StreamVByteNeighbors::from(nd(data.clone(), offsets.clone()));
    assert_neighbor_impl_matches_plain_by_segments(svb, &data, &offsets);
}

#[test]
fn clones_hold_the_same_lists() {
    let raw = nd(vec![1, 5, 9, 20], vec![0, 0, 2, 2, 4]);
    let plain = PlainNeighbors::from(raw.clone()).clone();
    let svb = StreamVByteNeighbors::from(raw.clone()).clone();
    assert_neighbor_impl_matches_plain_by_segments(plain, &raw.data, &raw.offsets);
    assert_neighbor_impl_matches_plain_by_segments(svb, &raw.data, &raw.offsets);
}

#[test]
fn offsets_outside_are_not_found() {
    let ef = EliasFanoOffsets::from_slice(&[0, 2, 200]);
    assert_eq!(ef.try_get(2), Some(200));
    assert_eq!(ef.try_get(3), None);
    assert_eq!(EliasFanoOffsets::default().len(), 0);
    let copy = ef.clone();
    assert_eq!(copy.get(1), 2);
}

#[test]
fn encoders_are_asked_about_what_is_stored() {
    // Each offset is stored with its index added: 0, 3 and 202.
    let seen = |values: &Vec<usize>| {
        assert_eq!(values, &vec![0, 3, 202]);
        17
    };
    assert_eq!(EliasFanoOffsets::from_slice(&[0, 2, 200]).byte_size(&seen), 17);

    // Differences 1, 4 and 200, in blocks that begin at 0 and 2.
    let svb = StreamVByteNeighbors::from(nd(vec![1, 5, 200], vec![0, 2, 3]));
    let seen = |values: &Vec<u32>, offsets: &Vec<usize>| {
        assert_eq!(values, &vec![1, 4, 200]);
        assert_eq!(offsets, &vec![0, 2, 3]);
        17
    };
    assert_eq!(svb.byte_size(&seen), 17);
    assert_eq!(svb.clone().byte_size(&seen), 17);

    // An empty node holds a place of its own, and its word is counted.
    let gap = StreamVByteNeighbors::from(nd(vec![1], vec![0, 0, 1]));
    let seen = |values: &Vec<u32>, offsets: &Vec<usize>| {
        assert_eq!(values, &vec![0, 1]);
        assert_eq!(offsets, &vec![0, 1, 2]);
        17
    };
    assert_eq!(gap.byte_size(&seen), 17 + 8);
}

#[test]
fn there_are_no_blocks_by_default() {
    let seen = |values: &Vec<u32>, offsets: &Vec<usize>| {
        assert!(values.is_empty() && offsets.is_empty());
        5
    };
    assert_eq!(StreamVByteNeighbors::default().byte_size(&seen), 5);
    assert_eq!(StreamVByteNeighbors::none().n_nodes(), 0);
    // Lists of no nodes are blocks, though none.
    let none = StreamVByteNeighbors::from(nd(vec![], vec![]));
    let seen = |values: &Vec<u32>, offsets: &Vec<usize>| {
        assert!(values.is_empty());
        assert_eq!(offsets, &vec![0]);
        6
    };
    assert_eq!(none.byte_size(&seen), 6);
    assert_eq!(none.n_nodes(), 0);
}

#[test]
fn plain_lists_need_no_encoder() {
    let never = |_: &Vec<u32>, _: &Vec<usize>| panic!("there are no blocks");
    let plain = PlainNeighbors::from(nd(vec![4, 6], vec![0, 2]));
    assert_eq!(plain.byte_size(&never), 2 * 4 + 2 * std::mem::size_of::<usize>());
    assert_eq!(PlainNeighbors::default().byte_size(&never), 0);
}
