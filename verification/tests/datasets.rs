use kannolo::datasets::{
    decode_packed_dataset, permute_dense_dataset, permute_packed_dataset,
    permute_packed_dataset_narrowed, permute_plain_sparse_dataset, permute_scalar_sparse_dataset,
    DenseDataset, SparseDataset, SparseVector,
};
use kannolo::hnsw_utils::{invert_mapping, validate_permutation, PermutationError};

fn vector(components: Vec<u16>, values: Vec<f32>) -> SparseVector<u16, f32> {
    SparseVector { components, values }
}

fn sample() -> SparseDataset<u16, f32> {
    let mut dataset = SparseDataset::new(10);
    dataset.push(&vector(vec![1, 4], vec![0.5, 1.5]));
    dataset.push(&vector(vec![], vec![]));
    dataset.push(&vector(vec![9], vec![2.0]));
    dataset
}

#[test]
fn dense_rows_move_to_their_new_ids() {
    let dataset = DenseDataset::from_raw(vec![1.0f32, 2.0, 3.0, 4.0, 5.0, 6.0], 3, 2);
    let permuted = permute_dense_dataset(&dataset, &[2, 0, 1]);
    assert_eq!(permuted.len(), 3);
    assert_eq!(permuted.output_dim(), 2);
    assert_eq!(permuted.values(), &vec![3.0f32, 4.0, 5.0, 6.0, 1.0, 2.0]);
}

#[test]
fn dense_datasets_can_be_empty() {
    let dataset: DenseDataset<u8> = DenseDataset::from_raw(vec![], 0, 4);
    let permuted = permute_dense_dataset(&dataset, &[]);
    assert_eq!(permuted.len(), 0);
    assert!(permuted.values().is_empty());
}

#[test]
fn sparse_vectors_move_to_their_new_ids() {
    let permuted = permute_plain_sparse_dataset(&sample(), &[1, 2, 0]);
    assert_eq!(permuted.len(), 3);
    assert_eq!(permuted.output_dim(), 10);
    assert_eq!(permuted.get(0).components, vec![9]);
    assert_eq!(permuted.get(1).components, vec![1, 4]);
    assert_eq!(permuted.get(1).values, vec![0.5, 1.5]);
    assert!(permuted.get(2).values.is_empty());
    let scalar = permute_scalar_sparse_dataset(&sample(), &[1, 2, 0]);
    assert_eq!(scalar.get(0).values, vec![2.0]);
    assert_eq!(scalar.get(1).values, vec![0.5, 1.5]);
}

#[test]
fn packed_vectors_are_decoded_in_their_new_order() {
    let dataset = sample();
    let decode = |id: usize| dataset.get(id);
    let vectors = permute_packed_dataset(&[1, 2, 0], &decode);
    assert_eq!(vectors.len(), 3);
    assert_eq!(vectors[0].components, vec![9]);
    assert_eq!(vectors[1].values, vec![0.5, 1.5]);
    assert!(vectors[2].components.is_empty());
    let narrow = |value: f32| (value * 2.0) as u8;
    let narrowed = permute_packed_dataset_narrowed(&[1, 2, 0], &decode, &narrow);
    assert_eq!(narrowed[0].values, vec![4]);
    assert_eq!(narrowed[1].components, vec![1, 4]);
    assert_eq!(narrowed[1].values, vec![1, 3]);
}

#[test]
fn decoding_keeps_the_order() {
    let dataset = sample();
    let decode = |id: usize| dataset.get(id);
    let plain = decode_packed_dataset(3, 10, &decode);
    assert_eq!(plain.len(), 3);
    assert_eq!(plain.output_dim(), 10);
    assert_eq!(plain.get(0).values, vec![0.5, 1.5]);
    assert_eq!(plain.get(2).components, vec![9]);
}

#[test]
fn inverses_are_mutual() {
    let mapping = [2usize, 0, 3, 1];
    let inverse = invert_mapping(&mapping);
    assert_eq!(inverse, vec![1, 3, 0, 2]);
    assert_eq!(invert_mapping(&inverse), mapping.to_vec());
}

#[test]
fn faults_of_a_permutation_are_told() {
    assert_eq!(validate_permutation(&[]), Ok(()));
    assert_eq!(validate_permutation(&[1, 0]), Ok(()));
    assert_eq!(validate_permutation(&[0, 3, 3]), Err(PermutationError::OutOfRange { index: 1 }));
    assert_eq!(validate_permutation(&[2, 0, 2]), Err(PermutationError::Duplicate { index: 2 }));
}
