use kannolo::heap::{CandidateHeap, ScoredItem, TopHeap};
use kannolo::sorted::{dedup, sort_dedup};
use kannolo::visited::VisitedSet;

fn item(distance: u64, vector: usize) -> ScoredItem {
    ScoredItem { distance, vector }
}

#[test]
fn the_farthest_item_leaves_first() {
    let mut heap = TopHeap::new();
    assert_eq!(heap.pop(), None);
    for i in [item(3, 0), item(7, 1), item(1, 2), item(7, 0)] {
        heap.push(i);
    }
    assert_eq!(heap.len(), 4);
    assert_eq!(heap.peek(), Some(item(7, 1)));
    assert_eq!(heap.pop(), Some(item(7, 1)));
    assert_eq!(heap.pop(), Some(item(7, 0)));
    assert_eq!(heap.pop(), Some(item(3, 0)));
    assert_eq!(heap.pop(), Some(item(1, 2)));
    assert!(heap.is_empty());
}

#[test]
fn the_nearest_candidate_leaves_first() {
    let mut heap = CandidateHeap::new();
    for i in [item(3, 0), item(7, 1), item(1, 2), item(1, 1)] {
        heap.push(i);
    }
    assert_eq!(heap.pop(), Some(item(1, 1)));
    assert_eq!(heap.pop(), Some(item(1, 2)));
    assert_eq!(heap.pop(), Some(item(3, 0)));
    assert_eq!(heap.pop(), Some(item(7, 1)));
    assert_eq!(heap.pop(), None);
}

#[test]
fn heaps_are_sorted_nearest_first() {
    let mut heap = TopHeap::new();
    let mut expected: Vec<(u64, usize)> = Vec::new();
    for i in 0..40usize {
        let d = ((i * 29) % 17) as u64;
        heap.push(item(d, i));
        expected.push((d, i));
    }
    expected.sort();
    let sorted: Vec<(u64, usize)> =
        heap.into_sorted_vec().iter().map(|i| (i.distance, i.vector)).collect();
    assert_eq!(sorted, expected);
}

#[test]
fn lists_become_sorted_sets() {
    assert_eq!(sort_dedup(vec![5, 1, 5, 0, 1]), vec![0, 1, 5]);
    assert_eq!(sort_dedup(vec![]), Vec::<u32>::new());
    assert_eq!(dedup(&vec![1, 1, 2, 3, 3, 3]), vec![1, 2, 3]);
    // A sorted set stays as it is.
    assert_eq!(sort_dedup(vec![0, 1, 5]), vec![0, 1, 5]);
}

#[test]
fn visited_nodes_are_remembered() {
    let mut visited = VisitedSet::new(100);
    assert!(!visited.contains(64));
    visited.insert(64);
    assert!(visited.contains(64));
    assert!(!visited.contains(63));
    assert!(!visited.contains(0));
}
