use vecdb_core::flat_index::{select_top_k, FlatIndex};

#[test]
fn flat_index_keeps_vectors_in_order() {
    let mut idx = FlatIndex::new(2);
    assert!(idx.is_empty());
    idx.insert(10, &[1, 2]);
    idx.insert(20, &[3, 4]);
    assert_eq!(idx.len(), 2);
    assert!(!idx.is_empty());
    assert_eq!(idx.vector(0), &[1, 2]);
    assert_eq!(idx.vector(1), &[3, 4]);
    assert_eq!(idx.dim(), 2);
}

#[test]
fn flat_search_returns_best_first() {
    let mut idx = FlatIndex::new(1);
    idx.insert(1, &[0]);
    idx.insert(2, &[0]);
    idx.insert(3, &[0]);
    idx.insert(4, &[0]);
    let r = idx.search(&[5, 9, 7, 1], 2);
    assert_eq!(r, vec![(2, 9), (3, 7)]);
    let all = idx.search(&[5, 9, 7, 1], 10);
    assert_eq!(all, vec![(2, 9), (3, 7), (1, 5), (4, 1)]);
    assert!(idx.search(&[5, 9, 7, 1], 0).is_empty());
}

#[test]
fn top_k_of_nothing_is_empty() {
    assert!(select_top_k(&[], &[], 3).is_empty());
}

#[test]
fn top_k_with_ties_keeps_k_entries() {
    let r = select_top_k(&[1, 2, 3], &[4, 4, 4], 2);
    assert_eq!(r.len(), 2);
    assert!(r.iter().all(|e| e.1 == 4));
    assert_ne!(r[0].0, r[1].0);
}
