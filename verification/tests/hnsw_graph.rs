use std::collections::HashMap;
use vecdb_core::hnsw::{level_from_draws, matches_filter, HnswIndex, Payload, EF_CONSTRUCTION, MAX_LEVEL};

fn obj(fields: &[(&str, &str)]) -> Payload {
    Payload::Object(
        fields.iter().map(|(k, v)| (k.as_bytes().to_vec(), v.as_bytes().to_vec())).collect(),
    )
}

/// A key function that gives a vector the key listed for its first component.
fn keys(pairs: &[(u32, u32)]) -> impl Fn(&Vec<u32>) -> u32 {
    let table: HashMap<u32, u32> = pairs.iter().cloned().collect();
    move |v: &Vec<u32>| table[&v[0]]
}

fn three_node_index() -> HnswIndex {
    let mut idx = HnswIndex::new(2);
    let build = keys(&[(1, 10), (2, 20), (3, 30)]);
    idx.insert_with_level(1, vec![1, 1], obj(&[("color", "\"red\"")]), 0, &build);
    idx.insert_with_level(2, vec![2, 2], obj(&[("color", "\"blue\"")]), 0, &build);
    idx.insert_with_level(3, vec![3, 3], obj(&[("color", "\"red\"")]), 0, &build);
    idx
}

#[test]
fn new_index_is_empty() {
    let idx = HnswIndex::new(3);
    assert_eq!(idx.len(), 0);
    assert_eq!(idx.entry_point, None);
    assert_eq!(idx.ef_construction, EF_CONSTRUCTION);
    assert!(idx.search(&|_: &Vec<u32>| 0u32, 5, 10, None).is_empty());
}

#[test]
fn first_insert_becomes_entry_point() {
    let mut idx = HnswIndex::new(2);
    idx.insert_with_level(7, vec![7, 0], Payload::Other(b"null".to_vec()), 2, &keys(&[(7, 1)]));
    assert_eq!(idx.entry_point, Some(7));
    assert_eq!(idx.max_layer, 2);
    assert_eq!(idx.len(), 1);
    assert_eq!(idx.nodes[&7].neighbours.len(), 3);
    assert_eq!(idx.search(&keys(&[(7, 5)]), 1, 10, None), vec![(7, 5)]);
}

#[test]
fn links_are_bidirectional() {
    let idx = three_node_index();
    assert_eq!(idx.nodes[&1].neighbours[0], vec![2, 3]);
    assert_eq!(idx.nodes[&2].neighbours[0], vec![1, 3]);
    assert_eq!(idx.nodes[&3].neighbours[0], vec![1, 2]);
    assert_eq!(idx.len(), 3);
}

#[test]
fn search_returns_smallest_keys_first() {
    let idx = three_node_index();
    let q = keys(&[(1, 30), (2, 10), (3, 20)]);
    assert_eq!(idx.search(&q, 2, 2, None), vec![(2, 10), (3, 20)]);
    assert_eq!(idx.search(&q, 3, 50, None), vec![(2, 10), (3, 20), (1, 30)]);
    assert!(idx.search(&q, 0, 50, None).is_empty());
}

#[test]
fn search_applies_filter() {
    let idx = three_node_index();
    let q = keys(&[(1, 30), (2, 10), (3, 20)]);
    let red = obj(&[("color", "\"red\"")]);
    assert_eq!(idx.search(&q, 3, 10, Some(&red)), vec![(3, 20), (1, 30)]);
    let green = obj(&[("color", "\"green\"")]);
    assert!(idx.search(&q, 3, 10, Some(&green)).is_empty());
}

#[test]
fn deleted_nodes_are_not_returned() {
    let mut idx = three_node_index();
    idx.delete(3);
    assert_eq!(idx.len(), 2);
    let q = keys(&[(1, 30), (2, 10), (3, 20)]);
    assert_eq!(idx.search(&q, 3, 10, None), vec![(2, 10), (1, 30)]);
    idx.delete(3);
    idx.delete(99);
    assert_eq!(idx.len(), 2);
}

#[test]
fn reinsert_keeps_count() {
    let mut idx = three_node_index();
    let build = keys(&[(1, 10), (2, 20), (3, 30), (9, 5)]);
    idx.insert_with_level(2, vec![9, 9], Payload::Other(b"1".to_vec()), 0, &build);
    assert_eq!(idx.len(), 3);
    assert_eq!(idx.nodes[&2].vector, vec![9, 9]);
}

#[test]
fn upper_layers_route_to_layer_zero() {
    let mut idx = HnswIndex::new(1);
    let build = keys(&[(1, 1), (2, 2), (3, 3), (4, 4)]);
    idx.insert_with_level(1, vec![1], Payload::Other(b"null".to_vec()), 0, &build);
    idx.insert_with_level(2, vec![2], Payload::Other(b"null".to_vec()), 2, &build);
    assert_eq!(idx.entry_point, Some(2));
    assert_eq!(idx.max_layer, 2);
    idx.insert_with_level(3, vec![3], Payload::Other(b"null".to_vec()), 1, &build);
    idx.insert_with_level(4, vec![4], Payload::Other(b"null".to_vec()), 0, &build);
    assert_eq!(idx.nodes[&3].neighbours[1], vec![2]);
    assert!(idx.nodes[&2].neighbours[1].contains(&3));
    let q = keys(&[(1, 4), (2, 3), (3, 2), (4, 1)]);
    let r = idx.search(&q, 4, 10, None);
    assert_eq!(r, vec![(4, 1), (3, 2), (2, 3), (1, 4)]);
}

#[test]
fn random_levels_stay_in_range() {
    let idx = HnswIndex::new(1);
    for _ in 0..1000 {
        assert!(idx.random_level().0 <= MAX_LEVEL);
    }
    // Each further level has probability one half: about half the draws
    // stay on level 0.
    let zeros = (0..2000).filter(|_| idx.random_level().0 == 0).count();
    assert!(700 < zeros && zeros < 1300, "{} of 2000 draws on level 0", zeros);
}

#[test]
fn random_insert_is_searchable() {
    let mut idx = HnswIndex::new(1);
    for id in 0..20u64 {
        let build = |v: &Vec<u32>| (v[0] * 7 % 11) as u32;
        idx.insert(id, vec![id as u32], Payload::Other(b"null".to_vec()), &build);
    }
    assert_eq!(idx.len(), 20);
    let q = |v: &Vec<u32>| v[0];
    let r = idx.search(&q, 5, 50, None);
    assert!(r.len() <= 5 && !r.is_empty());
    for w in r.windows(2) {
        assert!(w[0].1 <= w[1].1);
    }
}

#[test]
fn filter_requires_objects_and_equal_members() {
    let p = obj(&[("a", "1"), ("b", "\"x\"")]);
    assert!(matches_filter(&p, &obj(&[("a", "1")])));
    assert!(matches_filter(&p, &obj(&[])));
    assert!(matches_filter(&p, &obj(&[("b", "\"x\""), ("a", "1")])));
    assert!(!matches_filter(&p, &obj(&[("a", "2")])));
    assert!(!matches_filter(&p, &obj(&[("c", "1")])));
    assert!(!matches_filter(&p, &Payload::Other(b"null".to_vec())));
    assert!(!matches_filter(&Payload::Other(b"[]".to_vec()), &obj(&[])));
}

#[test]
fn nearest_node_ranks_first() {
    // Keys are distances: the stored copy of the query has distance 0.
    let mut idx = HnswIndex::new(2);
    idx.insert_with_level(1, vec![1, 0], Payload::Other(b"null".to_vec()), 0, &keys(&[(1, 0)]));
    idx.insert_with_level(2, vec![0, 1], Payload::Other(b"null".to_vec()), 0, &keys(&[(1, 100), (0, 0)]));
    let q = keys(&[(1, 0), (0, 100)]);
    assert_eq!(idx.search(&q, 2, 50, None), vec![(1, 0), (2, 100)]);
    assert_eq!(idx.search(&q, 1, 50, None), vec![(1, 0)]);
}

#[test]
fn new_links_take_the_closest_first() {
    let mut idx = HnswIndex::new(1);
    let build = keys(&[(1, 50), (2, 10), (3, 30), (4, 0)]);
    for id in 1..=3u64 {
        idx.insert_with_level(id, vec![id as u32], Payload::Other(b"null".to_vec()), 0, &build);
    }
    idx.insert_with_level(4, vec![4], Payload::Other(b"null".to_vec()), 0, &build);
    assert_eq!(idx.nodes[&4].neighbours[0], vec![2, 3, 1]);
    for x in [1u64, 2, 3] {
        assert!(idx.nodes[&x].neighbours[0].contains(&4));
    }
}

#[test]
fn search_stays_within_reach_of_the_entry_point() {
    let mut idx = three_node_index();
    assert_eq!(idx.entry_point, Some(1));
    idx.nodes.get_mut(&1).unwrap().neighbours[0].clear();
    for x in [2u64, 3] {
        idx.nodes.get_mut(&x).unwrap().neighbours[0].retain(|&y| y != 1);
    }
    let q = keys(&[(1, 30), (2, 10), (3, 20)]);
    assert_eq!(idx.search(&q, 3, 50, None), vec![(1, 30)]);
}

#[test]
fn level_counts_leading_small_draws() {
    assert_eq!(level_from_draws(&[]), 0);
    assert_eq!(level_from_draws(&[0x8000_0000]), 0);
    assert_eq!(level_from_draws(&[0x7FFF_FFFF, 0x8000_0000]), 1);
    assert_eq!(level_from_draws(&[1, 2, 0x9000_0000, 3]), 2);
    assert_eq!(level_from_draws(&[0u32; 20]), MAX_LEVEL);
    assert_eq!(level_from_draws(&[5u32; 16]), 16);
}

#[test]
fn random_inserts_keep_a_consistent_graph() {
    let mut idx = HnswIndex::new(1);
    for id in 0..40u64 {
        let build = |v: &Vec<u32>| ((v[0] as u64 * 37 + id * 11) % 101) as u32;
        idx.insert(id, vec![id as u32], Payload::Other(b"null".to_vec()), &build);
    }
    let ep = idx.entry_point.expect("non-empty graph has an entry point");
    assert_eq!(idx.nodes[&ep].max_layer, idx.max_layer);
    for (a, node) in idx.nodes.iter() {
        assert_eq!(node.neighbours.len(), node.max_layer + 1);
        for (l, list) in node.neighbours.iter().enumerate() {
            for b in list {
                let other = &idx.nodes[b];
                assert!(l <= other.max_layer, "{} lists {} on layer {}", a, b, l);
                assert!(other.neighbours[l].contains(a), "{} -> {} on layer {} not mirrored", a, b, l);
            }
        }
    }
    // Every node links to the graph on layer 0, so a search keeping more
    // candidates than there are nodes reaches and returns all of them.
    let q = |v: &Vec<u32>| 39 - v[0];
    let all = idx.search(&q, 40, 100, None);
    let expected: Vec<(u64, u32)> = (0..40u64).rev().map(|i| (i, (39 - i) as u32)).collect();
    assert_eq!(all, expected);
}

#[test]
fn deleted_node_stays_hidden_after_reinsert() {
    let mut idx = three_node_index();
    idx.delete(3);
    let build = keys(&[(1, 10), (2, 20), (3, 30), (4, 40)]);
    idx.insert_with_level(3, vec![3, 3], obj(&[("color", "\"red\"")]), 0, &build);
    idx.insert_with_level(4, vec![4, 4], Payload::Other(b"null".to_vec()), 0, &build);
    let q = keys(&[(1, 30), (2, 10), (3, 0), (4, 20)]);
    let r = idx.search(&q, 4, 50, None);
    assert_eq!(r, vec![(2, 10), (4, 20), (1, 30)]);
}
