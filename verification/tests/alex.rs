use seerdb::alex::routing::{
    calculate_fanout, calculate_height, extract_split_keys, find_child, handle_leaf_split, partition_leaves,
};
use seerdb::alex::gapped::{
    binary_search_exact, binary_search_gap, exponential_search, find_any_gap, find_insert_position,
    find_leaf_index, find_nearest_gap, get_key_at, range_from_leaf, shift_and_insert,
};

#[test]
fn gapped_key_at_and_exact_search() {
    let keys = vec![Some(1), None, Some(5), Some(5), None, Some(9)];
    assert_eq!(get_key_at(&keys, 0), Some(1));
    assert_eq!(get_key_at(&keys, 1), None);
    assert_eq!(get_key_at(&keys, 6), None);
    assert_eq!(binary_search_exact(&keys, 0, 6, 5), Some(2));
    assert_eq!(binary_search_exact(&keys, 3, 6, 5), Some(3));
    assert_eq!(binary_search_exact(&keys, 4, 6, 5), None);
    assert_eq!(binary_search_exact(&keys, 0, 0, 1), None);
}

#[test]
fn gapped_gap_search() {
    let keys = vec![Some(1), None, Some(5), None, None, Some(9)];
    assert_eq!(binary_search_gap(&keys, 0, 6, 3), 1);
    assert_eq!(binary_search_gap(&keys, 0, 6, 5), 1);
    assert_eq!(binary_search_gap(&keys, 0, 6, 0), 0);
    assert_eq!(binary_search_gap(&keys, 2, 6, 5), 2);
    assert_eq!(binary_search_gap(&keys, 2, 6, 7), 3);
    let packed = vec![Some(1), Some(3), None, Some(7)];
    assert_eq!(binary_search_gap(&packed, 0, 4, 5), 2);
    assert_eq!(binary_search_gap(&packed, 0, 4, 3), 1);
    let full = vec![Some(1), Some(2)];
    assert_eq!(binary_search_gap(&full, 0, 2, 5), 1);
    assert_eq!(binary_search_gap(&full, 0, 0, 5), 0);
}

#[test]
fn gapped_nearest_and_any_gap() {
    let keys = vec![Some(1), Some(2), None, Some(4), Some(5), None];
    assert_eq!(find_nearest_gap(&keys, 0), 2);
    assert_eq!(find_nearest_gap(&keys, 4), 5);
    assert_eq!(find_nearest_gap(&keys, 3), 2);
    assert_eq!(find_any_gap(&keys), 2);
    let full = vec![Some(1), Some(2)];
    assert_eq!(find_nearest_gap(&full, 1), 1);
    assert_eq!(find_any_gap(&full), 1);
}

#[test]
fn gapped_shift_towards_gap() {
    let mut keys = vec![Some(1), Some(3), Some(4), None];
    let mut values = vec![Some(vec![1]), Some(vec![3]), Some(vec![4]), None];
    shift_and_insert(&mut keys, &mut values, 1, 2, vec![2]);
    assert_eq!(keys, vec![Some(1), Some(2), Some(3), Some(4)]);
    assert_eq!(values, vec![Some(vec![1]), Some(vec![2]), Some(vec![3]), Some(vec![4])]);

    let mut keys = vec![None, Some(1), Some(3), Some(5)];
    let mut values = vec![None, Some(vec![1]), Some(vec![3]), Some(vec![5])];
    shift_and_insert(&mut keys, &mut values, 2, 4, vec![4]);
    assert_eq!(keys, vec![Some(1), Some(3), Some(4), Some(5)]);
    assert_eq!(values, vec![Some(vec![1]), Some(vec![3]), Some(vec![4]), Some(vec![5])]);
}

#[test]
fn gapped_exponential_search_and_insert_position() {
    let mut keys = vec![None; 40];
    for i in 0..20 {
        keys[2 * i] = Some(10 * i as i64);
    }
    assert_eq!(exponential_search(&keys, 50, 10, 4), Some(10));
    assert_eq!(exponential_search(&keys, 50, 0, 4), Some(10));
    assert_eq!(exponential_search(&keys, 55, 11, 4), None);
    assert_eq!(find_insert_position(&keys, 20, 55, 11, 4), 1);
    assert_eq!(find_insert_position(&keys, 0, 55, 11, 4), 0);
}

#[test]
fn alex_leaf_routing() {
    let split_keys = vec![10, 20, 30];
    assert_eq!(find_leaf_index(&split_keys, 5), 0);
    assert_eq!(find_leaf_index(&split_keys, 10), 1);
    assert_eq!(find_leaf_index(&split_keys, 25), 2);
    assert_eq!(find_leaf_index(&split_keys, 30), 3);
    assert_eq!(find_leaf_index(&[], 7), 0);
}

#[test]
fn alex_range_from_leaf() {
    let pairs = vec![(1, vec![1]), (3, vec![3]), (5, vec![5]), (7, vec![7])];
    let mut results = Vec::new();
    assert!(!range_from_leaf(&pairs, 2, 9, &mut results));
    assert_eq!(results, vec![(3, vec![3]), (5, vec![5]), (7, vec![7])]);
    let mut results = vec![(0, vec![0])];
    assert!(range_from_leaf(&pairs, 0, 4, &mut results));
    assert_eq!(results, vec![(0, vec![0]), (1, vec![1]), (3, vec![3])]);
}

#[test]
fn routing_height_and_fanout() {
    assert_eq!(calculate_height(0), 1);
    assert_eq!(calculate_height(10_000), 1);
    assert_eq!(calculate_height(10_001), 2);
    assert_eq!(calculate_height(10_000_001), 3);
    assert_eq!(calculate_fanout(3), 16);
    assert_eq!(calculate_fanout(40), 40);
    assert_eq!(calculate_fanout(1000), 64);
}

#[test]
fn routing_partition_and_split_keys() {
    let leaves: Vec<(i64, usize)> = (0..10).map(|i| (10 * i as i64, i)).collect();
    let groups = partition_leaves(&leaves, 3);
    assert_eq!(groups.len(), 3);
    assert_eq!(groups[0], leaves[0..4].to_vec());
    assert_eq!(groups[1], leaves[4..8].to_vec());
    assert_eq!(groups[2], leaves[8..10].to_vec());
    assert_eq!(extract_split_keys(&groups), vec![40, 80]);
    assert_eq!(extract_split_keys(&[]), Vec::<i64>::new());
    assert_eq!(extract_split_keys(&[vec![], vec![], vec![(5, 1)]]), vec![5]);
}

#[test]
fn routing_child_and_leaf_split() {
    let split_keys = vec![10, 20, 30];
    assert_eq!(find_child(&split_keys, 5, 4), 0);
    assert_eq!(find_child(&split_keys, 10, 4), 0);
    assert_eq!(find_child(&split_keys, 15, 4), 1);
    assert_eq!(find_child(&split_keys, 99, 4), 3);
    assert_eq!(find_child(&split_keys, 99, 2), 1);

    let mut indices = vec![0, 2, 1];
    let mut keys = vec![10, 20];
    handle_leaf_split(&mut indices, &mut keys, 2, 15, 3);
    assert_eq!(indices, vec![0, 2, 3, 1]);
    assert_eq!(keys, vec![10, 15, 20]);
    handle_leaf_split(&mut indices, &mut keys, 1, 40, 4);
    assert_eq!(indices, vec![0, 2, 3, 1, 4]);
    assert_eq!(keys, vec![10, 15, 20, 40]);
}
