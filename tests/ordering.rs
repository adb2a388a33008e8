use modern_icp::order::{order_key_of_bits, sort_by_distance};

#[test]
fn sort_by_distance_orders_ascending() {
    let (perm, sorted) = sort_by_distance(&[30, 10, 20]);
    assert_eq!(perm, vec![1, 2, 0]);
    assert_eq!(sorted, vec![10, 20, 30]);
}

#[test]
fn sort_by_distance_keeps_equal_keys_in_order() {
    let (perm, sorted) = sort_by_distance(&[2, 1, 2, 1, 0]);
    assert_eq!(perm, vec![4, 1, 3, 0, 2]);
    assert_eq!(sorted, vec![0, 1, 1, 2, 2]);
}

#[test]
fn sort_by_distance_of_nothing() {
    let (perm, sorted) = sort_by_distance(&[]);
    assert!(perm.is_empty());
    assert!(sorted.is_empty());
}

#[test]
fn sort_by_distance_handles_largest_keys() {
    let (perm, _) = sort_by_distance(&[u64::MAX, 0, u64::MAX]);
    assert_eq!(perm, vec![1, 0, 2]);
}

fn key(x: f64) -> u64 {
    order_key_of_bits(x.to_bits())
}

#[test]
fn order_key_follows_the_order_of_doubles() {
    let values = [-1e300, -2.5, -1.0, -1e-300, 0.0, 1e-300, 0.5, 1.0, 2.5, 1e300];
    for w in values.windows(2) {
        assert!(key(w[0]) < key(w[1]), "{} < {}", w[0], w[1]);
    }
}

#[test]
fn order_key_formula() {
    assert_eq!(order_key_of_bits(0), 0x8000_0000_0000_0000);
    assert_eq!(order_key_of_bits(1.0f64.to_bits()), 1.0f64.to_bits() | 0x8000_0000_0000_0000);
    assert_eq!(order_key_of_bits((-1.0f64).to_bits()), !(-1.0f64).to_bits());
}

#[test]
fn sorting_keys_sorts_distances() {
    let distances = [0.25f64, 4.0, 0.0, 1.5, 0.25];
    let keys: Vec<u64> = distances.iter().map(|d| key(*d)).collect();
    let (perm, _) = sort_by_distance(&keys);
    assert_eq!(perm, vec![2, 0, 4, 3, 1]);
}

#[test]
fn position_triples_groups_coordinates() {
    let triples = modern_icp::cloud::position_triples(&[1.0f32, 2.0, 3.0, 4.0, 5.0, 6.0]);
    assert_eq!(triples, vec![[1.0, 2.0, 3.0], [4.0, 5.0, 6.0]]);
    let none: Vec<[u8; 3]> = modern_icp::cloud::position_triples(&[]);
    assert!(none.is_empty());
}
