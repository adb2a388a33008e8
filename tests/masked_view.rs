use modern_icp::masked::MaskedPointCloud;

fn cloud() -> Vec<(i32, i32)> {
    vec![(0, 10), (1, 11), (2, 12), (3, 13), (4, 14)]
}

#[test]
fn new_view_holds_every_point_in_order() {
    let c = cloud();
    let view = MaskedPointCloud::new(&c);
    assert_eq!(view.len(), 5);
    assert!(!view.is_empty());
    assert_eq!(view.decompose(), vec![0, 1, 2, 3, 4]);
}

#[test]
fn new_view_of_empty_cloud_is_empty() {
    let c: Vec<(i32, i32)> = vec![];
    let view = MaskedPointCloud::new(&c);
    assert!(view.is_empty());
    assert_eq!(view.len(), 0);
}

#[test]
fn with_mask_keeps_marked_points() {
    let c = cloud();
    let view = MaskedPointCloud::with_mask(&c, &[true, false, true, false, true]);
    assert_eq!(view.len(), 3);
    assert_eq!(*view.get(1), (2, 12));
    assert_eq!(view.decompose(), vec![0, 2, 4]);
}

#[test]
fn add_mask_filters_active_positions() {
    let c = cloud();
    let mut view = MaskedPointCloud::compose(&c, vec![4, 2, 0, 3]);
    view.add_mask(&[false, true, true, false]);
    assert_eq!(view.decompose(), vec![2, 0]);
}

#[test]
fn add_order_permutes_active_indices() {
    let c = cloud();
    let mut view = MaskedPointCloud::compose(&c, vec![4, 2, 0]);
    view.add_order(&[2, 0, 1]);
    assert_eq!(view.plain_index(0), 0);
    assert_eq!(view.decompose(), vec![0, 4, 2]);
}

#[test]
fn add_order_may_repeat_and_drop_positions() {
    let c = cloud();
    let mut view = MaskedPointCloud::new(&c);
    view.add_order(&[3, 3]);
    assert_eq!(view.decompose(), vec![3, 3]);
}

#[test]
fn set_empty_clears_the_view() {
    let c = cloud();
    let mut view = MaskedPointCloud::new(&c);
    view.set_empty();
    assert!(view.is_empty());
    assert_eq!(view.decompose(), Vec::<usize>::new());
}

#[test]
fn extend_appends_and_allows_duplicates() {
    let c = cloud();
    let mut view = MaskedPointCloud::compose(&c, vec![1, 2]);
    let other = MaskedPointCloud::compose(&c, vec![2, 4]);
    view.extend(&other);
    assert_eq!(view.decompose(), vec![1, 2, 2, 4]);
}

#[test]
fn compose_then_decompose_is_identity() {
    let c = cloud();
    let indices = vec![3, 1, 1, 0];
    let view = MaskedPointCloud::compose(&c, indices.clone());
    assert_eq!(view.decompose(), indices);
}

#[test]
fn view_operations_keep_indices_in_range() {
    let c = cloud();
    let mut view = MaskedPointCloud::new(&c);
    view.add_mask(&[true, true, false, true, true]);
    view.add_order(&[3, 0, 2]);
    let other = MaskedPointCloud::with_mask(&c, &[false, false, true, false, false]);
    view.extend(&other);
    view.add_mask(&[true, false, true, true]);
    let indices = view.decompose();
    assert_eq!(indices, vec![4, 3, 2]);
    assert!(indices.iter().all(|i| *i < c.len()));
    let again = MaskedPointCloud::compose(&c, indices.clone());
    assert_eq!(again.decompose(), indices);
    let mut emptied = MaskedPointCloud::new(&c);
    emptied.set_empty();
    assert_eq!(emptied.decompose(), Vec::<usize>::new());
}

#[test]
fn get_reads_points_through_the_view() {
    let c = cloud();
    let view = MaskedPointCloud::compose(&c, vec![4, 0]);
    assert_eq!(*view.get(0), (4, 14));
    assert_eq!(*view.get(1), (0, 10));
}

#[test]
fn sort_by_key_is_stable_and_ascending() {
    let c = vec![(0, 5u64), (1, 3), (2, 5), (3, 1), (4, 3)];
    let mut view = MaskedPointCloud::new(&c);
    view.sort_by_key(|p: &(i32, u64)| p.1);
    assert_eq!(view.decompose(), vec![3, 1, 4, 0, 2]);
}

#[test]
fn sort_by_key_orders_only_active_points() {
    let c = vec![(0, 9u64), (1, 7), (2, 8), (3, 6)];
    let mut view = MaskedPointCloud::compose(&c, vec![2, 0, 1]);
    view.sort_by_key(|p: &(i32, u64)| p.1);
    assert_eq!(view.decompose(), vec![1, 2, 0]);
}
