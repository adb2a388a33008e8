use modern_icp::masked::MaskedPointCloud;
use modern_icp::order::order_key_of_bits;
use modern_icp::reject::{
    add_mask_to_pair, drop_farthest_pair, first_max_index, keep_all, reject_by_overlap_count,
    reject_n_sigma_scores, refine_global_mask, drop_unmarked,
};

fn key(x: f64) -> u64 {
    order_key_of_bits((x + 0.0).to_bits())
}

#[test]
fn keep_all_marks_everything_and_leaves_views() {
    let c = vec![1, 2, 3];
    let mut x = MaskedPointCloud::new(&c);
    let mut y = MaskedPointCloud::compose(&c, vec![2, 1, 0]);
    let mask = keep_all(&mut x, &mut y, &[0.1f64, 0.2, 0.3]);
    assert_eq!(mask, vec![true, true, true]);
    assert_eq!(x.decompose(), vec![0, 1, 2]);
    assert_eq!(y.decompose(), vec![2, 1, 0]);
}

#[test]
fn keep_all_of_no_distances() {
    let c: Vec<i32> = vec![];
    let mut x = MaskedPointCloud::new(&c);
    let mut y = MaskedPointCloud::new(&c);
    let none: [f64; 0] = [];
    assert!(keep_all(&mut x, &mut y, &none).is_empty());
}

#[test]
fn add_mask_to_pair_filters_both_views() {
    let c = vec![1, 2, 3];
    let mut x = MaskedPointCloud::new(&c);
    let mut y = MaskedPointCloud::compose(&c, vec![2, 1, 0]);
    add_mask_to_pair(&mut x, &mut y, &[true, false, true]);
    assert_eq!(x.decompose(), vec![0, 2]);
    assert_eq!(y.decompose(), vec![2, 0]);
}

#[test]
fn n_sigma_keeps_everything_below_two_entries() {
    let c = vec![1];
    let mut x = MaskedPointCloud::new(&c);
    let mut y = MaskedPointCloud::new(&c);
    let mask = reject_n_sigma_scores(&mut x, &mut y, &[key(100.0)], key(3.0));
    assert_eq!(mask, vec![true]);
    assert_eq!(x.len(), 1);
    assert_eq!(y.len(), 1);
}

#[test]
fn n_sigma_rejects_scores_above_n() {
    let c = vec![0, 1, 2, 3];
    let mut x = MaskedPointCloud::new(&c);
    let mut y = MaskedPointCloud::compose(&c, vec![3, 2, 1, 0]);
    let scores = [-0.5, 3.0, 3.5, 1.0];
    let keys: Vec<u64> = scores.iter().map(|s| key(*s)).collect();
    let mask = reject_n_sigma_scores(&mut x, &mut y, &keys, key(3.0));
    assert_eq!(mask, vec![true, true, false, true]);
    assert_eq!(x.decompose(), vec![0, 1, 3]);
    assert_eq!(y.decompose(), vec![3, 2, 0]);
}

fn kept_at(n: f64, scores: &[f64]) -> usize {
    let c: Vec<usize> = (0..scores.len()).collect();
    let mut x = MaskedPointCloud::new(&c);
    let mut y = MaskedPointCloud::new(&c);
    let keys: Vec<u64> = scores.iter().map(|s| key(*s)).collect();
    reject_n_sigma_scores(&mut x, &mut y, &keys, key(n)).iter().filter(|m| **m).count()
}

#[test]
fn n_sigma_larger_n_drops_no_more() {
    let scores = [-1.2, 0.3, 1.1, 1.9, 2.6, -0.4, 0.0];
    let mut previous = 0;
    for n in [0.0, 0.5, 1.0, 2.0, 3.0] {
        let kept = kept_at(n, &scores);
        assert!(kept >= previous);
        previous = kept;
    }
    assert_eq!(kept_at(1.0, &scores), 4);
    assert_eq!(kept_at(3.0, &scores), 7);
}

#[test]
fn n_sigma_removes_far_outliers() {
    let mut distances: Vec<f64> = (0..200).map(|i| 0.01 * ((i % 7) as f64)).collect();
    distances.extend(std::iter::repeat(25.0).take(10));
    let mean = distances.iter().sum::<f64>() / distances.len() as f64;
    let var = distances.iter().map(|d| (d - mean) * (d - mean)).sum::<f64>()
        / (distances.len() - 1) as f64;
    let sd = var.sqrt();
    let keys: Vec<u64> = distances.iter().map(|d| key((d - mean) / sd)).collect();
    let c: Vec<usize> = (0..distances.len()).collect();
    let mut x = MaskedPointCloud::new(&c);
    let mut y = MaskedPointCloud::new(&c);
    let mask = reject_n_sigma_scores(&mut x, &mut y, &keys, key(3.0));
    assert_eq!(x.len(), 200);
    assert!(mask[..200].iter().all(|m| *m));
    assert!(mask[200..].iter().all(|m| !*m));
    assert!(x.decompose().iter().all(|i| *i < 200));
}

#[test]
fn overlap_count_keeps_smallest_distances() {
    let c = vec!['a', 'b', 'c', 'd', 'e'];
    let mut x = MaskedPointCloud::new(&c);
    let mut y = MaskedPointCloud::compose(&c, vec![4, 3, 2, 1, 0]);
    let distances = [0.9, 0.1, 0.5, 0.3, 0.7];
    let keys: Vec<u64> = distances.iter().map(|d| key(*d)).collect();
    let mask = reject_by_overlap_count(&mut x, &mut y, &keys, 3);
    assert_eq!(mask, vec![true, true, true, false, false]);
    assert_eq!(mask.iter().filter(|m| **m).count(), 3);
    assert_eq!(x.decompose(), vec![1, 3, 2]);
    assert_eq!(y.decompose(), vec![3, 1, 2]);
}

#[test]
fn overlap_count_beyond_length_keeps_all_sorted() {
    let c = vec![0, 1, 2];
    let mut x = MaskedPointCloud::new(&c);
    let mut y = MaskedPointCloud::new(&c);
    let keys: Vec<u64> = [2.0, 2.0, 1.0].iter().map(|d| key(*d)).collect();
    let mask = reject_by_overlap_count(&mut x, &mut y, &keys, 10);
    assert_eq!(mask, vec![true, true, true]);
    assert_eq!(x.decompose(), vec![2, 0, 1]);
}

#[test]
fn overlap_count_zero_keeps_nothing() {
    let c = vec![0, 1];
    let mut x = MaskedPointCloud::new(&c);
    let mut y = MaskedPointCloud::new(&c);
    let mask = reject_by_overlap_count(&mut x, &mut y, &[5, 6], 0);
    assert_eq!(mask, vec![false, false]);
    assert!(x.is_empty());
    assert!(y.is_empty());
}

#[test]
fn first_max_index_picks_first_of_greatest() {
    assert_eq!(first_max_index(&[3, 9, 2, 9]), 1);
    assert_eq!(first_max_index(&[0, 0, 0]), 0);
    assert_eq!(first_max_index(&[7]), 0);
    assert_eq!(first_max_index(&[1, 2, 3]), 2);
}

#[test]
fn refine_global_mask_skips_unmarked_positions() {
    let mut mask = vec![true, false, true, true, false];
    refine_global_mask(&mut mask, &[true, false, true]);
    assert_eq!(mask, vec![true, false, false, true, false]);
    refine_global_mask(&mut mask, &[false, true]);
    assert_eq!(mask, vec![false, false, false, true, false]);
}

#[test]
fn refine_global_mask_keeping_everything_changes_nothing() {
    let mut mask = vec![true, false, true];
    refine_global_mask(&mut mask, &[true, true]);
    assert_eq!(mask, vec![true, false, true]);
}

#[test]
fn drop_unmarked_keeps_view_and_mask_aligned() {
    let c = vec![10, 11, 12, 13, 14, 15];
    let mut view = MaskedPointCloud::new(&c);
    let mut mask = vec![true; 6];
    drop_unmarked(&mut view, &mut mask, &[true, false, true, true, false, true]);
    drop_unmarked(&mut view, &mut mask, &[true, true, false, true]);
    assert_eq!(mask, vec![true, false, true, false, false, true]);
    let kept: Vec<usize> = (0..6).filter(|i| mask[*i]).collect();
    assert_eq!(view.decompose(), kept);
}

#[test]
fn drop_farthest_pair_updates_views_and_global_mask() {
    let c = vec![0, 1, 2, 3, 4];
    let mut alignee = MaskedPointCloud::compose(&c, vec![0, 2, 3, 4]);
    let mut target = MaskedPointCloud::compose(&c, vec![4, 3, 1, 0]);
    let mut mask = vec![true, false, true, true, true];
    let distances = [0.1, 0.2, 2.0, 0.3];
    let keys: Vec<u64> = distances.iter().map(|d| key(*d)).collect();
    let dropped = drop_farthest_pair(&mut alignee, &mut target, &mut mask, &keys);
    assert_eq!(dropped, 2);
    assert_eq!(mask, vec![true, false, true, false, true]);
    assert_eq!(alignee.decompose(), vec![0, 2, 4]);
    assert_eq!(target.decompose(), vec![4, 3, 0]);
}
