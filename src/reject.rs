use vstd::prelude::*;
use vstd::math::min;

use crate::masked::{count_true, filter_by_mask, MaskedPointCloud};
use crate::order::{is_stable_sort, reorder, sort_by_distance};

verus! {

// Distances and standard scores reach this module as order keys: `u64` values whose order is the
// order of the quantities they stand for.

/// `n` entries, all true.
pub open spec fn all_true(n: nat) -> Seq<bool> {
    Seq::new(n, |i: int| true)
}

/// Marks the entries whose key is at most `bound`.
pub open spec fn threshold_mask(keys: Seq<u64>, bound: u64) -> Seq<bool> {
    Seq::new(keys.len(), |i: int| keys[i] <= bound)
}

/// The mask of the n-sigma rejection: below two entries the spread is undefined and everything is
/// kept; otherwise an entry is kept when its standard score is at most `n`.
pub open spec fn n_sigma_mask(score_keys: Seq<u64>, n_key: u64) -> Seq<bool> {
    if score_keys.len() < 2 {
        all_true(score_keys.len())
    } else {
        threshold_mask(score_keys, n_key)
    }
}

/// Marks the first `keep` of `n` positions.
pub open spec fn prefix_mask(n: nat, keep: nat) -> Seq<bool> {
    Seq::new(n, |i: int| i < keep)
}

/// Marks every one of `n` positions but `dropped`.
pub open spec fn all_but_mask(n: nat, dropped: int) -> Seq<bool> {
    Seq::new(n, |i: int| i != dropped)
}

/// The global mask after dropping pairs from a view aligned with `mask`: position `j` stays
/// marked when it was marked and the view position it held, the number of marks before it, is
/// marked in `local`.
pub open spec fn refine_mask(mask: Seq<bool>, local: Seq<bool>) -> Seq<bool> {
    Seq::new(mask.len(), |j: int| mask[j] && local[count_true(mask, j) as int])
}

/// Builds `n` entries that are all `value`.
fn filled(n: usize, value: bool) -> (r: Vec<bool>)
    ensures
        r@ == Seq::new(n as nat, |i: int| value),
{
    let mut v: Vec<bool> = Vec::new();
    let mut i: usize = 0;
    while i < n
        invariant
            i <= n,
            v@ == Seq::new(i as nat, |j: int| value),
        decreases n - i,
    {
        v.push(value);
        i += 1;
        assert(v@ =~= Seq::new(i as nat, |j: int| value));
    }
    v
}

/// Rejects nothing: the mask marks every distance, and the views are left as they are.
pub fn keep_all<P, T>(
    x: &mut MaskedPointCloud<P>,
    y: &mut MaskedPointCloud<P>,
    distances: &[T],
) -> (r: Vec<bool>)
    ensures
        r@ == all_true(distances@.len()),
        *final(x) == *old(x),
        *final(y) == *old(y),
{
    let r = filled(distances.len(), true);
    assert(r@ =~= all_true(distances@.len()));
    r
}

/// Applies one mask to both views of a pair.
pub fn add_mask_to_pair<P>(x: &mut MaskedPointCloud<P>, y: &mut MaskedPointCloud<P>, mask: &[bool])
    requires
        mask@.len() == old(x).indices().len(),
        mask@.len() == old(y).indices().len(),
    ensures
        final(x).point_cloud == old(x).point_cloud,
        final(y).point_cloud == old(y).point_cloud,
        final(x).indices() == filter_by_mask(old(x).indices(), mask@, mask@.len() as int),
        final(y).indices() == filter_by_mask(old(y).indices(), mask@, mask@.len() as int),
        final(x).indices().len() == count_true(mask@, mask@.len() as int),
        final(y).indices().len() == count_true(mask@, mask@.len() as int),
        old(x).wf() ==> final(x).wf(),
        old(y).wf() ==> final(y).wf(),
{
    x.add_mask(mask);
    y.add_mask(mask);
}

/// Rejects the pairs whose standard score exceeds `n`, given the scores' and `n`'s order keys.
///
/// With fewer than two scores nothing is rejected and the views are left as they are.
pub fn reject_n_sigma_scores<P>(
    x: &mut MaskedPointCloud<P>,
    y: &mut MaskedPointCloud<P>,
    score_keys: &[u64],
    n_key: u64,
) -> (r: Vec<bool>)
    requires
        score_keys@.len() == old(x).indices().len(),
        score_keys@.len() == old(y).indices().len(),
    ensures
        r@ == n_sigma_mask(score_keys@, n_key),
        final(x).point_cloud == old(x).point_cloud,
        final(y).point_cloud == old(y).point_cloud,
        final(x).indices() == filter_by_mask(old(x).indices(), r@, r@.len() as int),
        final(y).indices() == filter_by_mask(old(y).indices(), r@, r@.len() as int),
        old(x).wf() ==> final(x).wf(),
        old(y).wf() ==> final(y).wf(),
{
    let n = score_keys.len();
    if n < 2 {
        let r = keep_all(x, y, score_keys);
        proof {
            lemma_filter_all_true(old(x).indices());
            lemma_filter_all_true(old(y).indices());
        }
        return r;
    }
    let mut mask: Vec<bool> = Vec::new();
    let mut i: usize = 0;
    while i < n
        invariant
            i <= n,
            n == score_keys@.len(),
            mask@ == threshold_mask(score_keys@.take(i as int), n_key),
        decreases n - i,
    {
        mask.push(score_keys[i] <= n_key);
        i += 1;
        assert(mask@ =~= threshold_mask(score_keys@.take(i as int), n_key));
    }
    assert(score_keys@.take(n as int) =~= score_keys@);
    add_mask_to_pair(x, y, &mask);
    mask
}

/// Filtering by a mask that marks everything keeps everything.
pub proof fn lemma_filter_all_true<A>(s: Seq<A>)
    ensures
        filter_by_mask(s, all_true(s.len()), s.len() as int) == s,
{
    lemma_filter_prefix_all_true(s, all_true(s.len()), s.len() as int);
    assert(s.take(s.len() as int) =~= s);
}

proof fn lemma_filter_prefix_all_true<A>(s: Seq<A>, mask: Seq<bool>, n: int)
    requires
        0 <= n <= s.len(),
        n <= mask.len(),
        forall|i: int| 0 <= i < n ==> #[trigger] mask[i],
    ensures
        filter_by_mask(s, mask, n) == s.take(n),
    decreases n,
{
    if n > 0 {
        lemma_filter_prefix_all_true(s, mask, n - 1);
        assert(s.take(n - 1).push(s[n - 1]) =~= s.take(n));
    }
}

/// Filtering by a mask that marks a prefix keeps that prefix.
pub proof fn lemma_filter_prefix_mask<A>(s: Seq<A>, keep: nat, n: int)
    requires
        0 <= n <= s.len(),
    ensures
        filter_by_mask(s, prefix_mask(s.len(), keep), n) == s.take(
            if n < keep {
                n
            } else {
                keep as int
            },
        ),
    decreases n,
{
    if n > 0 {
        lemma_filter_prefix_mask(s, keep, n - 1);
        if n - 1 < keep {
            assert(s.take(n - 1).push(s[n - 1]) =~= s.take(n));
        }
    }
}

/// A larger threshold marks every entry that a smaller one marks, and so at least as many.
pub proof fn lemma_threshold_monotone(keys: Seq<u64>, lo: u64, hi: u64, n: int)
    requires
        lo <= hi,
        0 <= n <= keys.len(),
    ensures
        count_true(threshold_mask(keys, lo), n) <= count_true(threshold_mask(keys, hi), n),
    decreases n,
{
    if n > 0 {
        lemma_threshold_monotone(keys, lo, hi, n - 1);
    }
}

/// Rejecting at `n_hi` standard deviations keeps every pair that rejecting at `n_lo <= n_hi`
/// keeps, so it never drops more pairs.
pub proof fn lemma_n_sigma_monotone(score_keys: Seq<u64>, n_lo: u64, n_hi: u64)
    requires
        n_lo <= n_hi,
    ensures
        forall|i: int|
            0 <= i < score_keys.len() && #[trigger] n_sigma_mask(score_keys, n_lo)[i]
                ==> n_sigma_mask(score_keys, n_hi)[i],
        count_true(n_sigma_mask(score_keys, n_lo), score_keys.len() as int) <= count_true(
            n_sigma_mask(score_keys, n_hi),
            score_keys.len() as int,
        ),
{
    if score_keys.len() >= 2 {
        lemma_threshold_monotone(score_keys, n_lo, n_hi, score_keys.len() as int);
    }
}

/// Keeps the `keep` pairs of smallest distance: both views are put in ascending order of distance
/// (a stable order) and then cut after `keep` entries. Returns the mask over the sorted pairs.
pub fn reject_by_overlap_count<P>(
    x: &mut MaskedPointCloud<P>,
    y: &mut MaskedPointCloud<P>,
    distance_keys: &[u64],
    keep: usize,
) -> (r: Vec<bool>)
    requires
        distance_keys@.len() == old(x).indices().len(),
        distance_keys@.len() == old(y).indices().len(),
    ensures
        r@ == prefix_mask(distance_keys@.len(), keep as nat),
        final(x).point_cloud == old(x).point_cloud,
        final(y).point_cloud == old(y).point_cloud,
        old(x).wf() ==> final(x).wf(),
        old(y).wf() ==> final(y).wf(),
        count_true(r@, r@.len() as int) == min(keep as int, distance_keys@.len() as int),
        exists|perm: Seq<usize>|
            {
                &&& is_stable_sort(distance_keys@, perm)
                &&& final(x).indices() == reorder(old(x).indices(), perm).take(
                    min(keep as int, distance_keys@.len() as int),
                )
                &&& final(y).indices() == reorder(old(y).indices(), perm).take(
                    min(keep as int, distance_keys@.len() as int),
                )
                &&& forall|a: int, b: int|
                    0 <= a < keep && keep <= b < distance_keys@.len() ==> distance_keys@[
                        #[trigger] perm[a] as int] <= distance_keys@[#[trigger] perm[b] as int]
            },
{
    let (sorted_indices, _sorted_distances) = sort_by_distance(distance_keys);
    let n = distance_keys.len();
    let mut mask: Vec<bool> = Vec::new();
    let mut i: usize = 0;
    while i < n
        invariant
            i <= n,
            n == distance_keys@.len(),
            mask@ == prefix_mask(i as nat, keep as nat),
        decreases n - i,
    {
        mask.push(i < keep);
        i += 1;
        assert(mask@ =~= prefix_mask(i as nat, keep as nat));
    }
    let ghost x0 = *x;
    let ghost y0 = *y;
    x.add_order(&sorted_indices);
    y.add_order(&sorted_indices);
    add_mask_to_pair(x, y, &mask);
    proof {
        lemma_overlap_keeps_smallest(x0.indices(), distance_keys@, sorted_indices@, keep as nat);
        lemma_overlap_keeps_smallest(y0.indices(), distance_keys@, sorted_indices@, keep as nat);
        lemma_count_prefix_mask(n as nat, keep as nat, n as int);
    }
    mask
}

/// A prefix mask marks as many of its first `m` positions as lie before the cut.
pub proof fn lemma_count_prefix_mask(n: nat, keep: nat, m: int)
    requires
        0 <= m <= n,
    ensures
        count_true(prefix_mask(n, keep), m) == min(m, keep as int),
    decreases m,
{
    if m > 0 {
        lemma_count_prefix_mask(n, keep, m - 1);
    }
}

/// What the overlap cut keeps: the first `min(keep, n)` pairs in ascending order of distance, and
/// none of them is farther than any pair it drops.
pub proof fn lemma_overlap_keeps_smallest<A>(
    s: Seq<A>,
    distance_keys: Seq<u64>,
    perm: Seq<usize>,
    keep: nat,
)
    requires
        is_stable_sort(distance_keys, perm),
        s.len() == distance_keys.len(),
    ensures
        filter_by_mask(
            reorder(s, perm),
            prefix_mask(s.len(), keep),
            s.len() as int,
        ) == reorder(s, perm).take(
            if keep < s.len() {
                keep as int
            } else {
                s.len() as int
            },
        ),
        forall|a: int, b: int|
            0 <= a < keep && keep <= b < s.len() ==> distance_keys[#[trigger] perm[a] as int]
                <= distance_keys[#[trigger] perm[b] as int],
{
    lemma_filter_prefix_mask(reorder(s, perm), keep, s.len() as int);
    assert forall|a: int, b: int| 0 <= a < keep && keep <= b < s.len() implies distance_keys[
        #[trigger] perm[a] as int] <= distance_keys[#[trigger] perm[b] as int] by {
        assert(a < b);
    }
}

/// The first position among the greatest keys.
pub fn first_max_index(keys: &[u64]) -> (r: usize)
    requires
        keys@.len() > 0,
    ensures
        r < keys@.len(),
        forall|i: int| 0 <= i < keys@.len() ==> keys@[i] <= keys@[r as int],
        forall|i: int| 0 <= i < r ==> keys@[i] < keys@[r as int],
{
    let mut best: usize = 0;
    let mut i: usize = 1;
    while i < keys.len()
        invariant
            1 <= i <= keys@.len(),
            best < i,
            forall|j: int| 0 <= j < i ==> keys@[j] <= keys@[best as int],
            forall|j: int| 0 <= j < best ==> keys@[j] < keys@[best as int],
        decreases keys@.len() - i,
    {
        if keys[i] > keys[best] {
            best = i;
        }
        i += 1;
    }
    best
}

/// Narrows the global `mask` by `local`, a mask over the positions of the view that `mask`
/// selects (see `refine_mask`).
pub fn refine_global_mask(mask: &mut Vec<bool>, local: &[bool])
    requires
        local@.len() == count_true(old(mask)@, old(mask)@.len() as int),
    ensures
        final(mask)@ == refine_mask(old(mask)@, local@),
{
    let ghost orig = mask@;
    let n = mask.len();
    let mut j: usize = 0;
    let mut k: usize = 0;
    while j < n
        invariant
            j <= n,
            n == orig.len(),
            mask@.len() == n,
            local@.len() == count_true(orig, n as int),
            k == count_true(orig, j as int),
            forall|i: int| 0 <= i < j ==> #[trigger] mask@[i] == refine_mask(orig, local@)[i],
            forall|i: int| j <= i < n ==> #[trigger] mask@[i] == orig[i],
        decreases n - j,
    {
        if mask[j] {
            proof {
                lemma_count_true_grows(orig, j as int + 1, n as int);
            }
            if !local[k] {
                mask.set(j, false);
            }
            k += 1;
        }
        j += 1;
    }
    assert(mask@ =~= refine_mask(orig, local@));
}

/// Counting over a longer prefix finds at least as many marks.
pub proof fn lemma_count_true_grows(mask: Seq<bool>, m: int, n: int)
    requires
        0 <= m <= n <= mask.len(),
    ensures
        count_true(mask, m) <= count_true(mask, n),
    decreases n - m,
{
    if m < n {
        lemma_count_true_grows(mask, m, n - 1);
    }
}

/// Drops the farthest pair from both views and unmarks it in `mask`, the mask over the views'
/// positions before any drop. Returns the dropped position within the current views.
///
/// The farthest pair is the first of greatest distance; `mask` must mark exactly as many
/// positions as the views hold.
pub fn drop_farthest_pair<P>(
    alignee: &mut MaskedPointCloud<P>,
    target: &mut MaskedPointCloud<P>,
    mask: &mut Vec<bool>,
    distance_keys: &[u64],
) -> (r: usize)
    requires
        distance_keys@.len() > 0,
        distance_keys@.len() == old(alignee).indices().len(),
        distance_keys@.len() == old(target).indices().len(),
        count_true(old(mask)@, old(mask)@.len() as int) == distance_keys@.len(),
    ensures
        r < distance_keys@.len(),
        forall|i: int| 0 <= i < distance_keys@.len() ==> distance_keys@[i] <= distance_keys@[r as int],
        forall|i: int| 0 <= i < r ==> distance_keys@[i] < distance_keys@[r as int],
        final(alignee).point_cloud == old(alignee).point_cloud,
        final(target).point_cloud == old(target).point_cloud,
        final(alignee).indices() == old(alignee).indices().remove(r as int),
        final(target).indices() == old(target).indices().remove(r as int),
        old(alignee).wf() ==> final(alignee).wf(),
        old(target).wf() ==> final(target).wf(),
        final(mask)@ == refine_mask(old(mask)@, all_but_mask(distance_keys@.len(), r as int)),
{
    let max_idx = first_max_index(distance_keys);
    let mut local_mask = filled(distance_keys.len(), true);
    local_mask.set(max_idx, false);
    assert(local_mask@ =~= all_but_mask(distance_keys@.len(), max_idx as int));
    refine_global_mask(mask, &local_mask);
    let ghost a0 = *alignee;
    let ghost t0 = *target;
    add_mask_to_pair(alignee, target, &local_mask);
    proof {
        lemma_filter_all_but(a0.indices(), max_idx as int, a0.indices().len() as int);
        lemma_filter_all_but(t0.indices(), max_idx as int, t0.indices().len() as int);
        assert(a0.indices().take(a0.indices().len() as int) =~= a0.indices());
        assert(t0.indices().take(t0.indices().len() as int) =~= t0.indices());
    }
    max_idx
}

/// Drops from `view` the positions that `local` leaves unmarked, and narrows the global `mask`,
/// over the view's positions before any drop, to match.
pub fn drop_unmarked<P>(view: &mut MaskedPointCloud<P>, mask: &mut Vec<bool>, local: &[bool])
    requires
        local@.len() == old(view).indices().len(),
        count_true(old(mask)@, old(mask)@.len() as int) == local@.len(),
    ensures
        final(view).point_cloud == old(view).point_cloud,
        final(view).indices() == filter_by_mask(old(view).indices(), local@, local@.len() as int),
        old(view).wf() ==> final(view).wf(),
        final(mask)@ == refine_mask(old(mask)@, local@),
{
    view.add_mask(local);
    refine_global_mask(mask, local);
}

/// Filtering looks only at the first `n` entries of the sequence.
proof fn lemma_filter_prefix_only<A>(s1: Seq<A>, s2: Seq<A>, mask: Seq<bool>, n: int)
    requires
        0 <= n <= s1.len(),
        n <= s2.len(),
        forall|i: int| 0 <= i < n ==> s1[i] == s2[i],
    ensures
        filter_by_mask(s1, mask, n) == filter_by_mask(s2, mask, n),
    decreases n,
{
    if n > 0 {
        lemma_filter_prefix_only(s1, s2, mask, n - 1);
    }
}

proof fn lemma_filter_refine_prefix<A>(s: Seq<A>, mask: Seq<bool>, local: Seq<bool>, n: int)
    requires
        0 <= n <= s.len(),
        s.len() == mask.len(),
        local.len() == count_true(mask, mask.len() as int),
    ensures
        filter_by_mask(s, refine_mask(mask, local), n) == filter_by_mask(
            filter_by_mask(s, mask, n),
            local,
            count_true(mask, n) as int,
        ),
    decreases n,
{
    crate::masked::lemma_filter_len(s, mask, n);
    if n > 0 {
        lemma_filter_refine_prefix(s, mask, local, n - 1);
        crate::masked::lemma_filter_len(s, mask, n - 1);
        lemma_count_true_grows(mask, n, mask.len() as int);
        let f = filter_by_mask(s, mask, n - 1);
        let c = count_true(mask, n - 1) as int;
        if mask[n - 1] {
            let g = f.push(s[n - 1]);
            assert(filter_by_mask(s, mask, n) == g);
            lemma_filter_prefix_only(g, f, local, c);
        }
    }
}

/// Narrowing the global mask keeps it aligned with the view: where the view selects the points
/// of `s` that `mask` marks, dropping its positions unmarked in `local` leaves the view selecting
/// the points that the refined mask marks.
pub proof fn lemma_global_mask_stays_aligned<A>(s: Seq<A>, mask: Seq<bool>, local: Seq<bool>)
    requires
        s.len() == mask.len(),
        local.len() == count_true(mask, mask.len() as int),
    ensures
        filter_by_mask(filter_by_mask(s, mask, s.len() as int), local, local.len() as int)
            == filter_by_mask(s, refine_mask(mask, local), s.len() as int),
        count_true(refine_mask(mask, local), s.len() as int) == count_true(local, local.len() as int),
{
    lemma_filter_refine_prefix(s, mask, local, s.len() as int);
    let r = refine_mask(mask, local);
    crate::masked::lemma_filter_len(s, r, s.len() as int);
    crate::masked::lemma_filter_len(s, mask, s.len() as int);
    crate::masked::lemma_filter_len(filter_by_mask(s, mask, s.len() as int), local, local.len() as int);
}

/// Filtering by a mask that marks all positions but one removes that one.
pub proof fn lemma_filter_all_but<A>(s: Seq<A>, dropped: int, n: int)
    requires
        0 <= dropped < n <= s.len(),
    ensures
        filter_by_mask(s, all_but_mask(s.len(), dropped), n) == s.take(n).remove(dropped),
    decreases n,
{
    let mask = all_but_mask(s.len(), dropped);
    if n - 1 == dropped {
        lemma_filter_prefix_all_true(s, mask, n - 1);
        assert(s.take(n).remove(dropped) =~= s.take(n - 1));
    } else {
        lemma_filter_all_but(s, dropped, n - 1);
        assert(s.take(n - 1).remove(dropped).push(s[n - 1]) =~= s.take(n).remove(dropped));
    }
}

} // verus!
