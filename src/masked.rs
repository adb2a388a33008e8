use vstd::prelude::*;

use crate::order::{is_stable_sort, reorder, sort_by_distance};

verus! {

/// The entries of `s` among its first `n` whose position is marked true in `mask`, in order.
pub open spec fn filter_by_mask<A>(s: Seq<A>, mask: Seq<bool>, n: int) -> Seq<A>
    decreases n,
{
    if n <= 0 {
        Seq::empty()
    } else {
        let rest = filter_by_mask(s, mask, n - 1);
        if mask[n - 1] {
            rest.push(s[n - 1])
        } else {
            rest
        }
    }
}

/// The number of positions among the first `n` of `mask` that are true.
pub open spec fn count_true(mask: Seq<bool>, n: int) -> nat
    decreases n,
{
    if n <= 0 {
        0
    } else {
        count_true(mask, n - 1) + if mask[n - 1] {
            1nat
        } else {
            0nat
        }
    }
}

/// Every entry of `s` is below `bound`.
pub open spec fn all_below(s: Seq<usize>, bound: nat) -> bool {
    forall|k: int| 0 <= k < s.len() ==> (#[trigger] s[k]) < bound
}

/// The plain indices `0, 1, ..., n - 1`.
pub open spec fn identity_indices(n: nat) -> Seq<usize> {
    Seq::new(n, |i: int| i as usize)
}

/// There is one entry of the filtered sequence per marked position.
pub proof fn lemma_filter_len<A>(s: Seq<A>, mask: Seq<bool>, n: int)
    requires
        0 <= n <= s.len(),
        n <= mask.len(),
    ensures
        filter_by_mask(s, mask, n).len() == count_true(mask, n),
        count_true(mask, n) <= n,
    decreases n,
{
    if n > 0 {
        lemma_filter_len(s, mask, n - 1);
    }
}

/// Filtering entries that are below a bound keeps them below it.
pub proof fn lemma_filter_keeps_bound(s: Seq<usize>, mask: Seq<bool>, n: int, bound: nat)
    requires
        0 <= n <= s.len(),
        n <= mask.len(),
        all_below(s, bound),
    ensures
        all_below(filter_by_mask(s, mask, n), bound),
    decreases n,
{
    if n > 0 {
        lemma_filter_keeps_bound(s, mask, n - 1, bound);
        let rest = filter_by_mask(s, mask, n - 1);
        let all = filter_by_mask(s, mask, n);
        assert forall|k: int| 0 <= k < all.len() implies (#[trigger] all[k]) < bound by {
            if k < rest.len() {
                assert(all[k] == rest[k]);
            } else {
                assert(all[k] == s[n - 1]);
            }
        }
    }
}

/// One operation on a view's active indices, as `add_mask`, `add_order`, `set_empty` and
/// `extend` perform it.
pub enum ViewOp {
    Mask(Seq<bool>),
    Order(Seq<usize>),
    Empty,
    Extend(Seq<usize>),
}

/// Whether `op` may be applied to a view over a cloud of `n` points with active indices `idx`:
/// a mask as long as the view, an order whose entries are positions of the view, and appended
/// indices inside the cloud.
pub open spec fn view_op_allowed(idx: Seq<usize>, n: nat, op: ViewOp) -> bool {
    match op {
        ViewOp::Mask(mask) => mask.len() == idx.len(),
        ViewOp::Order(order) => all_below(order, idx.len()),
        ViewOp::Empty => true,
        ViewOp::Extend(other) => all_below(other, n),
    }
}

/// The active indices after `op`.
pub open spec fn apply_view_op(idx: Seq<usize>, op: ViewOp) -> Seq<usize> {
    match op {
        ViewOp::Mask(mask) => filter_by_mask(idx, mask, mask.len() as int),
        ViewOp::Order(order) => reorder(idx, order),
        ViewOp::Empty => Seq::empty(),
        ViewOp::Extend(other) => idx + other,
    }
}

/// The active indices after the operations `ops` in turn, or `None` where one is not allowed.
pub open spec fn apply_view_ops(idx: Seq<usize>, n: nat, ops: Seq<ViewOp>) -> Option<Seq<usize>>
    decreases ops.len(),
{
    if ops.len() == 0 {
        Some(idx)
    } else if view_op_allowed(idx, n, ops[0]) {
        apply_view_ops(apply_view_op(idx, ops[0]), n, ops.drop_first())
    } else {
        None
    }
}

/// Any sequence of allowed view operations on a view whose indices lie inside its cloud of `n`
/// points leaves every active index inside the cloud.
pub proof fn lemma_view_ops_keep_indices_in_range(idx: Seq<usize>, n: nat, ops: Seq<ViewOp>)
    requires
        all_below(idx, n),
        apply_view_ops(idx, n, ops) is Some,
    ensures
        all_below(apply_view_ops(idx, n, ops)->Some_0, n),
    decreases ops.len(),
{
    if ops.len() > 0 {
        let next = apply_view_op(idx, ops[0]);
        match ops[0] {
            ViewOp::Mask(mask) => {
                lemma_filter_keeps_bound(idx, mask, mask.len() as int, n);
            },
            ViewOp::Order(order) => {
                assert forall|k: int| 0 <= k < next.len() implies (#[trigger] next[k]) < n by {
                    assert(order[k] < idx.len());
                }
            },
            ViewOp::Empty => {},
            ViewOp::Extend(other) => {
                assert forall|k: int| 0 <= k < next.len() implies (#[trigger] next[k]) < n by {
                    if k >= idx.len() {
                        assert(next[k] == other[k - idx.len()]);
                    }
                }
            },
        }
        lemma_view_ops_keep_indices_in_range(next, n, ops.drop_first());
    }
}

/// An ordered selection of points of a backing cloud, by their plain indices.
///
/// The view owns no points: it borrows the cloud and lists which of its points it holds, and in
/// which order. The same plain index may occur twice after `extend`.
pub struct MaskedPointCloud<'a, P> {
    pub point_cloud: &'a Vec<P>,
    pub masked_and_ordered_to_plain_index: Vec<usize>,
}

impl<'a, P> MaskedPointCloud<'a, P> {
    /// The active plain indices, in the order of the view.
    pub open spec fn indices(&self) -> Seq<usize> {
        self.masked_and_ordered_to_plain_index@
    }

    /// The backing cloud.
    pub open spec fn cloud(&self) -> Seq<P> {
        self.point_cloud@
    }

    /// Every active index lies inside the backing cloud.
    pub open spec fn wf(&self) -> bool {
        all_below(self.indices(), self.cloud().len())
    }

    /// The points of the view, in its order.
    pub open spec fn points(&self) -> Seq<P>
        recommends
            self.wf(),
    {
        Seq::new(self.indices().len(), |k: int| self.cloud()[self.indices()[k] as int])
    }

    /// A view holding every point of the cloud in the cloud's order.
    pub fn new(point_cloud: &'a Vec<P>) -> (r: Self)
        ensures
            r.point_cloud == point_cloud,
            r.indices() == identity_indices(point_cloud@.len()),
            r.wf(),
    {
        let n = point_cloud.len();
        let mut idx: Vec<usize> = Vec::new();
        let mut i: usize = 0;
        while i < n
            invariant
                i <= n,
                n == point_cloud@.len(),
                idx@ == identity_indices(i as nat),
            decreases n - i,
        {
            idx.push(i);
            i += 1;
            assert(idx@ =~= identity_indices(i as nat));
        }
        MaskedPointCloud { point_cloud, masked_and_ordered_to_plain_index: idx }
    }

    /// A view holding the points of the cloud whose position is marked true, in the cloud's order.
    pub fn with_mask(point_cloud: &'a Vec<P>, mask: &[bool]) -> (r: Self)
        requires
            mask@.len() == point_cloud@.len(),
        ensures
            r.point_cloud == point_cloud,
            r.indices() == filter_by_mask(
                identity_indices(point_cloud@.len()),
                mask@,
                mask@.len() as int,
            ),
            r.wf(),
    {
        let mut view = Self::new(point_cloud);
        view.add_mask(mask);
        view
    }

    /// Keeps exactly the active indices at the positions where `mask` is true.
    pub fn add_mask(&mut self, mask: &[bool])
        requires
            mask@.len() == old(self).indices().len(),
        ensures
            final(self).point_cloud == old(self).point_cloud,
            final(self).indices() == filter_by_mask(old(self).indices(), mask@, mask@.len() as int),
            final(self).indices().len() == count_true(mask@, mask@.len() as int),
            old(self).wf() ==> final(self).wf(),
    {
        let n = mask.len();
        let mut kept: Vec<usize> = Vec::new();
        let mut i: usize = 0;
        while i < n
            invariant
                i <= n,
                n == mask@.len(),
                n == self.indices().len(),
                kept@ == filter_by_mask(self.indices(), mask@, i as int),
            decreases n - i,
        {
            if mask[i] {
                kept.push(self.masked_and_ordered_to_plain_index[i]);
            }
            i += 1;
        }
        proof {
            lemma_filter_len(self.indices(), mask@, n as int);
            if self.wf() {
                lemma_filter_keeps_bound(self.indices(), mask@, n as int, self.cloud().len());
            }
        }
        self.masked_and_ordered_to_plain_index = kept;
    }

    /// The number of active indices.
    pub fn len(&self) -> (r: usize)
        ensures
            r == self.indices().len(),
    {
        self.masked_and_ordered_to_plain_index.len()
    }

    /// Whether the view holds no index.
    pub fn is_empty(&self) -> (r: bool)
        ensures
            r == (self.indices().len() == 0),
    {
        self.masked_and_ordered_to_plain_index.len() == 0
    }

    /// Drops every active index.
    pub fn set_empty(&mut self)
        ensures
            final(self).point_cloud == old(self).point_cloud,
            final(self).indices() == Seq::<usize>::empty(),
            final(self).wf(),
    {
        self.masked_and_ordered_to_plain_index = Vec::new();
    }

    /// Rearranges the view so that its `k`-th index is the former `order[k]`-th one.
    pub fn add_order(&mut self, order: &[usize])
        requires
            all_below(order@, old(self).indices().len()),
        ensures
            final(self).point_cloud == old(self).point_cloud,
            final(self).indices() == reorder(old(self).indices(), order@),
            old(self).wf() ==> final(self).wf(),
    {
        let n = order.len();
        let mut ordered: Vec<usize> = Vec::new();
        let mut i: usize = 0;
        while i < n
            invariant
                i <= n,
                n == order@.len(),
                all_below(order@, self.indices().len()),
                ordered@ == reorder(self.indices(), order@.take(i as int)),
            decreases n - i,
        {
            let j = order[i];
            ordered.push(self.masked_and_ordered_to_plain_index[j]);
            i += 1;
            assert(ordered@ =~= reorder(self.indices(), order@.take(i as int)));
        }
        assert(order@.take(n as int) =~= order@);
        self.masked_and_ordered_to_plain_index = ordered;
    }

    /// Appends the active indices of `other` after those of this view.
    ///
    /// Both views are meant to share one backing cloud; what is required is that the appended
    /// indices lie inside this view's cloud.
    pub fn extend(&mut self, other: &MaskedPointCloud<P>)
        requires
            all_below(other.indices(), old(self).cloud().len()),
        ensures
            final(self).point_cloud == old(self).point_cloud,
            final(self).indices() == old(self).indices() + other.indices(),
            old(self).wf() ==> final(self).wf(),
    {
        let n = other.masked_and_ordered_to_plain_index.len();
        let mut i: usize = 0;
        let ghost start = self.indices();
        while i < n
            invariant
                i <= n,
                n == other.indices().len(),
                self.point_cloud == old(self).point_cloud,
                self.indices() == start + other.indices().take(i as int),
                start == old(self).indices(),
            decreases n - i,
        {
            self.masked_and_ordered_to_plain_index.push(other.masked_and_ordered_to_plain_index[i]);
            i += 1;
            assert(self.indices() =~= start + other.indices().take(i as int));
        }
        assert(other.indices().take(n as int) =~= other.indices());
    }

    /// Hands out the active indices, giving up the view.
    pub fn decompose(self) -> (r: Vec<usize>)
        ensures
            r@ == self.indices(),
    {
        self.masked_and_ordered_to_plain_index
    }

    /// Builds a view from a backing cloud and a list of plain indices; the inverse of `decompose`.
    pub fn compose(point_cloud: &'a Vec<P>, masked_and_ordered_to_plain_index: Vec<usize>) -> (r:
        Self)
        ensures
            r.point_cloud == point_cloud,
            r.indices() == masked_and_ordered_to_plain_index@,
            r.wf() == all_below(masked_and_ordered_to_plain_index@, point_cloud@.len()),
    {
        MaskedPointCloud { point_cloud, masked_and_ordered_to_plain_index }
    }

    /// Reorders the view by ascending key of its points, keeping points of equal key in their
    /// order.
    pub fn sort_by_key<F: Fn(&P) -> u64>(&mut self, f: F)
        requires
            old(self).wf(),
            forall|p: &P| #[trigger] f.requires((p,)),
        ensures
            final(self).point_cloud == old(self).point_cloud,
            final(self).wf(),
            exists|keys: Seq<u64>, perm: Seq<usize>|
                {
                    &&& keys.len() == old(self).indices().len()
                    &&& forall|k: int|
                        0 <= k < keys.len() ==> f.ensures((&old(self).points()[k],), #[trigger] keys[k])
                    &&& is_stable_sort(keys, perm)
                    &&& final(self).indices() == reorder(old(self).indices(), perm)
                },
    {
        let n = self.masked_and_ordered_to_plain_index.len();
        let mut keys: Vec<u64> = Vec::new();
        let mut k: usize = 0;
        while k < n
            invariant
                k <= n,
                n == self.indices().len(),
                self.wf(),
                forall|p: &P| #[trigger] f.requires((p,)),
                keys@.len() == k,
                forall|j: int| 0 <= j < k ==> f.ensures((&self.points()[j],), #[trigger] keys@[j]),
            decreases n - k,
        {
            let key = f(self.get(k));
            keys.push(key);
            k += 1;
        }
        let (perm, _sorted) = sort_by_distance(&keys);
        let ghost before = *self;
        self.add_order(&perm);
        assert(is_stable_sort(keys@, perm@) && self.indices() == reorder(before.indices(), perm@));
    }

    /// The plain index at position `k` of the view.
    pub fn plain_index(&self, k: usize) -> (r: usize)
        requires
            k < self.indices().len(),
        ensures
            r == self.indices()[k as int],
    {
        self.masked_and_ordered_to_plain_index[k]
    }

    /// The point at position `k` of the view.
    pub fn get(&self, k: usize) -> (r: &P)
        requires
            self.wf(),
            k < self.indices().len(),
        ensures
            *r == self.points()[k as int],
    {
        &self.point_cloud[self.masked_and_ordered_to_plain_index[k]]
    }
}

} // verus!
