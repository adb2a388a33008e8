use vstd::prelude::*;

use crate::masked::{all_below, count_true, filter_by_mask, identity_indices, MaskedPointCloud};

verus! {

/// The pairs found by one correspondence step, in both directions.
///
/// The forward triple pairs `alignee_point_cloud[k]` with `corresponding_target_point_cloud[k]`
/// at squared distance `alignee_to_target_distances[k]`; the reverse triple does the same from the
/// target side and is empty for one-way estimators.
pub struct Correspondences<'a, 't, P, T> {
    pub alignee_point_cloud: MaskedPointCloud<'a, P>,
    pub corresponding_target_point_cloud: MaskedPointCloud<'t, P>,
    pub target_point_cloud: MaskedPointCloud<'t, P>,
    pub corresponding_alignee_point_cloud: MaskedPointCloud<'a, P>,
    pub alignee_to_target_distances: Vec<T>,
    pub target_to_alignee_distances: Vec<T>,
}

impl<'a, 't, P, T> Correspondences<'a, 't, P, T> {
    /// Every view stays inside its cloud, the two views of each triple pair up one to one, and
    /// the reverse triple's views index the clouds of the forward triple's matching sides.
    pub open spec fn views_paired(&self) -> bool {
        &&& self.alignee_point_cloud.wf()
        &&& self.corresponding_target_point_cloud.wf()
        &&& self.target_point_cloud.wf()
        &&& self.corresponding_alignee_point_cloud.wf()
        &&& self.alignee_point_cloud.indices().len()
            == self.corresponding_target_point_cloud.indices().len()
        &&& self.target_point_cloud.indices().len()
            == self.corresponding_alignee_point_cloud.indices().len()
        &&& all_below(
            self.corresponding_alignee_point_cloud.indices(),
            self.alignee_point_cloud.cloud().len(),
        )
        &&& all_below(
            self.target_point_cloud.indices(),
            self.corresponding_target_point_cloud.cloud().len(),
        )
    }

    /// The views pair up, and each triple holds one distance per pair.
    pub open spec fn wf(&self) -> bool {
        &&& self.views_paired()
        &&& self.alignee_point_cloud.indices().len() == self.alignee_to_target_distances@.len()
        &&& self.target_point_cloud.indices().len() == self.target_to_alignee_distances@.len()
    }
}

impl<'a, 't, P, T> Correspondences<'a, 't, P, T> where 'a: 't {
    /// Wraps the forward triple of a one-way estimator; the reverse triple is left empty.
    pub fn from_simple_one_way_correspondences(
        alignee_point_cloud: MaskedPointCloud<'a, P>,
        alignee: &'a Vec<P>,
        corresponding_target_point_cloud: MaskedPointCloud<'t, P>,
        alignee_to_target_distances: Vec<T>,
    ) -> (r: Self)
        requires
            alignee_point_cloud.wf(),
            corresponding_target_point_cloud.wf(),
            alignee_point_cloud.indices().len() == corresponding_target_point_cloud.indices().len(),
            alignee_point_cloud.indices().len() == alignee_to_target_distances@.len(),
        ensures
            r.wf(),
            r.alignee_point_cloud == alignee_point_cloud,
            r.corresponding_target_point_cloud == corresponding_target_point_cloud,
            r.alignee_to_target_distances == alignee_to_target_distances,
            r.target_point_cloud.indices().len() == 0,
            r.corresponding_alignee_point_cloud.indices().len() == 0,
            r.target_to_alignee_distances@.len() == 0,
    {
        let mut empty_alignee_cloud = MaskedPointCloud::new(alignee);
        empty_alignee_cloud.set_empty();

        let mut empty_target_cloud: MaskedPointCloud<'t, P> = MaskedPointCloud::new(alignee);
        empty_target_cloud.set_empty();

        Correspondences {
            alignee_point_cloud,
            corresponding_target_point_cloud,
            target_point_cloud: empty_target_cloud,
            corresponding_alignee_point_cloud: empty_alignee_cloud,
            alignee_to_target_distances,
            target_to_alignee_distances: Vec::new(),
        }
    }

    /// Holds the two triples of a two-way estimator: the forward one from the alignee to the
    /// target, the reverse one from the target back to the alignee.
    pub fn from_two_way_correspondences(
        alignee_point_cloud: MaskedPointCloud<'a, P>,
        corresponding_target_point_cloud: MaskedPointCloud<'t, P>,
        alignee_to_target_distances: Vec<T>,
        target_point_cloud: MaskedPointCloud<'t, P>,
        corresponding_alignee_point_cloud: MaskedPointCloud<'a, P>,
        target_to_alignee_distances: Vec<T>,
    ) -> (r: Self)
        requires
            alignee_point_cloud.wf(),
            corresponding_target_point_cloud.wf(),
            target_point_cloud.wf(),
            corresponding_alignee_point_cloud.wf(),
            target_point_cloud.point_cloud == corresponding_target_point_cloud.point_cloud,
            corresponding_alignee_point_cloud.point_cloud == alignee_point_cloud.point_cloud,
            alignee_point_cloud.indices().len() == corresponding_target_point_cloud.indices().len(),
            alignee_point_cloud.indices().len() == alignee_to_target_distances@.len(),
            target_point_cloud.indices().len() == corresponding_alignee_point_cloud.indices().len(),
            target_point_cloud.indices().len() == target_to_alignee_distances@.len(),
        ensures
            r.wf(),
            r == (Correspondences {
                alignee_point_cloud,
                corresponding_target_point_cloud,
                target_point_cloud,
                corresponding_alignee_point_cloud,
                alignee_to_target_distances,
                target_to_alignee_distances,
            }),
    {
        Correspondences {
            alignee_point_cloud,
            corresponding_target_point_cloud,
            target_point_cloud,
            corresponding_alignee_point_cloud,
            alignee_to_target_distances,
            target_to_alignee_distances,
        }
    }

    /// Joins both triples into one pair of equal-length views for transform estimation: the
    /// reverse triple's alignee side follows the forward alignee view, and its target side follows
    /// the forward target view. The distances are handed back as they are.
    pub fn into_estimation_views(self) -> (r: (
        MaskedPointCloud<'a, P>,
        MaskedPointCloud<'t, P>,
        Vec<T>,
        Vec<T>,
    ))
        requires
            self.views_paired(),
        ensures
            r.0.wf(),
            r.1.wf(),
            r.0.point_cloud == self.alignee_point_cloud.point_cloud,
            r.1.point_cloud == self.corresponding_target_point_cloud.point_cloud,
            r.0.indices() == self.alignee_point_cloud.indices()
                + self.corresponding_alignee_point_cloud.indices(),
            r.1.indices() == self.corresponding_target_point_cloud.indices()
                + self.target_point_cloud.indices(),
            r.0.indices().len() == r.1.indices().len(),
            r.2 == self.alignee_to_target_distances,
            r.3 == self.target_to_alignee_distances,
    {
        let Correspondences {
            alignee_point_cloud: mut masked_alignee,
            corresponding_target_point_cloud: mut masked_target,
            target_point_cloud,
            corresponding_alignee_point_cloud,
            alignee_to_target_distances,
            target_to_alignee_distances,
        } = self;
        masked_alignee.extend(&corresponding_alignee_point_cloud);
        masked_target.extend(&target_point_cloud);
        (masked_alignee, masked_target, alignee_to_target_distances, target_to_alignee_distances)
    }
}

/// Builds the two views of a nearest-neighbour pass: the points of `data_set_x` marked in `mask`,
/// in the cloud's order, and the points of `data_set_y` listed in `ordered_indices`, in that order.
///
/// `ordered_indices[k]` is the match found for the `k`-th marked point of `data_set_x`.
pub fn views_of_matches<'a, 't, P>(
    data_set_x: &'a Vec<P>,
    data_set_y: &'t Vec<P>,
    mask: &[bool],
    ordered_indices: Vec<usize>,
) -> (r: (MaskedPointCloud<'a, P>, MaskedPointCloud<'t, P>))
    requires
        mask@.len() == data_set_x@.len(),
        all_below(ordered_indices@, data_set_y@.len()),
        ordered_indices@.len() == count_true(mask@, mask@.len() as int),
    ensures
        r.0.wf(),
        r.1.wf(),
        r.0.point_cloud == data_set_x,
        r.1.point_cloud == data_set_y,
        r.0.indices() == filter_by_mask(
            identity_indices(data_set_x@.len()),
            mask@,
            mask@.len() as int,
        ),
        r.1.indices() == ordered_indices@,
        r.0.indices().len() == r.1.indices().len(),
{
    let mut point_cloud = MaskedPointCloud::new(data_set_x);
    point_cloud.add_mask(mask);
    let corresponding_point_cloud = MaskedPointCloud::compose(data_set_y, ordered_indices);
    (point_cloud, corresponding_point_cloud)
}

} // verus!
