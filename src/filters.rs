//! Removing a known set of points from a cloud.

use vstd::prelude::*;
use crate::point::Point;
use crate::point_cloud::PointCloud;

verus! {

broadcast use vstd::seq_lib::group_seq_properties;

/// The points of a cloud that are not among `inliers`.
pub open spec fn not_among(inliers: Seq<Point>) -> spec_fn(Point) -> bool {
    |p: Point| !inliers.contains(p)
}

/// The points of `cloud`, in order, equal to none of `inliers`.
pub fn outlier_filter(cloud: &PointCloud, inliers: &Vec<Point>) -> (r: Vec<Point>)
    ensures
        r@ == cloud@.filter(not_among(inliers@)),
{
    let points = &cloud.points;
    let mut out: Vec<Point> = Vec::new();
    let mut i: usize = 0;
    while i < points.len()
        invariant
            i <= points@.len(),
            points@ == cloud@,
            out@ == points@.subrange(0, i as int).filter(not_among(inliers@)),
        decreases points@.len() - i,
    {
        let p = points[i];
        let mut found = false;
        let mut k: usize = 0;
        while k < inliers.len()
            invariant
                k <= inliers@.len(),
                found == inliers@.subrange(0, k as int).contains(p),
            decreases inliers@.len() - k,
        {
            if inliers[k] == p {
                found = true;
            }
            proof {
                assert(inliers@.subrange(0, k as int + 1) =~= inliers@.subrange(0, k as int).push(inliers@[k as int]));
            }
            k += 1;
        }
        proof {
            assert(inliers@.subrange(0, k as int) =~= inliers@);
            assert(points@.subrange(0, i as int + 1) =~= points@.subrange(0, i as int).push(p));
            points@.subrange(0, i as int).lemma_filter_push(p, not_among(inliers@));
        }
        if !found {
            out.push(p);
        }
        i += 1;
    }
    assert(points@.subrange(0, points@.len() as int) =~= points@);
    out
}

} // verus!
