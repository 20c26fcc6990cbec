//! One frame through the whole pipeline: voxel-grid downsampling, cropping
//! to the region of interest, cutting out the ego vehicle, ground removal by
//! RANSAC, Euclidean clustering of what is left, and plausible object boxes.

use vstd::prelude::*;
use crate::point::{Point, XYZ, cloud_in_limit, lemma_filter_in_limit};
use crate::point_cloud::PointCloud;
use crate::bounding_box::BoundingBox;
use crate::crop_box::{crop, crop_pred, point_indices_bounding_box};
use crate::voxel_grid::{filter_points, leaf_total, voxel_result, LeafCount};
use crate::sac::{segment_planes_ransac, segment_result, inliers, outliers, outlier_pred, sample_ok};
use crate::extract_clusters::{EuclideanClustersExtract, extraction_ok, every_position, clusters_points, lemma_cluster_count};
use crate::objects::{object_boxes, boxes_ok, BoxLimits};

verus! {

/// The settings of a frame's run.
#[derive(Debug, Clone, Copy, PartialEq, Eq, Structural)]
pub struct FrameParams {
    pub leaf_count: LeafCount,
    pub roi_min: XYZ,
    pub roi_max: XYZ,
    pub ego_min: XYZ,
    pub ego_max: XYZ,
    pub max_iterations: usize,
    pub distance_threshold: u32,
    pub cluster_tolerance: u32,
    pub min_cluster_size: usize,
    pub max_cluster_size: usize,
    pub limits: BoxLimits,
}

impl FrameParams {
    /// Settings for a roof-mounted LiDAR: a 2000 x 1200 x 800 grid, 50 m
    /// ahead and behind, 12 m to each side, the roof cut out, 50 RANSAC
    /// trials at 0.35 m, clusters of 7 to 150 points at 1.25 m.
    pub fn vehicle() -> (r: FrameParams)
        ensures
            r == (FrameParams {
                leaf_count: LeafCount { x: 2000, y: 1200, z: 800 },
                roi_min: XYZ { x: -50_000i32, y: -12_000i32, z: -4_750i32 },
                roi_max: XYZ { x: 50_000i32, y: 12_000i32, z: 3_000i32 },
                ego_min: XYZ { x: -2_500i32, y: -750i32, z: -1_000i32 },
                ego_max: XYZ { x: 1_000i32, y: 750i32, z: 200i32 },
                max_iterations: 50,
                distance_threshold: 350,
                cluster_tolerance: 1250,
                min_cluster_size: 7,
                max_cluster_size: 150,
                limits: BoxLimits {
                    z_min: -4_000i32,
                    z_max: 1_000i32,
                    dz_min: 200i64,
                    dz_max: 4_000i64,
                    dx_min: 300i64,
                    dx_max: 6_000i64,
                    dy_min: 300i64,
                    dy_max: 6_000i64,
                },
            }),
    {
        FrameParams {
            leaf_count: LeafCount { x: 2000, y: 1200, z: 800 },
            roi_min: XYZ { x: -50_000, y: -12_000, z: -4_750 },
            roi_max: XYZ { x: 50_000, y: 12_000, z: 3_000 },
            ego_min: XYZ { x: -2_500, y: -750, z: -1_000 },
            ego_max: XYZ { x: 1_000, y: 750, z: 200 },
            max_iterations: 50,
            distance_threshold: 350,
            cluster_tolerance: 1250,
            min_cluster_size: 7,
            max_cluster_size: 150,
            limits: BoxLimits::vehicle(),
        }
    }
}

/// What a frame yields at each stage.
pub struct FrameResult {
    pub downsampled: PointCloud,
    pub cropped: PointCloud,
    pub inliers: PointCloud,
    pub outliers: PointCloud,
    pub clusters: Vec<Vec<Point>>,
    pub boxes: Vec<BoundingBox>,
}

/// Each stage of `r` is what its step yields on the stage before.
pub open spec fn frame_ok(s: Seq<Point>, prm: FrameParams, r: FrameResult) -> bool {
    &&& voxel_result(s, prm.leaf_count, r.downsampled@)
    &&& r.cropped@ == crop(crop(r.downsampled@, prm.roi_min, prm.roi_max, false), prm.ego_min, prm.ego_max, true)
    &&& segment_result(r.cropped@, prm.max_iterations, prm.distance_threshold, r.inliers@, r.outliers@)
    &&& exists|idx: Seq<Seq<usize>>|
        #[trigger] extraction_ok(
            idx,
            r.outliers@,
            prm.cluster_tolerance,
            prm.min_cluster_size,
            prm.max_cluster_size,
            every_position(r.outliers@.len()),
        ) && r.clusters@.map_values(|c: Vec<Point>| c@) == clusters_points(idx, r.outliers@)
    &&& boxes_ok(r.clusters@.map_values(|c: Vec<Point>| c@), prm.limits, r.boxes@)
}

/// Runs one frame through the pipeline.
pub fn do_point_cloud(cloud: &PointCloud, params: &FrameParams) -> (r: FrameResult)
    requires
        cloud_in_limit(cloud@),
        cloud@.len() <= u32::MAX,
        leaf_total(params.leaf_count) <= usize::MAX,
    ensures
        frame_ok(cloud@, *params, r),
{
    let down = filter_points(cloud, params.leaf_count);
    let roi = point_indices_bounding_box(&down.points, params.roi_min, params.roi_max, false);
    let kept = point_indices_bounding_box(&roi, params.ego_min, params.ego_max, true);
    proof {
        lemma_filter_in_limit(down@, crop_pred(params.roi_min, params.roi_max, false));
        lemma_filter_in_limit(roi@, crop_pred(params.ego_min, params.ego_max, true));
    }
    let cropped = PointCloud::from_points(kept);
    let (ins, outs) = segment_planes_ransac(&cropped, params.max_iterations, params.distance_threshold);
    proof {
        if !(params.max_iterations == 0 || cropped@.len() == 0) {
            let t = choose|t: (usize, usize, usize)|
                sample_ok(cropped@, t) && ins@ == #[trigger] inliers(cropped@, t, params.distance_threshold) && outs@
                    == outliers(cropped@, t, params.distance_threshold);
            let q = outlier_pred(cropped@[t.0 as int], cropped@[t.1 as int], cropped@[t.2 as int], params.distance_threshold);
            lemma_filter_in_limit(cropped@, q);
        }
        assert(outs@.len() <= u32::MAX);
    }
    let outs_copy = PointCloud::from_points(copy_points(&outs.points));
    let extract = EuclideanClustersExtract::from_cloud(
        outs_copy,
        params.cluster_tolerance,
        params.min_cluster_size,
        params.max_cluster_size,
    );
    let clusters = extract.extract();
    proof {
        let idx = choose|idx: Seq<Seq<usize>>|
            #[trigger] extraction_ok(
                idx,
                outs@,
                params.cluster_tolerance,
                params.min_cluster_size,
                params.max_cluster_size,
                every_position(outs@.len()),
            ) && clusters@.map_values(|c: Vec<Point>| c@) == clusters_points(idx, outs@);
        lemma_cluster_count(idx, outs@, params.cluster_tolerance, params.min_cluster_size, params.max_cluster_size);
        assert(clusters@.len() == clusters@.map_values(|c: Vec<Point>| c@).len());
    }
    let boxes = object_boxes(&clusters, params.limits);
    FrameResult { downsampled: down, cropped, inliers: ins, outliers: outs, clusters, boxes }
}

/// A copy of a sequence of points.
fn copy_points(points: &Vec<Point>) -> (r: Vec<Point>)
    ensures
        r@ == points@,
{
    let mut out: Vec<Point> = Vec::new();
    let mut i: usize = 0;
    while i < points.len()
        invariant
            i <= points@.len(),
            out@ == points@.subrange(0, i as int),
        decreases points@.len() - i,
    {
        out.push(points[i]);
        i += 1;
    }
    assert(out@ =~= points@);
    out
}

} // verus!
