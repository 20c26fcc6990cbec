use sdcar_pcl::filters::outlier_filter;
use sdcar_pcl::objects::BoxLimits;
use sdcar_pcl::pipeline::{do_point_cloud, FrameParams};
use sdcar_pcl::point::{Point, XYZ};
use sdcar_pcl::point_cloud::PointCloud;
use sdcar_pcl::voxel_grid::LeafCount;

#[test]
fn outlier_filter_removes_equal_points() {
    let pts = vec![Point::new_xyz(0, 0, 0), Point::new_xyz(1, 0, 0), Point::new_xyz(0, 0, 0), Point::new_xyz(2, 0, 0)];
    let cloud = PointCloud::from_points(pts.clone());
    let outs = outlier_filter(&cloud, &vec![Point::new_xyz(0, 0, 0)]);
    assert_eq!(outs, vec![pts[1], pts[3]]);
    assert_eq!(outlier_filter(&cloud, &Vec::new()), pts);
}

fn street() -> Vec<Point> {
    let mut v = Vec::new();
    // flat ground, 0.5 m apart, 1.5 m below the sensor
    for x in -20..20 {
        for y in -10..10 {
            v.push(Point::new_xyzi(x * 500, y * 500, -1_500, 10));
        }
    }
    // a car-sized block of returns ahead of the vehicle
    for x in 0..8 {
        for y in 0..4 {
            for z in 0..3 {
                v.push(Point::new_xyzi(6_000 + x * 500, -1_000 + y * 500, -1_000 + z * 500, 50));
            }
        }
    }
    v
}

fn params() -> FrameParams {
    FrameParams {
        leaf_count: LeafCount { x: 100, y: 100, z: 100 },
        roi_min: XYZ::new(-50_000, -12_000, -4_750),
        roi_max: XYZ::new(50_000, 12_000, 3_000),
        ego_min: XYZ::new(-2_500, -750, -1_000),
        ego_max: XYZ::new(1_000, 750, 200),
        max_iterations: 60,
        distance_threshold: 100,
        cluster_tolerance: 600,
        min_cluster_size: 7,
        max_cluster_size: 500,
        limits: BoxLimits::vehicle(),
    }
}

#[test]
fn frame_finds_the_car() {
    let cloud = PointCloud::from_points(street());
    let r = do_point_cloud(&cloud, &params());
    assert_eq!(r.downsampled.num_points(), cloud.num_points());
    assert_eq!(r.cropped.num_points(), cloud.num_points());
    assert_eq!(r.inliers.num_points() + r.outliers.num_points(), r.cropped.num_points());
    // the ground plane holds far more points than any other plane, so with
    // sixty trials it wins unless every trial missed it
    if r.inliers.num_points() == 800 {
        assert_eq!(r.outliers.num_points(), 96);
        assert_eq!(r.clusters.len(), 1);
        assert_eq!(r.boxes.len(), 1);
        let b = r.boxes[0];
        assert_eq!(b.point_min().point, XYZ::new(6_000, -1_000, -1_000));
        assert_eq!(b.point_max().point, XYZ::new(9_500, 500, 0));
        assert_eq!((b.box_id, b.cluster_id), (Some(0), Some(0)));
    }
}

#[test]
fn frame_of_nothing_is_empty() {
    let r = do_point_cloud(&PointCloud::from_points(Vec::new()), &FrameParams::vehicle());
    assert_eq!(r.downsampled.num_points(), 0);
    assert!(r.clusters.is_empty());
    assert!(r.boxes.is_empty());
}

#[test]
fn crop_drops_the_ego_vehicle() {
    let pts = vec![Point::new_xyz(0, 0, 0), Point::new_xyz(20_000, 0, 0), Point::new_xyz(60_000, 0, 0)];
    let mut prm = params();
    prm.max_iterations = 0;
    let r = do_point_cloud(&PointCloud::from_points(pts), &prm);
    assert_eq!(r.cropped.points, vec![Point::new_xyz(20_000, 0, 0)]);
    assert_eq!(r.inliers.num_points(), 0);
    assert_eq!(r.outliers.points, r.cropped.points);
}
