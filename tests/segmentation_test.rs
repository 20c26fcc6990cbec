use sdcar_pcl::point::Point;
use sdcar_pcl::point_cloud::PointCloud;
use sdcar_pcl::sac::{ransac, ransac_with_samples, segment_planes_ransac, segment_with_samples};

fn ground_and_box() -> Vec<Point> {
    let mut v = Vec::new();
    for x in 0..6 {
        for y in 0..6 {
            v.push(Point::new_xyzi(x * 1000, y * 1000, 0, 1));
        }
    }
    v.push(Point::new_xyzi(2000, 2000, 1500, 9));
    v.push(Point::new_xyzi(2500, 2000, 1600, 9));
    v.push(Point::new_xyzi(2000, 2500, 1700, 9));
    v
}

#[test]
fn ground_plane_wins() {
    let pts = ground_and_box();
    let samples = vec![(36, 37, 38), (0, 1, 6)];
    let inliers = ransac_with_samples(&pts, &samples, 100);
    assert_eq!(inliers.len(), 36);
    assert!(inliers.iter().all(|p| p.z() == 0));
}

#[test]
fn threshold_decides_distance() {
    let pts = vec![
        Point::new_xyz(0, 0, 0),
        Point::new_xyz(1000, 0, 0),
        Point::new_xyz(0, 1000, 0),
        Point::new_xyz(500, 500, 350),
        Point::new_xyz(500, 500, 351),
        Point::new_xyz(500, 500, -350),
    ];
    let inliers = ransac_with_samples(&pts, &vec![(0, 1, 2)], 350);
    assert_eq!(inliers, vec![pts[0], pts[1], pts[2], pts[3], pts[5]]);
}

#[test]
fn collinear_samples_keep_only_the_samples() {
    let pts = vec![Point::new_xyz(0, 0, 0), Point::new_xyz(1, 0, 0), Point::new_xyz(2, 0, 0), Point::new_xyz(3, 0, 0)];
    let inliers = ransac_with_samples(&pts, &vec![(0, 1, 2)], 1_000);
    assert_eq!(inliers, vec![pts[0], pts[1], pts[2]]);
}

#[test]
fn ties_go_to_the_earlier_trial() {
    let pts = vec![Point::new_xyz(0, 0, 0), Point::new_xyz(1000, 0, 0), Point::new_xyz(0, 1000, 0), Point::new_xyz(0, 0, 1000)];
    let first = ransac_with_samples(&pts, &vec![(0, 1, 2), (0, 1, 3)], 10);
    assert_eq!(first, vec![pts[0], pts[1], pts[2]]);
}

#[test]
fn segmentation_splits_inliers_and_outliers() {
    let cloud = PointCloud::from_points(ground_and_box());
    let (ins, outs) = segment_with_samples(&cloud, &vec![(0, 1, 6), (36, 37, 38)], 100);
    assert_eq!(ins.num_points(), 36);
    assert_eq!(outs.num_points(), 3);
    assert_eq!(outs.point(0), Point::new_xyzi(2000, 2000, 1500, 9));
}

#[test]
fn no_trial_means_no_inliers() {
    let cloud = PointCloud::from_points(ground_and_box());
    let (ins, outs) = segment_planes_ransac(&cloud, 0, 100);
    assert_eq!(ins.num_points(), 0);
    assert_eq!(outs.num_points(), 39);
    let (ins, outs) = segment_planes_ransac(&PointCloud::from_points(Vec::new()), 10, 100);
    assert_eq!(ins.num_points() + outs.num_points(), 0);
    assert!(ransac(&cloud, 0, 100).is_empty());
}

#[test]
fn random_trials_partition_the_cloud() {
    let cloud = PointCloud::from_points(ground_and_box());
    let (ins, outs) = segment_planes_ransac(&cloud, 200, 100);
    assert_eq!(ins.num_points() + outs.num_points(), 39);
    assert!(ins.num_points() >= 3);
    let again = ransac(&cloud, 200, 100);
    assert!(again.len() >= 3);
}

#[test]
fn exhaustive_trials_agree() {
    let pts = ground_and_box();
    let small: Vec<Point> = pts[30..39].to_vec();
    let n = small.len();
    let mut all = Vec::new();
    for a in 0..n {
        for b in 0..n {
            for c in 0..n {
                all.push((a, b, c));
            }
        }
    }
    let mut rev = all.clone();
    rev.reverse();
    let one = ransac_with_samples(&small, &all, 100);
    let two = ransac_with_samples(&small, &rev, 100);
    assert_eq!(one.len(), two.len());
}
