use sdcar_pcl::kdtree::KdTree;
use sdcar_pcl::extract_clusters::EuclideanClustersExtract;
use sdcar_pcl::point::Point;
use sdcar_pcl::point_cloud::PointCloud;

fn four_points() -> Vec<Point> {
    vec![
        Point::new_xyzi(-6200, 7100, 0, 0),
        Point::new_xyzi(-6300, 8400, 0, 0),
        Point::new_xyzi(-5200, 7100, 0, 0),
        Point::new_xyzi(-5700, 6300, 0, 0),
    ]
}

#[test]
fn kdtree_test() {
    let point_indices = four_points();
    let num_points = point_indices.len();
    assert!(num_points == 4, "{} points loaded", num_points);
    let kdtree = KdTree::from_points(&point_indices);
    let target = point_indices[1];
    let nearby = kdtree.search(&target, 1750);
    assert!(nearby.len() == 3, "target point nearby count should be 3 not {}", nearby.len());
}

#[test]
fn kdtree_clusters_test() {
    let point_indices = four_points();
    let num_points = point_indices.len();
    assert!(num_points == 4, "{} points loaded", num_points);
    let kdtree = KdTree::from_points(&point_indices);
    let cloud = PointCloud::from_points(point_indices);
    let cluster_extract = EuclideanClustersExtract::new(cloud, 950, 2, 4, kdtree);
    let clusters = cluster_extract.extract();
    assert!(clusters.len() == 1, "should have found 1 cluster not {}", clusters.len());
    assert!(clusters[0].len() == 3, "cluster found should have had 3 points not {}", clusters[0].len());
}

#[test]
fn cluster_excludes_the_far_point() {
    let extract = EuclideanClustersExtract::from_cloud(PointCloud::from_points(four_points()), 950, 2, 4);
    let clusters = extract.extract_indices();
    assert_eq!(clusters.len(), 1);
    let mut members = clusters[0].clone();
    members.sort();
    assert_eq!(members, vec![0, 2, 3]);
}

#[test]
fn cluster_size_is_capped() {
    let extract = EuclideanClustersExtract::from_cloud(PointCloud::from_points(four_points()), 950, 2, 2);
    let clusters = extract.extract_indices();
    // the first cluster stops at two points; the third point then seeds a
    // cluster of one, which is too small
    assert_eq!(clusters.len(), 1);
    assert_eq!(clusters[0].len(), 2);
}

#[test]
fn lone_points_form_no_cluster() {
    let pts = vec![Point::new_xyz(0, 0, 0), Point::new_xyz(10_000, 0, 0), Point::new_xyz(0, 10_000, 0)];
    let extract = EuclideanClustersExtract::from_cloud(PointCloud::from_points(pts), 1_000, 2, 10);
    assert!(extract.extract_indices().is_empty());
}

#[test]
fn shuffled_seeds_find_the_same_single_cluster() {
    let extract = EuclideanClustersExtract::from_cloud(PointCloud::from_points(four_points()), 950, 2, 4);
    for _ in 0..20 {
        let clusters = extract.extract_parallel();
        assert_eq!(clusters.len(), 1);
        let mut members = clusters[0].clone();
        members.sort();
        assert_eq!(members, vec![0, 2, 3]);
    }
}

#[test]
fn seeds_given_in_order() {
    let extract = EuclideanClustersExtract::from_cloud(PointCloud::from_points(four_points()), 950, 1, 4);
    let clusters = extract.extract_from_seeds(&vec![1, 3, 0]);
    // the lone point 1 starts no cluster, even with a minimum size of one
    assert_eq!(clusters.len(), 1);
    assert_eq!(clusters[0].len(), 3);
    assert_eq!(clusters[0][0], 3);
}

#[test]
fn lone_point_is_never_a_cluster() {
    let pts = vec![Point::new_xyz(0, 0, 0), Point::new_xyz(10_000, 0, 0), Point::new_xyz(10_500, 0, 0)];
    let extract = EuclideanClustersExtract::from_cloud(PointCloud::from_points(pts), 1_000, 1, 10);
    let clusters = extract.extract_indices();
    assert_eq!(clusters, vec![vec![1, 2]]);
}

#[test]
fn equal_points_count_once() {
    let p = Point::new_xyz(0, 0, 0);
    let q = Point::new_xyz(500, 0, 0);
    let pts = vec![p, p, q, q];
    let extract = EuclideanClustersExtract::from_cloud(PointCloud::from_points(pts), 0, 1, 4);
    // tolerance 0: each point is alone up to its copy, so no cluster forms
    assert!(extract.extract_indices().is_empty());
    let extract = EuclideanClustersExtract::from_cloud(PointCloud::from_points(vec![p, p, q, q]), 600, 1, 4);
    let clusters = extract.extract_indices();
    assert_eq!(clusters.len(), 1);
    assert_eq!(clusters[0].len(), 2);
    assert_eq!(clusters[0][0], 0);
    assert!(clusters[0][1] == 2 || clusters[0][1] == 3);
}

fn brute_force(points: &[Point], target: &Point, radius: u32) -> Vec<usize> {
    let r = radius as i128;
    (0..points.len()).filter(|&i| points[i].dist_squared(target) <= r * r).collect()
}

#[test]
fn search_matches_brute_force() {
    let mut pts = Vec::new();
    let mut v: i64 = 17;
    for _ in 0..200 {
        v = (v * 1103515245 + 12345) % 2147483648;
        let x = (v % 20_001) as i32 - 10_000;
        v = (v * 1103515245 + 12345) % 2147483648;
        let y = (v % 20_001) as i32 - 10_000;
        v = (v * 1103515245 + 12345) % 2147483648;
        let z = (v % 2_001) as i32 - 1_000;
        pts.push(Point::new_xyz(x, y, z));
    }
    let tree = KdTree::from_points(&pts);
    for t in 0..20 {
        let target = pts[t * 7];
        for radius in [0u32, 500, 2_000, 5_000, 30_000] {
            let mut got = tree.search_ids(&target, radius);
            got.sort();
            assert_eq!(got, brute_force(&pts, &target, radius));
            assert_eq!(tree.search(&target, radius).len(), got.len());
        }
    }
}

#[test]
fn search_includes_points_exactly_on_the_radius() {
    let pts = vec![Point::new_xyz(0, 0, 0), Point::new_xyz(3, 4, 0), Point::new_xyz(0, 0, 6)];
    let tree = KdTree::from_points(&pts);
    let mut got = tree.search_ids(&Point::new_xyz(0, 0, 0), 5);
    got.sort();
    assert_eq!(got, vec![0, 1]);
}

#[test]
fn search_of_empty_tree_is_empty() {
    let tree = KdTree::new();
    assert!(tree.search(&Point::new_xyz(0, 0, 0), 100).is_empty());
}

#[test]
fn insert_then_search() {
    let mut tree = KdTree::new();
    tree.insert(Point::new_xyz(5, 5, 5), 7);
    tree.insert(Point::new_xyz(-5, 5, 5), 9);
    assert_eq!(tree.search_ids(&Point::new_xyz(5, 5, 5), 1), vec![7]);
    let pairs = tree.search_pairs(&sdcar_pcl::point::XYZ::new(0, 5, 5), 5);
    assert_eq!(pairs.len(), 2);
}
