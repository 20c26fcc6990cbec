use sdcar_pcl::crop_box::point_indices_bounding_box;
use sdcar_pcl::point::{Point, PointData, Intensity, XYZ};
use sdcar_pcl::point_cloud::PointCloud;
use sdcar_pcl::voxel_grid::{filter_points, LeafCount};

fn grid_points() -> Vec<Point> {
    let mut v = Vec::new();
    for x in 0..5 {
        for y in 0..5 {
            v.push(Point::new_xyzi(x * 1000, y * 1000, (x + y) * 100, x + y));
        }
    }
    v
}

#[test]
fn crop_keeps_inside_and_drops_inside() {
    let pts = grid_points();
    let lo = XYZ::new(1000, 1000, 0);
    let hi = XYZ::new(3000, 2000, 10_000);
    let kept = point_indices_bounding_box(&pts, lo, hi, false);
    let dropped = point_indices_bounding_box(&pts, lo, hi, true);
    assert_eq!(kept.len(), 6);
    assert_eq!(kept.len() + dropped.len(), pts.len());
    for p in &kept {
        assert!(!dropped.contains(p));
    }
    assert_eq!(kept[0], Point::new_xyzi(1000, 1000, 200, 2));
}

#[test]
fn crop_partition_on_boundary_points() {
    let pts = vec![Point::new_xyz(0, 0, 0), Point::new_xyz(10, 10, 10), Point::new_xyz(11, 0, 0)];
    let lo = XYZ::new(0, 0, 0);
    let hi = XYZ::new(10, 10, 10);
    assert_eq!(point_indices_bounding_box(&pts, lo, hi, false), vec![pts[0], pts[1]]);
    assert_eq!(point_indices_bounding_box(&pts, lo, hi, true), vec![pts[2]]);
}

#[test]
fn voxel_filter_averages_each_cell() {
    let pts = vec![
        Point::new_xyzi(0, 0, 0, 1),
        Point::new_xyzi(1, 1, 1, 2),
        Point::new_xyzi(10, 10, 10, 3),
        Point::new_xyzi(9, 9, 8, 4),
    ];
    let out = filter_points(&PointCloud::from_points(pts), LeafCount { x: 2, y: 2, z: 2 });
    assert_eq!(out.num_points(), 2);
    assert_eq!(out.point(0), Point { point: XYZ::new(0, 0, 0), data: Some(PointData::Intensity(Intensity::new(2))) });
    assert_eq!(out.point(1), Point { point: XYZ::new(9, 9, 9), data: Some(PointData::Intensity(Intensity::new(4))) });
}

#[test]
fn voxel_filter_rounds_means_down() {
    let pts = vec![Point::new_xyz(-1, 0, 0), Point::new_xyz(-2, 1, 0), Point::new_xyz(100, 100, 100)];
    let out = filter_points(&PointCloud::from_points(pts), LeafCount { x: 2, y: 2, z: 2 });
    assert_eq!(out.num_points(), 2);
    assert_eq!(out.point(0).point, XYZ::new(-2, 0, 0));
}

#[test]
fn voxel_filter_size_bounds() {
    let pts = grid_points();
    let one = filter_points(&PointCloud::from_points(pts.clone()), LeafCount { x: 1, y: 1, z: 1 });
    assert_eq!(one.num_points(), 1);
    assert_eq!(one.point(0).point, XYZ::new(2000, 2000, 400));
    let fine = filter_points(&PointCloud::from_points(pts.clone()), LeafCount { x: 100, y: 100, z: 100 });
    assert_eq!(fine.num_points(), pts.len());
    let mid = filter_points(&PointCloud::from_points(pts), LeafCount { x: 2, y: 3, z: 1 });
    assert!(mid.num_points() <= 6);
}

#[test]
fn voxel_filter_degenerate_inputs() {
    let empty = filter_points(&PointCloud::from_points(Vec::new()), LeafCount { x: 2, y: 2, z: 2 });
    assert_eq!(empty.num_points(), 0);
    let zero = filter_points(&PointCloud::from_points(grid_points()), LeafCount { x: 0, y: 2, z: 2 });
    assert_eq!(zero.num_points(), 0);
    let same = vec![Point::new_xyz(5, 5, 5), Point::new_xyz(5, 5, 5)];
    let flat = filter_points(&PointCloud::from_points(same), LeafCount { x: 3, y: 3, z: 3 });
    assert_eq!(flat.num_points(), 1);
    assert_eq!(flat.point(0).point, XYZ::new(5, 5, 5));
}
