use sdcar_pcl::bounding_box::{get_min_max, BoundingBox, BBLine};
use sdcar_pcl::point::{Point, XYZ};
use sdcar_pcl::point_cloud::PointCloud;

fn build_point_indices() -> Vec<Point> {
    vec![
        Point::new_xyzi(-6200, 7100, 0, 0),
        Point::new_xyzi(-6300, 8400, 0, 0),
        Point::new_xyzi(-5200, 7100, 0, 0),
        Point::new_xyzi(-5700, 6300, 0, 0),
    ]
}

#[test]
fn lib_it_works() {
    assert_eq!(2 + 2, 4);
}

#[test]
fn it_works() {
    assert_eq!(2 + 2, 4);
}

#[test]
fn bounding_box_creation_test() {
    let point_indices = build_point_indices();
    let num_points = point_indices.len();
    assert!(num_points == 4, "{} points loaded", num_points);

    let cloud = PointCloud::from_points(point_indices);
    let (min_vec, max_vec) = get_min_max(cloud.point_indices_ref());
    assert_eq!(min_vec, XYZ::new(-6300, 6300, 0));
    assert_eq!(max_vec, XYZ::new(-5200, 8400, 0));

    let point_min = Point::new_xyzi(min_vec.x, min_vec.y, min_vec.z, 0);
    let point_max = Point::new_xyzi(max_vec.x, max_vec.y, max_vec.z, 0);
    let bb = BoundingBox::new(None, None, None, point_min, point_max);

    let point_inside = Point::new_xyzi(-6000, 7000, 0, 0);
    assert!(bb.bounds(&point_inside), "{:?} point not bounded by bb {:?}", point_inside, bb);

    let point_outside = Point::new_xyzi(-6400, 7000, 0, 0);
    assert!(!bb.bounds(&point_outside), "{:?} point outside bounded by bb {:?}", point_outside, bb);
}

#[test]
fn bounding_box_lines_test() {
    let cloud = PointCloud::from_points(build_point_indices());
    let bb = BoundingBox::from_points(cloud.point_indices_ref());
    let lines = bb.frame_lines();
    assert!(lines.len() == 12, "Expected 12 lines found {}", lines.len());
}

#[test]
fn bounding_box_from_points_corners() {
    let bb = BoundingBox::from_points(&build_point_indices());
    assert_eq!(bb.point_min().point, XYZ::new(-6300, 6300, 0));
    assert_eq!(bb.point_max().point, XYZ::new(-5200, 8400, 0));
    assert_eq!(bb.point_min().data, None);
    assert_eq!(bb.box_id, None);
    assert_eq!(bb.dxyz(), (1100, 2100, 0));
    assert_eq!(bb.dist_squared(), 1100 * 1100 + 2100 * 2100);
}

#[test]
fn bounding_box_of_no_points_bounds_nothing() {
    let bb = BoundingBox::from_points(&Vec::new());
    assert_eq!(bb.point_min().point, XYZ::new(i32::MAX, i32::MAX, i32::MAX));
    assert_eq!(bb.point_max().point, XYZ::new(i32::MIN, i32::MIN, i32::MIN));
    assert!(!bb.bounds(&Point::new_xyz(0, 0, 0)));
}

#[test]
fn bounds_is_inclusive_and_fails_on_one_axis() {
    let bb = BoundingBox::new(None, None, None, Point::new_xyz(0, 0, 0), Point::new_xyz(10, 10, 10));
    assert!(bb.bounds(&Point::new_xyz(0, 10, 5)));
    assert!(!bb.bounds(&Point::new_xyz(5, 5, 11)));
    assert!(!bb.bounds(&Point::new_xyz(-1, 5, 5)));
    assert!(!bb.bounds(&Point::new_xyz(5, 11, 5)));
}

#[test]
fn frame_lines_are_the_box_edges_in_screen_space() {
    let bb = BoundingBox::new(None, None, None, Point::new_xyz(1, 2, 3), Point::new_xyz(4, 5, 6));
    let lines = bb.frame_lines();
    // screen order is (y, z, x)
    assert_eq!(lines[0], ((2, 3, 1), (5, 3, 1)));
    assert_eq!(lines[5], ((5, 6, 1), (5, 6, 4)));
    assert_eq!(lines[11], ((2, 6, 4), (2, 6, 1)));
    let line = BBLine::new(&XYZ::new(1, 2, 3), &XYZ::new(4, 5, 6));
    assert_eq!(line.line_screen(), ((2, 3, 1), (5, 6, 4)));
    assert_eq!(line.bounding_box_lines_screen(), lines);
}
