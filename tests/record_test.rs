use sdcar_pcl::ego::find_lidar_cluster_ego_front;
use sdcar_pcl::bounding_box::BoundingBox;
use sdcar_pcl::image::{EncodingKind, ImageKind};
use sdcar_pcl::objects::{object_boxes, BoxLimits};
use sdcar_pcl::point::{HasData, HasNew, HasPoint, Intensity, NoData, Point, PointData, PointDataAccess, PointMeasurable, RGB, XYZ};
use sdcar_pcl::point_cloud::{PointCloud, Stamp};
use sdcar_pcl::point_cloud2::{DecodeError, PointCloud2, PointField};

fn record(height: u32, width: u32, step: u32, data: Vec<u8>) -> PointCloud2 {
    PointCloud2::new(1, 2, "lidar".to_string(), height, width, Vec::new(), false, step, step * width, data, true)
}

#[test]
fn channel_words_read_little_endian() {
    let mut data = vec![0u8; 40];
    data[0] = 1;
    data[4] = 0x02;
    data[5] = 0x01;
    data[8] = 0xff;
    data[11] = 0x80;
    data[16] = 7;
    data[20] = 9;
    data[36] = 0x10;
    data[39] = 0x01;
    let words = record(1, 2, 20, data).channel_words().unwrap();
    assert_eq!(words.len(), 2);
    assert_eq!(words[0], [1, 0x0102, 0x8000_00ff, 7]);
    assert_eq!(words[1], [9, 0, 0, 0x0100_0010]);
}

#[test]
fn channel_words_reject_short_buffers() {
    assert_eq!(record(2, 2, 20, vec![0u8; 79]).channel_words(), Err(DecodeError::LengthMismatch));
    assert_eq!(record(1, 1, 16, vec![0u8; 32]).channel_words(), Err(DecodeError::PointTooShort));
    assert_eq!(record(0, 5, 0, Vec::new()).channel_words(), Ok(Vec::new()));
}

#[test]
fn point_field_keeps_its_parts() {
    let f = PointField::new("intensity".to_string(), 16, 7, 1);
    assert_eq!(f.name, "intensity");
    assert_eq!((f.offset, f.datatype, f.count), (16, 7, 1));
}

fn bb(x0: i32, y0: i32, z0: i32, x1: i32, y1: i32, z1: i32) -> BoundingBox {
    BoundingBox::new(None, None, None, Point::new_xyz(x0, y0, z0), Point::new_xyz(x1, y1, z1))
}

#[test]
fn ego_front_picks_first_box_ahead() {
    let boxes = vec![bb(-5000, -500, 0, -1000, 500, 1000), bb(3000, -2000, 0, 6000, -1000, 1000), bb(8000, 2000, 0, 9000, 3000, 1000)];
    let found = find_lidar_cluster_ego_front(Some(boxes.clone()));
    assert_eq!(found, Some(boxes[1]));
    assert_eq!(find_lidar_cluster_ego_front(Some(vec![boxes[0], boxes[2]])), None);
    assert_eq!(find_lidar_cluster_ego_front(None), None);
}

#[test]
fn object_boxes_filter_and_number() {
    let car = vec![Point::new_xyz(5000, 0, -1500), Point::new_xyz(9000, 1800, 0)];
    let flat = vec![Point::new_xyz(0, 0, -1500), Point::new_xyz(4000, 4000, -1450)];
    let tower = vec![Point::new_xyz(0, 0, -1500), Point::new_xyz(1000, 1000, 6000)];
    let car2 = vec![Point::new_xyz(-9000, -1000, -1700), Point::new_xyz(-5000, 1000, 0)];
    let boxes = object_boxes(&vec![car.clone(), flat, tower, car2], BoxLimits::vehicle());
    assert_eq!(boxes.len(), 2);
    assert_eq!(boxes[0].box_id, Some(0));
    assert_eq!(boxes[0].cluster_id, Some(0));
    assert_eq!(boxes[1].box_id, Some(1));
    assert_eq!(boxes[1].cluster_id, Some(3));
    assert_eq!(boxes[0].point_min().point, XYZ::new(5000, 0, -1500));
    assert!(BoxLimits::vehicle().accepts(&BoundingBox::from_points(&car)));
}

#[test]
fn point_accessors() {
    let p = Point::new_rgb(1, 2, 3, 10, 20, 30);
    assert_eq!((p.r(), p.g(), p.b()), (10, 20, 30));
    assert_eq!(p.rgb(), RGB::new(10, 20, 30));
    assert_eq!(p.rgb().rgb(), [10, 20, 30]);
    assert_eq!((p.rgb().r(), p.rgb().g(), p.rgb().b()), (10, 20, 30));
    assert_eq!(p.i(), 0);
    assert_eq!(p.xyz(), [1, 2, 3]);
    let q = Point::new_xyzi(4, 5, 6, 700);
    assert_eq!(q.i(), 700);
    assert_eq!(q.intensity(), Intensity::new(700));
    assert_eq!(q.rgb(), RGB::new(0, 0, 0));
    assert_eq!(*q.point(), XYZ::new(4, 5, 6));
    assert_eq!(*q.data(), Some(PointData::Intensity(Intensity::new(700))));
    let r = <Point as HasNew>::new(XYZ::new(7, 8, 9), None);
    assert_eq!(r, Point::new_xyz(7, 8, 9));
    assert_eq!(<XYZ as PointMeasurable>::dims(), 3);
    assert_eq!(XYZ::new(1, 2, 3).get(2), 3);
    assert_eq!(XYZ::new(0, 0, 0).dist_squared(&XYZ::new(1, 2, 2)), 9);
    assert!(XYZ::new(0, 0, 0).is_within(&XYZ::new(1, 2, 2), 3));
    assert!(!XYZ::new(0, 0, 0).is_within(&XYZ::new(1, 2, 2), 2));
    takes_data(NoData {});
}

fn takes_data<T: PointDataAccess>(_t: T) {}

#[test]
fn cloud_accessors_and_kinds() {
    let c = PointCloud::with_stamp(vec![Point::new_xyz(1, 1, 1)], Stamp { sec: 3, nanosec: 4 });
    assert_eq!(c.num_points(), 1);
    assert_eq!(c.timestamp(), Some(Stamp { sec: 3, nanosec: 4 }));
    assert_eq!(PointCloud::from_points(Vec::new()).timestamp(), None);
    assert_ne!(ImageKind::JPG, ImageKind::WEBP);
    assert_eq!(EncodingKind::BGR8, EncodingKind::BGR8);
}
