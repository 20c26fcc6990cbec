//! Picking out the object box straight ahead of the ego vehicle.

use vstd::prelude::*;
use crate::bounding_box::BoundingBox;

verus! {

/// Farthest distance ahead, in thousandths, at which a box counts as in front.
pub const FRONT_MAX_X: i32 = 25_000;

/// Half-width, in thousandths, of the lane in front of the ego vehicle.
pub const FRONT_HALF_WIDTH: i32 = 1_500;

/// The box lies straight ahead: its near side is between 0 and
/// `FRONT_MAX_X` ahead, and its side nearest the centre line (the greater
/// `y` for a box reaching to the right, else the least) within
/// `FRONT_HALF_WIDTH` of it.
pub open spec fn in_front(bb: BoundingBox) -> bool {
    let x = bb.point_min.point.x;
    let y = if bb.point_min.point.y < 0 {
        bb.point_max.point.y
    } else {
        bb.point_min.point.y
    };
    0 < x < FRONT_MAX_X && -FRONT_HALF_WIDTH < y < FRONT_HALF_WIDTH
}

/// The first box, in order, that lies straight ahead of the ego vehicle.
pub fn find_lidar_cluster_ego_front(lidar_boundinging_boxes: Option<Vec<BoundingBox>>) -> (r: Option<BoundingBox>)
    ensures
        lidar_boundinging_boxes.is_none() ==> r.is_none(),
        lidar_boundinging_boxes.is_some() ==> {
            let bbs = lidar_boundinging_boxes.unwrap()@;
            match r {
                Some(bb) => exists|k: int|
                    0 <= k < bbs.len() && bbs[k] == bb && in_front(bb) && forall|j: int|
                        0 <= j < k ==> !in_front(#[trigger] bbs[j]),
                None => forall|j: int| 0 <= j < bbs.len() ==> !in_front(#[trigger] bbs[j]),
            }
        },
{
    match &lidar_boundinging_boxes {
        None => None,
        Some(bbes) => {
            let mut k: usize = 0;
            while k < bbes.len()
                invariant
                    lidar_boundinging_boxes.is_some(),
                    lidar_boundinging_boxes.unwrap()@ == bbes@,
                    k <= bbes@.len(),
                    forall|j: int| 0 <= j < k ==> !in_front(#[trigger] bbes@[j]),
                decreases bbes@.len() - k,
            {
                let bb = bbes[k];
                let x = bb.point_min.point.x;
                let y = if bb.point_min.point.y < 0 {
                    bb.point_max.point.y
                } else {
                    bb.point_min.point.y
                };
                if x > 0 && x < FRONT_MAX_X && y > -FRONT_HALF_WIDTH && y < FRONT_HALF_WIDTH {
                    assert(in_front(bbes@[k as int]));
                    return Some(bb);
                }
                k += 1;
            }
            None
        },
    }
}

} // verus!
