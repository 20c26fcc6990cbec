//! Object boxes: the bounding box of each cluster, kept when its size and
//! height are plausible for a vehicle.

use vstd::prelude::*;
use crate::point::Point;
use crate::bounding_box::{BoundingBox, box_of};

verus! {

/// Ranges, in thousandths, outside which a cluster's box is rejected: the
/// least and greatest height of its floor and roof, and the least and
/// greatest extent along each axis.
#[derive(Debug, Clone, Copy, PartialEq, Eq, Structural)]
pub struct BoxLimits {
    pub z_min: i32,
    pub z_max: i32,
    pub dz_min: i64,
    pub dz_max: i64,
    pub dx_min: i64,
    pub dx_max: i64,
    pub dy_min: i64,
    pub dy_max: i64,
}

/// The box is plausible: floor not below `z_min`, roof not above `z_max`,
/// and every extent within its range.
pub open spec fn plausible(bb: BoundingBox, lim: BoxLimits) -> bool {
    let a = bb.point_min.point;
    let b = bb.point_max.point;
    &&& a.z >= lim.z_min
    &&& b.z <= lim.z_max
    &&& lim.dz_min <= b.z - a.z <= lim.dz_max
    &&& lim.dx_min <= b.x - a.x <= lim.dx_max
    &&& lim.dy_min <= b.y - a.y <= lim.dy_max
}

impl BoxLimits {
    /// Ranges tuned for cars seen by a roof-mounted LiDAR: floor above -4 m,
    /// roof below 1 m, 0.2 to 4 m tall, 0.3 to 6 m long and wide.
    pub fn vehicle() -> (r: BoxLimits)
        ensures
            r == (BoxLimits {
                z_min: -4_000i32,
                z_max: 1_000i32,
                dz_min: 200i64,
                dz_max: 4_000i64,
                dx_min: 300i64,
                dx_max: 6_000i64,
                dy_min: 300i64,
                dy_max: 6_000i64,
            }),
    {
        BoxLimits {
            z_min: -4_000,
            z_max: 1_000,
            dz_min: 200,
            dz_max: 4_000,
            dx_min: 300,
            dx_max: 6_000,
            dy_min: 300,
            dy_max: 6_000,
        }
    }

    /// Whether `bb` is plausible under these ranges.
    pub fn accepts(&self, bb: &BoundingBox) -> (r: bool)
        ensures
            r == plausible(*bb, *self),
    {
        let (dx, dy, dz) = bb.dxyz();
        let a = bb.point_min.point;
        let b = bb.point_max.point;
        a.z >= self.z_min && b.z <= self.z_max && dz >= self.dz_min && dz <= self.dz_max && dx >= self.dx_min
            && dx <= self.dx_max && dy >= self.dy_min && dy <= self.dy_max
    }
}

/// The boxes kept from `clusters`, each with its cluster index, and box ids
/// numbering the kept boxes in order from 0.
pub open spec fn boxes_ok(clusters: Seq<Seq<Point>>, lim: BoxLimits, r: Seq<BoundingBox>) -> bool {
    exists|idx: Seq<int>| #[trigger] boxes_from(clusters, lim, r, idx)
}

/// `r` keeps the plausible boxes of `clusters` at the increasing cluster
/// indices `idx`, each tagged with its ids.
pub open spec fn boxes_from(clusters: Seq<Seq<Point>>, lim: BoxLimits, r: Seq<BoundingBox>, idx: Seq<int>) -> bool {
    &&& r.len() == idx.len()
    &&& forall|k: int|
        0 <= k < r.len() ==> 0 <= #[trigger] idx[k] < clusters.len() && r[k] == (BoundingBox {
            box_id: Some(k as u32),
            cluster_id: Some(idx[k] as u32),
            ..box_of(clusters[idx[k]])
        })
    &&& forall|a: int, b: int| 0 <= a < b < idx.len() ==> #[trigger] idx[a] < #[trigger] idx[b]
    &&& forall|c: int|
        0 <= c < clusters.len() ==> (plausible(box_of(#[trigger] clusters[c]), lim) <==> exists|k: int|
            0 <= k < idx.len() && idx[k] == c)
}

/// The bounding box of each cluster, kept when `limits` accepts it, with box
/// ids counting the kept boxes and cluster ids pointing back to the cluster.
pub fn object_boxes(clusters: &Vec<Vec<Point>>, limits: BoxLimits) -> (r: Vec<BoundingBox>)
    requires
        clusters@.len() <= u32::MAX,
    ensures
        boxes_ok(clusters@.map_values(|c: Vec<Point>| c@), limits, r@),
{
    let ghost cs = clusters@.map_values(|c: Vec<Point>| c@);
    let mut out: Vec<BoundingBox> = Vec::new();
    let ghost mut idx: Seq<int> = Seq::empty();
    let mut i: usize = 0;
    while i < clusters.len()
        invariant
            i <= clusters@.len(),
            clusters@.len() <= u32::MAX,
            cs == clusters@.map_values(|c: Vec<Point>| c@),
            out@.len() == idx.len(),
            out@.len() <= i,
            forall|k: int|
                0 <= k < out@.len() ==> 0 <= #[trigger] idx[k] < i && out@[k] == (BoundingBox {
                    box_id: Some(k as u32),
                    cluster_id: Some(idx[k] as u32),
                    ..box_of(cs[idx[k]])
                }),
            forall|a: int, b: int| 0 <= a < b < idx.len() ==> #[trigger] idx[a] < #[trigger] idx[b],
            forall|c: int|
                0 <= c < i ==> (plausible(box_of(#[trigger] cs[c]), limits) <==> exists|k: int|
                    0 <= k < idx.len() && idx[k] == c),
        decreases clusters@.len() - i,
    {
        let mut bb = BoundingBox::from_points(&clusters[i]);
        assert(clusters@[i as int]@ == cs[i as int]);
        assert(bb == box_of(cs[i as int]));
        let ok = limits.accepts(&bb);
        let ghost old_idx = idx;
        if ok {
            bb.box_id = Some(out.len() as u32);
            bb.cluster_id = Some(i as u32);
            out.push(bb);
            proof {
                idx = idx.push(i as int);
            }
        }
        proof {
            assert forall|c: int|
                0 <= c < i + 1 implies (plausible(box_of(#[trigger] cs[c]), limits) <==> exists|k: int|
                    0 <= k < idx.len() && idx[k] == c) by {
                if c == i {
                    if ok {
                        assert(idx[idx.len() - 1] == c);
                    } else {
                        assert(idx == old_idx);
                        if exists|k: int| 0 <= k < idx.len() && idx[k] == c {
                            let k = choose|k: int| 0 <= k < idx.len() && idx[k] == c;
                            assert(idx[k] < i);
                        }
                    }
                } else {
                    if exists|k: int| 0 <= k < old_idx.len() && old_idx[k] == c {
                        let k = choose|k: int| 0 <= k < old_idx.len() && old_idx[k] == c;
                        assert(idx[k] == c);
                    }
                    if exists|k: int| 0 <= k < idx.len() && idx[k] == c {
                        let k = choose|k: int| 0 <= k < idx.len() && idx[k] == c;
                        if k < old_idx.len() {
                            assert(old_idx[k] == c);
                        }
                    }
                }
            }
        }
        i += 1;
    }
    assert(boxes_from(cs, limits, out@, idx));
    out
}

} // verus!
