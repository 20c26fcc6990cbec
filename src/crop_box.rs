//! The crop-box filter: keep the points inside an axis-aligned region, or
//! drop them.

use vstd::prelude::*;
use crate::point::{Point, XYZ};
use crate::bounding_box::in_box;

verus! {

broadcast use vstd::seq_lib::group_seq_properties;

/// Least corner of a crop region.
pub type MinVec = XYZ;

/// Greatest corner of a crop region.
pub type MaxVec = XYZ;

/// Whether the crop filter keeps `p`: the points in `[min_vec, max_vec]`
/// when `drop` is false, the others when it is true.
pub open spec fn crop_keeps(min_vec: XYZ, max_vec: XYZ, drop: bool, p: Point) -> bool {
    in_box(min_vec, max_vec, p.point) != drop
}

/// `crop_keeps` as a predicate on points.
pub open spec fn crop_pred(min_vec: XYZ, max_vec: XYZ, drop: bool) -> spec_fn(Point) -> bool {
    |p: Point| crop_keeps(min_vec, max_vec, drop, p)
}

/// The points that the crop filter keeps, in their order.
pub open spec fn crop(s: Seq<Point>, min_vec: XYZ, max_vec: XYZ, drop: bool) -> Seq<Point> {
    s.filter(crop_pred(min_vec, max_vec, drop))
}

/// Keeps the points inside the box `[min_vec, max_vec]` (boundary included)
/// when `drop` is false, and those outside it when `drop` is true.
pub fn point_indices_bounding_box(
    points: &Vec<Point>,
    min_vec: MinVec,
    max_vec: MaxVec,
    drop: bool,
) -> (r: Vec<Point>)
    ensures
        r@ == crop(points@, min_vec, max_vec, drop),
{
    let mut out: Vec<Point> = Vec::new();
    let mut i: usize = 0;
    while i < points.len()
        invariant
            i <= points@.len(),
            out@ == crop(points@.subrange(0, i as int), min_vec, max_vec, drop),
        decreases points@.len() - i,
    {
        let p = points[i];
        let a = min_vec;
        let b = max_vec;
        let inside = a.x <= p.point.x && p.point.x <= b.x && a.y <= p.point.y && p.point.y <= b.y
            && a.z <= p.point.z && p.point.z <= b.z;
        proof {
            assert(points@.subrange(0, i as int + 1) =~= points@.subrange(0, i as int).push(p));
            points@.subrange(0, i as int).lemma_filter_push(p, crop_pred(min_vec, max_vec, drop));
            assert(crop_pred(min_vec, max_vec, drop)(p) == (inside != drop));
        }
        if inside != drop {
            out.push(p);
        }
        i += 1;
    }
    assert(points@.subrange(0, points@.len() as int) =~= points@);
    out
}

/// Law: cropping with `drop` false and with `drop` true splits a collection
/// in two: together the two results hold each point as often as the
/// collection does, and no point is in both.
pub proof fn lemma_crop_partition(s: Seq<Point>, min_vec: XYZ, max_vec: XYZ)
    ensures
        crop(s, min_vec, max_vec, false).to_multiset().add(crop(s, min_vec, max_vec, true).to_multiset())
            =~= s.to_multiset(),
        forall|p: Point|
            !(crop(s, min_vec, max_vec, false).contains(p) && #[trigger] crop(
                s,
                min_vec,
                max_vec,
                true,
            ).contains(p)),
    decreases s.len(),
{
    let kin = crop_pred(min_vec, max_vec, false);
    let kout = crop_pred(min_vec, max_vec, true);
    if s.len() == 0 {
        assert(s.filter(kin) =~= Seq::<Point>::empty()) by {
            reveal(Seq::filter);
        }
        assert(s.filter(kout) =~= Seq::<Point>::empty()) by {
            reveal(Seq::filter);
        }
        assert(s =~= Seq::<Point>::empty());
    } else {
        let t = s.drop_last();
        let x = s.last();
        lemma_crop_partition(t, min_vec, max_vec);
        assert(s =~= t.push(x));
        t.lemma_filter_push(x, kin);
        t.lemma_filter_push(x, kout);
        assert forall|p: Point|
            !(crop(s, min_vec, max_vec, false).contains(p) && #[trigger] crop(
                s,
                min_vec,
                max_vec,
                true,
            ).contains(p)) by {
            if crop(s, min_vec, max_vec, false).contains(p) && crop(s, min_vec, max_vec, true).contains(p) {
                let i = choose|i: int| 0 <= i < s.filter(kin).len() && s.filter(kin)[i] == p;
                let j = choose|j: int| 0 <= j < s.filter(kout).len() && s.filter(kout)[j] == p;
                s.lemma_filter_pred(kin, i);
                s.lemma_filter_pred(kout, j);
            }
        }
    }
}

} // verus!
