//! Axis-aligned bounding boxes over point collections.

use vstd::prelude::*;
use crate::point::{Point, XYZ, coord};

verus! {

/// The least value of coordinate `d` over `s`; `i32::MAX` for no point.
pub open spec fn min_coord(s: Seq<Point>, d: int) -> int
    decreases s.len(),
{
    if s.len() == 0 {
        i32::MAX as int
    } else {
        let m = min_coord(s.drop_last(), d);
        let c = coord(s.last().point, d);
        if c < m {
            c
        } else {
            m
        }
    }
}

/// The greatest value of coordinate `d` over `s`; `i32::MIN` for no point.
pub open spec fn max_coord(s: Seq<Point>, d: int) -> int
    decreases s.len(),
{
    if s.len() == 0 {
        i32::MIN as int
    } else {
        let m = max_coord(s.drop_last(), d);
        let c = coord(s.last().point, d);
        if c > m {
            c
        } else {
            m
        }
    }
}

/// The corner of least coordinates of `s`.
pub open spec fn min_corner(s: Seq<Point>) -> XYZ {
    XYZ { x: min_coord(s, 0) as i32, y: min_coord(s, 1) as i32, z: min_coord(s, 2) as i32 }
}

/// The corner of greatest coordinates of `s`.
pub open spec fn max_corner(s: Seq<Point>) -> XYZ {
    XYZ { x: max_coord(s, 0) as i32, y: max_coord(s, 1) as i32, z: max_coord(s, 2) as i32 }
}

/// `p` lies in the closed box `[a, b]` on every axis.
pub open spec fn in_box(a: XYZ, b: XYZ, p: XYZ) -> bool {
    &&& a.x <= p.x <= b.x
    &&& a.y <= p.y <= b.y
    &&& a.z <= p.z <= b.z
}

/// Every coordinate of `a` is at most that of `b`.
pub open spec fn ordered(a: XYZ, b: XYZ) -> bool {
    a.x <= b.x && a.y <= b.y && a.z <= b.z
}

/// The least and greatest coordinates bound every point, and each is reached
/// by some point.
pub proof fn lemma_min_max_coord(s: Seq<Point>, d: int)
    ensures
        i32::MIN <= min_coord(s, d) <= i32::MAX,
        i32::MIN <= max_coord(s, d) <= i32::MAX,
        forall|i: int| 0 <= i < s.len() ==> min_coord(s, d) <= #[trigger] coord(s[i].point, d),
        forall|i: int| 0 <= i < s.len() ==> max_coord(s, d) >= #[trigger] coord(s[i].point, d),
        s.len() > 0 ==> exists|i: int| 0 <= i < s.len() && min_coord(s, d) == coord(s[i].point, d),
        s.len() > 0 ==> exists|i: int| 0 <= i < s.len() && max_coord(s, d) == coord(s[i].point, d),
    decreases s.len(),
{
    if s.len() > 0 {
        let t = s.drop_last();
        lemma_min_max_coord(t, d);
        assert forall|i: int| 0 <= i < s.len() implies min_coord(s, d) <= #[trigger] coord(s[i].point, d)
            && max_coord(s, d) >= coord(s[i].point, d) by {
            if i < s.len() - 1 {
                assert(s[i] == t[i]);
            }
        }
        if t.len() > 0 {
            let j = choose|j: int| 0 <= j < t.len() && min_coord(t, d) == coord(t[j].point, d);
            let k = choose|k: int| 0 <= k < t.len() && max_coord(t, d) == coord(t[k].point, d);
            assert(s[j] == t[j]);
            assert(s[k] == t[k]);
        }
        assert(coord(s[s.len() - 1].point, d) == coord(s.last().point, d));
    }
}

/// Law: the box derived from any non-empty collection has its least corner
/// below its greatest corner on every axis.
pub proof fn lemma_bounding_box_ordered(s: Seq<Point>)
    requires
        s.len() > 0,
    ensures
        ordered(min_corner(s), max_corner(s)),
{
    lemma_min_max_coord(s, 0);
    lemma_min_max_coord(s, 1);
    lemma_min_max_coord(s, 2);
    assert(min_coord(s, 0) <= coord(s[0].point, 0) <= max_coord(s, 0));
    assert(min_coord(s, 1) <= coord(s[0].point, 1) <= max_coord(s, 1));
    assert(min_coord(s, 2) <= coord(s[0].point, 2) <= max_coord(s, 2));
}

/// Law: a point strictly inside the box on every axis is bounded by it, and
/// a point beyond it on any one axis is not.
pub proof fn lemma_bounds_containment(a: XYZ, b: XYZ, p: XYZ)
    ensures
        (a.x < p.x < b.x && a.y < p.y < b.y && a.z < p.z < b.z) ==> in_box(a, b, p),
        (p.x < a.x || p.x > b.x || p.y < a.y || p.y > b.y || p.z < a.z || p.z > b.z) ==> !in_box(a, b, p),
{
}

/// Least and greatest corners of a collection of points: `(i32::MAX, ..)` and
/// `(i32::MIN, ..)` for an empty one.
pub fn get_min_max(points: &Vec<Point>) -> (r: (XYZ, XYZ))
    ensures
        r.0 == min_corner(points@),
        r.1 == max_corner(points@),
{
    let mut lo = XYZ { x: i32::MAX, y: i32::MAX, z: i32::MAX };
    let mut hi = XYZ { x: i32::MIN, y: i32::MIN, z: i32::MIN };
    let mut i: usize = 0;
    while i < points.len()
        invariant
            i <= points@.len(),
            lo == min_corner(points@.subrange(0, i as int)),
            hi == max_corner(points@.subrange(0, i as int)),
        decreases points@.len() - i,
    {
        let p = points[i].point;
        proof {
            let s = points@.subrange(0, i as int + 1);
            assert(s.drop_last() =~= points@.subrange(0, i as int));
            assert(s.last() == points@[i as int]);
            lemma_min_max_coord(points@.subrange(0, i as int), 0);
            lemma_min_max_coord(points@.subrange(0, i as int), 1);
            lemma_min_max_coord(points@.subrange(0, i as int), 2);
        }
        if p.x < lo.x {
            lo.x = p.x;
        }
        if p.y < lo.y {
            lo.y = p.y;
        }
        if p.z < lo.z {
            lo.z = p.z;
        }
        if p.x > hi.x {
            hi.x = p.x;
        }
        if p.y > hi.y {
            hi.y = p.y;
        }
        if p.z > hi.z {
            hi.z = p.z;
        }
        i += 1;
    }
    assert(points@.subrange(0, points@.len() as int) =~= points@);
    (lo, hi)
}

/// A point of screen space: the `(y, z, x)` of a coordinate.
pub type PointScreenCoord = (i32, i32, i32);

/// A segment between two points of screen space.
pub type LineScreenCoord = (PointScreenCoord, PointScreenCoord);

/// The screen point of a coordinate.
pub open spec fn screen_of(p: XYZ) -> PointScreenCoord {
    (p.y, p.z, p.x)
}

/// The twelve edges of the box with screen corners `a` and `b`.
pub open spec fn box_edges(a: PointScreenCoord, b: PointScreenCoord) -> Seq<LineScreenCoord> {
    let (ax, ay, az) = a;
    let (bx, by, bz) = b;
    seq![
        ((ax, ay, az), (bx, ay, az)),
        ((ax, ay, az), (ax, by, az)),
        ((ax, ay, az), (ax, ay, bz)),
        ((bx, by, az), (ax, by, az)),
        ((bx, by, az), (bx, ay, az)),
        ((bx, by, az), (bx, by, bz)),
        ((bx, by, bz), (ax, by, bz)),
        ((bx, by, bz), (bx, ay, bz)),
        ((bx, ay, bz), (ax, ay, bz)),
        ((bx, ay, bz), (bx, ay, az)),
        ((ax, by, bz), (ax, ay, bz)),
        ((ax, by, bz), (ax, by, az)),
    ]
}

/// The diagonal of a box, from which its edges are drawn.
#[derive(Debug, Clone, Copy, PartialEq, Eq, Structural)]
pub struct BBLine {
    pub a: XYZ,
    pub b: XYZ,
}

impl BBLine {
    pub fn new(a: &XYZ, b: &XYZ) -> (r: BBLine)
        ensures
            r == (BBLine { a: *a, b: *b }),
    {
        BBLine { a: *a, b: *b }
    }

    /// The diagonal in screen space.
    pub fn line_screen(&self) -> (r: LineScreenCoord)
        ensures
            r == (screen_of(self.a), screen_of(self.b)),
    {
        ((self.a.y, self.a.z, self.a.x), (self.b.y, self.b.z, self.b.x))
    }

    /// The twelve edges, in screen space, of the box with this diagonal.
    pub fn bounding_box_lines_screen(&self) -> (r: Vec<LineScreenCoord>)
        ensures
            r@ == box_edges(screen_of(self.a), screen_of(self.b)),
            r@.len() == 12,
    {
        let (a, b) = self.line_screen();
        let (ax, ay, az) = a;
        let (bx, by, bz) = b;
        let mut lines: Vec<LineScreenCoord> = Vec::with_capacity(12);
        lines.push(((ax, ay, az), (bx, ay, az)));
        lines.push(((ax, ay, az), (ax, by, az)));
        lines.push(((ax, ay, az), (ax, ay, bz)));
        lines.push(((bx, by, az), (ax, by, az)));
        lines.push(((bx, by, az), (bx, ay, az)));
        lines.push(((bx, by, az), (bx, by, bz)));
        lines.push(((bx, by, bz), (ax, by, bz)));
        lines.push(((bx, by, bz), (bx, ay, bz)));
        lines.push(((bx, ay, bz), (ax, ay, bz)));
        lines.push(((bx, ay, bz), (bx, ay, az)));
        lines.push(((ax, by, bz), (ax, ay, bz)));
        lines.push(((ax, by, bz), (ax, by, az)));
        assert(lines@ =~= box_edges(a, b));
        lines
    }
}

/// An axis-aligned box with optional identifiers: `point_min` and
/// `point_max` are its least and greatest corners.
#[derive(Debug, Clone, Copy, PartialEq, Eq, Structural)]
pub struct BoundingBox {
    pub box_id: Option<u32>,
    pub cluster_id: Option<u32>,
    pub track_id: Option<u32>,
    pub point_min: Point,
    pub point_max: Point,
}

/// The box that a collection of points yields, without identifiers.
pub open spec fn box_of(s: Seq<Point>) -> BoundingBox {
    BoundingBox {
        box_id: None,
        cluster_id: None,
        track_id: None,
        point_min: Point { point: min_corner(s), data: None },
        point_max: Point { point: max_corner(s), data: None },
    }
}

impl BoundingBox {
    pub fn new(
        box_id: Option<u32>,
        cluster_id: Option<u32>,
        track_id: Option<u32>,
        point_min: Point,
        point_max: Point,
    ) -> (r: BoundingBox)
        ensures
            r == (BoundingBox { box_id, cluster_id, track_id, point_min, point_max }),
    {
        BoundingBox { box_id, cluster_id, track_id, point_min, point_max }
    }

    /// The box spanned by a collection of points: for an empty one its least
    /// corner lies above its greatest, and it bounds no point.
    pub fn from_points(points: &Vec<Point>) -> (r: BoundingBox)
        ensures
            r == box_of(points@),
    {
        let (lo, hi) = get_min_max(points);
        BoundingBox {
            box_id: None,
            cluster_id: None,
            track_id: None,
            point_min: Point { point: lo, data: None },
            point_max: Point { point: hi, data: None },
        }
    }

    /// Squared length of the diagonal.
    pub fn dist_squared(&self) -> (r: i128)
        ensures
            r == crate::point::dist_sq(self.point_min.point, self.point_max.point),
    {
        self.point_min.point.dist_squared(&self.point_max.point)
    }

    /// Whether `p` lies in the box, boundary included, on every axis.
    pub fn bounds(&self, p: &Point) -> (r: bool)
        ensures
            r == in_box(self.point_min.point, self.point_max.point, p.point),
    {
        let a = self.point_min.point;
        let b = self.point_max.point;
        let q = p.point;
        a.x <= q.x && q.x <= b.x && a.y <= q.y && q.y <= b.y && a.z <= q.z && q.z <= b.z
    }

    /// The twelve edges of the box in screen space.
    pub fn frame_lines(&self) -> (r: Vec<LineScreenCoord>)
        ensures
            r@ == box_edges(screen_of(self.point_min.point), screen_of(self.point_max.point)),
            r@.len() == 12,
    {
        let line = BBLine::new(&self.point_min.point, &self.point_max.point);
        line.bounding_box_lines_screen()
    }

    pub fn point_min(&self) -> (r: Point)
        ensures
            r == self.point_min,
    {
        self.point_min
    }

    pub fn point_max(&self) -> (r: Point)
        ensures
            r == self.point_max,
    {
        self.point_max
    }

    /// Extent of the box along each axis.
    pub fn dxyz(&self) -> (r: (i64, i64, i64))
        ensures
            r.0 == self.point_max.point.x - self.point_min.point.x,
            r.1 == self.point_max.point.y - self.point_min.point.y,
            r.2 == self.point_max.point.z - self.point_min.point.z,
    {
        let a = self.point_max.point;
        let b = self.point_min.point;
        (a.x as i64 - b.x as i64, a.y as i64 - b.y as i64, a.z as i64 - b.z as i64)
    }
}

} // verus!
