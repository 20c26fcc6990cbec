//! Points with fixed-point coordinates and an optional auxiliary channel.
//!
//! A coordinate is an `i32` counting thousandths of the sensor's unit (a
//! millimetre for a LiDAR that reports metres). Equality is exact on these
//! integers, so two points that round to the same thousandths are the same
//! point: the quantization is made once, where a reading enters the library.

use vstd::prelude::*;

verus! {

/// Largest absolute coordinate for which plane fitting is exact in 128-bit
/// arithmetic (500 000 thousandths: 500 m for a LiDAR in metres).
pub const COORD_LIMIT: i32 = 500_000;

/// Squared Euclidean distance between two coordinates.
pub open spec fn dist_sq(a: XYZ, b: XYZ) -> int {
    (a.x - b.x) * (a.x - b.x) + (a.y - b.y) * (a.y - b.y) + (a.z - b.z) * (a.z - b.z)
}

/// `b` lies within Euclidean distance `radius` of `a`.
pub open spec fn within(a: XYZ, b: XYZ, radius: u32) -> bool {
    dist_sq(a, b) <= radius * radius
}

/// Coordinate `d` (0 = x, 1 = y, 2 = z) of a point.
pub open spec fn coord(p: XYZ, d: int) -> int {
    if d == 0 {
        p.x as int
    } else if d == 1 {
        p.y as int
    } else {
        p.z as int
    }
}

/// Every coordinate lies in `[-COORD_LIMIT, COORD_LIMIT]`.
pub open spec fn xyz_in_limit(p: XYZ) -> bool {
    &&& -COORD_LIMIT <= p.x <= COORD_LIMIT
    &&& -COORD_LIMIT <= p.y <= COORD_LIMIT
    &&& -COORD_LIMIT <= p.z <= COORD_LIMIT
}

/// Every coordinate of every point is within `COORD_LIMIT`.
pub open spec fn cloud_in_limit(s: Seq<Point>) -> bool {
    forall|i: int| 0 <= i < s.len() ==> xyz_in_limit(#[trigger] s[i].point)
}

/// The points a filter keeps from a collection within the limit are within
/// it.
pub proof fn lemma_filter_in_limit(s: Seq<Point>, pred: spec_fn(Point) -> bool)
    requires
        cloud_in_limit(s),
    ensures
        cloud_in_limit(s.filter(pred)),
        s.filter(pred).len() <= s.len(),
{
    let g = s.filter(pred);
    s.lemma_filter_len(pred);
    assert forall|i: int| 0 <= i < g.len() implies xyz_in_limit(#[trigger] g[i].point) by {
        assert(g.contains(g[i]));
        s.lemma_filter_contains_rev(pred, g[i]);
        let j = choose|j: int| 0 <= j < s.len() && s[j] == g[i];
    }
}

/// Kinds of coordinate that a point can carry.
pub trait PointMeasurable {
    /// Number of dimensions of the coordinate.
    fn dims() -> usize;
}

/// Kinds of auxiliary channel that a point can carry.
pub trait PointDataAccess {
}

/// A 3-D coordinate in thousandths of the sensor's unit.
#[derive(Debug, Clone, Copy, PartialEq, Eq, Structural, Hash)]
pub struct XYZ {
    pub x: i32,
    pub y: i32,
    pub z: i32,
}

/// A colour channel.
#[derive(Debug, Clone, Copy, PartialEq, Eq, Structural, Hash)]
pub struct RGB {
    pub r: u8,
    pub g: u8,
    pub b: u8,
}

/// An intensity channel, in thousandths like the coordinates.
#[derive(Debug, Clone, Copy, PartialEq, Eq, Structural, Hash)]
pub struct Intensity {
    pub i: i32,
}

/// The channel kind of a plain point, which carries no auxiliary value.
#[derive(Debug, Clone, Copy, PartialEq, Eq, Structural, Hash)]
pub struct NoData {
}

/// The auxiliary value of a point.
#[derive(Debug, Clone, Copy, PartialEq, Eq, Structural, Hash)]
pub enum PointData {
    Intensity(Intensity),
    Rgb(RGB),
}

/// A coordinate with an optional auxiliary value.
#[derive(Debug, Clone, Copy, PartialEq, Eq, Structural, Hash)]
pub struct Point {
    pub point: XYZ,
    pub data: Option<PointData>,
}

impl PointMeasurable for XYZ {
    fn dims() -> usize {
        3
    }
}

impl PointDataAccess for RGB {
}

impl PointDataAccess for Intensity {
}

impl PointDataAccess for NoData {
}

/// Squared difference of two `i32` values, exact in `i128`.
fn sq_diff(a: i32, b: i32) -> (r: i128)
    ensures
        r == (a - b) * (a - b),
        0 <= r <= 0x1_0000_0000_0000_0000,
{
    let d: i64 = a as i64 - b as i64;
    proof {
        assert(-0x1_0000_0000 <= d <= 0x1_0000_0000);
        assert(0 <= d * d <= 0x1_0000_0000_0000_0000) by (nonlinear_arith)
            requires
                -0x1_0000_0000 <= d <= 0x1_0000_0000,
        ;
    }
    (d as i128) * (d as i128)
}

impl XYZ {
    pub fn new(x: i32, y: i32, z: i32) -> (r: XYZ)
        ensures
            r == (XYZ { x, y, z }),
    {
        XYZ { x, y, z }
    }

    pub fn x(&self) -> (r: i32)
        ensures
            r == self.x,
    {
        self.x
    }

    pub fn y(&self) -> (r: i32)
        ensures
            r == self.y,
    {
        self.y
    }

    pub fn z(&self) -> (r: i32)
        ensures
            r == self.z,
    {
        self.z
    }

    pub fn array(&self) -> (r: [i32; 3])
        ensures
            r@ == seq![self.x, self.y, self.z],
    {
        [self.x, self.y, self.z]
    }

    pub fn tuple(&self) -> (r: (i32, i32, i32))
        ensures
            r == (self.x, self.y, self.z),
    {
        (self.x, self.y, self.z)
    }

    /// Coordinate `d` (0 = x, 1 = y, 2 = z).
    pub fn get(&self, d: usize) -> (r: i32)
        requires
            d < 3,
        ensures
            r == coord(*self, d as int),
    {
        if d == 0 {
            self.x
        } else if d == 1 {
            self.y
        } else {
            self.z
        }
    }

    /// Squared Euclidean distance to `other`.
    pub fn dist_squared(&self, other: &XYZ) -> (r: i128)
        ensures
            r == dist_sq(*self, *other),
            0 <= r,
    {
        let dx = sq_diff(self.x, other.x);
        let dy = sq_diff(self.y, other.y);
        let dz = sq_diff(self.z, other.z);
        dx + dy + dz
    }

    /// Whether `other` lies within Euclidean distance `radius`.
    pub fn is_within(&self, other: &XYZ, radius: u32) -> (r: bool)
        ensures
            r == within(*self, *other, radius),
    {
        let d = self.dist_squared(other);
        let r64 = radius as u64;
        proof {
            assert(r64 * r64 <= 0xffff_ffff_ffff_ffff) by (nonlinear_arith)
                requires
                    r64 <= 0xffff_ffff,
            ;
        }
        let rr: i128 = (r64 * r64) as i128;
        d <= rr
    }
}

impl RGB {
    pub fn new(r: u8, g: u8, b: u8) -> (c: RGB)
        ensures
            c == (RGB { r, g, b }),
    {
        RGB { r, g, b }
    }

    pub fn r(&self) -> (v: u8)
        ensures
            v == self.r,
    {
        self.r
    }

    pub fn g(&self) -> (v: u8)
        ensures
            v == self.g,
    {
        self.g
    }

    pub fn b(&self) -> (v: u8)
        ensures
            v == self.b,
    {
        self.b
    }

    pub fn rgb(&self) -> (v: [u8; 3])
        ensures
            v@ == seq![self.r, self.g, self.b],
    {
        [self.r, self.g, self.b]
    }
}

impl Intensity {
    pub fn new(i: i32) -> (r: Intensity)
        ensures
            r == (Intensity { i }),
    {
        Intensity { i }
    }

    pub fn i(&self) -> (r: i32)
        ensures
            r == self.i,
    {
        self.i
    }
}

/// Access to the coordinate of a point.
pub trait HasPoint {
    spec fn point_spec(&self) -> XYZ;

    fn point(&self) -> (r: &XYZ)
        ensures
            *r == self.point_spec(),
    ;
}

/// Access to the auxiliary value of a point.
pub trait HasData {
    spec fn data_spec(&self) -> Option<PointData>;

    fn data(&self) -> (r: &Option<PointData>)
        ensures
            *r == self.data_spec(),
    ;
}

/// Construction of a point from its parts.
pub trait HasNew: Sized {
    spec fn new_spec(point: XYZ, data: Option<PointData>) -> Self;

    fn new(point: XYZ, data: Option<PointData>) -> (r: Self)
        ensures
            r == Self::new_spec(point, data),
    ;
}

impl HasPoint for Point {
    open spec fn point_spec(&self) -> XYZ {
        self.point
    }

    fn point(&self) -> (r: &XYZ) {
        &self.point
    }
}

impl HasData for Point {
    open spec fn data_spec(&self) -> Option<PointData> {
        self.data
    }

    fn data(&self) -> (r: &Option<PointData>) {
        &self.data
    }
}

impl HasNew for Point {
    open spec fn new_spec(point: XYZ, data: Option<PointData>) -> Point {
        Point { point, data }
    }

    fn new(point: XYZ, data: Option<PointData>) -> (r: Point) {
        Point { point, data }
    }
}

/// The intensity of an auxiliary value, 0 where it holds none.
pub open spec fn intensity_of(data: Option<PointData>) -> i32 {
    match data {
        Some(PointData::Intensity(v)) => v.i,
        _ => 0,
    }
}

/// The colour of an auxiliary value, black where it holds none.
pub open spec fn rgb_of(data: Option<PointData>) -> RGB {
    match data {
        Some(PointData::Rgb(c)) => c,
        _ => RGB { r: 0, g: 0, b: 0 },
    }
}

impl Point {
    /// A point with an intensity channel.
    pub fn new_xyzi(x: i32, y: i32, z: i32, i: i32) -> (r: Point)
        ensures
            r == (Point { point: XYZ { x, y, z }, data: Some(PointData::Intensity(Intensity { i })) }),
    {
        Point { point: XYZ { x, y, z }, data: Some(PointData::Intensity(Intensity { i })) }
    }

    /// A plain point, without an auxiliary value.
    pub fn new_xyz(x: i32, y: i32, z: i32) -> (r: Point)
        ensures
            r == (Point { point: XYZ { x, y, z }, data: None }),
    {
        Point { point: XYZ { x, y, z }, data: None }
    }

    /// A point with a colour channel.
    pub fn new_rgb(x: i32, y: i32, z: i32, r: u8, g: u8, b: u8) -> (p: Point)
        ensures
            p == (Point { point: XYZ { x, y, z }, data: Some(PointData::Rgb(RGB { r, g, b })) }),
    {
        Point { point: XYZ { x, y, z }, data: Some(PointData::Rgb(RGB { r, g, b })) }
    }

    pub fn x(&self) -> (r: i32)
        ensures
            r == self.point.x,
    {
        self.point.x
    }

    pub fn y(&self) -> (r: i32)
        ensures
            r == self.point.y,
    {
        self.point.y
    }

    pub fn z(&self) -> (r: i32)
        ensures
            r == self.point.z,
    {
        self.point.z
    }

    pub fn xyz(&self) -> (r: [i32; 3])
        ensures
            r@ == seq![self.point.x, self.point.y, self.point.z],
    {
        [self.point.x, self.point.y, self.point.z]
    }

    /// Squared Euclidean distance between the coordinates of two points.
    pub fn dist_squared(&self, other: &Point) -> (r: i128)
        ensures
            r == dist_sq(self.point, other.point),
    {
        self.point.dist_squared(&other.point)
    }

    /// The intensity, 0 where the point carries none.
    pub fn i(&self) -> (r: i32)
        ensures
            r == intensity_of(self.data),
    {
        match self.data {
            Some(PointData::Intensity(v)) => v.i,
            _ => 0,
        }
    }

    /// The intensity channel, 0 where the point carries none.
    pub fn intensity(&self) -> (r: Intensity)
        ensures
            r.i == intensity_of(self.data),
    {
        Intensity { i: self.i() }
    }

    /// The colour, black where the point carries none.
    pub fn rgb(&self) -> (r: RGB)
        ensures
            r == rgb_of(self.data),
    {
        match self.data {
            Some(PointData::Rgb(c)) => c,
            _ => RGB { r: 0, g: 0, b: 0 },
        }
    }

    pub fn r(&self) -> (v: u8)
        ensures
            v == rgb_of(self.data).r,
    {
        self.rgb().r
    }

    pub fn g(&self) -> (v: u8)
        ensures
            v == rgb_of(self.data).g,
    {
        self.rgb().g
    }

    pub fn b(&self) -> (v: u8)
        ensures
            v == rgb_of(self.data).b,
    {
        self.rgb().b
    }
}

} // verus!
