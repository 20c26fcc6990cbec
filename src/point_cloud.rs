//! Ordered collections of points, optionally tagged with the capture time of
//! the sensor record they were decoded from.

use vstd::prelude::*;
use crate::point::Point;

verus! {

/// Capture time of a sensor record: seconds and nanoseconds since the epoch.
#[derive(Debug, Clone, Copy, PartialEq, Eq, Structural)]
pub struct Stamp {
    pub sec: i32,
    pub nanosec: u32,
}

/// An ordered sequence of points; filters build new clouds rather than
/// changing one in place.
#[derive(Debug, Clone)]
pub struct PointCloud {
    pub stamp: Option<Stamp>,
    pub points: Vec<Point>,
}

impl View for PointCloud {
    type V = Seq<Point>;

    open spec fn view(&self) -> Seq<Point> {
        self.points@
    }
}

impl PointCloud {
    /// A cloud of the given points, without a record time.
    pub fn from_points(points: Vec<Point>) -> (c: PointCloud)
        ensures
            c@ == points@,
            c.stamp.is_none(),
    {
        PointCloud { stamp: None, points }
    }

    /// A cloud of the given points, taken at `stamp`.
    pub fn with_stamp(points: Vec<Point>, stamp: Stamp) -> (c: PointCloud)
        ensures
            c@ == points@,
            c.stamp == Some(stamp),
    {
        PointCloud { stamp: Some(stamp), points }
    }

    pub fn num_points(&self) -> (r: usize)
        ensures
            r == self@.len(),
    {
        self.points.len()
    }

    pub fn point(&self, i: usize) -> (r: Point)
        requires
            i < self@.len(),
        ensures
            r == self@[i as int],
    {
        self.points[i]
    }

    pub fn point_indices_ref(&self) -> (r: &Vec<Point>)
        ensures
            r@ == self@,
    {
        &self.points
    }

    pub fn timestamp(&self) -> (r: Option<Stamp>)
        ensures
            r == self.stamp,
    {
        self.stamp
    }
}

} // verus!
