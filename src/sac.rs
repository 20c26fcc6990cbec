//! RANSAC plane segmentation.
//!
//! A trial takes three points of the cloud, fits the plane through them
//! (normal `(q2 - q1) x (q3 - q1)`) and counts as inliers the three sample
//! points and every point whose perpendicular distance to the plane is at
//! most the threshold. With integer coordinates the distance test
//! `|n . (p - q1)| / |n| <= t` is decided exactly as
//! `(n . (p - q1))^2 <= t^2 |n|^2`. Collinear samples give a zero normal:
//! such a trial keeps only points equal to a sample. The trial with the most
//! inliers wins; among equals, the earliest.

use vstd::prelude::*;
use rayon::iter::{IndexedParallelIterator, IntoParallelRefIterator, ParallelIterator};
use crate::point::{Point, XYZ, COORD_LIMIT, xyz_in_limit, cloud_in_limit};
use crate::point_cloud::PointCloud;
use crate::random::random_index;

verus! {

broadcast use vstd::seq_lib::group_seq_properties;

/// Normal of the plane through `q1`, `q2`, `q3`.
pub open spec fn plane_normal(q1: XYZ, q2: XYZ, q3: XYZ) -> (int, int, int) {
    let ux = q2.x - q1.x;
    let uy = q2.y - q1.y;
    let uz = q2.z - q1.z;
    let vx = q3.x - q1.x;
    let vy = q3.y - q1.y;
    let vz = q3.z - q1.z;
    (uy * vz - uz * vy, uz * vx - ux * vz, ux * vy - uy * vx)
}

/// `n . (p - q1)`: the distance from `p` to the plane, times `|n|`.
pub open spec fn plane_offset(q1: XYZ, q2: XYZ, q3: XYZ, p: XYZ) -> int {
    let n = plane_normal(q1, q2, q3);
    n.0 * (p.x - q1.x) + n.1 * (p.y - q1.y) + n.2 * (p.z - q1.z)
}

/// `|n|^2`.
pub open spec fn normal_sq(q1: XYZ, q2: XYZ, q3: XYZ) -> int {
    let n = plane_normal(q1, q2, q3);
    n.0 * n.0 + n.1 * n.1 + n.2 * n.2
}

/// `p` lies within distance `thr` of the plane through the three samples,
/// which are not collinear.
pub open spec fn near_plane(q1: XYZ, q2: XYZ, q3: XYZ, thr: u32, p: XYZ) -> bool {
    let off = plane_offset(q1, q2, q3, p);
    normal_sq(q1, q2, q3) > 0 && off * off <= (thr * thr) * normal_sq(q1, q2, q3)
}

/// `p` is an inlier of the trial with samples `q1`, `q2`, `q3`.
pub open spec fn is_inlier(q1: Point, q2: Point, q3: Point, thr: u32, p: Point) -> bool {
    p == q1 || p == q2 || p == q3 || near_plane(q1.point, q2.point, q3.point, thr, p.point)
}

/// `is_inlier` as a predicate on points.
pub open spec fn inlier_pred(q1: Point, q2: Point, q3: Point, thr: u32) -> spec_fn(Point) -> bool {
    |p: Point| is_inlier(q1, q2, q3, thr, p)
}

/// `is_inlier` negated, as a predicate on points.
pub open spec fn outlier_pred(q1: Point, q2: Point, q3: Point, thr: u32) -> spec_fn(Point) -> bool {
    |p: Point| !is_inlier(q1, q2, q3, thr, p)
}

/// The three positions of a sample lie in `s`.
pub open spec fn sample_ok(s: Seq<Point>, t: (usize, usize, usize)) -> bool {
    t.0 < s.len() && t.1 < s.len() && t.2 < s.len()
}

/// The inliers, in cloud order, of the trial that samples positions `t`.
pub open spec fn inliers(s: Seq<Point>, t: (usize, usize, usize), thr: u32) -> Seq<Point> {
    s.filter(inlier_pred(s[t.0 as int], s[t.1 as int], s[t.2 as int], thr))
}

/// The points, in cloud order, that are not inliers of the trial `t`.
pub open spec fn outliers(s: Seq<Point>, t: (usize, usize, usize), thr: u32) -> Seq<Point> {
    s.filter(outlier_pred(s[t.0 as int], s[t.1 as int], s[t.2 as int], thr))
}

/// Trial `w` of `samples` has the most inliers, and no earlier trial has as
/// many.
pub open spec fn wins(s: Seq<Point>, samples: Seq<(usize, usize, usize)>, thr: u32, w: int) -> bool {
    &&& 0 <= w < samples.len()
    &&& forall|u: int| 0 <= u < samples.len() ==> #[trigger] inliers(s, samples[u], thr).len() <= inliers(s, samples[w], thr).len()
    &&& forall|u: int| 0 <= u < w ==> #[trigger] inliers(s, samples[u], thr).len() < inliers(s, samples[w], thr).len()
}

/// What segmentation yields: no inlier and every point an outlier where
/// there is no trial or no point, else the inliers and outliers of a trial on
/// three positions of the cloud.
pub open spec fn segment_result(s: Seq<Point>, max_iterations: usize, thr: u32, ins: Seq<Point>, outs: Seq<Point>) -> bool {
    if max_iterations == 0 || s.len() == 0 {
        ins.len() == 0 && outs == s
    } else {
        exists|t: (usize, usize, usize)|
            sample_ok(s, t) && ins == #[trigger] inliers(s, t, thr) && outs == outliers(s, t, thr)
    }
}

proof fn lemma_mul_bound(u: int, v: int, a: int, b: int)
    requires
        -a <= u <= a,
        -b <= v <= b,
    ensures
        -(a * b) <= u * v <= a * b,
{
    assert(-(a * b) <= u * v <= a * b) by (nonlinear_arith)
        requires
            -a <= u <= a,
            -b <= v <= b,
    ;
}

/// Differences of coordinates within the limit.
fn diff(a: i32, b: i32) -> (r: i128)
    requires
        -COORD_LIMIT <= a <= COORD_LIMIT,
        -COORD_LIMIT <= b <= COORD_LIMIT,
    ensures
        r == a - b,
        -1_000_000 <= r <= 1_000_000,
{
    a as i128 - b as i128
}

/// One component of a cross product of differences.
fn cross_term(u1: i128, v1: i128, u2: i128, v2: i128) -> (r: i128)
    requires
        -1_000_000 <= u1 <= 1_000_000,
        -1_000_000 <= v1 <= 1_000_000,
        -1_000_000 <= u2 <= 1_000_000,
        -1_000_000 <= v2 <= 1_000_000,
    ensures
        r == u1 * v1 - u2 * v2,
        -2_000_000_000_000 <= r <= 2_000_000_000_000,
{
    proof {
        lemma_mul_bound(u1 as int, v1 as int, 1_000_000, 1_000_000);
        lemma_mul_bound(u2 as int, v2 as int, 1_000_000, 1_000_000);
    }
    u1 * v1 - u2 * v2
}

/// The plane of a trial, ready to test points against.
struct Plane {
    q1: XYZ,
    a: i128,
    b: i128,
    c: i128,
    n2: i128,
    thr_sq: u128,
}

impl Plane {
    spec fn fits(&self, q1: XYZ, q2: XYZ, q3: XYZ, thr: u32) -> bool {
        let n = plane_normal(q1, q2, q3);
        &&& self.q1 == q1
        &&& self.a == n.0 && self.b == n.1 && self.c == n.2
        &&& self.n2 == normal_sq(q1, q2, q3)
        &&& -2_000_000_000_000 <= self.a <= 2_000_000_000_000
        &&& -2_000_000_000_000 <= self.b <= 2_000_000_000_000
        &&& -2_000_000_000_000 <= self.c <= 2_000_000_000_000
        &&& 0 <= self.n2 <= 12_000_000_000_000_000_000_000_000
        &&& xyz_in_limit(q1)
        &&& self.thr_sq == thr * thr
    }

    fn new(q1: XYZ, q2: XYZ, q3: XYZ, thr: u32) -> (pl: Plane)
        requires
            xyz_in_limit(q1),
            xyz_in_limit(q2),
            xyz_in_limit(q3),
        ensures
            pl.fits(q1, q2, q3, thr),
    {
        let ux = diff(q2.x, q1.x);
        let uy = diff(q2.y, q1.y);
        let uz = diff(q2.z, q1.z);
        let vx = diff(q3.x, q1.x);
        let vy = diff(q3.y, q1.y);
        let vz = diff(q3.z, q1.z);
        let a = cross_term(uy, vz, uz, vy);
        let b = cross_term(uz, vx, ux, vz);
        let c = cross_term(ux, vy, uy, vx);
        proof {
            lemma_mul_bound(a as int, a as int, 2_000_000_000_000, 2_000_000_000_000);
            lemma_mul_bound(b as int, b as int, 2_000_000_000_000, 2_000_000_000_000);
            lemma_mul_bound(c as int, c as int, 2_000_000_000_000, 2_000_000_000_000);
            assert(a * a >= 0 && b * b >= 0 && c * c >= 0) by (nonlinear_arith);
        }
        let n2 = a * a + b * b + c * c;
        let t = thr as u64;
        proof {
            lemma_mul_bound(t as int, t as int, 0xffff_ffff, 0xffff_ffff);
        }
        Plane { q1, a, b, c, n2, thr_sq: (t * t) as u128 }
    }

    /// Whether `p` lies within the threshold of the plane.
    fn near(&self, p: XYZ, Ghost(q2): Ghost<XYZ>, Ghost(q3): Ghost<XYZ>, Ghost(thr): Ghost<u32>) -> (r: bool)
        requires
            self.fits(self.q1, q2, q3, thr),
            xyz_in_limit(p),
        ensures
            r == near_plane(self.q1, q2, q3, thr, p),
    {
        let dx = diff(p.x, self.q1.x);
        let dy = diff(p.y, self.q1.y);
        let dz = diff(p.z, self.q1.z);
        proof {
            lemma_mul_bound(self.a as int, dx as int, 2_000_000_000_000, 1_000_000);
            lemma_mul_bound(self.b as int, dy as int, 2_000_000_000_000, 1_000_000);
            lemma_mul_bound(self.c as int, dz as int, 2_000_000_000_000, 1_000_000);
        }
        let off = self.a * dx + self.b * dy + self.c * dz;
        proof {
            lemma_mul_bound(off as int, off as int, 6_000_000_000_000_000_000, 6_000_000_000_000_000_000);
            assert(off * off >= 0) by (nonlinear_arith);
        }
        if self.n2 == 0 {
            return false;
        }
        let off2 = (off * off) as u128;
        let n2 = self.n2 as u128;
        let q = off2 / n2;
        let rem = off2 % n2;
        proof {
            let t = self.thr_sq as int;
            vstd::arithmetic::div_mod::lemma_fundamental_div_mod(off2 as int, n2 as int);
            assert(0 <= rem < n2);
            assert(off2 == q * n2 + rem);
            assert(q >= 0);
            if q < t {
                assert(off2 <= t * n2) by (nonlinear_arith)
                    requires
                        off2 == q * n2 + rem,
                        rem < n2,
                        q + 1 <= t,
                        n2 > 0,
                ;
            } else if q == t && rem == 0 {
                assert(off2 == t * n2);
            } else {
                assert(off2 > t * n2) by (nonlinear_arith)
                    requires
                        off2 == q * n2 + rem,
                        rem >= 0,
                        q >= t,
                        q > t || rem > 0,
                        n2 > 0,
                ;
            }
        }
        q < self.thr_sq || (q == self.thr_sq && rem == 0)
    }
}

/// Marks the inliers of the trial that samples positions `t`.
fn inlier_mask(points: &Vec<Point>, t: (usize, usize, usize), thr: u32) -> (mask: Vec<bool>)
    requires
        sample_ok(points@, t),
        cloud_in_limit(points@),
    ensures
        mask@.len() == points@.len(),
        forall|i: int|
            0 <= i < points@.len() ==> mask@[i] == is_inlier(
                points@[t.0 as int],
                points@[t.1 as int],
                points@[t.2 as int],
                thr,
                #[trigger] points@[i],
            ),
{
    let q1 = points[t.0];
    let q2 = points[t.1];
    let q3 = points[t.2];
    let plane = Plane::new(q1.point, q2.point, q3.point, thr);
    let mut mask: Vec<bool> = Vec::new();
    let mut i: usize = 0;
    while i < points.len()
        invariant
            i <= points@.len(),
            mask@.len() == i,
            q1 == points@[t.0 as int],
            q2 == points@[t.1 as int],
            q3 == points@[t.2 as int],
            cloud_in_limit(points@),
            plane.fits(q1.point, q2.point, q3.point, thr),
            forall|k: int| 0 <= k < i ==> mask@[k] == is_inlier(q1, q2, q3, thr, #[trigger] points@[k]),
        decreases points@.len() - i,
    {
        let p = points[i];
        let keep = if p == q1 || p == q2 || p == q3 {
            true
        } else {
            assert(xyz_in_limit(points@[i as int].point));
            plane.near(p.point, Ghost(q2.point), Ghost(q3.point), Ghost(thr))
        };
        mask.push(keep);
        i += 1;
    }
    mask
}

/// The marked points, in order: the inliers or the outliers of a trial.
fn select(points: &Vec<Point>, mask: &Vec<bool>, Ghost(pred): Ghost<spec_fn(Point) -> bool>) -> (r: Vec<Point>)
    requires
        mask@.len() == points@.len(),
        forall|i: int| 0 <= i < points@.len() ==> mask@[i] == pred(#[trigger] points@[i]),
    ensures
        r@ == points@.filter(pred),
{
    let mut out: Vec<Point> = Vec::new();
    let mut i: usize = 0;
    while i < points.len()
        invariant
            i <= points@.len(),
            mask@.len() == points@.len(),
            forall|k: int| 0 <= k < points@.len() ==> mask@[k] == pred(#[trigger] points@[k]),
            out@ == points@.subrange(0, i as int).filter(pred),
        decreases points@.len() - i,
    {
        let p = points[i];
        proof {
            assert(points@.subrange(0, i as int + 1) =~= points@.subrange(0, i as int).push(p));
            points@.subrange(0, i as int).lemma_filter_push(p, pred);
        }
        if mask[i] {
            out.push(p);
        }
        i += 1;
    }
    assert(points@.subrange(0, points@.len() as int) =~= points@);
    out
}

/// Number of inliers of the trial that samples positions `t`.
fn inlier_count(points: &Vec<Point>, t: (usize, usize, usize), thr: u32) -> (r: usize)
    requires
        sample_ok(points@, t),
        cloud_in_limit(points@),
    ensures
        r == inliers(points@, t, thr).len(),
{
    let mask = inlier_mask(points, t, thr);
    let ghost pred = inlier_pred(points@[t.0 as int], points@[t.1 as int], points@[t.2 as int], thr);
    let mut count: usize = 0;
    let mut i: usize = 0;
    while i < mask.len()
        invariant
            i <= mask@.len(),
            mask@.len() == points@.len(),
            forall|k: int| 0 <= k < points@.len() ==> mask@[k] == pred(#[trigger] points@[k]),
            count == points@.subrange(0, i as int).filter(pred).len(),
            count <= i,
        decreases mask@.len() - i,
    {
        proof {
            assert(points@.subrange(0, i as int + 1) =~= points@.subrange(0, i as int).push(points@[i as int]));
            points@.subrange(0, i as int).lemma_filter_push(points@[i as int], pred);
        }
        if mask[i] {
            count += 1;
        }
        i += 1;
    }
    assert(points@.subrange(0, points@.len() as int) =~= points@);
    count
}

/// Relies on rayon's `par_iter().map(..).collect_into_vec(..)` over a slice,
/// which yields one result per item in the items' order: the trials are
/// scored in parallel, each by the verified `inlier_count`.
#[verifier::external_body]
fn par_inlier_counts(points: &Vec<Point>, samples: &Vec<(usize, usize, usize)>, thr: u32) -> (r: Vec<usize>)
    requires
        cloud_in_limit(points@),
        forall|u: int| 0 <= u < samples@.len() ==> sample_ok(points@, #[trigger] samples@[u]),
    ensures
        r@.len() == samples@.len(),
        forall|u: int| 0 <= u < samples@.len() ==> #[trigger] r@[u] == inliers(points@, samples@[u], thr).len(),
{
    let mut counts = Vec::new();
    samples.par_iter().map(|t| inlier_count(points, *t, thr)).collect_into_vec(&mut counts);
    counts
}

/// The winning trial among `samples`, `None` where there is none.
fn best_trial(points: &Vec<Point>, samples: &Vec<(usize, usize, usize)>, thr: u32) -> (r: Option<usize>)
    requires
        cloud_in_limit(points@),
        forall|u: int| 0 <= u < samples@.len() ==> sample_ok(points@, #[trigger] samples@[u]),
    ensures
        r.is_none() <==> samples@.len() == 0,
        r.is_some() ==> wins(points@, samples@, thr, r.unwrap() as int),
{
    if samples.len() == 0 {
        return None;
    }
    let counts = par_inlier_counts(points, samples, thr);
    let mut best: usize = 0;
    let mut best_count = counts[0];
    let mut u: usize = 1;
    while u < samples.len()
        invariant
            1 <= u <= samples@.len(),
            best < u,
            counts@.len() == samples@.len(),
            forall|v: int| 0 <= v < samples@.len() ==> #[trigger] counts@[v] == inliers(points@, samples@[v], thr).len(),
            best_count == inliers(points@, samples@[best as int], thr).len(),
            forall|v: int| 0 <= v < u ==> #[trigger] inliers(points@, samples@[v], thr).len() <= best_count,
            forall|v: int| 0 <= v < best ==> #[trigger] inliers(points@, samples@[v], thr).len() < best_count,
        decreases samples@.len() - u,
    {
        let c = counts[u];
        if c > best_count {
            best = u;
            best_count = c;
        }
        u += 1;
    }
    Some(best)
}

/// Inliers of the winning trial among `samples`: empty where there is no
/// trial.
pub fn ransac_with_samples(points: &Vec<Point>, samples: &Vec<(usize, usize, usize)>, thr: u32) -> (r: Vec<Point>)
    requires
        cloud_in_limit(points@),
        forall|u: int| 0 <= u < samples@.len() ==> sample_ok(points@, #[trigger] samples@[u]),
    ensures
        samples@.len() == 0 ==> r@.len() == 0,
        samples@.len() > 0 ==> exists|w: int| #[trigger] wins(points@, samples@, thr, w) && r@ == inliers(points@, samples@[w], thr),
{
    match best_trial(points, samples, thr) {
        None => Vec::new(),
        Some(w) => {
            let t = samples[w];
            let mask = inlier_mask(points, t, thr);
            let ghost pred = inlier_pred(points@[t.0 as int], points@[t.1 as int], points@[t.2 as int], thr);
            let r = select(points, &mask, Ghost(pred));
            assert(wins(points@, samples@, thr, w as int));
            r
        },
    }
}

/// Inliers and outliers of the winning trial among `samples`: no inlier and
/// every point an outlier where there is no trial.
pub fn segment_with_samples(
    cloud: &PointCloud,
    samples: &Vec<(usize, usize, usize)>,
    thr: u32,
) -> (r: (PointCloud, PointCloud))
    requires
        cloud_in_limit(cloud@),
        forall|u: int| 0 <= u < samples@.len() ==> sample_ok(cloud@, #[trigger] samples@[u]),
    ensures
        samples@.len() == 0 ==> r.0@.len() == 0 && r.1@ == cloud@,
        samples@.len() > 0 ==> exists|w: int|
            #[trigger] wins(cloud@, samples@, thr, w) && r.0@ == inliers(cloud@, samples@[w], thr) && r.1@
                == outliers(cloud@, samples@[w], thr),
{
    let points = &cloud.points;
    match best_trial(points, samples, thr) {
        None => {
            let mut all: Vec<Point> = Vec::new();
            let mut i: usize = 0;
            while i < points.len()
                invariant
                    i <= points@.len(),
                    all@ == points@.subrange(0, i as int),
                decreases points@.len() - i,
            {
                all.push(points[i]);
                i += 1;
            }
            assert(all@ =~= points@);
            (PointCloud::from_points(Vec::new()), PointCloud::from_points(all))
        },
        Some(w) => {
            let t = samples[w];
            let mask = inlier_mask(points, t, thr);
            let ghost pred = inlier_pred(points@[t.0 as int], points@[t.1 as int], points@[t.2 as int], thr);
            let ins = select(points, &mask, Ghost(pred));
            let mut flipped: Vec<bool> = Vec::new();
            let mut i: usize = 0;
            while i < mask.len()
                invariant
                    i <= mask@.len(),
                    flipped@.len() == i,
                    forall|k: int| 0 <= k < i ==> flipped@[k] == !mask@[k],
                decreases mask@.len() - i,
            {
                flipped.push(!mask[i]);
                i += 1;
            }
            let ghost opred = outlier_pred(points@[t.0 as int], points@[t.1 as int], points@[t.2 as int], thr);
            let outs = select(points, &flipped, Ghost(opred));
            assert(wins(cloud@, samples@, thr, w as int));
            (PointCloud::from_points(ins), PointCloud::from_points(outs))
        },
    }
}

/// `max_iterations` trials, each on three positions drawn uniformly at
/// random.
fn draw_samples(n: usize, max_iterations: usize) -> (r: Vec<(usize, usize, usize)>)
    requires
        n > 0,
    ensures
        r@.len() == max_iterations,
        forall|u: int| 0 <= u < r@.len() ==> (#[trigger] r@[u]).0 < n && r@[u].1 < n && r@[u].2 < n,
{
    let mut samples: Vec<(usize, usize, usize)> = Vec::new();
    let mut k: usize = 0;
    while k < max_iterations
        invariant
            k <= max_iterations,
            n > 0,
            samples@.len() == k,
            forall|u: int| 0 <= u < samples@.len() ==> (#[trigger] samples@[u]).0 < n && samples@[u].1 < n && samples@[u].2 < n,
        decreases max_iterations - k,
    {
        let a = random_index(n);
        let b = random_index(n);
        let c = random_index(n);
        samples.push((a, b, c));
        k += 1;
    }
    samples
}

/// Inliers of the best of `max_iterations` random trials; empty where there
/// is no trial or no point.
pub fn ransac(cloud: &PointCloud, max_iterations: usize, distance_to_l: u32) -> (r: Vec<Point>)
    requires
        cloud_in_limit(cloud@),
    ensures
        (max_iterations == 0 || cloud@.len() == 0) ==> r@.len() == 0,
        (max_iterations > 0 && cloud@.len() > 0) ==> exists|t: (usize, usize, usize)|
            sample_ok(cloud@, t) && r@ == #[trigger] inliers(cloud@, t, distance_to_l),
{
    if cloud.points.len() == 0 || max_iterations == 0 {
        return Vec::new();
    }
    let samples = draw_samples(cloud.points.len(), max_iterations);
    let r = ransac_with_samples(&cloud.points, &samples, distance_to_l);
    let ghost w = choose|w: int| #[trigger] wins(cloud@, samples@, distance_to_l, w) && r@ == inliers(cloud@, samples@[w], distance_to_l);
    assert(sample_ok(cloud@, samples@[w]));
    r
}

/// Splits a cloud into the inliers and the outliers of the best of
/// `max_iterations` random trials: no inlier and every point an outlier where
/// there is no trial or no point.
pub fn segment_planes_ransac(cloud: &PointCloud, max_iterations: usize, distance_to_l: u32) -> (r: (PointCloud, PointCloud))
    requires
        cloud_in_limit(cloud@),
    ensures
        segment_result(cloud@, max_iterations, distance_to_l, r.0@, r.1@),
{
    let samples: Vec<(usize, usize, usize)> = if cloud.points.len() == 0 {
        Vec::new()
    } else {
        draw_samples(cloud.points.len(), max_iterations)
    };
    let r = segment_with_samples(cloud, &samples, distance_to_l);
    proof {
        if max_iterations > 0 && cloud@.len() > 0 {
            let w = choose|w: int| #[trigger] wins(cloud@, samples@, distance_to_l, w) && r.0@ == inliers(cloud@, samples@[w], distance_to_l)
                && r.1@ == outliers(cloud@, samples@[w], distance_to_l);
            assert(sample_ok(cloud@, samples@[w]));
        }
    }
    r
}

/// Law: two runs whose trials each cover every triple of positions find
/// winners with the same number of inliers.
pub proof fn lemma_exhaustive_runs_agree(
    s: Seq<Point>,
    samples1: Seq<(usize, usize, usize)>,
    samples2: Seq<(usize, usize, usize)>,
    thr: u32,
    w1: int,
    w2: int,
)
    requires
        forall|t: (usize, usize, usize)| sample_ok(s, t) ==> exists|u: int| 0 <= u < samples1.len() && #[trigger] samples1[u] == t,
        forall|t: (usize, usize, usize)| sample_ok(s, t) ==> exists|u: int| 0 <= u < samples2.len() && #[trigger] samples2[u] == t,
        forall|u: int| 0 <= u < samples1.len() ==> sample_ok(s, #[trigger] samples1[u]),
        forall|u: int| 0 <= u < samples2.len() ==> sample_ok(s, #[trigger] samples2[u]),
        wins(s, samples1, thr, w1),
        wins(s, samples2, thr, w2),
    ensures
        inliers(s, samples1[w1], thr).len() == inliers(s, samples2[w2], thr).len(),
{
    let t1 = samples1[w1];
    let t2 = samples2[w2];
    assert(sample_ok(s, t1));
    assert(sample_ok(s, t2));
    let u2 = choose|u: int| 0 <= u < samples2.len() && #[trigger] samples2[u] == t1;
    let u1 = choose|u: int| 0 <= u < samples1.len() && #[trigger] samples1[u] == t2;
    assert(inliers(s, samples2[u2], thr).len() <= inliers(s, samples2[w2], thr).len());
    assert(inliers(s, samples1[u1], thr).len() <= inliers(s, samples1[w1], thr).len());
}

} // verus!
