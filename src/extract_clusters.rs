//! Euclidean cluster extraction: region growing over the radius-search
//! graph of a k-d tree.
//!
//! Each seed that no earlier cluster has claimed grows a cluster: a work
//! stack of candidate points is drained, each unclaimed candidate is claimed
//! and added, and its neighbours within the tolerance join the stack, until
//! the stack is empty or the cluster holds `max_cluster_size` points.
//! Clusters smaller than `min_cluster_size` are dropped, and so is a lone
//! point, one with no other point within the tolerance. Equal points count
//! as one point: claiming a point claims every position that holds it, and
//! the claims are held in a concurrent set, so no point ever joins two
//! clusters or one cluster twice.

use vstd::prelude::*;
use dashmap::DashSet;
use crate::point::{Point, within};
use crate::point_cloud::PointCloud;
use crate::kdtree::{KdTree, index_map, pairs_exact};
use crate::random::random_index;

verus! {

/// The positions of a cluster, as a sequence.
pub open spec fn cluster_views(cs: Seq<Vec<usize>>) -> Seq<Seq<usize>> {
    cs.map_values(|c: Vec<usize>| c@)
}

#[verifier::external_type_specification]
#[verifier::external_body]
#[verifier::reject_recursive_types(K)]
#[verifier::reject_recursive_types(S)]
pub struct ExDashSet<K, S>(DashSet<K, S>);

/// The positions that a set of claims holds.
pub uninterp spec fn claimed(s: DashSet<usize>) -> Set<usize>;

/// Relies on `dashmap::DashSet::with_capacity`: a new set, empty.
#[verifier::external_body]
fn new_claims(capacity: usize) -> (s: DashSet<usize>)
    ensures
        claimed(s) == Set::<usize>::empty(),
{
    DashSet::with_capacity(capacity)
}

/// Relies on `dashmap::DashSet::insert`: the set gains `x`, and the result
/// says whether it lacked it.
#[verifier::external_body]
fn claim(s: &mut DashSet<usize>, x: usize) -> (r: bool)
    ensures
        claimed(*final(s)) == claimed(*old(s)).insert(x),
        r == !claimed(*old(s)).contains(x),
{
    s.insert(x)
}

/// Relies on `dashmap::DashSet::contains`: whether the set holds `x`.
#[verifier::external_body]
fn is_claimed(s: &DashSet<usize>, x: usize) -> (r: bool)
    ensures
        r == claimed(*s).contains(x),
{
    s.contains(&x)
}

/// Nearness is symmetric.
pub proof fn lemma_within_sym(a: crate::point::XYZ, b: crate::point::XYZ, tol: u32)
    ensures
        within(a, b, tol) == within(b, a, tol),
{
    assert(crate::point::dist_sq(a, b) == crate::point::dist_sq(b, a)) by (nonlinear_arith);
}

/// Every point within `tol` of a member is claimed or waiting on the stack.
spec fn nbrs_covered(pts: Seq<Point>, tol: u32, members: Seq<usize>, claims: Set<usize>, stack: Seq<usize>) -> bool {
    forall|a: int, q: usize|
        0 <= a < members.len() && q < pts.len() && #[trigger] within(
            pts[members[a] as int].point,
            pts[q as int].point,
            tol,
        ) ==> claims.contains(q) || stack.contains(q)
}

/// A search around `t` over a tree of `pts` lists every position near `t`.
proof fn lemma_nbr_found(s: Seq<(Point, usize)>, nbrs: Seq<usize>, pts: Seq<Point>, t: crate::point::XYZ, tol: u32, q: usize)
    requires
        pairs_exact(s, index_map(pts), t, tol),
        nbrs == s.map_values(|e: (Point, usize)| e.1),
        q < pts.len(),
        within(t, pts[q as int].point, tol),
    ensures
        exists|k: int| 0 <= k < nbrs.len() && nbrs[k] == q,
{
    let m = index_map(pts);
    assert(m.dom().contains(q));
    assert(m[q] == pts[q as int]);
    let k = choose|k: int| 0 <= k < s.len() && s[k].1 == q;
    assert(nbrs[k] == q);
}

/// A search around a point of the tree that finds a single position finds
/// nothing but that point.
proof fn lemma_lone(s: Seq<(Point, usize)>, nbrs: Seq<usize>, pts: Seq<Point>, p: usize, tol: u32, q: usize)
    requires
        pairs_exact(s, index_map(pts), pts[p as int].point, tol),
        nbrs == s.map_values(|e: (Point, usize)| e.1),
        nbrs.len() <= 1,
        p < pts.len(),
        q < pts.len(),
        within(pts[p as int].point, pts[q as int].point, tol),
    ensures
        q == p,
{
    let t = pts[p as int].point;
    assert(crate::point::dist_sq(t, t) == 0);
    assert(tol * tol >= 0) by (nonlinear_arith);
    lemma_nbr_found(s, nbrs, pts, t, tol, p);
    lemma_nbr_found(s, nbrs, pts, t, tol, q);
    let k1 = choose|k: int| 0 <= k < nbrs.len() && nbrs[k] == p;
    let k2 = choose|k: int| 0 <= k < nbrs.len() && nbrs[k] == q;
}

/// Each member of `c` after the first lies within `tol` of an earlier member.
pub open spec fn chained(c: Seq<usize>, pts: Seq<Point>, tol: u32) -> bool {
    forall|k: int|
        0 < k < c.len() ==> exists|j: int|
            0 <= j < k && within(pts[c[j] as int].point, #[trigger] pts[c[k] as int].point, tol)
}

/// Some member of `c` holds the same point as position `x`: equal points
/// count as one point.
pub open spec fn has_value(c: Seq<usize>, pts: Seq<Point>, x: usize) -> bool {
    exists|a: int| 0 <= a < c.len() && #[trigger] pts[c[a] as int] == pts[x as int]
}

/// No two members of `c` hold the same point.
pub open spec fn distinct_values(c: Seq<usize>, pts: Seq<Point>) -> bool {
    forall|a: int, b: int|
        0 <= a < c.len() && 0 <= b < c.len() && a != b ==> pts[#[trigger] c[a] as int] != pts[#[trigger] c[b] as int]
}

/// Position `x` is a lone point: every point within `tol` of it is the same
/// point.
pub open spec fn lone(pts: Seq<Point>, tol: u32, x: usize) -> bool {
    forall|q: usize| q < pts.len() && #[trigger] within(pts[x as int].point, pts[q as int].point, tol) ==> pts[q as int] == pts[x as int]
}

/// `c` is a valid cluster of `pts`: positions of `pts` holding distinct
/// points, between `min` (and at least one) and `max` of them, grown along
/// neighbours.
pub open spec fn valid_cluster(c: Seq<usize>, pts: Seq<Point>, tol: u32, min: usize, max: usize) -> bool {
    &&& forall|k: int| 0 <= k < c.len() ==> (#[trigger] c[k]) < pts.len()
    &&& distinct_values(c, pts)
    &&& 1 <= c.len()
    &&& min <= c.len() <= max
    &&& chained(c, pts, tol)
}

/// Every cluster is valid and no point is in two clusters.
pub open spec fn valid_clusters(cs: Seq<Seq<usize>>, pts: Seq<Point>, tol: u32, min: usize, max: usize) -> bool {
    &&& forall|i: int| 0 <= i < cs.len() ==> valid_cluster(#[trigger] cs[i], pts, tol, min, max)
    &&& forall|i: int, j: int, a: int, b: int|
        0 <= i < cs.len() && 0 <= j < cs.len() && i != j && 0 <= a < cs[i].len() && 0 <= b < cs[j].len()
            ==> pts[#[trigger] cs[i][a] as int] != pts[#[trigger] cs[j][b] as int]
}

/// A cluster of two or more points holds no lone point.
proof fn lemma_no_lone_member(c: Seq<usize>, pts: Seq<Point>, tol: u32, min: usize, max: usize)
    requires
        valid_cluster(c, pts, tol, min, max),
        c.len() >= 2,
    ensures
        forall|a: int| 0 <= a < c.len() ==> !lone(pts, tol, #[trigger] c[a]),
{
    assert forall|a: int| 0 <= a < c.len() implies !lone(pts, tol, #[trigger] c[a]) by {
        let (m, k) = if a == 0 {
            (c[0], 1int)
        } else {
            (c[a], a)
        };
        let j = choose|j: int| 0 <= j < k && within(pts[c[j] as int].point, #[trigger] pts[c[k] as int].point, tol);
        lemma_within_sym(pts[c[j] as int].point, pts[c[k] as int].point, tol);
        assert(pts[c[j] as int] != pts[c[k] as int]);
        if a == 0 {
            assert(j == 0);
            assert(within(pts[c[0] as int].point, pts[c[1] as int].point, tol));
        } else {
            assert(within(pts[c[a] as int].point, pts[c[j] as int].point, tol));
        }
    }
}

/// There are no more clusters than points: each holds a point of its own.
pub proof fn lemma_cluster_count(cs: Seq<Seq<usize>>, pts: Seq<Point>, tol: u32, min: usize, max: usize)
    requires
        valid_clusters(cs, pts, tol, min, max),
    ensures
        cs.len() <= pts.len(),
{
    let dom = vstd::set_lib::set_int_range(0, cs.len() as int);
    vstd::set_lib::lemma_int_range(0, cs.len() as int);
    let f = |i: int| cs[i][0] as int;
    let img = dom.map(f);
    assert forall|a: int, b: int| dom.contains(a) && dom.contains(b) && #[trigger] f(a) == #[trigger] f(b) implies a == b by {
        assert(valid_cluster(cs[a], pts, tol, min, max));
        assert(valid_cluster(cs[b], pts, tol, min, max));
        if a != b {
            assert(pts[cs[a][0] as int] != pts[cs[b][0] as int]);
        }
    }
    vstd::set_lib::lemma_map_size(dom, img, f);
    vstd::set_lib::lemma_int_range(0, pts.len() as int);
    assert forall|v: int| img.contains(v) implies vstd::set_lib::set_int_range(0, pts.len() as int).contains(v) by {
        let i = choose|i: int| dom.contains(i) && f(i) == v;
        assert(valid_cluster(cs[i], pts, tol, min, max));
    }
    vstd::set_lib::lemma_len_subset(img, vstd::set_lib::set_int_range(0, pts.len() as int));
}

/// Group `i` of `gs`, unless it reached `max` points, is closed under
/// nearness: every point within `tol` of a member is held by it, or by a
/// group that reached `max` points.
pub open spec fn closed_group(gs: Seq<Seq<usize>>, i: int, pts: Seq<Point>, tol: u32, max: usize) -> bool {
    gs[i].len() < max ==> forall|a: int, q: usize|
        0 <= a < gs[i].len() && q < pts.len() && #[trigger] within(pts[gs[i][a] as int].point, pts[q as int].point, tol)
            ==> has_value(gs[i], pts, q) || exists|j: int|
            0 <= j < gs.len() && gs[j].len() >= max && #[trigger] has_value(gs[j], pts, q)
}

/// `gs` is a grouping of points of `pts` grown along nearness: groups of
/// one to `max` points, no point in two, each closed unless full.
pub open spec fn grouping(gs: Seq<Seq<usize>>, pts: Seq<Point>, tol: u32, max: usize) -> bool {
    &&& valid_clusters(gs, pts, tol, 0, max)
    &&& forall|i: int| 0 <= i < gs.len() ==> #[trigger] closed_group(gs, i, pts, tol, max)
}

/// The groups kept as clusters: at least `min` points, and not a lone point.
pub open spec fn kept(pts: Seq<Point>, tol: u32, min: usize) -> spec_fn(Seq<usize>) -> bool {
    |g: Seq<usize>| g.len() >= min && !(g.len() == 1 && lone(pts, tol, g[0]))
}

/// Some group holds the point at position `x`.
pub open spec fn grouped(gs: Seq<Seq<usize>>, pts: Seq<Point>, x: usize) -> bool {
    exists|j: int| 0 <= j < gs.len() && #[trigger] has_value(gs[j], pts, x)
}

/// Adding a freshly grown group keeps a grouping a grouping.
proof fn lemma_add_group(
    gs: Seq<Seq<usize>>,
    c: Seq<usize>,
    before: Set<usize>,
    after: Set<usize>,
    pts: Seq<Point>,
    tol: u32,
    max: usize,
)
    requires
        grouping(gs, pts, tol, max),
        forall|x: usize| x < pts.len() ==> (before.contains(x) <==> grouped(gs, pts, x)),
        forall|k: int| 0 <= k < c.len() ==> (#[trigger] c[k]) < pts.len() && !before.contains(c[k]),
        distinct_values(c, pts),
        1 <= c.len() <= max,
        chained(c, pts, tol),
        forall|x: usize| x < pts.len() ==> (after.contains(x) <==> before.contains(x) || has_value(c, pts, x)),
        c.len() < max ==> forall|a: int, q: usize|
            0 <= a < c.len() && q < pts.len() && #[trigger] within(pts[c[a] as int].point, pts[q as int].point, tol)
                ==> after.contains(q),
    ensures
        grouping(gs.push(c), pts, tol, max),
        forall|x: usize| x < pts.len() ==> (after.contains(x) <==> grouped(gs.push(c), pts, x)),
{
    let g2 = gs.push(c);
    assert forall|i: int| 0 <= i < g2.len() implies valid_cluster(#[trigger] g2[i], pts, tol, 0, max) by {
        if i < gs.len() {
            assert(g2[i] == gs[i]);
        }
    }
    assert forall|i: int, j: int, a: int, b: int|
        0 <= i < g2.len() && 0 <= j < g2.len() && i != j && 0 <= a < g2[i].len() && 0 <= b < g2[j].len()
            implies pts[#[trigger] g2[i][a] as int] != pts[#[trigger] g2[j][b] as int] by {
        if i < gs.len() && j < gs.len() {
            assert(g2[i] == gs[i] && g2[j] == gs[j]);
        } else if i < gs.len() {
            assert(g2[i] == gs[i]);
            assert(g2[j] == c);
            if pts[g2[i][a] as int] == pts[g2[j][b] as int] {
                assert(has_value(gs[i], pts, c[b]));
                assert(grouped(gs, pts, c[b]));
            }
        } else {
            assert(g2[j] == gs[j]);
            assert(g2[i] == c);
            if pts[g2[i][a] as int] == pts[g2[j][b] as int] {
                assert(has_value(gs[j], pts, c[a]));
                assert(grouped(gs, pts, c[a]));
            }
        }
    }
    assert forall|i: int| 0 <= i < g2.len() implies #[trigger] closed_group(g2, i, pts, tol, max) by {
        if i < gs.len() {
            assert(g2[i] == gs[i]);
            assert(closed_group(gs, i, pts, tol, max));
            if gs[i].len() < max {
                assert forall|a: int, q: usize|
                    0 <= a < g2[i].len() && q < pts.len() && #[trigger] within(pts[g2[i][a] as int].point, pts[q as int].point, tol)
                        implies has_value(g2[i], pts, q) || exists|j: int|
                        0 <= j < g2.len() && g2[j].len() >= max && #[trigger] has_value(g2[j], pts, q) by {
                    assert(within(pts[gs[i][a] as int].point, pts[q as int].point, tol));
                    if !has_value(gs[i], pts, q) {
                        let j = choose|j: int| 0 <= j < gs.len() && gs[j].len() >= max && #[trigger] has_value(gs[j], pts, q);
                        assert(g2[j] == gs[j]);
                    }
                }
            }
        } else {
            assert(g2[i] == c);
            if c.len() < max {
                assert forall|a: int, q: usize|
                    0 <= a < g2[i].len() && q < pts.len() && #[trigger] within(pts[g2[i][a] as int].point, pts[q as int].point, tol)
                        implies has_value(g2[i], pts, q) || exists|j: int|
                        0 <= j < g2.len() && g2[j].len() >= max && #[trigger] has_value(g2[j], pts, q) by {
                    assert(within(pts[c[a] as int].point, pts[q as int].point, tol));
                    assert(after.contains(q));
                    if !has_value(c, pts, q) {
                        assert(before.contains(q));
                        assert(grouped(gs, pts, q));
                        let j = choose|j: int| 0 <= j < gs.len() && #[trigger] has_value(gs[j], pts, q);
                        assert(g2[j] == gs[j]);
                        if gs[j].len() < max {
                            assert(closed_group(gs, j, pts, tol, max));
                            let b = choose|b: int| 0 <= b < gs[j].len() && #[trigger] pts[gs[j][b] as int] == pts[q as int];
                            let m = c[a];
                            lemma_within_sym(pts[m as int].point, pts[q as int].point, tol);
                            assert(within(pts[gs[j][b] as int].point, pts[m as int].point, tol));
                            assert(valid_cluster(gs[j], pts, tol, 0, max));
                            if has_value(gs[j], pts, m) {
                                assert(grouped(gs, pts, m));
                            } else {
                                let j2 = choose|j2: int| 0 <= j2 < gs.len() && gs[j2].len() >= max && #[trigger] has_value(gs[j2], pts, m);
                                assert(grouped(gs, pts, m));
                            }
                            assert(before.contains(m));
                            assert(false);
                        }
                    }
                }
            }
        }
    }
    assert forall|x: usize| x < pts.len() implies (after.contains(x) <==> grouped(g2, pts, x)) by {
        if after.contains(x) {
            if before.contains(x) {
                let j = choose|j: int| 0 <= j < gs.len() && #[trigger] has_value(gs[j], pts, x);
                assert(g2[j] == gs[j]);
            } else {
                assert(has_value(c, pts, x));
                assert(g2[gs.len() as int] == c);
            }
        }
        if grouped(g2, pts, x) {
            let j = choose|j: int| 0 <= j < g2.len() && #[trigger] has_value(g2[j], pts, x);
            if j < gs.len() {
                assert(g2[j] == gs[j]);
                assert(grouped(gs, pts, x));
            } else {
                assert(g2[j] == c);
            }
        }
    }
}

/// `cs` are the clusters grown from `seeds`: the kept groups, in order, of a
/// grouping of `pts` that covers every seed (where groups may hold a point
/// at all). No cluster holds a lone point.
pub open spec fn extraction_ok(
    cs: Seq<Seq<usize>>,
    pts: Seq<Point>,
    tol: u32,
    min: usize,
    max: usize,
    seeds: Seq<usize>,
) -> bool {
    &&& valid_clusters(cs, pts, tol, min, max)
    &&& forall|i: int, a: int| 0 <= i < cs.len() && 0 <= a < cs[i].len() ==> !lone(pts, tol, #[trigger] cs[i][a])
    &&& exists|gs: Seq<Seq<usize>>|
        #[trigger] grouping(gs, pts, tol, max) && cs == gs.filter(kept(pts, tol, min)) && (max > 0 ==> forall|k: int|
            0 <= k < seeds.len() ==> grouped(gs, pts, #[trigger] seeds[k]))
}

/// The positions `0..n` in order.
pub open spec fn every_position(n: nat) -> Seq<usize> {
    Seq::new(n, |i: int| i as usize)
}

/// The points of each cluster of positions.
pub open spec fn clusters_points(cs: Seq<Seq<usize>>, pts: Seq<Point>) -> Seq<Seq<Point>> {
    cs.map_values(|c: Seq<usize>| c.map_values(|k: usize| pts[k as int]))
}

/// Cluster extraction over a cloud and a k-d tree that holds each point of
/// the cloud under its position.
pub struct EuclideanClustersExtract {
    cloud: PointCloud,
    cluster_tolerance: u32,
    min_cluster_size: usize,
    max_cluster_size: usize,
    kdtree: KdTree,
}

impl EuclideanClustersExtract {
    pub closed spec fn points(&self) -> Seq<Point> {
        self.cloud@
    }

    pub closed spec fn tolerance(&self) -> u32 {
        self.cluster_tolerance
    }

    pub closed spec fn min_size(&self) -> usize {
        self.min_cluster_size
    }

    pub closed spec fn max_size(&self) -> usize {
        self.max_cluster_size
    }

    /// The tree indexes the cloud.
    pub closed spec fn wf(&self) -> bool {
        self.kdtree.wf() && self.kdtree@ == index_map(self.cloud@)
    }

    pub fn new(
        cloud: PointCloud,
        cluster_tolerance: u32,
        min_cluster_size: usize,
        max_cluster_size: usize,
        kdtree: KdTree,
    ) -> (r: EuclideanClustersExtract)
        requires
            kdtree.wf(),
            kdtree@ == index_map(cloud@),
        ensures
            r.wf(),
            r.points() == cloud@,
            r.tolerance() == cluster_tolerance,
            r.min_size() == min_cluster_size,
            r.max_size() == max_cluster_size,
    {
        EuclideanClustersExtract { cloud, cluster_tolerance, min_cluster_size, max_cluster_size, kdtree }
    }

    /// Builds the tree over `cloud` and the extraction over both.
    pub fn from_cloud(
        cloud: PointCloud,
        cluster_tolerance: u32,
        min_cluster_size: usize,
        max_cluster_size: usize,
    ) -> (r: EuclideanClustersExtract)
        ensures
            r.wf(),
            r.points() == cloud@,
            r.tolerance() == cluster_tolerance,
            r.min_size() == min_cluster_size,
            r.max_size() == max_cluster_size,
    {
        let kdtree = KdTree::from_points(&cloud.points);
        EuclideanClustersExtract { cloud, cluster_tolerance, min_cluster_size, max_cluster_size, kdtree }
    }

    /// Claims every position that holds the same point as position `p`.
    fn claim_value(&self, p: usize, processed: &mut DashSet<usize>)
        requires
            self.wf(),
            p < self.points().len(),
        ensures
            forall|x: usize|
                #![trigger claimed(*final(processed)).contains(x)]
                #![trigger claimed(*old(processed)).contains(x)]
                claimed(*final(processed)).contains(x) <==> claimed(*old(processed)).contains(x) || (x
                    < self.points().len() && self.points()[x as int] == self.points()[p as int]),
    {
        let ghost pts = self.points();
        let target = self.cloud.points[p];
        let same = self.kdtree.search_ids(&target, 0);
        let ghost s = choose|s: Seq<(Point, usize)>|
            #[trigger] pairs_exact(s, self.kdtree@, target.point, 0) && same@ == s.map_values(|e: (Point, usize)| e.1);
        let ghost start = claimed(*processed);
        let mut k: usize = 0;
        while k < same.len()
            invariant
                self.wf(),
                pts == self.points(),
                p < pts.len(),
                target == pts[p as int],
                pairs_exact(s, index_map(pts), target.point, 0),
                same@ == s.map_values(|e: (Point, usize)| e.1),
                k <= same@.len(),
                forall|x: usize|
                    #![trigger claimed(*processed).contains(x)]
                    #![trigger start.contains(x)]
                    claimed(*processed).contains(x) <==> start.contains(x) || exists|j: int|
                        0 <= j < k && same@[j] == x && x < pts.len() && pts[x as int] == target,
            decreases same@.len() - k,
        {
            let q = same[k];
            proof {
                assert(q == s[k as int].1);
                assert(index_map(pts).dom().contains(q));
            }
            let ghost prev = claimed(*processed);
            let hit = self.cloud.points[q] == target;
            if hit {
                claim(processed, q);
            }
            proof {
                assert forall|x: usize|
                    claimed(*processed).contains(x) <==> start.contains(x) || exists|j: int|
                        0 <= j < k + 1 && same@[j] == x && x < pts.len() && pts[x as int] == target by {
                    if exists|j: int| 0 <= j < k + 1 && same@[j] == x && x < pts.len() && pts[x as int] == target {
                        let j = choose|j: int| 0 <= j < k + 1 && same@[j] == x && x < pts.len() && pts[x as int] == target;
                        if j < k {
                            assert(exists|j2: int| 0 <= j2 < k && same@[j2] == x && x < pts.len() && pts[x as int] == target);
                            assert(prev.contains(x));
                        } else {
                            assert(x == q && hit);
                        }
                    }
                    if claimed(*processed).contains(x) {
                        if prev.contains(x) {
                            if !start.contains(x) {
                                let j = choose|j: int| 0 <= j < k && same@[j] == x && x < pts.len() && pts[x as int] == target;
                                assert(0 <= j < k + 1 && same@[j] == x && x < pts.len() && pts[x as int] == target);
                            }
                        } else {
                            assert(x == q && hit);
                            assert(0 <= k < k + 1 && same@[k as int] == x && x < pts.len() && pts[x as int] == target);
                        }
                    }
                }
            }
            k += 1;
        }
        proof {
            assert forall|x: usize|
                claimed(*processed).contains(x) <==> claimed(*old(processed)).contains(x) || (x < pts.len() && pts[x as int]
                    == pts[p as int]) by {
                if x < pts.len() && pts[x as int] == pts[p as int] {
                    assert(crate::point::dist_sq(target.point, pts[x as int].point) == 0);
                    lemma_nbr_found(s, same@, pts, target.point, 0, x);
                    let j = choose|j: int| 0 <= j < same@.len() && same@[j] == x;
                    assert(0 <= j < k && same@[j] == x && x < pts.len() && pts[x as int] == target);
                }
                if claimed(*processed).contains(x) && !start.contains(x) {
                    let j = choose|j: int| 0 <= j < k && same@[j] == x && x < pts.len() && pts[x as int] == target;
                }
            }
        }
    }

    /// Whether position `x` holds a lone point.
    fn is_lone(&self, x: usize) -> (r: bool)
        requires
            self.wf(),
            x < self.points().len(),
        ensures
            r == lone(self.points(), self.tolerance(), x),
    {
        let ghost pts = self.points();
        let target = self.cloud.points[x];
        let nbrs = self.kdtree.search_ids(&target, self.cluster_tolerance);
        let ghost s = choose|s: Seq<(Point, usize)>|
            #[trigger] pairs_exact(s, self.kdtree@, target.point, self.cluster_tolerance) && nbrs@ == s.map_values(
                |e: (Point, usize)| e.1,
            );
        let mut k: usize = 0;
        while k < nbrs.len()
            invariant
                self.wf(),
                pts == self.points(),
                x < pts.len(),
                target == pts[x as int],
                pairs_exact(s, index_map(pts), target.point, self.cluster_tolerance),
                nbrs@ == s.map_values(|e: (Point, usize)| e.1),
                k <= nbrs@.len(),
                forall|j: int| 0 <= j < k ==> pts[#[trigger] nbrs@[j] as int] == target,
            decreases nbrs@.len() - k,
        {
            let q = nbrs[k];
            proof {
                assert(q == s[k as int].1);
                assert(index_map(pts).dom().contains(q));
            }
            if self.cloud.points[q] != target {
                proof {
                    assert(within(target.point, pts[q as int].point, self.cluster_tolerance));
                }
                return false;
            }
            k += 1;
        }
        proof {
            assert forall|q: usize| q < pts.len() && #[trigger] within(pts[x as int].point, pts[q as int].point, self.cluster_tolerance)
                implies pts[q as int] == pts[x as int] by {
                lemma_nbr_found(s, nbrs@, pts, target.point, self.cluster_tolerance, q);
                let j = choose|j: int| 0 <= j < nbrs@.len() && nbrs@[j] == q;
            }
        }
        true
    }

    /// Grows the cluster of `seed`, claiming its members in `processed`.
    fn cluster_builder(&self, seed: usize, processed: &mut DashSet<usize>) -> (c: Vec<usize>)
        requires
            self.wf(),
            seed < self.points().len(),
            !claimed(*old(processed)).contains(seed),
            forall|x: usize, y: usize|
                x < self.points().len() && y < self.points().len() && #[trigger] claimed(*old(processed)).contains(x)
                    && self.points()[x as int] == self.points()[y as int] ==> #[trigger] claimed(*old(processed)).contains(y),
        ensures
            forall|i: usize|
                #![trigger claimed(*old(processed)).contains(i)]
                #![trigger claimed(*final(processed)).contains(i)]
                claimed(*old(processed)).contains(i) ==> claimed(*final(processed)).contains(i),
            forall|k: int| 0 <= k < c@.len() ==> (#[trigger] c@[k]) < self.points().len() && !claimed(*old(processed)).contains(c@[k]),
            distinct_values(c@, self.points()),
            c@.len() <= self.max_size(),
            self.max_size() > 0 ==> c@.len() >= 1 && c@[0] == seed,
            chained(c@, self.points(), self.tolerance()),
            forall|x: usize|
                #![trigger claimed(*final(processed)).contains(x)]
                x < self.points().len() ==> (claimed(*final(processed)).contains(x) <==> claimed(*old(processed)).contains(x)
                    || has_value(c@, self.points(), x)),
            c@.len() < self.max_size() ==> forall|a: int, q: usize|
                0 <= a < c@.len() && q < self.points().len() && #[trigger] within(
                    self.points()[c@[a] as int].point,
                    self.points()[q as int].point,
                    self.tolerance(),
                ) ==> claimed(*final(processed)).contains(q),
    {
        let ghost pts = self.points();
        let ghost tol = self.cluster_tolerance;
        let ghost start = claimed(*processed);
        let mut cluster: Vec<usize> = Vec::new();
        let mut stack: Vec<usize> = Vec::new();
        stack.push(seed);
        while stack.len() > 0 && cluster.len() < self.max_cluster_size
            invariant
                self.wf(),
                pts == self.points(),
                tol == self.cluster_tolerance,
                seed < pts.len(),
                !start.contains(seed),
                forall|i: usize|
                    #![trigger start.contains(i)]
                    #![trigger claimed(*processed).contains(i)]
                    start.contains(i) ==> claimed(*processed).contains(i),
                forall|k: int| 0 <= k < stack@.len() ==> (#[trigger] stack@[k]) < pts.len(),
                forall|k: int| 0 <= k < cluster@.len() ==> (#[trigger] cluster@[k]) < pts.len()
                    && !start.contains(cluster@[k]),
                forall|x: usize|
                    #![trigger claimed(*processed).contains(x)]
                    x < pts.len() ==> (claimed(*processed).contains(x) <==> start.contains(x) || has_value(cluster@, pts, x)),
                forall|x: usize, y: usize|
                    x < pts.len() && y < pts.len() && #[trigger] start.contains(x) && pts[x as int] == pts[y as int]
                        ==> #[trigger] start.contains(y),
                distinct_values(cluster@, pts),
                cluster@.len() <= self.max_cluster_size,
                cluster@.len() == 0 ==> stack@ == seq![seed],
                chained(cluster@, pts, tol),
                cluster@.len() > 0 ==> cluster@[0] == seed,
                cluster@.len() < self.max_cluster_size ==> nbrs_covered(pts, tol, cluster@, claimed(*processed), stack@),
                forall|k: int|
                    0 <= k < stack@.len() && cluster@.len() > 0 ==> exists|j: int|
                        0 <= j < cluster@.len() && within(
                            pts[cluster@[j] as int].point,
                            #[trigger] pts[stack@[k] as int].point,
                            tol,
                        ),
            decreases self.max_cluster_size - cluster@.len(), stack@.len(),
        {
            let ghost full = stack@;
            let p = stack.pop().unwrap();
            proof {
                assert(full == stack@.push(p));
                assert(full[full.len() - 1] == p);
                assert forall|k: int| 0 <= k < stack@.len() implies (#[trigger] stack@[k]) < pts.len() by {
                    assert(stack@[k] == full[k]);
                }
                assert forall|k: int|
                    0 <= k < stack@.len() && cluster@.len() > 0 implies exists|j: int|
                        0 <= j < cluster@.len() && within(
                            pts[cluster@[j] as int].point,
                            #[trigger] pts[stack@[k] as int].point,
                            tol,
                        ) by {
                    assert(stack@[k] == full[k]);
                    assert(0 <= k < full.len());
                    let pk = pts[full[k] as int].point;
                    let j = choose|j: int| 0 <= j < cluster@.len() && within(pts[cluster@[j] as int].point, pk, tol);
                    assert(within(pts[cluster@[j] as int].point, pts[stack@[k] as int].point, tol));
                }
                if cluster@.len() == 0 {
                    assert(stack@.len() == 0);
                }
                if cluster@.len() < self.max_cluster_size {
                    assert forall|a: int, q: usize|
                        0 <= a < cluster@.len() && q < pts.len() && #[trigger] within(
                            pts[cluster@[a] as int].point,
                            pts[q as int].point,
                            tol,
                        ) implies claimed(*processed).contains(q) || stack@.contains(q) || q == p by {
                        if !claimed(*processed).contains(q) {
                            assert(full.contains(q));
                            let k = choose|k: int| 0 <= k < full.len() && full[k] == q;
                            if k < stack@.len() {
                                assert(stack@[k] == q);
                            }
                        }
                    }
                }
            }
            let ghost popped = stack@;
            let ghost members0 = cluster@;
            if !is_claimed(processed, p) {
                let ghost before = cluster@;
                proof {
                    assert(!start.contains(p));
                    assert(!has_value(before, pts, p));
                }
                let ghost pre = claimed(*processed);
                self.claim_value(p, processed);
                cluster.push(p);
                proof {
                    assert forall|x: usize| start.contains(x) implies claimed(*processed).contains(x) by {
                        assert(pre.contains(x));
                    }
                    assert(cluster@ == before.push(p));
                    assert forall|a: int, b: int|
                        0 <= a < cluster@.len() && 0 <= b < cluster@.len() && a != b implies pts[#[trigger] cluster@[a] as int]
                        != pts[#[trigger] cluster@[b] as int] by {
                        if a < before.len() && b < before.len() {
                            assert(cluster@[a] == before[a] && cluster@[b] == before[b]);
                        } else if a < before.len() {
                            assert(cluster@[a] == before[a]);
                            assert(cluster@[b] == p);
                        } else {
                            assert(cluster@[b] == before[b]);
                            assert(cluster@[a] == p);
                        }
                    }
                    assert forall|x: usize| x < pts.len() implies (claimed(*processed).contains(x) <==> start.contains(x)
                        || has_value(cluster@, pts, x)) by {
                        if has_value(cluster@, pts, x) {
                            let a = choose|a: int| 0 <= a < cluster@.len() && #[trigger] pts[cluster@[a] as int] == pts[x as int];
                            if a < before.len() {
                                assert(cluster@[a] == before[a]);
                                assert(has_value(before, pts, x));
                            }
                        }
                        if has_value(before, pts, x) {
                            let a = choose|a: int| 0 <= a < before.len() && #[trigger] pts[before[a] as int] == pts[x as int];
                            assert(cluster@[a] == before[a]);
                        }
                        if pts[x as int] == pts[p as int] {
                            assert(cluster@[before.len() as int] == p);
                        }
                        if claimed(*processed).contains(x) && !pre.contains(x) {
                            assert(pts[x as int] == pts[p as int]);
                        }
                        if pre.contains(x) {
                            assert(start.contains(x) || has_value(before, pts, x));
                        }
                        if start.contains(x) || has_value(before, pts, x) {
                            assert(pre.contains(x));
                        }
                    }
                }
                proof {
                    assert(cluster@ == before.push(p));
                    assert forall|k: int| 0 < k < cluster@.len() implies exists|j: int|
                        0 <= j < k && within(pts[cluster@[j] as int].point, #[trigger] pts[cluster@[k] as int].point, tol) by {
                        if k < before.len() {
                            let j = choose|j: int| 0 <= j < k && within(pts[before[j] as int].point, pts[before[k] as int].point, tol);
                            assert(cluster@[j] == before[j]);
                        } else {
                            let j = choose|j: int| 0 <= j < before.len() && within(pts[before[j] as int].point, pts[p as int].point, tol);
                            assert(cluster@[j] == before[j]);
                        }
                    }
                    assert forall|k: int|
                        0 <= k < stack@.len() implies exists|j: int|
                            0 <= j < cluster@.len() && within(
                                pts[cluster@[j] as int].point,
                                #[trigger] pts[stack@[k] as int].point,
                                tol,
                            ) by {
                        let j = choose|j: int| 0 <= j < before.len() && within(pts[before[j] as int].point, pts[stack@[k] as int].point, tol);
                        assert(cluster@[j] == before[j]);
                    }
                }
                proof {
                    if cluster@.len() < self.max_cluster_size {
                        assert forall|a: int, q: usize|
                            0 <= a < before.len() && q < pts.len() && #[trigger] within(
                                pts[before[a] as int].point,
                                pts[q as int].point,
                                tol,
                            ) implies claimed(*processed).contains(q) || stack@.contains(q) by {
                        }
                    }
                }
                if cluster.len() < self.max_cluster_size {
                    let target = self.cloud.points[p];
                    let nbrs = self.kdtree.search_ids(&target, self.cluster_tolerance);
                    let ghost s = choose|s: Seq<(Point, usize)>|
                        #[trigger] pairs_exact(s, self.kdtree@, target.point, self.cluster_tolerance) && nbrs@
                            == s.map_values(|e: (Point, usize)| e.1);
                    proof {
                        assert forall|k: int| 0 <= k < nbrs@.len() implies (#[trigger] nbrs@[k]) < pts.len()
                            && within(pts[p as int].point, pts[nbrs@[k] as int].point, tol) by {
                            assert(nbrs@[k] == s[k].1);
                            assert(self.kdtree@.dom().contains(s[k].1));
                        }
                    }
                    if nbrs.len() > 1 {
                        let mut q: usize = 0;
                        while q < nbrs.len()
                            invariant
                                self.wf(),
                                pts == self.points(),
                                tol == self.cluster_tolerance,
                                p < pts.len(),
                                cluster@.len() > 0,
                                cluster@[cluster@.len() - 1] == p,
                                q <= nbrs@.len(),
                                                forall|k: int| 0 <= k < nbrs@.len() ==> (#[trigger] nbrs@[k]) < pts.len()
                                    && within(pts[p as int].point, pts[nbrs@[k] as int].point, tol),
                                forall|k: int| 0 <= k < stack@.len() ==> (#[trigger] stack@[k]) < pts.len(),
                                nbrs_covered(pts, tol, before, claimed(*processed), stack@),
                                forall|k: int| 0 <= k < q ==> claimed(*processed).contains(nbrs@[k]) || stack@.contains(#[trigger] nbrs@[k]),
                                cluster@ == before.push(p),
                                forall|k: int|
                                    0 <= k < stack@.len() ==> exists|j: int|
                                        0 <= j < cluster@.len() && within(
                                            pts[cluster@[j] as int].point,
                                            #[trigger] pts[stack@[k] as int].point,
                                            tol,
                                        ),
                            decreases nbrs@.len() - q,
                        {
                            let nb = nbrs[q];
                            if !is_claimed(processed, nb) {
                                let ghost st = stack@;
                                stack.push(nb);
                                proof {
                                    assert forall|k: int| 0 <= k < stack@.len() implies exists|j: int|
                                        0 <= j < cluster@.len() && within(
                                            pts[cluster@[j] as int].point,
                                            #[trigger] pts[stack@[k] as int].point,
                                            tol,
                                        ) by {
                                        if k < st.len() {
                                            assert(stack@[k] == st[k]);
                                        } else {
                                            assert(stack@[k] == nb);
                                            assert(within(pts[cluster@[cluster@.len() - 1] as int].point, pts[nb as int].point, tol));
                                        }
                                    }
                                    assert forall|a: int, x: usize|
                                        0 <= a < before.len() && x < pts.len() && #[trigger] within(
                                            pts[before[a] as int].point,
                                            pts[x as int].point,
                                            tol,
                                        ) implies claimed(*processed).contains(x) || stack@.contains(x) by {
                                        if st.contains(x) {
                                            let k = choose|k: int| 0 <= k < st.len() && st[k] == x;
                                            assert(stack@[k] == x);
                                        }
                                    }
                                    assert forall|k: int| 0 <= k < q + 1 implies claimed(*processed).contains(nbrs@[k]) || stack@.contains(#[trigger] nbrs@[k]) by {
                                        if k == q {
                                            assert(stack@[st.len() as int] == nb);
                                        } else if !claimed(*processed).contains(nbrs@[k]) {
                                            let j = choose|j: int| 0 <= j < st.len() && st[j] == nbrs@[k];
                                            assert(stack@[j] == nbrs@[k]);
                                        }
                                    }
                                }
                            }
                            q += 1;
                        }
                        proof {
                            assert forall|a: int, x: usize|
                                0 <= a < cluster@.len() && x < pts.len() && #[trigger] within(
                                    pts[cluster@[a] as int].point,
                                    pts[x as int].point,
                                    tol,
                                ) implies claimed(*processed).contains(x) || stack@.contains(x) by {
                                if a < before.len() {
                                    assert(cluster@[a] == before[a]);
                                } else {
                                    assert(cluster@[a] == p);
                                    lemma_nbr_found(s, nbrs@, pts, target.point, tol, x);
                                    let k = choose|k: int| 0 <= k < nbrs@.len() && nbrs@[k] == x;
                                }
                            }
                        }
                    } else {
                        proof {
                            assert forall|a: int, x: usize|
                                0 <= a < cluster@.len() && x < pts.len() && #[trigger] within(
                                    pts[cluster@[a] as int].point,
                                    pts[x as int].point,
                                    tol,
                                ) implies claimed(*processed).contains(x) || stack@.contains(x) by {
                                if a < before.len() {
                                    assert(cluster@[a] == before[a]);
                                } else {
                                    assert(cluster@[a] == p);
                                    lemma_lone(s, nbrs@, pts, p, tol, x);
                                }
                            }
                        }
                    }
                }
            }
        }
        proof {
            if self.max_cluster_size > 0 && cluster@.len() == 0 {
                assert(stack@.len() > 0);
            }
        }
        cluster
    }

    /// The clusters grown from `seeds`, in order: a seed already claimed
    /// grows nothing, and a cluster under `min_cluster_size` points, or a
    /// lone point, is dropped.
    pub fn extract_from_seeds(&self, seeds: &Vec<usize>) -> (cs: Vec<Vec<usize>>)
        requires
            self.wf(),
            forall|k: int| 0 <= k < seeds@.len() ==> (#[trigger] seeds@[k]) < self.points().len(),
        ensures
            extraction_ok(cluster_views(cs@), self.points(), self.tolerance(), self.min_size(), self.max_size(), seeds@),
    {
        let ghost pts = self.points();
        let ghost tol = self.cluster_tolerance;
        let n = self.cloud.points.len();
        let mut processed = new_claims(n);
        let mut clusters: Vec<Vec<usize>> = Vec::new();
        let ghost mut gs: Seq<Seq<usize>> = Seq::empty();
        proof {
            assert(gs.filter(kept(pts, tol, self.min_cluster_size)) =~= Seq::<Seq<usize>>::empty()) by {
                reveal(Seq::filter);
            }
            assert(cluster_views(clusters@) =~= Seq::<Seq<usize>>::empty());
        }
        let mut s: usize = 0;
        while s < seeds.len()
            invariant
                grouping(gs, pts, tol, self.max_cluster_size),
                forall|x: usize| x < n ==> (claimed(processed).contains(x) <==> grouped(gs, pts, x)),
                cluster_views(clusters@) == gs.filter(kept(pts, tol, self.min_cluster_size)),
                self.max_cluster_size > 0 ==> forall|k: int| 0 <= k < s ==> grouped(gs, pts, #[trigger] seeds@[k]),
                forall|c: int, a: int|
                    0 <= c < clusters@.len() && 0 <= a < clusters@[c]@.len() ==> !lone(pts, tol, #[trigger] clusters@[c]@[a]),
                self.wf(),
                pts == self.points(),
                tol == self.cluster_tolerance,
                n == pts.len(),
                s <= seeds@.len(),
                forall|k: int| 0 <= k < seeds@.len() ==> (#[trigger] seeds@[k]) < n,
                valid_clusters(cluster_views(clusters@), pts, tol, self.min_cluster_size, self.max_cluster_size),
                forall|c: int, a: int|
                    0 <= c < clusters@.len() && 0 <= a < clusters@[c]@.len() ==> claimed(processed).contains(#[trigger] clusters@[c]@[a]),
            decreases seeds@.len() - s,
        {
            let seed = seeds[s];
            let ghost gs0 = gs;
            if !is_claimed(&processed, seed) {
                let ghost before = claimed(processed);
                let ghost old_cs = cluster_views(clusters@);
                proof {
                    assert forall|x: usize, y: usize|
                        x < n && y < n && #[trigger] before.contains(x) && pts[x as int] == pts[y as int]
                            implies #[trigger] before.contains(y) by {
                        assert(grouped(gs, pts, x));
                        let j = choose|j: int| 0 <= j < gs.len() && #[trigger] has_value(gs[j], pts, x);
                        assert(has_value(gs[j], pts, y));
                    }
                }
                let c = self.cluster_builder(seed, &mut processed);
                proof {
                    if c@.len() > 0 {
                        lemma_add_group(gs0, c@, before, claimed(processed), pts, tol, self.max_cluster_size);
                        gs = gs0.push(c@);
                        gs0.lemma_filter_push(c@, kept(pts, tol, self.min_cluster_size));
                        assert(gs[gs0.len() as int] == c@);
                        assert(c@[0] == seed);
                        assert(pts[c@[0] as int] == pts[seed as int]);
                        assert(has_value(gs[gs0.len() as int], pts, seed));
                        assert forall|k: int| 0 <= k < s + 1 && self.max_cluster_size > 0 implies grouped(gs, pts, #[trigger] seeds@[k]) by {
                            if k < s {
                                let j = choose|j: int| 0 <= j < gs0.len() && #[trigger] has_value(gs0[j], pts, seeds@[k]);
                                assert(gs[j] == gs0[j]);
                            } else {
                                assert(has_value(gs[gs0.len() as int], pts, seeds@[k]));
                            }
                        }
                    } else {
                        assert forall|x: usize| x < n implies (claimed(processed).contains(x) <==> grouped(gs, pts, x)) by {
                            if claimed(processed).contains(x) && !before.contains(x) {
                                assert(has_value(c@, pts, x));
                            }
                        }
                    }
                }
                let keep = c.len() >= self.min_cluster_size && c.len() > 0 && (c.len() >= 2 || !self.is_lone(c[0]));
                proof {
                    if c@.len() > 0 {
                        assert(keep == kept(pts, tol, self.min_cluster_size)(c@));
                    }
                }
                if keep {
                    let ghost cv = c@;
                    clusters.push(c);
                    proof {
                        let cs = cluster_views(clusters@);
                        assert(cs =~= old_cs.push(cv));
                        if cv.len() >= 2 {
                            lemma_no_lone_member(cv, pts, tol, self.min_cluster_size, self.max_cluster_size);
                        }
                        assert forall|x: int| 0 <= x < cs.len() implies valid_cluster(#[trigger] cs[x], pts, tol, self.min_cluster_size, self.max_cluster_size) by {
                            if x < old_cs.len() {
                                assert(cs[x] == old_cs[x]);
                            }
                        }
                        assert forall|x: int, y: int, a: int, b: int|
                            0 <= x < cs.len() && 0 <= y < cs.len() && x != y && 0 <= a < cs[x].len() && 0 <= b < cs[y].len()
                                implies pts[#[trigger] cs[x][a] as int] != pts[#[trigger] cs[y][b] as int] by {
                            if x < old_cs.len() && y < old_cs.len() {
                                assert(cs[x] == old_cs[x] && cs[y] == old_cs[y]);
                            } else if x < old_cs.len() {
                                assert(cs[x][a] == clusters@[x]@[a]);
                                assert(before.contains(cs[x][a]));
                                assert(cs[y] == cv);
                                assert(!before.contains(cv[b]));
                            } else {
                                assert(cs[y][b] == clusters@[y]@[b]);
                                assert(before.contains(cs[y][b]));
                                assert(cs[x] == cv);
                                assert(!before.contains(cv[a]));
                            }
                        }
                        assert forall|x: int, a: int|
                            0 <= x < clusters@.len() && 0 <= a < clusters@[x]@.len() implies claimed(processed).contains(#[trigger] clusters@[x]@[a]) by {
                            if x < old_cs.len() {
                                assert(clusters@[x]@ == old_cs[x]);
                                assert(valid_cluster(old_cs[x], pts, tol, self.min_cluster_size, self.max_cluster_size));
                                assert(before.contains(clusters@[x]@[a]));
                            } else {
                                assert(clusters@[x]@ == cv);
                                assert(has_value(cv, pts, cv[a]));
                            }
                        }
                        assert forall|x: int, a: int|
                            0 <= x < clusters@.len() && 0 <= a < clusters@[x]@.len() implies !lone(pts, tol, #[trigger] clusters@[x]@[a]) by {
                            if x < old_cs.len() {
                                assert(clusters@[x]@ == old_cs[x]);
                            } else {
                                assert(clusters@[x]@ == cv);
                            }
                        }
                    }
                } else {
                    proof {
                        assert forall|x: int, a: int|
                            0 <= x < clusters@.len() && 0 <= a < clusters@[x]@.len() implies claimed(processed).contains(#[trigger] clusters@[x]@[a]) by {
                            assert(old_cs[x] == clusters@[x]@);
                            assert(valid_cluster(old_cs[x], pts, tol, self.min_cluster_size, self.max_cluster_size));
                            assert(before.contains(clusters@[x]@[a]));
                        }
                    }
                }
            }
            proof {
                if claimed(processed).contains(seed) && self.max_cluster_size > 0 {
                    assert(grouped(gs, pts, seeds@[s as int]));
                }
            }
            s += 1;
        }
        assert(extraction_ok(cluster_views(clusters@), pts, tol, self.min_cluster_size, self.max_cluster_size, seeds@));
        clusters
    }

    /// The clusters grown from every point in cloud order.
    pub fn extract_indices(&self) -> (cs: Vec<Vec<usize>>)
        requires
            self.wf(),
        ensures
            extraction_ok(
                cluster_views(cs@),
                self.points(),
                self.tolerance(),
                self.min_size(),
                self.max_size(),
                every_position(self.points().len()),
            ),
    {
        let n = self.cloud.points.len();
        let mut seeds: Vec<usize> = Vec::new();
        let mut i: usize = 0;
        while i < n
            invariant
                i <= n,
                n == self.points().len(),
                seeds@.len() == i,
                forall|k: int| 0 <= k < i ==> seeds@[k] == k,
            decreases n - i,
        {
            seeds.push(i);
            i += 1;
        }
        assert(seeds@ =~= every_position(self.points().len()));
        self.extract_from_seeds(&seeds)
    }

    /// The clusters grown from every point, visited in an order shuffled
    /// uniformly at random, so that runs spread their work differently.
    pub fn extract_parallel(&self) -> (cs: Vec<Vec<usize>>)
        requires
            self.wf(),
        ensures
            exists|seeds: Seq<usize>|
                seeds.len() == self.points().len() && (forall|x: usize| x < self.points().len() ==> #[trigger] seeds.contains(x))
                    && #[trigger] extraction_ok(
                    cluster_views(cs@),
                    self.points(),
                    self.tolerance(),
                    self.min_size(),
                    self.max_size(),
                    seeds,
                ),
    {
        let n = self.cloud.points.len();
        let mut seeds: Vec<usize> = Vec::new();
        let mut i: usize = 0;
        while i < n
            invariant
                i <= n,
                n == self.points().len(),
                seeds@.len() == i,
                forall|k: int| 0 <= k < i ==> seeds@[k] == k,
            decreases n - i,
        {
            seeds.push(i);
            i += 1;
        }
        proof {
            assert forall|x: usize| x < n implies #[trigger] seeds@.contains(x) by {
                assert(seeds@[x as int] == x);
            }
        }
        // Fisher-Yates: position `k` swaps with a position drawn from `0..=k`
        let mut k: usize = n;
        while k > 1
            invariant
                k <= n,
                n == self.points().len(),
                seeds@.len() == n,
                forall|j: int| 0 <= j < n ==> (#[trigger] seeds@[j]) < n,
                forall|x: usize| x < n ==> #[trigger] seeds@.contains(x),
            decreases k,
        {
            let j = random_index(k);
            let last = k - 1;
            let a = seeds[last];
            let b = seeds[j];
            let ghost old_seeds = seeds@;
            assert(forall|x: usize| x < n ==> #[trigger] old_seeds.contains(x));
            seeds.set(last, b);
            seeds.set(j, a);
            proof {
                assert forall|x: usize| x < n implies #[trigger] seeds@.contains(x) by {
                    assert(old_seeds.contains(x));
                    assert(old_seeds.len() == n);
                    let m = choose|m: int| 0 <= m < n && old_seeds[m] == x;
                    if m == last {
                        assert(seeds@[j as int] == x);
                    } else if m == j {
                        assert(seeds@[last as int] == x);
                    } else {
                        assert(seeds@[m] == x);
                    }
                }
            }
            k -= 1;
        }
        let cs = self.extract_from_seeds(&seeds);
        assert(extraction_ok(cluster_views(cs@), self.points(), self.tolerance(), self.min_size(), self.max_size(), seeds@));
        cs
    }

    /// The points of the clusters grown from every point in cloud order.
    pub fn extract(&self) -> (cs: Vec<Vec<Point>>)
        requires
            self.wf(),
        ensures
            exists|idx: Seq<Seq<usize>>|
                #[trigger] extraction_ok(
                    idx,
                    self.points(),
                    self.tolerance(),
                    self.min_size(),
                    self.max_size(),
                    every_position(self.points().len()),
                ) && cs@.map_values(|c: Vec<Point>| c@) == clusters_points(idx, self.points()),
    {
        let idx = self.extract_indices();
        let ghost iv = cluster_views(idx@);
        let mut out: Vec<Vec<Point>> = Vec::new();
        let mut c: usize = 0;
        while c < idx.len()
            invariant
                c <= idx@.len(),
                iv == cluster_views(idx@),
                valid_clusters(iv, self.points(), self.tolerance(), self.min_size(), self.max_size()),
                out@.len() == c,
                forall|x: int| 0 <= x < c ==> (#[trigger] out@[x])@ == iv[x].map_values(|k: usize| self.points()[k as int]),
            decreases idx@.len() - c,
        {
            let members = &idx[c];
            assert(members@ == iv[c as int]);
            assert(valid_cluster(iv[c as int], self.points(), self.tolerance(), self.min_size(), self.max_size()));
            let mut pts: Vec<Point> = Vec::new();
            let mut k: usize = 0;
            while k < members.len()
                invariant
                    k <= members@.len(),
                    forall|a: int| 0 <= a < members@.len() ==> (#[trigger] members@[a]) < self.points().len(),
                    self.points() == self.cloud@,
                    pts@ == members@.subrange(0, k as int).map_values(|q: usize| self.points()[q as int]),
                decreases members@.len() - k,
            {
                pts.push(self.cloud.points[members[k]]);
                k += 1;
                assert(pts@ =~= members@.subrange(0, k as int).map_values(|q: usize| self.points()[q as int]));
            }
            assert(members@.subrange(0, k as int) =~= members@);
            out.push(pts);
            c += 1;
        }
        assert(out@.map_values(|v: Vec<Point>| v@) =~= clusters_points(iv, self.points()));
        out
    }
}

} // verus!
