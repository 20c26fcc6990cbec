//! The voxel-grid filter: one centroid for each occupied cell of a grid laid
//! over a cloud's bounding box.
//!
//! The box `[lo, hi]` of the cloud is cut into `leaf_count.x` by
//! `leaf_count.y` by `leaf_count.z` cells. Along an axis of extent `e > 0`
//! cut into `c` cells, a coordinate `v` falls in cell
//! `floor((v - lo) * c / e)`, the greatest coordinate in the last cell; an
//! axis of extent 0 has one cell. Each occupied cell yields the mean of its
//! points' coordinates (rounded down) with the auxiliary value of its last
//! point in cloud order.

use vstd::prelude::*;
use std::collections::HashMap;
use crate::point::{Point, PointData, XYZ, COORD_LIMIT, coord, xyz_in_limit, cloud_in_limit, lemma_filter_in_limit};
use crate::point_cloud::PointCloud;
use crate::bounding_box::{get_min_max, min_corner, max_corner, lemma_min_max_coord};

verus! {

broadcast use vstd::seq_lib::group_seq_properties, vstd::std_specs::hash::group_hash_axioms;

/// Number of cells along each axis.
#[derive(Debug, Clone, Copy, PartialEq, Eq, Structural)]
pub struct LeafCount {
    pub x: usize,
    pub y: usize,
    pub z: usize,
}

/// Total number of cells.
pub open spec fn leaf_total(lc: LeafCount) -> int {
    lc.x * lc.y * lc.z
}

/// Cell of coordinate `v` along an axis spanning `[lo, hi]` cut into `c`.
pub open spec fn axis_cell(v: int, lo: int, hi: int, c: int) -> int {
    if hi <= lo {
        0
    } else {
        let k = (v - lo) * c / (hi - lo);
        if k >= c {
            c - 1
        } else {
            k
        }
    }
}

/// Linear index of the cell of `p` in the grid over `[lo, hi]`.
pub open spec fn cell_of(p: XYZ, lo: XYZ, hi: XYZ, lc: LeafCount) -> int {
    axis_cell(p.x as int, lo.x as int, hi.x as int, lc.x as int) + lc.x * (axis_cell(
        p.y as int,
        lo.y as int,
        hi.y as int,
        lc.y as int,
    ) + lc.y * axis_cell(p.z as int, lo.z as int, hi.z as int, lc.z as int))
}

/// The points of cloud `s` that fall in cell `key`, in order.
pub open spec fn cell_pred(s: Seq<Point>, lc: LeafCount, key: int) -> spec_fn(Point) -> bool {
    |p: Point| cell_of(p.point, min_corner(s), max_corner(s), lc) == key
}

/// The points of `s` in cell `key`, in cloud order.
pub open spec fn group(s: Seq<Point>, lc: LeafCount, key: int) -> Seq<Point> {
    s.filter(cell_pred(s, lc, key))
}

/// Sum of coordinate `d` over `g`.
pub open spec fn coord_sum(g: Seq<Point>, d: int) -> int
    decreases g.len(),
{
    if g.len() == 0 {
        0
    } else {
        coord_sum(g.drop_last(), d) + coord(g.last().point, d)
    }
}

/// The centroid of a non-empty group: the mean coordinates, rounded down,
/// and the auxiliary value of the last point.
pub open spec fn centroid(g: Seq<Point>) -> Point {
    Point {
        point: XYZ {
            x: (coord_sum(g, 0) / g.len() as int) as i32,
            y: (coord_sum(g, 1) / g.len() as int) as i32,
            z: (coord_sum(g, 2) / g.len() as int) as i32,
        },
        data: g.last().data,
    }
}

/// `out` holds, in the order of `keys`, the centroid of each occupied cell
/// of `s`, each cell once.
pub open spec fn voxel_ok(s: Seq<Point>, lc: LeafCount, out: Seq<Point>, keys: Seq<usize>) -> bool {
    &&& out.len() == keys.len()
    &&& keys.no_duplicates()
    &&& forall|k: int| 0 <= k < keys.len() ==> (#[trigger] keys[k]) < leaf_total(lc)
    &&& forall|k: int| 0 <= k < keys.len() ==> #[trigger] group(s, lc, keys[k] as int).len() > 0
    &&& forall|i: int|
        0 <= i < s.len() ==> exists|k: int|
            0 <= k < keys.len() && keys[k] as int == cell_of(#[trigger] s[i].point, min_corner(s), max_corner(s), lc)
    &&& forall|k: int| 0 <= k < keys.len() ==> out[k] == centroid(#[trigger] group(s, lc, keys[k] as int))
}

/// What the filter yields: nothing for an empty cloud or a grid without
/// cells, else the centroid of each occupied cell.
pub open spec fn voxel_result(s: Seq<Point>, lc: LeafCount, out: Seq<Point>) -> bool {
    if s.len() == 0 || lc.x == 0 || lc.y == 0 || lc.z == 0 {
        out.len() == 0
    } else {
        exists|keys: Seq<usize>| #[trigger] voxel_ok(s, lc, out, keys)
    }
}

/// Law: the filter yields no more points than there are cells, nor than
/// there are points.
pub proof fn lemma_voxel_size(s: Seq<Point>, lc: LeafCount, out: Seq<Point>, keys: Seq<usize>)
    requires
        voxel_ok(s, lc, out, keys),
    ensures
        out.len() <= leaf_total(lc),
        out.len() <= s.len(),
{
    broadcast use vstd::seq_lib::seq_to_set_is_finite;

    let ks = keys.to_set();
    keys.unique_seq_to_set();
    let total = leaf_total(lc);
    assert(total >= 0) by (nonlinear_arith)
        requires
            total == lc.x * lc.y * lc.z,
            lc.x >= 0,
            lc.y >= 0,
            lc.z >= 0,
    ;
    let f = |k: usize| k as int;
    let img = ks.map(f);
    vstd::set_lib::lemma_map_size(ks, img, f);
    vstd::set_lib::lemma_int_range(0, total);
    assert forall|v: int| img.contains(v) implies vstd::set_lib::set_int_range(0, total).contains(v) by {
        let k = choose|k: usize| ks.contains(k) && f(k) == v;
        let kk = choose|kk: int| 0 <= kk < keys.len() && keys[kk] == k;
        assert(keys[kk] < total);
    }
    vstd::set_lib::lemma_len_subset(img, vstd::set_lib::set_int_range(0, total));
    let lo = min_corner(s);
    let hi = max_corner(s);
    let g = |k: usize| choose|i: int| 0 <= i < s.len() && cell_of(s[i].point, lo, hi, lc) == k as int;
    assert forall|k: usize| ks.contains(k) implies 0 <= #[trigger] g(k) < s.len() && cell_of(s[g(k)].point, lo, hi, lc) == k as int by {
        let kk = choose|kk: int| 0 <= kk < keys.len() && keys[kk] == k;
        let pr = cell_pred(s, lc, k as int);
        let gr = group(s, lc, k as int);
        assert(gr.len() > 0);
        s.lemma_filter_pred(pr, 0);
        assert(gr.contains(gr[0]));
        s.lemma_filter_contains_rev(pr, gr[0]);
        let i = choose|i: int| 0 <= i < s.len() && s[i] == gr[0];
        assert(cell_of(s[i].point, lo, hi, lc) == k as int);
    }
    let img2 = ks.map(g);
    assert(vstd::relations::injective_on(g, ks));
    vstd::set_lib::lemma_map_size(ks, img2, g);
    vstd::set_lib::lemma_int_range(0, s.len() as int);
    assert forall|v: int| img2.contains(v) implies vstd::set_lib::set_int_range(0, s.len() as int).contains(v) by {
        let k = choose|k: usize| ks.contains(k) && g(k) == v;
    }
    vstd::set_lib::lemma_len_subset(img2, vstd::set_lib::set_int_range(0, s.len() as int));
}

/// Cell of `v` along an axis spanning `[lo, hi]` cut into `c` cells.
fn axis_index(v: i32, lo: i32, hi: i32, c: usize) -> (r: usize)
    requires
        lo <= v <= hi,
        c > 0,
    ensures
        r == axis_cell(v as int, lo as int, hi as int, c as int),
        r < c,
{
    if hi <= lo {
        return 0;
    }
    let e = (hi as i64 - lo as i64) as u128;
    let off = (v as i64 - lo as i64) as u128;
    proof {
        assert(off * c <= 0x1_0000_0000 * 0xffff_ffff_ffff_ffff) by (nonlinear_arith)
            requires
                off <= 0x1_0000_0000,
                c <= 0xffff_ffff_ffff_ffff,
        ;
    }
    let k = off * (c as u128) / e;
    if k >= c as u128 {
        c - 1
    } else {
        k as usize
    }
}

/// Linear index of the cell of `p`.
fn cell_key(p: XYZ, lo: XYZ, hi: XYZ, lc: LeafCount) -> (r: usize)
    requires
        lo.x <= p.x <= hi.x,
        lo.y <= p.y <= hi.y,
        lo.z <= p.z <= hi.z,
        lc.x > 0 && lc.y > 0 && lc.z > 0,
        leaf_total(lc) <= usize::MAX,
    ensures
        r == cell_of(p, lo, hi, lc),
        r < leaf_total(lc),
{
    let i = axis_index(p.x, lo.x, hi.x, lc.x);
    let j = axis_index(p.y, lo.y, hi.y, lc.y);
    let k = axis_index(p.z, lo.z, hi.z, lc.z);
    let ghost (cx, cy, cz) = (lc.x as int, lc.y as int, lc.z as int);
    proof {
        assert(j + cy * k <= cy * cz - 1) by (nonlinear_arith)
            requires
                0 <= j < cy,
                0 <= k < cz,
        ;
        assert(i + cx * (j + cy * k) <= cx * (cy * cz) - 1) by (nonlinear_arith)
            requires
                0 <= i < cx,
                0 <= j + cy * k <= cy * cz - 1,
        ;
        assert(cx * (cy * cz) == leaf_total(lc)) by (nonlinear_arith)
            requires
                cx == lc.x,
                cy == lc.y,
                cz == lc.z,
        ;
        assert(cy * k <= cy * cz) by (nonlinear_arith)
            requires
                0 <= k < cz,
                cy > 0,
        ;
        assert(cy * cz <= cx * (cy * cz)) by (nonlinear_arith)
            requires
                cx >= 1,
                cy * cz >= 0,
        ;
        assert(cx * (j + cy * k) <= cx * (cy * cz)) by (nonlinear_arith)
            requires
                cx >= 0,
                j + cy * k <= cy * cz,
        ;
    }
    i + lc.x * (j + lc.y * k)
}

/// `a / n`, rounded down, for a mean of `i32` values.
fn floor_mean(a: i128, n: usize) -> (r: i32)
    requires
        n > 0,
        n * (i32::MIN as int) <= a <= n * (i32::MAX as int),
    ensures
        r == (a as int) / (n as int),
{
    let ghost ni = n as int;
    proof {
        vstd::arithmetic::div_mod::lemma_fundamental_div_mod(a as int, ni);
        let q = a as int / ni;
        let m = a as int % ni;
        assert(q <= i32::MAX) by (nonlinear_arith)
            requires
                a == ni * q + m,
                0 <= m < ni,
                a <= ni * (i32::MAX as int),
                ni > 0,
        ;
        assert(q >= i32::MIN) by (nonlinear_arith)
            requires
                a == ni * q + m,
                0 <= m < ni,
                a >= ni * (i32::MIN as int),
                ni > 0,
        ;
    }
    if a >= 0 {
        let q = (a as u128) / (n as u128);
        q as i32
    } else {
        let b = (-a) as u128;
        let q = (b + (n as u128) - 1) / (n as u128);
        proof {
            let bi = b as int;
            vstd::arithmetic::div_mod::lemma_fundamental_div_mod(bi + ni - 1, ni);
            vstd::arithmetic::div_mod::lemma_fundamental_div_mod(a as int, ni);
            let q2 = (bi + ni - 1) / ni;
            let m2 = (bi + ni - 1) % ni;
            let q1 = a as int / ni;
            let m1 = a as int % ni;
            assert(q1 == -q2) by (nonlinear_arith)
                requires
                    bi == -(a as int),
                    bi + ni - 1 == ni * q2 + m2,
                    0 <= m2 < ni,
                    a == ni * q1 + m1,
                    0 <= m1 < ni,
                    ni > 0,
            ;
        }
        -(q as i128) as i32
    }
}

/// Running sums of one cell.
struct Voxel {
    sx: i128,
    sy: i128,
    sz: i128,
    n: usize,
    data: Option<PointData>,
}

impl Voxel {
    spec fn matches(&self, g: Seq<Point>) -> bool {
        &&& self.n == g.len()
        &&& self.n > 0
        &&& self.sx == coord_sum(g, 0)
        &&& self.sy == coord_sum(g, 1)
        &&& self.sz == coord_sum(g, 2)
        &&& self.data == g.last().data
    }
}

proof fn lemma_sum_single(p: Point, d: int)
    ensures
        coord_sum(seq![p], d) == coord(p.point, d),
{
    assert(seq![p].drop_last() =~= Seq::<Point>::empty());
    assert(coord_sum(Seq::<Point>::empty(), d) == 0);
    assert(seq![p].last() == p);
}

/// Sums of a coordinate over `g` lie within `|g|` times the range of `i32`.
proof fn lemma_sum_bounds(g: Seq<Point>, d: int)
    ensures
        g.len() * (i32::MIN as int) <= coord_sum(g, d) <= g.len() * (i32::MAX as int),
    decreases g.len(),
{
    if g.len() > 0 {
        lemma_sum_bounds(g.drop_last(), d);
        assert(i32::MIN <= coord(g.last().point, d) <= i32::MAX);
        assert(g.len() * (i32::MIN as int) == (g.len() - 1) * (i32::MIN as int) + i32::MIN) by (nonlinear_arith);
        assert(g.len() * (i32::MAX as int) == (g.len() - 1) * (i32::MAX as int) + i32::MAX) by (nonlinear_arith);
    }
}

/// A filter keeps nothing of a sequence none of whose elements it accepts.
proof fn lemma_filter_none(s: Seq<Point>, pred: spec_fn(Point) -> bool)
    requires
        forall|i: int| 0 <= i < s.len() ==> !pred(#[trigger] s[i]),
    ensures
        s.filter(pred).len() == 0,
    decreases s.len(),
{
    if s.len() > 0 {
        let t = s.drop_last();
        assert(s =~= t.push(s.last()));
        assert forall|i: int| 0 <= i < t.len() implies !pred(#[trigger] t[i]) by {
            assert(t[i] == s[i]);
        }
        lemma_filter_none(t, pred);
        t.lemma_filter_push(s.last(), pred);
    } else {
        assert(s.filter(pred) =~= s) by {
            reveal(Seq::filter);
        }
    }
}

/// Sums over points within the limit lie within `|g|` times the limit.
proof fn lemma_sum_limit(g: Seq<Point>, d: int)
    requires
        0 <= d < 3,
        cloud_in_limit(g),
    ensures
        -(g.len() * COORD_LIMIT) <= coord_sum(g, d) <= g.len() * COORD_LIMIT,
    decreases g.len(),
{
    if g.len() > 0 {
        let t = g.drop_last();
        assert forall|i: int| 0 <= i < t.len() implies xyz_in_limit(#[trigger] t[i].point) by {
            assert(t[i] == g[i]);
        }
        lemma_sum_limit(t, d);
        assert(xyz_in_limit(g[g.len() - 1].point));
        assert(-COORD_LIMIT <= coord(g.last().point, d) <= COORD_LIMIT);
        assert(g.len() * COORD_LIMIT == (g.len() - 1) * COORD_LIMIT + COORD_LIMIT) by (nonlinear_arith);
    }
}

/// The centroid of a non-empty group of a cloud within the limit is within
/// it.
proof fn lemma_centroid_in_limit(s: Seq<Point>, lc: LeafCount, key: int)
    requires
        cloud_in_limit(s),
        group(s, lc, key).len() > 0,
    ensures
        xyz_in_limit(centroid(group(s, lc, key)).point),
{
    let g = group(s, lc, key);
    lemma_filter_in_limit(s, cell_pred(s, lc, key));
    let n = g.len() as int;
    assert forall|d: int| 0 <= d < 3 implies -COORD_LIMIT <= #[trigger] (coord_sum(g, d) / n) <= COORD_LIMIT by {
        lemma_sum_limit(g, d);
        let sm = coord_sum(g, d);
        vstd::arithmetic::div_mod::lemma_fundamental_div_mod(sm, n);
        let q = sm / n;
        let m = sm % n;
        let l = COORD_LIMIT as int;
        assert(q <= l) by (nonlinear_arith)
            requires
                sm == n * q + m,
                0 <= m < n,
                sm <= n * l,
                n > 0,
        ;
        assert(q >= -l) by (nonlinear_arith)
            requires
                sm == n * q + m,
                0 <= m < n,
                sm >= -(n * l),
                n > 0,
        ;
    }
    assert(-COORD_LIMIT <= coord_sum(g, 0) / n <= COORD_LIMIT);
    assert(-COORD_LIMIT <= coord_sum(g, 1) / n <= COORD_LIMIT);
    assert(-COORD_LIMIT <= coord_sum(g, 2) / n <= COORD_LIMIT);
}

/// Downsamples `in_cloud` to one centroid for each occupied cell of a
/// `leaf_count` grid over its bounding box; an empty cloud, or a grid with
/// no cell along some axis, yields an empty cloud.
pub fn filter_points(in_cloud: &PointCloud, leaf_count: LeafCount) -> (r: PointCloud)
    requires
        leaf_total(leaf_count) <= usize::MAX,
    ensures
        (in_cloud@.len() == 0 || leaf_count.x == 0 || leaf_count.y == 0 || leaf_count.z == 0) ==> r@.len() == 0,
        !(in_cloud@.len() == 0 || leaf_count.x == 0 || leaf_count.y == 0 || leaf_count.z == 0) ==> exists|keys: Seq<usize>|
            #[trigger] voxel_ok(in_cloud@, leaf_count, r@, keys),
        cloud_in_limit(in_cloud@) ==> cloud_in_limit(r@),
        voxel_result(in_cloud@, leaf_count, r@),
        r@.len() <= in_cloud@.len(),
{
    let points = &in_cloud.points;
    if points.len() == 0 || leaf_count.x == 0 || leaf_count.y == 0 || leaf_count.z == 0 {
        let empty: Vec<Point> = Vec::new();
        assert(cloud_in_limit(empty@));
        return PointCloud::from_points(empty);
    }
    let ghost s = points@;
    let (lo, hi) = get_min_max(points);
    proof {
        lemma_min_max_coord(s, 0);
        lemma_min_max_coord(s, 1);
        lemma_min_max_coord(s, 2);
    }
    let mut index: HashMap<usize, usize> = HashMap::new();
    let mut voxels: Vec<Voxel> = Vec::new();
    let mut keys: Vec<usize> = Vec::new();
    let mut i: usize = 0;
    while i < points.len()
        invariant
            s == points@,
            s.len() > 0,
            lo == min_corner(s),
            hi == max_corner(s),
            leaf_count.x > 0 && leaf_count.y > 0 && leaf_count.z > 0,
            leaf_total(leaf_count) <= usize::MAX,
            forall|j: int| 0 <= j < s.len() ==> #[trigger] coord(s[j].point, 0) >= lo.x && coord(s[j].point, 0) <= hi.x,
            forall|j: int| 0 <= j < s.len() ==> #[trigger] coord(s[j].point, 1) >= lo.y && coord(s[j].point, 1) <= hi.y,
            forall|j: int| 0 <= j < s.len() ==> #[trigger] coord(s[j].point, 2) >= lo.z && coord(s[j].point, 2) <= hi.z,
            i <= s.len(),
            voxels@.len() == keys@.len(),
            keys@.no_duplicates(),
            forall|g: int| 0 <= g < keys@.len() ==> (#[trigger] keys@[g]) < leaf_total(leaf_count),
            forall|g: int| 0 <= g < keys@.len() ==> index@.contains_key(#[trigger] keys@[g]) && index@[keys@[g]] == g,
            forall|k: usize| #[trigger] index@.contains_key(k) ==> exists|g: int| 0 <= g < keys@.len() && keys@[g] == k,
            forall|g: int|
                0 <= g < keys@.len() ==> (#[trigger] voxels@[g]).matches(
                    s.subrange(0, i as int).filter(cell_pred(s, leaf_count, keys@[g] as int)),
                ),
            forall|j: int|
                0 <= j < i ==> exists|g: int|
                    0 <= g < keys@.len() && keys@[g] as int == cell_of(#[trigger] s[j].point, lo, hi, leaf_count),
        decreases s.len() - i,
    {
        let p = points[i];
        assert(coord(s[i as int].point, 0) >= lo.x && coord(s[i as int].point, 1) >= lo.y && coord(s[i as int].point, 2) >= lo.z);
        assert(coord(s[i as int].point, 0) <= hi.x && coord(s[i as int].point, 1) <= hi.y && coord(s[i as int].point, 2) <= hi.z);
        let key = cell_key(p.point, lo, hi, leaf_count);
        let ghost si = s.subrange(0, i as int);
        let ghost si1 = s.subrange(0, i as int + 1);
        proof {
            assert(si1 =~= si.push(p));
        }
        let ghost old_voxels = voxels@;
        let ghost old_keys = keys@;
        match index.get(&key) {
            Some(gr) => {
                let g = *gr;
                let ghost gg = choose|gg: int| 0 <= gg < keys@.len() && keys@[gg] == key;
                assert(g == gg);
                let v = &voxels[g];
                let ghost grp = si.filter(cell_pred(s, leaf_count, key as int));
                proof {
                    si.lemma_filter_push(p, cell_pred(s, leaf_count, key as int));
                    lemma_sum_bounds(grp.push(p), 0);
                    lemma_sum_bounds(grp.push(p), 1);
                    lemma_sum_bounds(grp.push(p), 2);
                    assert(grp.push(p).drop_last() =~= grp);
                    assert(grp.len() < s.len());
                }
                let nv = Voxel {
                    sx: v.sx + p.point.x as i128,
                    sy: v.sy + p.point.y as i128,
                    sz: v.sz + p.point.z as i128,
                    n: v.n + 1,
                    data: p.data,
                };
                voxels.set(g, nv);
                proof {
                    assert(keys@[g as int] == key);
                    assert forall|h: int| 0 <= h < keys@.len() implies (#[trigger] voxels@[h]).matches(
                        si1.filter(cell_pred(s, leaf_count, keys@[h] as int)),
                    ) by {
                        si.lemma_filter_push(p, cell_pred(s, leaf_count, keys@[h] as int));
                        if h != g {
                            assert(keys@[h] != key);
                            assert(voxels@[h] == old_voxels[h]);
                        }
                    }
                }
            },
            None => {
                let ghost pr = cell_pred(s, leaf_count, key as int);
                proof {
                    assert forall|j: int| 0 <= j < si.len() implies !pr(#[trigger] si[j]) by {
                        assert(si[j] == s[j]);
                        let g = choose|g: int| 0 <= g < keys@.len() && keys@[g] as int == cell_of(s[j].point, lo, hi, leaf_count);
                        assert(index@.contains_key(keys@[g]));
                    }
                    lemma_filter_none(si, pr);
                    si.lemma_filter_push(p, pr);
                    assert(si.filter(pr) =~= Seq::<Point>::empty());
                    assert(si1.filter(pr) =~= seq![p]);
                    assert(seq![p].drop_last() =~= Seq::<Point>::empty());
                    assert(!keys@.contains(key));
                }
                let ghost g = keys@.len();
                voxels.push(Voxel { sx: p.point.x as i128, sy: p.point.y as i128, sz: p.point.z as i128, n: 1, data: p.data });
                keys.push(key);
                index.insert(key, keys.len() - 1);
                proof {
                    assert(keys@[g as int] == key);
                    lemma_sum_single(p, 0);
                    lemma_sum_single(p, 1);
                    lemma_sum_single(p, 2);
                    assert(seq![p].last() == p);
                    assert forall|h: int| 0 <= h < keys@.len() implies (#[trigger] voxels@[h]).matches(
                        si1.filter(cell_pred(s, leaf_count, keys@[h] as int)),
                    ) by {
                        si.lemma_filter_push(p, cell_pred(s, leaf_count, keys@[h] as int));
                        if h < g {
                            assert(keys@[h] != key);
                            assert(voxels@[h] == old_voxels[h]);
                            assert(keys@[h] == old_keys[h]);
                        }
                    }
                    assert forall|a: int, b: int| 0 <= a < keys@.len() && 0 <= b < keys@.len() && a != b implies keys@[a] != keys@[b] by {
                        if a < g && b < g {
                            assert(old_keys[a] != old_keys[b]);
                        } else if a < g {
                            assert(old_keys.contains(keys@[a]));
                        } else if b < g {
                            assert(old_keys.contains(keys@[b]));
                        }
                    }
                    assert forall|k: usize| #[trigger] index@.contains_key(k) implies exists|h: int| 0 <= h < keys@.len() && keys@[h] == k by {
                        if k != key {
                            let h = choose|h: int| 0 <= h < old_keys.len() && old_keys[h] == k;
                            assert(keys@[h] == k);
                        } else {
                            assert(keys@[g as int] == k);
                        }
                    }
                    assert forall|h: int| 0 <= h < keys@.len() implies index@.contains_key(#[trigger] keys@[h]) && index@[keys@[h]] == h by {
                        if h < g {
                            assert(keys@[h] == old_keys[h]);
                        }
                    }
                }
            },
        }
        proof {
            assert forall|j: int| 0 <= j < i + 1 implies exists|g: int|
                0 <= g < keys@.len() && keys@[g] as int == cell_of(#[trigger] s[j].point, lo, hi, leaf_count) by {
                if j < i {
                    let g = choose|g: int| 0 <= g < old_keys.len() && old_keys[g] as int == cell_of(s[j].point, lo, hi, leaf_count);
                    assert(keys@[g] == old_keys[g]);
                } else {
                    let g = choose|g: int| 0 <= g < keys@.len() && keys@[g] == key;
                    assert(s[j] == p);
                }
            }
        }
        i += 1;
    }
    assert(s.subrange(0, s.len() as int) =~= s);
    let mut out: Vec<Point> = Vec::new();
    let mut g: usize = 0;
    while g < voxels.len()
        invariant
            s == points@,
            g <= voxels@.len(),
            voxels@.len() == keys@.len(),
            out@.len() == g,
            forall|h: int| 0 <= h < keys@.len() ==> (#[trigger] voxels@[h]).matches(group(s, leaf_count, keys@[h] as int)),
            forall|h: int| 0 <= h < g ==> out@[h] == centroid(#[trigger] group(s, leaf_count, keys@[h] as int)),
        decreases voxels@.len() - g,
    {
        let v = &voxels[g];
        proof {
            let grp = group(s, leaf_count, keys@[g as int] as int);
            assert(v.matches(grp));
            lemma_sum_bounds(grp, 0);
            lemma_sum_bounds(grp, 1);
            lemma_sum_bounds(grp, 2);
        }
        let c = Point {
            point: XYZ { x: floor_mean(v.sx, v.n), y: floor_mean(v.sy, v.n), z: floor_mean(v.sz, v.n) },
            data: v.data,
        };
        out.push(c);
        g += 1;
    }
    proof {
        assert forall|h: int| 0 <= h < keys@.len() implies #[trigger] group(s, leaf_count, keys@[h] as int).len() > 0 by {
            assert(voxels@[h].matches(group(s, leaf_count, keys@[h] as int)));
        }
        assert(voxel_ok(s, leaf_count, out@, keys@));
        lemma_voxel_size(s, leaf_count, out@, keys@);
        if cloud_in_limit(s) {
            assert forall|k: int| 0 <= k < out@.len() implies xyz_in_limit(#[trigger] out@[k].point) by {
                lemma_centroid_in_limit(s, leaf_count, keys@[k] as int);
            }
        }
    }
    PointCloud::from_points(out)
}

} // verus!
