//! An unbalanced k-d tree over 3-D points, queried by radius.
//!
//! A node at split dimension `d` (0 = x, 1 = y, 2 = z, cycling with depth)
//! holds in its left subtree only points whose coordinate `d` is below its
//! own, and in its right subtree the others. The tree maps each node's id to
//! its point; ids are distinct.

use vstd::prelude::*;
use crate::point::{Point, XYZ, coord, dist_sq, within};

verus! {

/// The split dimension that follows `d`.
pub open spec fn next_dim(d: int) -> int {
    if d == 2 {
        0
    } else {
        d + 1
    }
}

/// The ids and points of a sequence, each point under its position.
pub open spec fn index_map(s: Seq<Point>) -> Map<usize, Point> {
    Map::new(|i: usize| i < s.len(), |i: usize| s[i as int])
}

/// `s` lists, each once, the ids of `m` whose points lie within `radius` of
/// `t`, each with its point.
pub open spec fn pairs_exact(s: Seq<(Point, usize)>, m: Map<usize, Point>, t: XYZ, radius: u32) -> bool {
    &&& forall|k: int|
        0 <= k < s.len() ==> m.dom().contains(#[trigger] s[k].1) && m[s[k].1] == s[k].0 && within(
            t,
            s[k].0.point,
            radius,
        )
    &&& forall|k1: int, k2: int|
        0 <= k1 < s.len() && 0 <= k2 < s.len() && k1 != k2 ==> #[trigger] s[k1].1 != #[trigger] s[k2].1
    &&& forall|id: usize|
        #[trigger] m.dom().contains(id) && within(t, m[id].point, radius) ==> exists|k: int|
            0 <= k < s.len() && s[k].1 == id
}

/// Law: a radius search of a tree that holds each point of `points` under
/// its position returns exactly the points within the radius: each position
/// whose point lies within `radius` of `t` comes once, with its point, and
/// no other position comes.
pub proof fn lemma_search_exact(points: Seq<Point>, s: Seq<(Point, usize)>, t: XYZ, radius: u32)
    requires
        pairs_exact(s, index_map(points), t, radius),
    ensures
        forall|k: int|
            0 <= k < s.len() ==> (#[trigger] s[k].1) < points.len() && s[k].0 == points[s[k].1 as int]
                && within(t, s[k].0.point, radius),
        forall|i: usize|
            i < points.len() && within(t, #[trigger] points[i as int].point, radius) ==> exists|k: int|
                0 <= k < s.len() && s[k].1 == i,
        s.map_values(|e: (Point, usize)| e.1).no_duplicates(),
{
    let m = index_map(points);
    assert forall|i: usize| i < points.len() && within(t, #[trigger] points[i as int].point, radius) implies exists|k: int|
        0 <= k < s.len() && s[k].1 == i by {
        assert(m.dom().contains(i));
    }
    let ids = s.map_values(|e: (Point, usize)| e.1);
    assert forall|a: int, b: int| 0 <= a < ids.len() && 0 <= b < ids.len() && a != b implies ids[a] != ids[b] by {
        assert(s[a].1 != s[b].1);
    }
}

/// `b` lies farther than `radius` from `a` along axis `d`, hence farther
/// than `radius` from `a`.
proof fn lemma_far_on_axis(a: XYZ, b: XYZ, d: int, radius: u32)
    requires
        0 <= d < 3,
        coord(a, d) - coord(b, d) > radius || coord(b, d) - coord(a, d) > radius,
    ensures
        !within(a, b, radius),
{
    let e = coord(a, d) - coord(b, d);
    let r = radius as int;
    assert(e * e > r * r) by (nonlinear_arith)
        requires
            e > r || -e > r,
            r >= 0,
    ;
    let ex = a.x - b.x;
    let ey = a.y - b.y;
    let ez = a.z - b.z;
    assert(ex * ex >= 0 && ey * ey >= 0 && ez * ez >= 0) by (nonlinear_arith);
    assert(dist_sq(a, b) == ex * ex + ey * ey + ez * ez);
}

/// The pairs found at a node and in its two subtrees make up the pairs
/// found in the whole subtree.
proof fn lemma_combine(
    s0: Seq<(Point, usize)>,
    ls: Seq<(Point, usize)>,
    rs: Seq<(Point, usize)>,
    l0: Map<usize, Point>,
    r0: Map<usize, Point>,
    id: usize,
    p: Point,
    t: XYZ,
    radius: u32,
)
    requires
        l0.dom().disjoint(r0.dom()),
        !l0.dom().contains(id),
        !r0.dom().contains(id),
        pairs_exact(ls, l0, t, radius),
        pairs_exact(rs, r0, t, radius),
        s0 == (if within(t, p.point, radius) { seq![(p, id)] } else { Seq::<(Point, usize)>::empty() }),
    ensures
        pairs_exact(s0 + ls + rs, l0.union_prefer_right(r0).insert(id, p), t, radius),
{
    let m = l0.union_prefer_right(r0).insert(id, p);
    let s = s0 + ls + rs;
    assert forall|k: int| 0 <= k < s.len() implies m.dom().contains(#[trigger] s[k].1) && m[s[k].1] == s[k].0
        && within(t, s[k].0.point, radius) by {
        if k >= s0.len() + ls.len() {
            assert(s[k] == rs[k - s0.len() - ls.len()]);
        } else if k >= s0.len() {
            assert(s[k] == ls[k - s0.len()]);
            assert(!r0.dom().contains(s[k].1));
        }
    }
    assert forall|k1: int, k2: int|
        0 <= k1 < s.len() && 0 <= k2 < s.len() && k1 != k2 implies #[trigger] s[k1].1 != #[trigger] s[k2].1 by {
        if k1 >= s0.len() + ls.len() {
            assert(s[k1] == rs[k1 - s0.len() - ls.len()]);
            assert(r0.dom().contains(s[k1].1));
        } else if k1 >= s0.len() {
            assert(s[k1] == ls[k1 - s0.len()]);
            assert(l0.dom().contains(s[k1].1));
        }
        if k2 >= s0.len() + ls.len() {
            assert(s[k2] == rs[k2 - s0.len() - ls.len()]);
            assert(r0.dom().contains(s[k2].1));
        } else if k2 >= s0.len() {
            assert(s[k2] == ls[k2 - s0.len()]);
            assert(l0.dom().contains(s[k2].1));
        }
    }
    assert forall|i: usize| #[trigger] m.dom().contains(i) && within(t, m[i].point, radius) implies exists|k: int|
        0 <= k < s.len() && s[k].1 == i by {
        if i == id {
            assert(s[0].1 == i);
        } else if r0.dom().contains(i) {
            assert(r0.dom().contains(i) && within(t, r0[i].point, radius));
            let k = choose|k: int| 0 <= k < rs.len() && rs[k].1 == i;
            assert(s[s0.len() + ls.len() + k] == rs[k]);
        } else {
            assert(l0.dom().contains(i) && within(t, l0[i].point, radius));
            let k = choose|k: int| 0 <= k < ls.len() && ls[k].1 == i;
            assert(s[s0.len() + k] == ls[k]);
        }
    }
}

struct Node {
    point: Point,
    id: usize,
    depth: usize,
    left: Option<Box<Node>>,
    right: Option<Box<Node>>,
}

impl Node {
    spec fn map_of(opt: Option<Box<Node>>) -> Map<usize, Point>
        decreases opt,
    {
        match opt {
            None => Map::empty(),
            Some(n) => n.as_map(),
        }
    }

    spec fn as_map(self) -> Map<usize, Point>
        decreases self,
    {
        Node::map_of(self.left).union_prefer_right(Node::map_of(self.right)).insert(self.id, self.point)
    }

    spec fn wf_opt(opt: Option<Box<Node>>, d: int) -> bool
        decreases opt,
    {
        match opt {
            None => true,
            Some(n) => n.wf(d),
        }
    }

    spec fn wf(self, d: int) -> bool
        decreases self,
    {
        let l = Node::map_of(self.left);
        let r = Node::map_of(self.right);
        &&& 0 <= d < 3
        &&& forall|k: usize| #[trigger] l.dom().contains(k) ==> coord(l[k].point, d) < coord(self.point.point, d)
        &&& forall|k: usize| #[trigger] r.dom().contains(k) ==> coord(r[k].point, d) >= coord(self.point.point, d)
        &&& l.dom().disjoint(r.dom())
        &&& !l.dom().contains(self.id)
        &&& !r.dom().contains(self.id)
        &&& Node::wf_opt(self.left, next_dim(d))
        &&& Node::wf_opt(self.right, next_dim(d))
    }

    fn insert_node(node: &mut Option<Box<Node>>, d: usize, depth: usize, point: Point, id: usize)
        requires
            d < 3,
            Node::wf_opt(*old(node), d as int),
            !Node::map_of(*old(node)).dom().contains(id),
        ensures
            Node::wf_opt(*final(node), d as int),
            Node::map_of(*final(node)) == Node::map_of(*old(node)).insert(id, point),
        decreases *old(node),
    {
        match node.take() {
            None => {
                let leaf = Node { point, id, depth, left: None, right: None };
                assert(Node::map_of(leaf.left) =~= Map::<usize, Point>::empty());
                assert(Node::map_of(leaf.right) =~= Map::<usize, Point>::empty());
                assert(leaf.wf(d as int));
                *node = Some(Box::new(leaf));
                assert(Node::map_of(*node) =~= Map::<usize, Point>::empty().insert(id, point));
            },
            Some(mut b) => {
                let ghost old_b = *b;
                let nd: usize = if d == 2 {
                    0
                } else {
                    d + 1
                };
                let c = b.point.point.get(d);
                let pc = point.point.get(d);
                let child_depth = depth.saturating_add(1);
                let ghost l0 = Node::map_of(old_b.left);
                let ghost r0 = Node::map_of(old_b.right);
                assert(old_b.as_map() == l0.union_prefer_right(r0).insert(old_b.id, old_b.point));
                assert(id != old_b.id);
                if pc < c {
                    assert(!l0.dom().contains(id));
                    Node::insert_node(&mut b.left, nd, child_depth, point, id);
                    assert(Node::map_of(b.left) == l0.insert(id, point));
                    assert(!r0.dom().contains(id));
                    assert(Node::map_of(b.left).dom().disjoint(r0.dom()));
                    assert(b.wf(d as int));
                    assert(b.as_map() =~= old_b.as_map().insert(id, point));
                } else {
                    assert(!r0.dom().contains(id));
                    Node::insert_node(&mut b.right, nd, child_depth, point, id);
                    assert(Node::map_of(b.right) == r0.insert(id, point));
                    assert(!l0.dom().contains(id));
                    assert(l0.dom().disjoint(Node::map_of(b.right).dom()));
                    assert(b.wf(d as int));
                    assert(b.as_map() =~= old_b.as_map().insert(id, point));
                }
                *node = Some(b);
            },
        }
    }

    fn search_node(node: &Option<Box<Node>>, d: usize, t: &XYZ, radius: u32) -> (r: Vec<(Point, usize)>)
        requires
            d < 3,
            Node::wf_opt(*node, d as int),
        ensures
            pairs_exact(r@, Node::map_of(*node), *t, radius),
        decreases node,
    {
        match node {
            None => {
                let r: Vec<(Point, usize)> = Vec::new();
                assert(Node::map_of(*node) =~= Map::<usize, Point>::empty());
                r
            },
            Some(n) => {
                let nd: usize = if d == 2 {
                    0
                } else {
                    d + 1
                };
                let ghost m = Node::map_of(*node);
                let ghost l0 = Node::map_of(n.left);
                let ghost r0 = Node::map_of(n.right);
                assert(m == l0.union_prefer_right(r0).insert(n.id, n.point));
                let mut res: Vec<(Point, usize)> = Vec::new();
                let np = n.point.point;
                let tc = t.get(d) as i64;
                let c = np.get(d) as i64;
                let rr = radius as i64;
                let near_axes = (np.x as i64) >= (t.x as i64) - rr && (np.x as i64) <= (t.x as i64) + rr
                    && (np.y as i64) >= (t.y as i64) - rr && (np.y as i64) <= (t.y as i64) + rr
                    && (np.z as i64) >= (t.z as i64) - rr && (np.z as i64) <= (t.z as i64) + rr;
                if near_axes && t.is_within(&np, radius) {
                    res.push((n.point, n.id));
                }
                proof {
                    if !near_axes {
                        if (np.x as i64) < (t.x as i64) - rr || (np.x as i64) > (t.x as i64) + rr {
                            lemma_far_on_axis(*t, np, 0, radius);
                        } else if (np.y as i64) < (t.y as i64) - rr || (np.y as i64) > (t.y as i64) + rr {
                            lemma_far_on_axis(*t, np, 1, radius);
                        } else {
                            lemma_far_on_axis(*t, np, 2, radius);
                        }
                    }
                }
                let ghost s0 = res@;
                assert(s0 =~= (if within(*t, np, radius) { seq![(n.point, n.id)] } else { Seq::empty() }));
                let mut lres: Vec<(Point, usize)> = Vec::new();
                if tc - rr <= c {
                    lres = Node::search_node(&n.left, nd, t, radius);
                } else {
                    assert forall|k: usize| #[trigger] l0.dom().contains(k) implies !within(*t, l0[k].point, radius) by {
                        lemma_far_on_axis(*t, l0[k].point, d as int, radius);
                    }
                }
                let mut rres: Vec<(Point, usize)> = Vec::new();
                if tc + rr >= c {
                    rres = Node::search_node(&n.right, nd, t, radius);
                } else {
                    assert forall|k: usize| #[trigger] r0.dom().contains(k) implies !within(*t, r0[k].point, radius) by {
                        lemma_far_on_axis(*t, r0[k].point, d as int, radius);
                    }
                }
                let ghost ls = lres@;
                let ghost rs = rres@;
                assert(pairs_exact(ls, l0, *t, radius));
                assert(pairs_exact(rs, r0, *t, radius));
                res.append(&mut lres);
                res.append(&mut rres);
                proof {
                    lemma_combine(s0, ls, rs, l0, r0, n.id, n.point, *t, radius);
                    assert(res@ =~= s0 + ls + rs);
                }
                res
            },
        }
    }
}

/// A k-d tree over 3-D points, each stored under an id.
pub struct KdTree {
    n_dim: usize,
    root: Option<Box<Node>>,
}

impl View for KdTree {
    type V = Map<usize, Point>;

    closed spec fn view(&self) -> Map<usize, Point> {
        Node::map_of(self.root)
    }
}

impl KdTree {
    /// The tree's ordering invariant holds.
    pub closed spec fn wf(&self) -> bool {
        self.n_dim == 3 && Node::wf_opt(self.root, 0)
    }

    /// An empty tree.
    pub fn new() -> (t: KdTree)
        ensures
            t.wf(),
            t@ == Map::<usize, Point>::empty(),
    {
        KdTree { n_dim: 3, root: None }
    }

    /// Stores `point` under `id`, a new leaf where the descent by split
    /// dimensions ends.
    pub fn insert(&mut self, point: Point, id: usize)
        requires
            old(self).wf(),
            !old(self)@.dom().contains(id),
        ensures
            final(self).wf(),
            final(self)@ == old(self)@.insert(id, point),
    {
        Node::insert_node(&mut self.root, 0, 0, point, id);
    }

    /// Stores each point under its position in `points`.
    pub fn load(&mut self, points: &Vec<Point>)
        requires
            old(self).wf(),
            forall|i: usize| i < points@.len() ==> !old(self)@.dom().contains(i),
        ensures
            final(self).wf(),
            final(self)@ == old(self)@.union_prefer_right(index_map(points@)),
    {
        let mut i: usize = 0;
        while i < points.len()
            invariant
                self.wf(),
                i <= points@.len(),
                forall|j: usize| i <= j < points@.len() ==> !self@.dom().contains(j),
                self@ == old(self)@.union_prefer_right(index_map(points@.subrange(0, i as int))),
            decreases points@.len() - i,
        {
            let ghost before = self@;
            self.insert(points[i], i);
            proof {
                assert(self@ =~= old(self)@.union_prefer_right(index_map(points@.subrange(0, i as int + 1))));
            }
            i += 1;
        }
        proof {
            assert(points@.subrange(0, i as int) =~= points@);
        }
    }

    /// A tree holding each point of `points` under its position.
    pub fn from_points(points: &Vec<Point>) -> (t: KdTree)
        ensures
            t.wf(),
            t@ == index_map(points@),
    {
        let mut t = KdTree::new();
        t.load(points);
        assert(t@ =~= index_map(points@));
        t
    }

    /// The stored points within Euclidean distance `radius` of `target`
    /// (boundary included), each with its id, each once.
    pub fn search_pairs(&self, target: &XYZ, radius: u32) -> (r: Vec<(Point, usize)>)
        requires
            self.wf(),
        ensures
            pairs_exact(r@, self@, *target, radius),
    {
        Node::search_node(&self.root, 0, target, radius)
    }

    /// The stored points within Euclidean distance `radius` of `target`
    /// (boundary included), one for each id.
    pub fn search(&self, target: &Point, radius: u32) -> (r: Vec<Point>)
        requires
            self.wf(),
        ensures
            exists|s: Seq<(Point, usize)>|
                #[trigger] pairs_exact(s, self@, target.point, radius) && r@ == s.map_values(
                    |e: (Point, usize)| e.0,
                ),
    {
        let pairs = self.search_pairs(&target.point, radius);
        let mut out: Vec<Point> = Vec::new();
        let mut k: usize = 0;
        while k < pairs.len()
            invariant
                k <= pairs@.len(),
                out@ == pairs@.subrange(0, k as int).map_values(|e: (Point, usize)| e.0),
            decreases pairs@.len() - k,
        {
            out.push(pairs[k].0);
            k += 1;
            assert(out@ =~= pairs@.subrange(0, k as int).map_values(|e: (Point, usize)| e.0));
        }
        assert(pairs@.subrange(0, k as int) =~= pairs@);
        assert(pairs_exact(pairs@, self@, target.point, radius));
        out
    }

    /// The ids of the stored points within Euclidean distance `radius` of
    /// `target` (boundary included), each once.
    pub fn search_ids(&self, target: &Point, radius: u32) -> (r: Vec<usize>)
        requires
            self.wf(),
        ensures
            exists|s: Seq<(Point, usize)>|
                #[trigger] pairs_exact(s, self@, target.point, radius) && r@ == s.map_values(
                    |e: (Point, usize)| e.1,
                ),
    {
        let pairs = self.search_pairs(&target.point, radius);
        let mut out: Vec<usize> = Vec::new();
        let mut k: usize = 0;
        while k < pairs.len()
            invariant
                k <= pairs@.len(),
                out@ == pairs@.subrange(0, k as int).map_values(|e: (Point, usize)| e.1),
            decreases pairs@.len() - k,
        {
            out.push(pairs[k].1);
            k += 1;
            assert(out@ =~= pairs@.subrange(0, k as int).map_values(|e: (Point, usize)| e.1));
        }
        assert(pairs@.subrange(0, k as int) =~= pairs@);
        assert(pairs_exact(pairs@, self@, target.point, radius));
        out
    }
}

} // verus!
