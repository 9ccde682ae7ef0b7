//! A k-d tree over a snapshot of a two-dimensional point cloud, answering
//! radius queries.
//!
//! Each split node owns a pivot point (copied from the cloud by value), the
//! axis it splits on (alternating with depth), and two subtrees; points are
//! tracked by their index into the source cloud, so query results report
//! caller-facing indices. Ties along an axis are broken by index, which makes
//! the partition a strict total order and the build deterministic. A radius
//! query returns exactly the indices a brute-force distance filter would,
//! pruning any subtree whose splitting plane lies farther from the center
//! than the radius.

use crate::fixed::COORD_LIMIT;
use vstd::prelude::*;

verus! {

#[derive(Clone, Copy, Debug, PartialEq, Eq, Structural)]
pub struct Grid2D {
    pub x: i64,
    pub y: i64,
}

impl Grid2D {
    pub fn new(x_: i64, y_: i64) -> (r: Self)
        ensures
            r.x == x_,
            r.y == y_,
    {
        Grid2D { x: x_, y: y_ }
    }

    /// Both coordinates lie in the band the fixed-point model covers.
    pub open spec fn in_range(&self) -> bool {
        &&& -COORD_LIMIT <= self.x <= COORD_LIMIT
        &&& -COORD_LIMIT <= self.y <= COORD_LIMIT
    }
}

/// Exact squared Euclidean distance between two points.
pub open spec fn dist_sq(p: Grid2D, q: Grid2D) -> int {
    (p.x - q.x) * (p.x - q.x) + (p.y - q.y) * (p.y - q.y)
}

/// The coordinate of `p` along a splitting axis (`0` is x, `1` is y).
pub open spec fn axis_coord(p: Grid2D, axis: usize) -> int {
    if axis == 0 {
        p.x as int
    } else {
        p.y as int
    }
}

/// The strict order points are partitioned by: coordinate first, index as the
/// tie-breaker.
pub open spec fn lex_before(c1: int, i1: int, c2: int, i2: int) -> bool {
    c1 < c2 || (c1 == c2 && i1 < i2)
}

/// An ordered cloud of points; the position of a point in the vector is its
/// identity, which neighbor lists and patches refer to.
#[derive(Clone, Debug)]
pub struct Points2D {
    pub points: Vec<Grid2D>,
}

impl Points2D {
    /// Every stored point lies in the coordinate band.
    pub open spec fn wf(&self) -> bool {
        forall|k: int|
            0 <= k < self.points@.len() ==> (#[trigger] self.points@[k]).in_range()
    }

    pub fn new() -> (r: Self)
        ensures
            r.wf(),
            r.points@.len() == 0,
    {
        Points2D { points: Vec::new() }
    }

    /// Appends a point; identities of the points already stored are kept.
    pub fn push(&mut self, x: i64, y: i64)
        requires
            old(self).wf(),
            -COORD_LIMIT <= x <= COORD_LIMIT,
            -COORD_LIMIT <= y <= COORD_LIMIT,
        ensures
            final(self).wf(),
            final(self).points@ == old(self).points@.push((Grid2D { x: x, y: y })),
    {
        self.points.push(Grid2D::new(x, y));
    }
}

/// One partition node or an empty subtree.
pub enum KDNode {
    Leaf,
    Split {
        axis: usize,
        index: usize,
        point: Grid2D,
        left: Box<KDNode>,
        right: Box<KDNode>,
    },
}

/// Whether cloud index `i` is stored somewhere in the subtree.
pub open spec fn in_tree(t: KDNode, i: int) -> bool
    decreases t,
{
    match t {
        KDNode::Leaf => false,
        KDNode::Split { index, left, right, .. } => {
            i == index || in_tree(*left, i) || in_tree(*right, i)
        },
    }
}

/// Structural soundness of a subtree against the cloud snapshot it was built
/// from: every node stores a valid index and the point at that index, each
/// index occurs once, and the two subtrees lie strictly on either side of the
/// pivot in the tie-broken axis order.
pub open spec fn node_wf(t: KDNode, cloud: Seq<Grid2D>) -> bool
    decreases t,
{
    match t {
        KDNode::Leaf => true,
        KDNode::Split { axis, index, point, left, right } => {
            &&& axis < 2
            &&& index < cloud.len()
            &&& cloud[index as int] == point
            &&& node_wf(*left, cloud)
            &&& node_wf(*right, cloud)
            &&& forall|j: int|
                #[trigger] in_tree(*left, j) ==> lex_before(
                    axis_coord(cloud[j], axis),
                    j,
                    axis_coord(point, axis),
                    index as int,
                )
            &&& forall|j: int|
                #[trigger] in_tree(*right, j) ==> lex_before(
                    axis_coord(point, axis),
                    index as int,
                    axis_coord(cloud[j], axis),
                    j,
                )
            &&& forall|j: int| !(#[trigger] in_tree(*left, j) && in_tree(*right, j))
            &&& !in_tree(*left, index as int)
            &&& !in_tree(*right, index as int)
        },
    }
}

/// The splitting axis alternates with depth, starting from `axis` at the
/// root of the subtree.
pub open spec fn alternates(t: KDNode, axis: usize) -> bool
    decreases t,
{
    match t {
        KDNode::Leaf => true,
        KDNode::Split { axis: a, left, right, .. } => {
            &&& a == axis
            &&& alternates(*left, (1 - axis) as usize)
            &&& alternates(*right, (1 - axis) as usize)
        },
    }
}

/// Every index stored in a well-formed subtree is a valid cloud index.
proof fn lemma_tree_keys_valid(t: KDNode, cloud: Seq<Grid2D>)
    requires
        node_wf(t, cloud),
    ensures
        forall|j: int| #[trigger] in_tree(t, j) ==> 0 <= j < cloud.len(),
    decreases t,
{
    match t {
        KDNode::Leaf => {
            assert forall|j: int| #[trigger] in_tree(t, j) implies 0 <= j < cloud.len() by {
                assert(!in_tree(t, j));
            }
        },
        KDNode::Split { index, left, right, .. } => {
            lemma_tree_keys_valid(*left, cloud);
            lemma_tree_keys_valid(*right, cloud);
            assert forall|j: int| #[trigger] in_tree(t, j) implies 0 <= j < cloud.len() by {
                assert(j == index || in_tree(*left, j) || in_tree(*right, j));
            }
        },
    }
}

/// A point farther than `r` from the center along one axis is farther than
/// `r` in Euclidean distance.
proof fn lemma_axis_prune(p: Grid2D, c: Grid2D, axis: usize, r: int)
    requires
        r >= 0,
        axis_coord(p, axis) - axis_coord(c, axis) > r
            || axis_coord(c, axis) - axis_coord(p, axis) > r,
    ensures
        dist_sq(p, c) > r * r,
{
    let dx = p.x - c.x;
    let dy = p.y - c.y;
    if axis == 0 {
        assert(dx * dx + dy * dy > r * r) by (nonlinear_arith)
            requires
                r >= 0,
                dx > r || -dx > r,
        ;
    } else {
        assert(dx * dx + dy * dy > r * r) by (nonlinear_arith)
            requires
                r >= 0,
                dy > r || -dy > r,
        ;
    }
}

/// Exact squared distance, computed wide.
fn dist_sq_i128(p: &Grid2D, q: &Grid2D) -> (d: i128)
    requires
        p.in_range(),
        q.in_range(),
    ensures
        d == dist_sq(*p, *q),
        0 <= d,
{
    let dx: i128 = (p.x as i128) - (q.x as i128);
    let dy: i128 = (p.y as i128) - (q.y as i128);
    assert({
        &&& 0 <= dx * dx <= 0x4_0000_0000
        &&& 0 <= dy * dy <= 0x4_0000_0000
    }) by (nonlinear_arith)
        requires
            -0x8000 <= dx <= 0x8000,
            -0x8000 <= dy <= 0x8000,
    ;
    dx * dx + dy * dy
}

/// The coordinate of a point along the given axis.
fn coord_along(p: &Grid2D, axis: usize) -> (c: i64)
    ensures
        c == axis_coord(*p, axis),
{
    if axis == 0 {
        p.x
    } else {
        p.y
    }
}

/// Builds one subtree over the given cloud indices, splitting on `axis` at
/// the top; the first index is the pivot and the rest are partitioned by the
/// tie-broken axis order.
fn build_node(pts: &Vec<Grid2D>, idxs: Vec<usize>, axis: usize) -> (t: KDNode)
    requires
        axis < 2,
        forall|k: int| 0 <= k < idxs@.len() ==> #[trigger] idxs@[k] < pts@.len(),
        forall|k1: int, k2: int|
            0 <= k1 < k2 < idxs@.len() ==> idxs@[k1] != idxs@[k2],
    ensures
        node_wf(t, pts@),
        alternates(t, axis),
        forall|i: int|
            #[trigger] in_tree(t, i) <==> (exists|k: int|
                0 <= k < idxs@.len() && #[trigger] idxs@[k] == i),
    decreases idxs@.len(),
{
    if idxs.len() == 0 {
        return KDNode::Leaf;
    }
    let pivot: usize = idxs[0];
    let pivot_pt: Grid2D = pts[pivot];
    let pc: i64 = coord_along(&pivot_pt, axis);
    let mut left_idx: Vec<usize> = Vec::new();
    let mut right_idx: Vec<usize> = Vec::new();
    let mut k: usize = 1;
    while k < idxs.len()
        invariant
            1 <= k <= idxs@.len(),
            axis < 2,
            pivot == idxs@[0],
            pivot < pts@.len(),
            pivot_pt == pts@[pivot as int],
            pc == axis_coord(pivot_pt, axis),
            forall|m: int| 0 <= m < idxs@.len() ==> #[trigger] idxs@[m] < pts@.len(),
            forall|m1: int, m2: int|
                0 <= m1 < m2 < idxs@.len() ==> idxs@[m1] != idxs@[m2],
            forall|m: int| 0 <= m < left_idx@.len() ==> #[trigger] left_idx@[m] < pts@.len(),
            forall|m: int| 0 <= m < right_idx@.len() ==> #[trigger] right_idx@[m] < pts@.len(),
            left_idx@.len() + right_idx@.len() == k - 1,
            // every held index came from positions 1..k
            forall|m: int|
                0 <= m < left_idx@.len() ==> (exists|m2: int|
                    1 <= m2 < k && idxs@[m2] == #[trigger] left_idx@[m]),
            forall|m: int|
                0 <= m < right_idx@.len() ==> (exists|m2: int|
                    1 <= m2 < k && idxs@[m2] == #[trigger] right_idx@[m]),
            // and each position seen so far went to one side
            forall|m: int|
                1 <= m < k ==> ((exists|m2: int|
                    0 <= m2 < left_idx@.len() && left_idx@[m2] == #[trigger] idxs@[m])
                    || (exists|m2: int|
                    0 <= m2 < right_idx@.len() && right_idx@[m2] == idxs@[m])),
            // no duplicates within either side
            forall|m1: int, m2: int|
                0 <= m1 < m2 < left_idx@.len() ==> left_idx@[m1] != left_idx@[m2],
            forall|m1: int, m2: int|
                0 <= m1 < m2 < right_idx@.len() ==> right_idx@[m1] != right_idx@[m2],
            // the two sides are disjoint and neither holds the pivot
            forall|m1: int, m2: int|
                0 <= m1 < left_idx@.len() && 0 <= m2 < right_idx@.len()
                    ==> left_idx@[m1] != right_idx@[m2],
            forall|m: int| 0 <= m < left_idx@.len() ==> #[trigger] left_idx@[m] != pivot,
            forall|m: int| 0 <= m < right_idx@.len() ==> #[trigger] right_idx@[m] != pivot,
            // ordering against the pivot
            forall|m: int|
                0 <= m < left_idx@.len() ==> lex_before(
                    axis_coord(pts@[#[trigger] left_idx@[m] as int], axis),
                    left_idx@[m] as int,
                    axis_coord(pivot_pt, axis),
                    pivot as int,
                ),
            forall|m: int|
                0 <= m < right_idx@.len() ==> lex_before(
                    axis_coord(pivot_pt, axis),
                    pivot as int,
                    axis_coord(pts@[#[trigger] right_idx@[m] as int], axis),
                    right_idx@[m] as int,
                ),
        decreases idxs@.len() - k,
    {
        let v: usize = idxs[k];
        let vc: i64 = coord_along(&pts[v], axis);
        assert(v != pivot);
        proof {
            assert forall|m: int| 0 <= m < left_idx@.len() implies left_idx@[m] != v by {
                let m2 = choose|m2: int| 1 <= m2 < k && idxs@[m2] == #[trigger] left_idx@[m];
                assert(idxs@[m2] != idxs@[k as int]);
            }
            assert forall|m: int| 0 <= m < right_idx@.len() implies right_idx@[m] != v by {
                let m2 = choose|m2: int| 1 <= m2 < k && idxs@[m2] == #[trigger] right_idx@[m];
                assert(idxs@[m2] != idxs@[k as int]);
            }
        }
        let ghost lold = left_idx@;
        let ghost rold = right_idx@;
        if vc < pc || (vc == pc && v < pivot) {
            left_idx.push(v);
        } else {
            right_idx.push(v);
        }
        proof {
            assert(idxs@[k as int] == v);
            assert forall|m: int|
                1 <= m < k + 1 implies ((exists|m2: int|
                0 <= m2 < left_idx@.len() && left_idx@[m2] == #[trigger] idxs@[m])
                || (exists|m2: int|
                0 <= m2 < right_idx@.len() && right_idx@[m2] == idxs@[m])) by {
                if m == k {
                    if left_idx@.len() > lold.len() {
                        assert(left_idx@[lold.len() as int] == idxs@[m]);
                    } else {
                        assert(right_idx@[rold.len() as int] == idxs@[m]);
                    }
                } else {
                    if exists|m2: int| 0 <= m2 < lold.len() && lold[m2] == idxs@[m] {
                        let m2 = choose|m2: int| 0 <= m2 < lold.len() && lold[m2] == idxs@[m];
                        assert(left_idx@[m2] == idxs@[m]);
                    } else {
                        let m2 = choose|m2: int| 0 <= m2 < rold.len() && rold[m2] == idxs@[m];
                        assert(right_idx@[m2] == idxs@[m]);
                    }
                }
            }
        }
        k = k + 1;
    }
    let ghost left_snap = left_idx@;
    let ghost right_snap = right_idx@;
    let lt = build_node(pts, left_idx, 1 - axis);
    let rt = build_node(pts, right_idx, 1 - axis);
    let t = KDNode::Split {
        axis,
        index: pivot,
        point: pivot_pt,
        left: Box::new(lt),
        right: Box::new(rt),
    };
    proof {
        assert forall|j: int| #[trigger] in_tree(lt, j) implies lex_before(
            axis_coord(pts@[j], axis),
            j,
            axis_coord(pivot_pt, axis),
            pivot as int,
        ) by {
            let m = choose|m: int| 0 <= m < left_snap.len() && #[trigger] left_snap[m] == j;
        }
        assert forall|j: int| #[trigger] in_tree(rt, j) implies lex_before(
            axis_coord(pivot_pt, axis),
            pivot as int,
            axis_coord(pts@[j], axis),
            j,
        ) by {
            let m = choose|m: int| 0 <= m < right_snap.len() && #[trigger] right_snap[m] == j;
        }
        assert forall|j: int| !(#[trigger] in_tree(lt, j) && in_tree(rt, j)) by {
            if in_tree(lt, j) && in_tree(rt, j) {
                let m1 = choose|m: int| 0 <= m < left_snap.len() && #[trigger] left_snap[m] == j;
                let m2 = choose|m: int|
                    0 <= m < right_snap.len() && #[trigger] right_snap[m] == j;
                assert(left_snap[m1] != right_snap[m2]);
            }
        }
        assert(!in_tree(lt, pivot as int)) by {
            if in_tree(lt, pivot as int) {
                let m = choose|m: int|
                    0 <= m < left_snap.len() && #[trigger] left_snap[m] == pivot as int;
                assert(left_snap[m] != pivot);
            }
        }
        assert(!in_tree(rt, pivot as int)) by {
            if in_tree(rt, pivot as int) {
                let m = choose|m: int|
                    0 <= m < right_snap.len() && #[trigger] right_snap[m] == pivot as int;
                assert(right_snap[m] != pivot);
            }
        }
        assert forall|i: int|
            #[trigger] in_tree(t, i) <==> (exists|k2: int|
                0 <= k2 < idxs@.len() && #[trigger] idxs@[k2] == i) by {
            if in_tree(t, i) {
                if i == pivot as int {
                    assert(idxs@[0] == i);
                } else if in_tree(lt, i) {
                    let m = choose|m: int|
                        0 <= m < left_snap.len() && #[trigger] left_snap[m] == i;
                    let m2 = choose|m2: int|
                        1 <= m2 < idxs@.len() && idxs@[m2] == #[trigger] left_snap[m];
                    assert(idxs@[m2] == i);
                } else {
                    assert(i == pivot as int || in_tree(lt, i) || in_tree(rt, i));
                    assert(in_tree(rt, i));
                    let m = choose|m: int|
                        0 <= m < right_snap.len() && #[trigger] right_snap[m] == i;
                    let m2 = choose|m2: int|
                        1 <= m2 < idxs@.len() && idxs@[m2] == #[trigger] right_snap[m];
                    assert(idxs@[m2] == i);
                }
            }
            if exists|k2: int| 0 <= k2 < idxs@.len() && #[trigger] idxs@[k2] == i {
                let k2 = choose|k2: int| 0 <= k2 < idxs@.len() && #[trigger] idxs@[k2] == i;
                if k2 == 0 {
                    assert(i == pivot as int);
                } else {
                    if exists|m2: int|
                        0 <= m2 < left_snap.len() && left_snap[m2] == #[trigger] idxs@[k2] {
                        let m2 = choose|m2: int|
                            0 <= m2 < left_snap.len() && left_snap[m2] == #[trigger] idxs@[k2];
                        assert(left_snap[m2] == i);
                        assert(in_tree(lt, i));
                    } else {
                        let m2 = choose|m2: int|
                            0 <= m2 < right_snap.len() && right_snap[m2] == #[trigger] idxs@[k2];
                        assert(right_snap[m2] == i);
                        assert(in_tree(rt, i));
                    }
                }
            }
        }
    }
    t
}

/// A balanced-partition index over one frozen snapshot of a point cloud.
pub struct KDTree {
    pub root: KDNode,
    pub cloud: Ghost<Seq<Grid2D>>,
}

impl KDTree {
    /// The tree indexes exactly the points of its cloud snapshot, all of
    /// which lie in the coordinate band, and its axes alternate from x down.
    pub open spec fn wf(&self) -> bool {
        &&& node_wf(self.root, self.cloud@)
        &&& alternates(self.root, 0)
        &&& forall|k: int| 0 <= k < self.cloud@.len() ==> (#[trigger] self.cloud@[k]).in_range()
        &&& forall|i: int| #[trigger] in_tree(self.root, i) <==> 0 <= i < self.cloud@.len()
    }

    /// Builds the partition tree over a snapshot of the given cloud. The
    /// cloud must not be reordered afterwards while the tree is in use: the
    /// tree answers queries about this snapshot.
    pub fn construct_kd_tree(grid: &Points2D) -> (t: KDTree)
        requires
            grid.wf(),
        ensures
            t.wf(),
            t.cloud@ == grid.points@,
    {
        let n = grid.points.len();
        let mut idxs: Vec<usize> = Vec::new();
        let mut i: usize = 0;
        while i < n
            invariant
                i <= n,
                idxs@.len() == i,
                forall|k: int| 0 <= k < i ==> #[trigger] idxs@[k] == k,
            decreases n - i,
        {
            idxs.push(i);
            i = i + 1;
        }
        let root = build_node(&grid.points, idxs, 0);
        proof {
            let ghost cloud = grid.points@;
            assert forall|i: int| #[trigger] in_tree(root, i) <==> 0 <= i < cloud.len() by {
                if in_tree(root, i) {
                    let k = choose|k: int| 0 <= k < n && #[trigger] idxs@[k] == i;
                    assert(idxs@[k] == k);
                }
                if 0 <= i < cloud.len() {
                    assert(idxs@[i] == i);
                }
            }
        }
        KDTree { root, cloud: Ghost(grid.points@) }
    }

    /// Radius query: exactly the indices of cloud points within Euclidean
    /// distance `radius` of `vec`, with no duplicates; subtrees whose
    /// splitting plane lies farther than `radius` from `vec` are pruned.
    pub fn neighbor_search(&self, vec: &Grid2D, radius: i64) -> (res: Vec<usize>)
        requires
            self.wf(),
            vec.in_range(),
            radius >= 0,
        ensures
            forall|k: int|
                0 <= k < res@.len() ==> #[trigger] res@[k] < self.cloud@.len()
                    && dist_sq(self.cloud@[res@[k] as int], *vec) <= radius * radius,
            forall|i: int|
                0 <= i < self.cloud@.len() && dist_sq(#[trigger] self.cloud@[i], *vec)
                    <= radius * radius ==> (exists|k: int|
                    0 <= k < res@.len() && #[trigger] res@[k] == i),
            forall|k1: int, k2: int| 0 <= k1 < k2 < res@.len() ==> res@[k1] != res@[k2],
    {
        let mut res: Vec<usize> = Vec::new();
        search_node(&self.root, Ghost(self.cloud@), vec, radius, &mut res);
        proof {
            lemma_tree_keys_valid(self.root, self.cloud@);
            assert forall|i: int|
                0 <= i < self.cloud@.len() && dist_sq(#[trigger] self.cloud@[i], *vec)
                    <= radius * radius implies (exists|k: int|
                0 <= k < res@.len() && #[trigger] res@[k] == i) by {
                assert(in_tree(self.root, i));
                let k = choose|k: int| 0 <= k < res@.len() && #[trigger] res@[k] == i;
            }
        }
        res
    }
}

/// Walks one subtree, appending every stored index whose point lies within
/// the radius; prunes a side when the splitting plane is farther than the
/// radius from the center.
fn search_node(
    t: &KDNode,
    cloud: Ghost<Seq<Grid2D>>,
    center: &Grid2D,
    radius: i64,
    out: &mut Vec<usize>,
)
    requires
        node_wf(*t, cloud@),
        forall|k: int| 0 <= k < cloud@.len() ==> (#[trigger] cloud@[k]).in_range(),
        center.in_range(),
        radius >= 0,
        forall|k: int| 0 <= k < old(out)@.len() ==> !in_tree(*t, #[trigger] old(out)@[k] as int),
        forall|k1: int, k2: int|
            0 <= k1 < k2 < old(out)@.len() ==> old(out)@[k1] != old(out)@[k2],
    ensures
        final(out)@.len() >= old(out)@.len(),
        final(out)@.subrange(0, old(out)@.len() as int) == old(out)@,
        forall|k: int|
            old(out)@.len() <= k < final(out)@.len() ==> in_tree(
                *t,
                #[trigger] final(out)@[k] as int,
            ) && dist_sq(cloud@[final(out)@[k] as int], *center) <= radius * radius,
        forall|i: int|
            #[trigger] in_tree(*t, i) && dist_sq(cloud@[i], *center) <= radius * radius
                ==> (exists|k: int|
                old(out)@.len() <= k < final(out)@.len() && #[trigger] final(out)@[k] == i),
        forall|k1: int, k2: int|
            0 <= k1 < k2 < final(out)@.len() ==> final(out)@[k1] != final(out)@[k2],
    decreases *t,
{
    let ghost s0 = out@;
    match t {
        KDNode::Leaf => {
            proof {
                assert(out@.subrange(0, s0.len() as int) =~= s0);
                assert forall|i: int| !#[trigger] in_tree(*t, i) by {}
            }
        },
        KDNode::Split { axis, index, point, left, right } => {
            proof {
                lemma_tree_keys_valid(*t, cloud@);
                assert((radius as i128) * (radius as i128) == (radius as int) * (radius as int)
            && 0 <= (radius as i128) * (radius as i128) < 0x8000_0000_0000_0000_0000_0000_0000_0000)
                    by (nonlinear_arith)
                    requires
                        0 <= radius < 0x8000_0000_0000_0000,
                ;
            }
            let rr: i128 = (radius as i128) * (radius as i128);
            let d2 = dist_sq_i128(point, center);
            if d2 <= rr {
                out.push(*index);
            }
            let ghost mid = out@;
            let ghost pushed = mid.len() > s0.len();
            proof {
                // what the first stage did
                assert(mid.subrange(0, s0.len() as int) =~= s0);
                if pushed {
                    assert(mid[s0.len() as int] == index);
                }
                // the accumulator is still disjoint from the left subtree and
                // duplicate-free
                assert forall|q: int|
                    0 <= q < mid.len() implies !in_tree(**left, #[trigger] mid[q] as int) by {
                    if q < s0.len() {
                        assert(!in_tree(*t, s0[q] as int));
                    } else {
                        assert(mid[q] == index);
                    }
                }
                assert forall|q1: int, q2: int|
                    0 <= q1 < q2 < mid.len() implies mid[q1] != mid[q2] by {
                    if q2 == s0.len() {
                        assert(!in_tree(*t, s0[q1] as int));
                        assert(mid[q2] == index);
                        assert(in_tree(*t, index as int));
                    }
                }
            }
            let ca: i64 = coord_along(center, *axis);
            let pa: i64 = coord_along(point, *axis);
            let explore_left: bool = (ca as i128) - (radius as i128) <= (pa as i128);
            let explore_right: bool = (ca as i128) + (radius as i128) >= (pa as i128);
            if explore_left {
                search_node(left, cloud, center, radius, out);
            } else {
                proof {
                    assert forall|j: int|
                        #[trigger] in_tree(**left, j) implies dist_sq(cloud@[j], *center)
                        > radius * radius by {
                        lemma_tree_keys_valid(**left, cloud@);
                        lemma_axis_prune(cloud@[j], *center, *axis, radius as int);
                    }
                }
            }
            let ghost after_left = out@;
            proof {
                assert(after_left.subrange(0, mid.len() as int) =~= mid);
                // disjointness and distinctness carry to the right subtree
                assert forall|q: int|
                    0 <= q < after_left.len() implies !in_tree(
                    **right,
                    #[trigger] after_left[q] as int,
                ) by {
                    if q < s0.len() {
                        assert(after_left[q] == mid[q] && mid[q] == s0[q]);
                        assert(!in_tree(*t, s0[q] as int));
                    } else if q < mid.len() {
                        assert(after_left[q] == mid[q] && mid[q] == index);
                    } else {
                        assert(in_tree(**left, after_left[q] as int));
                    }
                }
            }
            if explore_right {
                search_node(right, cloud, center, radius, out);
            } else {
                proof {
                    assert forall|j: int|
                        #[trigger] in_tree(**right, j) implies dist_sq(cloud@[j], *center)
                        > radius * radius by {
                        lemma_tree_keys_valid(**right, cloud@);
                        lemma_axis_prune(cloud@[j], *center, *axis, radius as int);
                    }
                }
            }
            proof {
                let fin = out@;
                assert(fin.subrange(0, after_left.len() as int) =~= after_left);
                // the old prefix is untouched
                assert forall|q: int| 0 <= q < s0.len() implies fin[q] == s0[q] by {
                    assert(fin[q] == after_left[q]);
                    assert(after_left[q] == mid[q]);
                }
                assert(fin.subrange(0, s0.len() as int) =~= s0);
                // every appended index is in the subtree and within the radius
                assert forall|k: int|
                    s0.len() <= k < fin.len() implies in_tree(*t, #[trigger] fin[k] as int)
                    && dist_sq(cloud@[fin[k] as int], *center) <= radius * radius by {
                    if k < mid.len() {
                        assert(fin[k] == after_left[k] && after_left[k] == mid[k]);
                        assert(mid[k] == index);
                        assert(dist_sq(cloud@[index as int], *center) <= radius * radius);
                    } else if k < after_left.len() {
                        assert(fin[k] == after_left[k]);
                        assert(in_tree(**left, after_left[k] as int));
                    } else {
                        assert(in_tree(**right, fin[k] as int));
                    }
                }
                // every in-radius index of the subtree was appended
                assert forall|i: int|
                    #[trigger] in_tree(*t, i) && dist_sq(cloud@[i], *center) <= radius * radius
                    implies (exists|k: int|
                    s0.len() <= k < fin.len() && #[trigger] fin[k] == i) by {
                    if i == index as int {
                        assert(pushed);
                        assert(fin[s0.len() as int] == after_left[s0.len() as int]);
                        assert(after_left[s0.len() as int] == mid[s0.len() as int]);
                        assert(fin[s0.len() as int] == i);
                    } else if in_tree(**left, i) {
                        let k = choose|k: int|
                            mid.len() <= k < after_left.len() && #[trigger] after_left[k] == i;
                        assert(fin[k] == after_left[k]);
                        assert(fin[k] == i);
                    } else {
                        assert(in_tree(**right, i));
                        let k = choose|k: int|
                            after_left.len() <= k < fin.len() && #[trigger] fin[k] == i;
                        assert(fin[k] == i);
                    }
                }
            }
        },
    }
}

} // verus!
