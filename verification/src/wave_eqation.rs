//! The field model: a fixed boundary ring around the unit disk, a relaxed
//! interior cloud, per-point scalar values, neighbor lists resolved through
//! the spatial index, and one local polynomial patch per interior point.
//!
//! The stages run strictly in order: build the clouds and relax, set the
//! initial values, resolve the boundary and interior neighborhoods, fit the
//! patches, and only then answer point queries. Every stage keeps the point
//! indices stable, so the parallel arrays (values, neighbor lists, patches)
//! all speak of the same interior cloud. Radius growth and fitting loops are
//! capped; running out is reported as an error, and the build fails fast on
//! the first failing point rather than keeping a partial model.

use crate::error::ModelError;
use crate::fixed::PI_SCALED;
use crate::fixed::SCALE;
use crate::fixed::circle_point;
use crate::fixed::div_trunc;
use crate::fixed::circle_point_spec;
use crate::fixed::clamp;
use crate::fixed::floor_sqrt;
use crate::fixed::exp_neg;
use crate::fixed::exp_neg_spec;
use crate::fixed::isqrt_u64;
use crate::fixed::lemma_div_band;
use crate::fixed::lemma_div_trunc_bound;
use crate::grid_3d::DT_INIT;
use crate::grid_3d::Grid3D;
use crate::grid_3d::descent;
use crate::grid_3d::potential_spec;
use crate::kd_tree::Grid2D;
use crate::kd_tree::KDTree;
use crate::kd_tree::Points2D;
use crate::kd_tree::dist_sq;
use crate::point::Point3;
use crate::two_variable_polynomial::MAX_DEGREE;
use crate::two_variable_polynomial::TwoPolynomial;
use crate::two_variable_polynomial::eval_mantissa;
use rand::Rng;
use vstd::prelude::*;

verus! {

/// Largest point-cloud size the model accepts.
pub const WAVE_CAP: usize = 1000000;

/// Largest boundary ring the model accepts at construction.
pub const RING_CAP: usize = 1000;

/// Band the relaxation forces are clamped into.
pub const FORCE_LIMIT: i64 = 0x100_0000_0000;

/// The relaxation step size at scale `SCALE * SCALE`.
pub const DT_RELAX: i64 = 16777;

/// Number of relaxation steps run at construction.
pub const RELAX_STEPS: usize = 1000;

/// Cap on rejection-sampling attempts when placing the interior cloud.
pub const SAMPLE_CAP: usize = 10000000;

/// Cap on radius-growth iterations of the adaptive searches.
pub const RADIUS_CAP: usize = 100000;

#[verifier::external_type_specification]
#[verifier::external_body]
pub struct ExStdRng(rand::rngs::StdRng);

/// Relies on rand's `Rng::gen_range` over a half-open integer range: the
/// result lies in the range; the call panics only on an empty range, which
/// the precondition rules out. Nothing more is assumed of the outcome.
#[verifier::external_body]
fn draw_in(rng: &mut rand::rngs::StdRng, lo: i64, hi: i64) -> (r: i64)
    requires
        lo < hi,
    ensures
        lo <= r < hi,
{
    rng.gen_range(lo..hi)
}

/// Strict containment in the open unit disk.
pub open spec fn in_disk(p: Grid2D) -> bool {
    (p.x as int) * (p.x as int) + (p.y as int) * (p.y as int) < (SCALE as int) * (SCALE as int)
}

/// The initial-condition value of a point: the radial Gaussian
/// `exp(-10 r^2)` in fixed point.
pub open spec fn gauss_of(p: Grid2D) -> int {
    exp_neg_spec(
        (10 * ((p.x as int) * (p.x as int) + (p.y as int) * (p.y as int))) / (SCALE as int),
    )
}

/// The fixed-point length scale of the repulsive potential:
/// `0.9 * 2^(-1/6) / sqrt(n)` over the interior count `n`.
pub open spec fn lj_sigma_spec(n: int) -> int {
    (3284 * SCALE) / floor_sqrt(n * SCALE * SCALE)
}

/// The distance mantissa of one pair, floored at one so that coincident
/// points draw the saturated force instead of dividing by zero.
pub open spec fn lj_rc_spec(dx: int, dy: int) -> int {
    let r = floor_sqrt(dx * dx + dy * dy);
    if r == 0 {
        1
    } else {
        r
    }
}

/// The ratio `sigma / r` in fixed point, saturated at sixteen units.
pub open spec fn lj_u_spec(sigma: int, rc: int) -> int {
    let u0 = (sigma * SCALE) / rc;
    if u0 > 65536 {
        65536
    } else {
        u0
    }
}

/// One force component of a pair: `48 u^12 d / r - 24 u^6 d / r`.
pub open spec fn lj_component_spec(u12: int, u6: int, d: int, rc: int) -> int {
    div_trunc(48 * u12 * d, rc) - div_trunc(24 * u6 * d, rc)
}

/// The full pairwise 12-6 term of a displacement `(dx, dy)`: the saturated
/// power chain of `sigma / r`, then both components.
pub open spec fn lj_term_spec(dx: int, dy: int, sigma: int) -> (int, int) {
    let rc = lj_rc_spec(dx, dy);
    let u = lj_u_spec(sigma, rc);
    let u2 = (u * u) / (SCALE as int);
    let u4 = (u2 * u2) / (SCALE as int);
    let u6 = (u4 * u2) / (SCALE as int);
    let u12 = (u6 * u6) / (SCALE as int);
    (lj_component_spec(u12, u6, dx, rc), lj_component_spec(u12, u6, dy, rc))
}

/// Sum of the pairwise terms against the first `j` interior points, the
/// point itself skipped.
pub open spec fn lj_interior_prefix(cloud: Seq<Grid2D>, index: int, sigma: int, j: int) -> (
    int,
    int,
)
    decreases j,
{
    if j <= 0 {
        (0, 0)
    } else {
        let prev = lj_interior_prefix(cloud, index, sigma, j - 1);
        if j - 1 == index {
            prev
        } else {
            let t = lj_term_spec(
                cloud[index].x - cloud[j - 1].x,
                cloud[index].y - cloud[j - 1].y,
                sigma,
            );
            (prev.0 + t.0, prev.1 + t.1)
        }
    }
}

/// Sum of the pairwise terms against the first `j` boundary points.
pub open spec fn lj_boundary_prefix(
    cloud: Seq<Grid2D>,
    bnd: Seq<Grid2D>,
    index: int,
    sigma: int,
    j: int,
) -> (int, int)
    decreases j,
{
    if j <= 0 {
        (0, 0)
    } else {
        let prev = lj_boundary_prefix(cloud, bnd, index, sigma, j - 1);
        let t = lj_term_spec(cloud[index].x - bnd[j - 1].x, cloud[index].y - bnd[j - 1].y, sigma);
        (prev.0 + t.0, prev.1 + t.1)
    }
}

/// The clamped total force on interior point `index`: every other interior
/// point and every boundary point repels it by the 12-6 term.
pub open spec fn lj_force(interior: Seq<Grid2D>, boundary: Seq<Grid2D>, index: int) -> (int, int) {
    let sigma = lj_sigma_spec(interior.len() as int);
    let fi = lj_interior_prefix(interior, index, sigma, interior.len() as int);
    let fb = lj_boundary_prefix(interior, boundary, index, sigma, boundary.len() as int);
    (clamp(fi.0 + fb.0, FORCE_LIMIT as int), clamp(fi.1 + fb.1, FORCE_LIMIT as int))
}

/// The reflect-until-inside fixpoint of the confinement rule: a point
/// outside the disk is replaced by `(-y/2, x/2)` until it re-enters.
pub open spec fn reflect_spec(x: int, y: int) -> (int, int)
    decreases x * x + y * y,
    via reflect_spec_dec
{
    if x * x + y * y < (SCALE as int) * (SCALE as int) {
        (x, y)
    } else {
        reflect_spec(-div_trunc(y, 2), div_trunc(x, 2))
    }
}

#[via_fn]
proof fn reflect_spec_dec(x: int, y: int) {
    if !(x * x + y * y < (SCALE as int) * (SCALE as int)) {
        lemma_halving_shrinks(x, y);
        let nx = -div_trunc(y, 2);
        let ny = div_trunc(x, 2);
        assert(nx * nx + ny * ny >= 0) by (nonlinear_arith);
    }
}

/// Where one relaxation step puts interior point `i`: displaced against the
/// summed force by the fixed step, then reflected back into the disk.
pub open spec fn relaxed_position(interior: Seq<Grid2D>, boundary: Seq<Grid2D>, i: int) -> (
    int,
    int,
) {
    let f = lj_force(interior, boundary, i);
    let dx = div_trunc(DT_RELAX * f.0, crate::grid_3d::DT_SCALE as int);
    let dy = div_trunc(DT_RELAX * f.1, crate::grid_3d::DT_SCALE as int);
    reflect_spec(interior[i].x - dx, interior[i].y - dy)
}

/// Whether value `k` occurs in the index list `s`.
pub open spec fn listed(s: Seq<usize>, k: int) -> bool {
    exists|m: int| 0 <= m < s.len() && #[trigger] s[m] == k
}

/// `list` holds exactly the cloud indices within `radius` of `center`,
/// without duplicates.
pub open spec fn exact_neighbors(
    list: Seq<usize>,
    cloud: Seq<Grid2D>,
    center: Grid2D,
    radius: int,
) -> bool {
    &&& forall|m: int|
        0 <= m < list.len() ==> #[trigger] list[m] < cloud.len() && dist_sq(
            cloud[list[m] as int],
            center,
        ) <= radius * radius
    &&& forall|i: int|
        0 <= i < cloud.len() && dist_sq(#[trigger] cloud[i], center) <= radius * radius
            ==> listed(list, i)
    &&& forall|m1: int, m2: int| 0 <= m1 < m2 < list.len() ==> list[m1] != list[m2]
}

/// Some cloud point lies within `radius` of `center`.
pub open spec fn has_within(cloud: Seq<Grid2D>, center: Grid2D, radius: int) -> bool {
    exists|i: int|
        0 <= i < cloud.len() && dist_sq(#[trigger] cloud[i], center) <= radius * radius
}

/// The starting radius of the adaptive searches, for a ring of `nb` points.
pub open spec fn base_radius(nb: int) -> int {
    (PI_SCALED as int) / nb
}

/// Their growth increment: a hundredth of the start, floored at one.
pub open spec fn radius_step(nb: int) -> int {
    if base_radius(nb) / 100 < 1 {
        1
    } else {
        base_radius(nb) / 100
    }
}

/// The radius after `m` growth steps.
pub open spec fn grown_radius(nb: int, m: int) -> int {
    base_radius(nb) + m * radius_step(nb)
}

/// The list settled at growth step `m` of the adaptive search: it is the
/// exact neighbor set at that radius, it beats the `need` threshold, and
/// the step before it (if any) did not.
pub open spec fn settled_at(
    list: Seq<usize>,
    cloud: Seq<Grid2D>,
    center: Grid2D,
    nb: int,
    need: int,
    m: int,
) -> bool {
    &&& 0 <= m
    &&& exact_neighbors(list, cloud, center, grown_radius(nb, m))
    &&& list.len() > need
    &&& m > 0 ==> (exists|prev: Seq<usize>|
        #[trigger] exact_neighbors(prev, cloud, center, grown_radius(nb, m - 1)) && prev.len()
            <= need)
}

/// The list is the outcome of the adaptive search at some growth step.
pub open spec fn settled_list(
    list: Seq<usize>,
    cloud: Seq<Grid2D>,
    center: Grid2D,
    nb: int,
    need: int,
) -> bool {
    exists|m: int| #[trigger] settled_at(list, cloud, center, nb, need, m)
}

/// The first growth step at which some cloud point falls within the
/// radius, or the cap if none ever does.
pub open spec fn settle_step(cloud: Seq<Grid2D>, center: Grid2D, nb: int, m: int) -> int
    decreases RADIUS_CAP - m,
{
    if m >= RADIUS_CAP {
        RADIUS_CAP as int
    } else if has_within(cloud, center, grown_radius(nb, m)) {
        m
    } else {
        settle_step(cloud, center, nb, m + 1)
    }
}

/// The least cloud index within the radius, scanning from `k`; the cloud
/// length if there is none.
pub open spec fn first_within(cloud: Seq<Grid2D>, center: Grid2D, radius: int, k: int) -> int
    decreases cloud.len() - k,
{
    if k < 0 || k >= cloud.len() {
        cloud.len() as int
    } else if dist_sq(cloud[k], center) <= radius * radius {
        k
    } else {
        first_within(cloud, center, radius, k + 1)
    }
}

/// The number of interior points placed for a boundary ring of `n` points:
/// `n^2 / (4 pi)` in fixed point, rounded down.
pub open spec fn interior_count(n: int) -> int {
    (n * n * SCALE) / (4 * PI_SCALED)
}

#[derive(Debug)]
pub struct WaveEq {
    pub interior: Points2D,
    pub boundary: Points2D,
    pub value: Vec<i64>,
    pub near_points_boundary: Vec<Vec<usize>>,
    pub near_points_interior: Vec<Vec<usize>>,
    pub near: Vec<Vec<usize>>,
    pub poly: Vec<TwoPolynomial>,
}

impl WaveEq {
    /// Both clouds are in band, bounded in size, and every interior point
    /// lies strictly inside the unit disk.
    pub open spec fn clouds_wf(&self) -> bool {
        &&& self.interior.wf()
        &&& self.boundary.wf()
        &&& self.interior.points@.len() <= WAVE_CAP
        &&& self.boundary.points@.len() <= WAVE_CAP
        &&& forall|k: int|
            0 <= k < self.interior.points@.len() ==> in_disk(#[trigger] self.interior.points@[k])
    }

    /// One scalar value per interior point, each in the unit band.
    pub open spec fn values_set(&self) -> bool {
        &&& self.value@.len() == self.interior.points@.len()
        &&& forall|k: int| 0 <= k < self.value@.len() ==> 0 <= #[trigger] self.value@[k] <= SCALE
    }

    /// One non-empty neighbor list per boundary point, each entry an
    /// interior index.
    pub open spec fn boundary_resolved(&self) -> bool {
        &&& self.near@.len() == self.boundary.points@.len()
        &&& forall|k: int| 0 <= k < self.near@.len() ==> (#[trigger] self.near@[k])@.len() > 0
        &&& forall|k: int, m: int|
            0 <= k < self.near@.len() && 0 <= m < self.near@[k]@.len()
                ==> #[trigger] self.near@[k]@[m] < self.interior.points@.len()
    }

    /// One interior-neighbor list per interior point: entries are distinct
    /// interior indices and the list is never longer than the cloud.
    pub open spec fn interior_resolved(&self) -> bool {
        &&& self.near_points_interior@.len() == self.interior.points@.len()
        &&& forall|k: int, m: int|
            0 <= k < self.near_points_interior@.len() && 0 <= m
                < self.near_points_interior@[k]@.len()
                ==> #[trigger] self.near_points_interior@[k]@[m] < self.interior.points@.len()
        &&& forall|k: int|
            0 <= k < self.near_points_interior@.len() ==> (
            #[trigger] self.near_points_interior@[k])@.len() <= self.interior.points@.len()
    }

    /// One boundary-neighbor list per interior point: entries are strictly
    /// increasing indices into the boundary neighbor table.
    pub open spec fn plus_resolved(&self) -> bool {
        &&& self.near_points_boundary@.len() == self.near_points_interior@.len()
        &&& forall|k: int, m: int|
            0 <= k < self.near_points_boundary@.len() && 0 <= m
                < self.near_points_boundary@[k]@.len()
                ==> #[trigger] self.near_points_boundary@[k]@[m] < self.near@.len()
        &&& forall|k: int, m1: int, m2: int|
            0 <= k < self.near_points_boundary@.len() && 0 <= m1 < m2
                < self.near_points_boundary@[k]@.len()
                ==> #[trigger] self.near_points_boundary@[k]@[m1]
                < #[trigger] self.near_points_boundary@[k]@[m2]
        &&& forall|k: int|
            0 <= k < self.near_points_boundary@.len() ==> (
            #[trigger] self.near_points_boundary@[k])@.len() <= self.near@.len()
    }

    /// One well-formed patch per interior point.
    pub open spec fn patches_ready(&self) -> bool {
        &&& self.poly@.len() == self.interior.points@.len()
        &&& forall|k: int| 0 <= k < self.poly@.len() ==> (#[trigger] self.poly@[k]).wf()
    }

    /// The sample set patch `i` is fitted to: the interior point's own value
    /// and its interior neighbors' values, then zero-valued samples at its
    /// associated boundary neighbors.
    pub open spec fn fit_samples(&self, i: int) -> Seq<Point3> {
        (self.near_points_interior@[i])@.map_values(
            |j: usize|
                (Point3 {
                    x: self.interior.points@[j as int].x,
                    y: self.interior.points@[j as int].y,
                    z: self.value@[j as int],
                }),
        ) + (self.near_points_boundary@[i])@.map_values(
            |k: usize|
                (Point3 { x: self.boundary.points@[k as int].x, y: self.boundary.points@[k as int].y, z: 0 }),
        )
    }

    /// The empty model, before any stage has run.
    pub fn new() -> (r: Self)
        ensures
            r.clouds_wf(),
            r.interior.points@.len() == 0,
            r.boundary.points@.len() == 0,
            r.value@.len() == 0,
            r.near_points_boundary@.len() == 0,
            r.near_points_interior@.len() == 0,
            r.near@.len() == 0,
            r.poly@.len() == 0,
    {
        WaveEq {
            interior: Points2D::new(),
            boundary: Points2D::new(),
            value: Vec::new(),
            near_points_boundary: Vec::new(),
            near_points_interior: Vec::new(),
            near: Vec::new(),
            poly: Vec::new(),
        }
    }

    /// The clamped fixed-point 12-6 force on interior point `index`, summed
    /// over every other interior point and every boundary point, with the
    /// length scale derived from the interior count; the result is exactly
    /// `lj_force` of the two clouds. Coincident points contribute the
    /// saturated force instead of dividing by zero.
    pub fn lennard_jones_potential_deriv(&self, index: usize) -> (f: Grid2D)
        requires
            self.clouds_wf(),
            index < self.interior.points@.len(),
        ensures
            -FORCE_LIMIT <= f.x <= FORCE_LIMIT,
            -FORCE_LIMIT <= f.y <= FORCE_LIMIT,
            f.x as int == lj_force(self.interior.points@, self.boundary.points@, index as int).0,
            f.y as int == lj_force(self.interior.points@, self.boundary.points@, index as int).1,
    {
        let n = self.interior.points.len();
        proof {
            assert((n as int) * (SCALE as int) * (SCALE as int) <= 16777216000000)
                by (nonlinear_arith)
                requires
                    0 < n <= 1000000,
                    SCALE == 4096,
            ;
        }
        let sn64: u64 = isqrt_u64((n as u64) * ((SCALE as u64) * (SCALE as u64)));
        proof {
            // sn64 * sn64 <= n * SCALE^2 and n >= 1 force SCALE <= sn64 + SCALE
            assert(sn64 >= 1) by (nonlinear_arith)
                requires
                    (sn64 as int + 1) * (sn64 as int + 1) > 16777216,
                    0 <= sn64,
            ;
            assert(sn64 as int <= 4096000) by (nonlinear_arith)
                requires
                    (sn64 as int) * (sn64 as int) <= 16777216000000,
                    0 <= sn64,
            ;
        }
        let sigma: i64 = ((3284u64 * (SCALE as u64)) / sn64) as i64;
        proof {
            lemma_div_band((3284 * (SCALE as u64)) as int, sn64 as int);
            assert((n as int) * ((SCALE as int) * (SCALE as int)) == (n as int) * (SCALE as int)
                * (SCALE as int)) by (nonlinear_arith);
            assert(sn64 as int == floor_sqrt((n as int) * (SCALE as int) * (SCALE as int)));
            assert(sigma as int == lj_sigma_spec(n as int));
        }
        let px = self.interior.points[index].x;
        let py = self.interior.points[index].y;
        let mut fx: i128 = 0;
        let mut fy: i128 = 0;
        let mut i: usize = 0;
        while i < n
            invariant
                self.clouds_wf(),
                index < n,
                n == self.interior.points@.len(),
                px == self.interior.points@[index as int].x,
                py == self.interior.points@[index as int].y,
                0 <= sigma <= 13451264,
                sigma as int == lj_sigma_spec(n as int),
                i <= n,
                fx == lj_interior_prefix(
                    self.interior.points@,
                    index as int,
                    sigma as int,
                    i as int,
                ).0,
                fy == lj_interior_prefix(
                    self.interior.points@,
                    index as int,
                    sigma as int,
                    i as int,
                ).1,
                -((i as int) * 4000000000000000000000000) <= fx <= (i as int)
                    * 4000000000000000000000000,
                -((i as int) * 4000000000000000000000000) <= fy <= (i as int)
                    * 4000000000000000000000000,
            decreases n - i,
        {
            if i != index {
                let dx = px - self.interior.points[i].x;
                let dy = py - self.interior.points[i].y;
                let (tx, ty) = lj_term(dx, dy, sigma);
                fx = fx + tx;
                fy = fy + ty;
            }
            proof {
                assert((i as int) * 4000000000000000000000000 + 4000000000000000000000000 == ((
                i + 1) as int) * 4000000000000000000000000) by (nonlinear_arith);
                assert((i as int) * 4000000000000000000000000
                    <= 4000000000000000000000000000000) by (nonlinear_arith)
                    requires
                        0 <= i <= 1000000,
                ;
            }
            i = i + 1;
        }
        let nb = self.boundary.points.len();
        let ghost isum = lj_interior_prefix(
            self.interior.points@,
            index as int,
            sigma as int,
            n as int,
        );
        let mut k: usize = 0;
        while k < nb
            invariant
                self.clouds_wf(),
                index < self.interior.points@.len(),
                nb == self.boundary.points@.len(),
                px == self.interior.points@[index as int].x,
                py == self.interior.points@[index as int].y,
                0 <= sigma <= 13451264,
                sigma as int == lj_sigma_spec(self.interior.points@.len() as int),
                isum == lj_interior_prefix(
                    self.interior.points@,
                    index as int,
                    sigma as int,
                    self.interior.points@.len() as int,
                ),
                fx == isum.0 + lj_boundary_prefix(
                    self.interior.points@,
                    self.boundary.points@,
                    index as int,
                    sigma as int,
                    k as int,
                ).0,
                fy == isum.1 + lj_boundary_prefix(
                    self.interior.points@,
                    self.boundary.points@,
                    index as int,
                    sigma as int,
                    k as int,
                ).1,
                k <= nb,
                -(4000000000000000000000000000000 + (k as int) * 4000000000000000000000000) <= fx,
                fx <= 4000000000000000000000000000000 + (k as int) * 4000000000000000000000000,
                -(4000000000000000000000000000000 + (k as int) * 4000000000000000000000000) <= fy,
                fy <= 4000000000000000000000000000000 + (k as int) * 4000000000000000000000000,
            decreases nb - k,
        {
            let dx = px - self.boundary.points[k].x;
            let dy = py - self.boundary.points[k].y;
            let (tx, ty) = lj_term(dx, dy, sigma);
            fx = fx + tx;
            fy = fy + ty;
            proof {
                assert((k as int) * 4000000000000000000000000
                    <= 4000000000000000000000000000000) by (nonlinear_arith)
                    requires
                        0 <= k <= 1000000,
                ;
                assert(((k + 1) as int) * 4000000000000000000000000 == (k as int)
                    * 4000000000000000000000000 + 4000000000000000000000000) by (nonlinear_arith);
            }
            k = k + 1;
        }
        let out = Grid2D {
            x: crate::fixed::clamp_i128(fx, FORCE_LIMIT),
            y: crate::fixed::clamp_i128(fy, FORCE_LIMIT),
        };
        proof {
            assert(out.x as int == lj_force(
                self.interior.points@,
                self.boundary.points@,
                index as int,
            ).0);
            assert(out.y as int == lj_force(
                self.interior.points@,
                self.boundary.points@,
                index as int,
            ).1);
        }
        out
    }

    /// One relaxation step: every interior point moves against the summed
    /// repulsive force by the fixed step, and any point that would leave the
    /// unit disk is brought back by the repeated quarter-turn-and-halve
    /// rule. Each new position is exactly `relaxed_position` of the old
    /// clouds — the displaced point carried to the reflection fixpoint — so
    /// every point stays strictly inside the disk, and nothing else of the
    /// model changes.
    pub fn euler_step(&mut self)
        requires
            old(self).clouds_wf(),
        ensures
            final(self).clouds_wf(),
            final(self).interior.points@.len() == old(self).interior.points@.len(),
            forall|i: int|
                0 <= i < final(self).interior.points@.len()
                    ==> (#[trigger] final(self).interior.points@[i]).x as int == relaxed_position(
                    old(self).interior.points@,
                    old(self).boundary.points@,
                    i,
                ).0 && final(self).interior.points@[i].y as int == relaxed_position(
                    old(self).interior.points@,
                    old(self).boundary.points@,
                    i,
                ).1,
            final(self).boundary == old(self).boundary,
            final(self).value@ == old(self).value@,
            final(self).near@ == old(self).near@,
            final(self).near_points_interior@ == old(self).near_points_interior@,
            final(self).near_points_boundary@ == old(self).near_points_boundary@,
            final(self).poly@ == old(self).poly@,
    {
        let n = self.interior.points.len();
        let mut moved: Vec<Grid2D> = Vec::new();
        let mut i: usize = 0;
        while i < n
            invariant
                self.clouds_wf(),
                n == self.interior.points@.len(),
                i <= n,
                moved@.len() == i,
                forall|m: int|
                    0 <= m < i ==> in_disk(#[trigger] moved@[m]) && moved@[m].in_range(),
                self.interior == old(self).interior,
                self.boundary == old(self).boundary,
                forall|m: int|
                    0 <= m < i ==> (#[trigger] moved@[m]).x as int == relaxed_position(
                        self.interior.points@,
                        self.boundary.points@,
                        m,
                    ).0 && moved@[m].y as int == relaxed_position(
                        self.interior.points@,
                        self.boundary.points@,
                        m,
                    ).1,
            decreases n - i,
        {
            let f = self.lennard_jones_potential_deriv(i);
            proof {
                assert({
                    &&& -18446744073709551616 <= (DT_RELAX as int) * (f.x as int)
                    &&& (DT_RELAX as int) * (f.x as int) <= 18446744073709551616
                    &&& -18446744073709551616 <= (DT_RELAX as int) * (f.y as int)
                    &&& (DT_RELAX as int) * (f.y as int) <= 18446744073709551616
                }) by (nonlinear_arith)
                    requires
                        -0x100_0000_0000 <= f.x <= 0x100_0000_0000,
                        -0x100_0000_0000 <= f.y <= 0x100_0000_0000,
                        DT_RELAX == 16777,
                ;
                lemma_div_trunc_bound(
                    (DT_RELAX as int) * (f.x as int),
                    crate::grid_3d::DT_SCALE as int,
                    1100000000000,
                );
                lemma_div_trunc_bound(
                    (DT_RELAX as int) * (f.y as int),
                    crate::grid_3d::DT_SCALE as int,
                    1100000000000,
                );
                assert(1100000000000 * (crate::grid_3d::DT_SCALE as int)
                    == 18454937600000000000) by (nonlinear_arith);
            }
            let dx = crate::fixed::div_trunc_i128(
                (DT_RELAX as i128) * (f.x as i128),
                crate::grid_3d::DT_SCALE as i128,
            );
            let dy = crate::fixed::div_trunc_i128(
                (DT_RELAX as i128) * (f.y as i128),
                crate::grid_3d::DT_SCALE as i128,
            );
            let mut x: i64 = ((self.interior.points[i].x as i128) - dx) as i64;
            let mut y: i64 = ((self.interior.points[i].y as i128) - dy) as i64;
            let ghost x0 = x as int;
            let ghost y0 = y as int;
            proof {
                assert(x0 == self.interior.points@[i as int].x - div_trunc(
                    DT_RELAX * lj_force(self.interior.points@, self.boundary.points@, i as int).0,
                    crate::grid_3d::DT_SCALE as int,
                ));
                assert(y0 == self.interior.points@[i as int].y - div_trunc(
                    DT_RELAX * lj_force(self.interior.points@, self.boundary.points@, i as int).1,
                    crate::grid_3d::DT_SCALE as int,
                ));
            }
            loop
                invariant_except_break
                    -1200000000000 <= x <= 1200000000000,
                    -1200000000000 <= y <= 1200000000000,
                    reflect_spec(x as int, y as int) == reflect_spec(x0, y0),
                ensures
                    in_disk((Grid2D { x: x, y: y })),
                    -SCALE <= x <= SCALE,
                    -SCALE <= y <= SCALE,
                    (x as int, y as int) == reflect_spec(x0, y0),
                decreases (x as int) * (x as int) + (y as int) * (y as int),
            {
                proof {
                    assert({
                        &&& 0 <= (x as int) * (x as int) <= 1440000000000000000000000
                        &&& 0 <= (y as int) * (y as int) <= 1440000000000000000000000
                    }) by (nonlinear_arith)
                        requires
                            -1200000000000 <= x <= 1200000000000,
                            -1200000000000 <= y <= 1200000000000,
                    ;
                }
                let nx128: i128 = (x as i128) * (x as i128) + (y as i128) * (y as i128);
                if nx128 < (SCALE as i128) * (SCALE as i128) {
                    proof {
                        assert({
                            &&& -SCALE <= x <= SCALE
                            &&& -SCALE <= y <= SCALE
                        }) by (nonlinear_arith)
                            requires
                                (x as int) * (x as int) + (y as int) * (y as int) < (
                                SCALE as int) * (SCALE as int),
                                SCALE == 4096,
                        ;
                    }
                    break ;
                }
                let ox = x;
                let oy = y;
                x = -(oy / 2);
                y = ox / 2;
                proof {
                    lemma_halving_shrinks(ox as int, oy as int);
                    assert(x as int == -div_trunc(oy as int, 2));
                    assert(y as int == div_trunc(ox as int, 2));
                    assert((x as int) * (x as int) + (y as int) * (y as int) >= 0)
                        by (nonlinear_arith);
                }
            }
            proof {
                assert(relaxed_position(self.interior.points@, self.boundary.points@, i as int)
                    == reflect_spec(x0, y0));
            }
            moved.push(Grid2D { x, y });
            i = i + 1;
        }
        self.interior = Points2D { points: moved };
    }
}

impl WaveEq {
    /// Builds the boundary ring and the relaxed interior cloud: `num_points`
    /// evenly spaced ring points, then interior points drawn uniformly and
    /// kept only inside the disk until the derived count is reached, then
    /// the fixed number of relaxation steps. The random source is passed in
    /// so a caller seeding it deterministically gets a reproducible cloud.
    pub fn create(&mut self, num_points: usize, rng: &mut rand::rngs::StdRng) -> (r: Result<
        (),
        ModelError,
    >)
        requires
            old(self).interior.points@.len() == 0,
            old(self).boundary.points@.len() == 0,
            old(self).interior.wf(),
            old(self).boundary.wf(),
        ensures
            final(self).value@ == old(self).value@,
            final(self).near@ == old(self).near@,
            final(self).near_points_interior@ == old(self).near_points_interior@,
            final(self).near_points_boundary@ == old(self).near_points_boundary@,
            final(self).poly@ == old(self).poly@,
            (num_points == 0 || num_points > RING_CAP) <==> (r matches Err(e) && e
                == ModelError::Configuration),
            r is Err ==> (r matches Err(e) && (e == ModelError::Configuration || e
                == ModelError::SamplingExhausted)),
            0 < num_points <= RING_CAP && interior_count(num_points as int) == 0 ==> r is Ok,
            r is Ok ==> final(self).clouds_wf(),
            r is Ok ==> final(self).boundary.points@.len() == num_points,
            r is Ok ==> forall|k: int|
                0 <= k < num_points ==> (#[trigger] final(self).boundary.points@[k]).x as int
                    == circle_point_spec(k, num_points as int).0
                    && final(self).boundary.points@[k].y as int == circle_point_spec(
                    k,
                    num_points as int,
                ).1,
            r is Ok ==> final(self).interior.points@.len() == interior_count(num_points as int),
    {
        if num_points == 0 || num_points > RING_CAP {
            return Err(ModelError::Configuration);
        }
        let mut i: usize = 0;
        while i < num_points
            invariant
                0 < num_points <= RING_CAP,
                i <= num_points,
                self.boundary.wf(),
                self.boundary.points@.len() == i,
                forall|k: int|
                    0 <= k < i ==> (#[trigger] self.boundary.points@[k]).x as int
                        == circle_point_spec(k, num_points as int).0
                        && self.boundary.points@[k].y as int == circle_point_spec(
                        k,
                        num_points as int,
                    ).1,
                self.interior == old(self).interior,
                self.value@ == old(self).value@,
                self.near@ == old(self).near@,
                self.near_points_interior@ == old(self).near_points_interior@,
                self.near_points_boundary@ == old(self).near_points_boundary@,
                self.poly@ == old(self).poly@,
            decreases num_points - i,
        {
            let (cx, cy) = circle_point(i, num_points);
            self.boundary.push(cx, cy);
            i = i + 1;
        }
        let n64 = num_points as u64;
        proof {
            assert(n64 * n64 * 4096 <= 4096000000) by (nonlinear_arith)
                requires
                    0 < n64 <= 1000,
            ;
        }
        let total: u64 = n64 * n64 * (SCALE as u64);
        let cnt64: u64 = total / ((4 * PI_SCALED) as u64);
        proof {
            lemma_div_band(total as int, 4 * PI_SCALED as int);
            vstd::arithmetic::div_mod::lemma_div_is_ordered(
                total as int,
                4096000000,
                4 * PI_SCALED as int,
            );
            assert(4096000000int / 51472 == 79577);
            assert(cnt64 as int == interior_count(num_points as int));
        }
        let cnt: usize = cnt64 as usize;
        let mut attempts: usize = 0;
        while self.interior.points.len() < cnt && attempts < SAMPLE_CAP
            invariant
                self.interior.wf(),
                self.interior.points@.len() <= cnt,
                cnt <= 79577,
                attempts <= SAMPLE_CAP,
                forall|k: int|
                    0 <= k < self.interior.points@.len() ==> in_disk(
                        #[trigger] self.interior.points@[k],
                    ),
                self.boundary.wf(),
                self.boundary.points@.len() == num_points,
                forall|k: int|
                    0 <= k < num_points ==> (#[trigger] self.boundary.points@[k]).x as int
                        == circle_point_spec(k, num_points as int).0
                        && self.boundary.points@[k].y as int == circle_point_spec(
                        k,
                        num_points as int,
                    ).1,
                num_points <= RING_CAP,
                self.value@ == old(self).value@,
                self.near@ == old(self).near@,
                self.near_points_interior@ == old(self).near_points_interior@,
                self.near_points_boundary@ == old(self).near_points_boundary@,
                self.poly@ == old(self).poly@,
            decreases SAMPLE_CAP - attempts,
        {
            attempts = attempts + 1;
            let x = draw_in(rng, -SCALE, SCALE);
            let y = draw_in(rng, -SCALE, SCALE);
            proof {
                assert({
                    &&& 0 <= x * x <= 16777216
                    &&& 0 <= y * y <= 16777216
                }) by (nonlinear_arith)
                    requires
                        -4096 <= x <= 4096,
                        -4096 <= y <= 4096,
                ;
            }
            if x * x + y * y < SCALE * SCALE {
                self.interior.push(x, y);
            }
        }
        if self.interior.points.len() < cnt {
            return Err(ModelError::SamplingExhausted);
        }
        let mut step: usize = 0;
        while step < RELAX_STEPS
            invariant
                step <= RELAX_STEPS,
                self.clouds_wf(),
                self.interior.points@.len() == cnt as int,
                self.boundary.points@.len() == num_points,
                forall|k: int|
                    0 <= k < num_points ==> (#[trigger] self.boundary.points@[k]).x as int
                        == circle_point_spec(k, num_points as int).0
                        && self.boundary.points@[k].y as int == circle_point_spec(
                        k,
                        num_points as int,
                    ).1,
                self.value@ == old(self).value@,
                self.near@ == old(self).near@,
                self.near_points_interior@ == old(self).near_points_interior@,
                self.near_points_boundary@ == old(self).near_points_boundary@,
                self.poly@ == old(self).poly@,
            decreases RELAX_STEPS - step,
        {
            self.euler_step();
            step = step + 1;
        }
        Ok(())
    }

    /// Assigns each interior point its initial scalar value from the fixed
    /// radial Gaussian profile `exp(-10 r^2)`: each stored value is exactly
    /// `gauss_of` its point, so the value at the center is one and every
    /// value lies in the unit band.
    pub fn set_initial_condition(&mut self)
        requires
            old(self).clouds_wf(),
            old(self).value@.len() == 0,
        ensures
            final(self).clouds_wf(),
            final(self).values_set(),
            forall|i: int|
                0 <= i < final(self).value@.len() ==> #[trigger] final(self).value@[i] as int
                    == gauss_of(final(self).interior.points@[i]),
            final(self).interior == old(self).interior,
            final(self).boundary == old(self).boundary,
            final(self).near@ == old(self).near@,
            final(self).near_points_interior@ == old(self).near_points_interior@,
            final(self).near_points_boundary@ == old(self).near_points_boundary@,
            final(self).poly@ == old(self).poly@,
    {
        let n = self.interior.points.len();
        let mut i: usize = 0;
        while i < n
            invariant
                self.clouds_wf(),
                n == self.interior.points@.len(),
                i <= n,
                self.value@.len() == i,
                forall|k: int| 0 <= k < i ==> 0 <= #[trigger] self.value@[k] <= SCALE,
                forall|k: int|
                    0 <= k < i ==> #[trigger] self.value@[k] as int == gauss_of(
                        self.interior.points@[k],
                    ),
                self.interior == old(self).interior,
                self.boundary == old(self).boundary,
                self.near@ == old(self).near@,
                self.near_points_interior@ == old(self).near_points_interior@,
                self.near_points_boundary@ == old(self).near_points_boundary@,
                self.poly@ == old(self).poly@,
            decreases n - i,
        {
            let p = self.interior.points[i];
            proof {
                assert({
                    &&& 0 <= p.x * p.x <= 16777216
                    &&& 0 <= p.y * p.y <= 16777216
                }) by (nonlinear_arith)
                    requires
                        -16384 <= p.x <= 16384,
                        -16384 <= p.y <= 16384,
                        in_disk(p),
                ;
            }
            let r2: i64 = p.x * p.x + p.y * p.y;
            proof {
                lemma_div_band(10 * r2 as int, SCALE as int);
            }
            let q: i64 = (10 * r2) / SCALE;
            let v = exp_neg(q);
            proof {
                assert(q as int == (10 * ((p.x as int) * (p.x as int) + (p.y as int) * (
                p.y as int)))  / (SCALE as int));
                assert(v as int == gauss_of(p));
            }
            self.value.push(v);
            i = i + 1;
        }
    }

    /// Grows a search radius for every boundary point until the interior
    /// index returns a non-empty neighbor set. On success every stored list
    /// is exactly the set of interior indices within the first radius of the
    /// growth sequence that yields any; the call fails only when the
    /// interior cloud is empty, since the capped radius eventually covers
    /// the whole coordinate band.
    pub fn set_boundary_near_points(&mut self) -> (r: Result<(), ModelError>)
        requires
            old(self).clouds_wf(),
            old(self).near@.len() == 0,
            old(self).boundary.points@.len() > 0,
        ensures
            final(self).clouds_wf(),
            final(self).interior == old(self).interior,
            final(self).boundary == old(self).boundary,
            final(self).value@ == old(self).value@,
            final(self).near_points_interior@ == old(self).near_points_interior@,
            final(self).near_points_boundary@ == old(self).near_points_boundary@,
            final(self).poly@ == old(self).poly@,
            r is Err <==> old(self).interior.points@.len() == 0,
            r is Err ==> (r matches Err(e) && e == ModelError::EmptyNeighborhood)
                && final(self).near@ == old(self).near@,
            r is Ok ==> final(self).boundary_resolved(),
            r is Ok ==> forall|k: int|
                0 <= k < final(self).near@.len() ==> settled_list(
                    (#[trigger] final(self).near@[k])@,
                    final(self).interior.points@,
                    final(self).boundary.points@[k],
                    final(self).boundary.points@.len() as int,
                    0,
                ),
    {
        let tree = KDTree::construct_kd_tree(&self.interior);
        let nb = self.boundary.points.len();
        let ghost cloud = self.interior.points@;
        let ghost nbi = nb as int;
        let r0: i64 = PI_SCALED / (nb as i64);
        proof {
            lemma_div_band(PI_SCALED as int, nb as int);
            assert(0 <= r0 <= 12868);
            lemma_div_band(r0 as int, 100);
            vstd::arithmetic::div_mod::lemma_div_is_ordered(r0 as int, 12868, 100);
            assert(12868int / 100 == 128);
        }
        let dr0: i64 = r0 / 100;
        let dr: i64 = if dr0 < 1 {
            1
        } else {
            dr0
        };
        let mut i: usize = 0;
        while i < nb
            invariant
                self.clouds_wf(),
                tree.wf(),
                tree.cloud@ == cloud,
                cloud == self.interior.points@,
                nbi == nb as int,
                nb == self.boundary.points@.len(),
                0 <= r0 <= 12868,
                1 <= dr <= 130,
                r0 as int == base_radius(nbi),
                dr as int == radius_step(nbi),
                i <= nb,
                old(self).near@.len() == 0,
                self.near@.len() == i,
                forall|k: int| 0 <= k < i ==> (#[trigger] self.near@[k])@.len() > 0,
                forall|k: int, m: int|
                    0 <= k < i && 0 <= m < self.near@[k]@.len()
                        ==> #[trigger] self.near@[k]@[m] < self.interior.points@.len(),
                forall|k: int|
                    0 <= k < i ==> settled_list(
                        (#[trigger] self.near@[k])@,
                        cloud,
                        self.boundary.points@[k],
                        nbi,
                        0,
                    ),
                self.interior == old(self).interior,
                self.boundary == old(self).boundary,
                self.value@ == old(self).value@,
                self.near_points_interior@ == old(self).near_points_interior@,
                self.near_points_boundary@ == old(self).near_points_boundary@,
                self.poly@ == old(self).poly@,
            decreases nb - i,
        {
            let center = self.boundary.points[i];
            let mut radius: i64 = r0;
            let mut steps: usize = 0;
            let mut found = tree.neighbor_search(&center, radius);
            let ghost mut prev_found = found@;
            while found.len() == 0 && steps < RADIUS_CAP
                invariant
                    tree.wf(),
                    tree.cloud@ == cloud,
                    cloud == self.interior.points@,
                    self.clouds_wf(),
                    center.in_range(),
                    steps <= RADIUS_CAP,
                    0 <= r0 <= 12868,
                    1 <= dr <= 130,
                    r0 as int == base_radius(nbi),
                    dr as int == radius_step(nbi),
                    0 <= radius,
                    radius <= 13000 + (steps as int) * 130,
                    radius as int == grown_radius(nbi, steps as int),
                    exact_neighbors(found@, cloud, center, radius as int),
                    steps > 0 ==> exact_neighbors(
                        prev_found,
                        cloud,
                        center,
                        grown_radius(nbi, steps as int - 1),
                    ) && prev_found.len() <= 0,
                decreases RADIUS_CAP - steps,
            {
                proof {
                    prev_found = found@;
                }
                radius = radius + dr;
                found = tree.neighbor_search(&center, radius);
                steps = steps + 1;
                proof {
                    assert((steps as int) * radius_step(nbi) == (steps as int - 1) * radius_step(
                        nbi,
                    ) + radius_step(nbi)) by (nonlinear_arith);
                }
            }
            if found.len() == 0 {
                proof {
                    assert(steps == RADIUS_CAP);
                    assert(radius as int >= 100000) by (nonlinear_arith)
                        requires
                            radius as int == grown_radius(nbi, steps as int),
                            grown_radius(nbi, steps as int) == base_radius(nbi) + (steps as int)
                                * radius_step(nbi),
                            base_radius(nbi) >= 0,
                            radius_step(nbi) >= 1,
                            steps == RADIUS_CAP,
                            RADIUS_CAP == 100000,
                    ;
                    if cloud.len() > 0 {
                        assert(dist_sq(cloud[0], center) <= (radius as int) * (radius as int))
                            by (nonlinear_arith)
                            requires
                                -16384 <= cloud[0].x <= 16384,
                                -16384 <= cloud[0].y <= 16384,
                                -16384 <= center.x <= 16384,
                                -16384 <= center.y <= 16384,
                                dist_sq(cloud[0], center) == (cloud[0].x - center.x) * (
                                cloud[0].x - center.x) + (cloud[0].y - center.y) * (cloud[0].y
                                    - center.y),
                                radius as int >= 100000,
                        ;
                        assert(listed(found@, 0));
                        assert(false);
                    }
                    assert(cloud.len() == 0);
                    if i > 0 {
                        assert(self.near@[0]@.len() > 0);
                        assert(self.near@[0]@[0] < self.interior.points@.len());
                        assert(false);
                    }
                    assert(self.near@.len() == 0);
                    assert(old(self).near@.len() == 0);
                    assert(self.near@ =~= old(self).near@);
                }
                return Err(ModelError::EmptyNeighborhood);
            }
            proof {
                assert(settled_at(found@, cloud, center, nbi, 0, steps as int)) by {
                    if steps > 0 {
                        assert(exact_neighbors(
                            prev_found,
                            cloud,
                            center,
                            grown_radius(nbi, steps as int - 1),
                        ) && prev_found.len() <= 0);
                    }
                }
            }
            let ghost nold = self.near@;
            self.near.push(found);
            proof {
                assert forall|k: int|
                    0 <= k < i + 1 implies settled_list(
                    (#[trigger] self.near@[k])@,
                    cloud,
                    self.boundary.points@[k],
                    nbi,
                    0,
                ) by {
                    if k == i {
                        assert(settled_at(
                            self.near@[k]@,
                            cloud,
                            self.boundary.points@[k],
                            nbi,
                            0,
                            steps as int,
                        ));
                    } else {
                        assert(settled_list(nold[k]@, cloud, self.boundary.points@[k], nbi, 0));
                        assert(self.near@[k]@ == nold[k]@);
                    }
                }
            }
            i = i + 1;
        }
        proof {
            assert(self.near@[0]@.len() > 0);
            assert(self.near@[0]@[0] < self.interior.points@.len());
        }
        Ok(())
    }

    /// Grows a search radius for every interior point until the interior
    /// index returns more than three neighbors. On success every stored
    /// list is exactly the set of interior indices within the first radius
    /// of the growth sequence that yields more than three, and includes the
    /// point itself (it is within any radius of itself); the call fails
    /// only when the cloud has at most three points, since the capped
    /// radius eventually covers the whole coordinate band.
    pub fn set_interior_near_points(&mut self) -> (r: Result<(), ModelError>)
        requires
            old(self).clouds_wf(),
            old(self).near_points_interior@.len() == 0,
            old(self).boundary.points@.len() > 0,
        ensures
            final(self).clouds_wf(),
            final(self).interior == old(self).interior,
            final(self).boundary == old(self).boundary,
            final(self).value@ == old(self).value@,
            final(self).near@ == old(self).near@,
            final(self).near_points_boundary@ == old(self).near_points_boundary@,
            final(self).poly@ == old(self).poly@,
            r is Err <==> 0 < old(self).interior.points@.len() <= 3,
            r is Err ==> (r matches Err(e) && e == ModelError::EmptyNeighborhood)
                && final(self).near_points_interior@ == old(self).near_points_interior@,
            r is Ok ==> final(self).interior_resolved(),
            r is Ok ==> forall|k: int|
                0 <= k < final(self).near_points_interior@.len() ==> (
                #[trigger] final(self).near_points_interior@[k])@.len() > 3,
            r is Ok ==> forall|k: int|
                0 <= k < final(self).near_points_interior@.len() ==> settled_list(
                    (#[trigger] final(self).near_points_interior@[k])@,
                    final(self).interior.points@,
                    final(self).interior.points@[k],
                    final(self).boundary.points@.len() as int,
                    3,
                ),
            r is Ok ==> forall|k: int|
                0 <= k < final(self).near_points_interior@.len() ==> listed(
                    (#[trigger] final(self).near_points_interior@[k])@,
                    k,
                ),
            r is Ok ==> forall|k: int, m1: int, m2: int|
                0 <= k < final(self).near_points_interior@.len() && 0 <= m1 < m2
                    < final(self).near_points_interior@[k]@.len()
                    ==> #[trigger] final(self).near_points_interior@[k]@[m1]
                    != #[trigger] final(self).near_points_interior@[k]@[m2],
    {
        let tree = KDTree::construct_kd_tree(&self.interior);
        let nb = self.boundary.points.len();
        let ni = self.interior.points.len();
        let ghost cloud = self.interior.points@;
        let ghost nbi = nb as int;
        let r0: i64 = PI_SCALED / (nb as i64);
        proof {
            lemma_div_band(PI_SCALED as int, nb as int);
            assert(0 <= r0 <= 12868);
            lemma_div_band(r0 as int, 100);
            vstd::arithmetic::div_mod::lemma_div_is_ordered(r0 as int, 12868, 100);
            assert(12868int / 100 == 128);
        }
        let dr0: i64 = r0 / 100;
        let dr: i64 = if dr0 < 1 {
            1
        } else {
            dr0
        };
        let mut i: usize = 0;
        while i < ni
            invariant
                self.clouds_wf(),
                tree.wf(),
                tree.cloud@ == cloud,
                cloud == self.interior.points@,
                nbi == nb as int,
                nb == self.boundary.points@.len(),
                ni == self.interior.points@.len(),
                0 <= r0 <= 12868,
                1 <= dr <= 130,
                r0 as int == base_radius(nbi),
                dr as int == radius_step(nbi),
                i <= ni,
                old(self).near_points_interior@.len() == 0,
                self.near_points_interior@.len() == i,
                forall|k: int|
                    0 <= k < i ==> (#[trigger] self.near_points_interior@[k])@.len() > 3,
                forall|k: int, m: int|
                    0 <= k < i && 0 <= m < self.near_points_interior@[k]@.len()
                        ==> #[trigger] self.near_points_interior@[k]@[m]
                        < self.interior.points@.len(),
                forall|k: int|
                    0 <= k < i ==> (#[trigger] self.near_points_interior@[k])@.len()
                        <= self.interior.points@.len(),
                forall|k: int|
                    0 <= k < i ==> settled_list(
                        (#[trigger] self.near_points_interior@[k])@,
                        cloud,
                        cloud[k],
                        nbi,
                        3,
                    ),
                forall|k: int|
                    0 <= k < i ==> listed((#[trigger] self.near_points_interior@[k])@, k),
                forall|k: int, m1: int, m2: int|
                    0 <= k < i && 0 <= m1 < m2 < self.near_points_interior@[k]@.len()
                        ==> #[trigger] self.near_points_interior@[k]@[m1]
                        != #[trigger] self.near_points_interior@[k]@[m2],
                self.interior == old(self).interior,
                self.boundary == old(self).boundary,
                self.value@ == old(self).value@,
                self.near@ == old(self).near@,
                self.near_points_boundary@ == old(self).near_points_boundary@,
                self.poly@ == old(self).poly@,
            decreases ni - i,
        {
            let center = self.interior.points[i];
            let mut radius: i64 = r0;
            let mut steps: usize = 0;
            let mut found = tree.neighbor_search(&center, radius);
            let ghost mut prev_found = found@;
            while found.len() <= 3 && steps < RADIUS_CAP
                invariant
                    tree.wf(),
                    tree.cloud@ == cloud,
                    cloud == self.interior.points@,
                    self.clouds_wf(),
                    center.in_range(),
                    steps <= RADIUS_CAP,
                    0 <= r0 <= 12868,
                    1 <= dr <= 130,
                    r0 as int == base_radius(nbi),
                    dr as int == radius_step(nbi),
                    0 <= radius,
                    radius <= 13000 + (steps as int) * 130,
                    radius as int == grown_radius(nbi, steps as int),
                    exact_neighbors(found@, cloud, center, radius as int),
                    steps > 0 ==> exact_neighbors(
                        prev_found,
                        cloud,
                        center,
                        grown_radius(nbi, steps as int - 1),
                    ) && prev_found.len() <= 3,
                decreases RADIUS_CAP - steps,
            {
                proof {
                    prev_found = found@;
                }
                radius = radius + dr;
                found = tree.neighbor_search(&center, radius);
                steps = steps + 1;
                proof {
                    assert((steps as int) * radius_step(nbi) == (steps as int - 1) * radius_step(
                        nbi,
                    ) + radius_step(nbi)) by (nonlinear_arith);
                }
            }
            if found.len() <= 3 {
                proof {
                    assert(steps == RADIUS_CAP);
                    assert(radius as int >= 100000) by (nonlinear_arith)
                        requires
                            radius as int == grown_radius(nbi, steps as int),
                            grown_radius(nbi, steps as int) == base_radius(nbi) + (steps as int)
                                * radius_step(nbi),
                            base_radius(nbi) >= 0,
                            radius_step(nbi) >= 1,
                            steps == RADIUS_CAP,
                            RADIUS_CAP == 100000,
                    ;
                    assert forall|p: int| 0 <= p < cloud.len() implies listed(found@, p) by {
                        assert(dist_sq(cloud[p], center) <= (radius as int) * (radius as int))
                            by (nonlinear_arith)
                            requires
                                -16384 <= cloud[p].x <= 16384,
                                -16384 <= cloud[p].y <= 16384,
                                -16384 <= center.x <= 16384,
                                -16384 <= center.y <= 16384,
                                dist_sq(cloud[p], center) == (cloud[p].x - center.x) * (
                                cloud[p].x - center.x) + (cloud[p].y - center.y) * (cloud[p].y
                                    - center.y),
                                radius as int >= 100000,
                        ;
                    }
                    lemma_covering_list(found@, cloud.len() as int);
                    assert(cloud.len() <= 3);
                    if i > 0 {
                        assert(self.near_points_interior@[0]@.len() > 3);
                        assert(self.near_points_interior@[0]@.len()
                            <= self.interior.points@.len());
                        assert(false);
                    }
                    assert(self.near_points_interior@.len() == 0);
                    assert(self.near_points_interior@ =~= old(self).near_points_interior@);
                }
                return Err(ModelError::EmptyNeighborhood);
            }
            proof {
                lemma_distinct_bounded(found@, self.interior.points@.len() as int);
                assert(dist_sq(cloud[i as int], center) == 0);
                assert((radius as int) * (radius as int) >= 0) by (nonlinear_arith);
                assert(listed(found@, i as int));
                assert(settled_at(found@, cloud, center, nbi, 3, steps as int)) by {
                    if steps > 0 {
                        assert(exact_neighbors(
                            prev_found,
                            cloud,
                            center,
                            grown_radius(nbi, steps as int - 1),
                        ) && prev_found.len() <= 3);
                    }
                }
            }
            let ghost nold = self.near_points_interior@;
            self.near_points_interior.push(found);
            proof {
                assert forall|k: int|
                    0 <= k < i + 1 implies settled_list(
                    (#[trigger] self.near_points_interior@[k])@,
                    cloud,
                    cloud[k],
                    nbi,
                    3,
                ) by {
                    if k == i {
                        assert(settled_at(
                            self.near_points_interior@[k]@,
                            cloud,
                            cloud[k],
                            nbi,
                            3,
                            steps as int,
                        ));
                    } else {
                        assert(settled_list(nold[k]@, cloud, cloud[k], nbi, 3));
                        assert(self.near_points_interior@[k]@ == nold[k]@);
                    }
                }
            }
            i = i + 1;
        }
        proof {
            if ni > 0 {
                assert(self.near_points_interior@[0]@.len() > 3);
                assert(self.near_points_interior@[0]@.len() <= self.interior.points@.len());
            }
        }
        Ok(())
    }

    /// Inverts the boundary neighbor table: for every interior point `i`,
    /// collects (in increasing order) the boundary points whose first
    /// resolved neighbor is `i`.
    pub fn set_interior_near_points_plus_boundary(&mut self)
        requires
            old(self).boundary_resolved(),
            old(self).near_points_boundary@.len() == 0,
        ensures
            final(self).interior == old(self).interior,
            final(self).boundary == old(self).boundary,
            final(self).value@ == old(self).value@,
            final(self).near@ == old(self).near@,
            final(self).near_points_interior@ == old(self).near_points_interior@,
            final(self).poly@ == old(self).poly@,
            final(self).plus_resolved(),
            forall|i: int, m: int|
                0 <= i < final(self).near_points_boundary@.len() && 0 <= m
                    < final(self).near_points_boundary@[i]@.len()
                    ==> final(self).near@[#[trigger] final(self).near_points_boundary@[i]@[m] as int]@[0]
                    == i,
            forall|i: int, k: int|
                #![trigger final(self).near@[k], final(self).near_points_boundary@[i]]
                0 <= i < final(self).near_points_boundary@.len() && 0 <= k
                    < final(self).near@.len() && final(self).near@[k]@[0] == i ==> listed(
                    final(self).near_points_boundary@[i]@,
                    k,
                ),
    {
        let ni = self.near_points_interior.len();
        let nn = self.near.len();
        let mut out: Vec<Vec<usize>> = Vec::new();
        let mut i: usize = 0;
        while i < ni
            invariant
                self.boundary_resolved(),
                ni == self.near_points_interior@.len(),
                nn == self.near@.len(),
                i <= ni,
                out@.len() == i,
                forall|q: int, m: int|
                    0 <= q < i && 0 <= m < out@[q]@.len() ==> #[trigger] out@[q]@[m] < nn,
                forall|q: int, m1: int, m2: int|
                    0 <= q < i && 0 <= m1 < m2 < out@[q]@.len()
                        ==> #[trigger] out@[q]@[m1] < #[trigger] out@[q]@[m2],
                forall|q: int, m: int|
                    0 <= q < i && 0 <= m < out@[q]@.len() ==> m <= #[trigger] out@[q]@[m] as int,
                forall|q: int| 0 <= q < i ==> (#[trigger] out@[q])@.len() <= nn,
                forall|q: int, m: int|
                    0 <= q < i && 0 <= m < out@[q]@.len()
                        ==> self.near@[#[trigger] out@[q]@[m] as int]@[0] == q,
                forall|q: int, k: int|
                    #![trigger self.near@[k], out@[q]]
                    0 <= q < i && 0 <= k < nn && self.near@[k]@[0] == q ==> listed(out@[q]@, k),
            decreases ni - i,
        {
            let mut lst: Vec<usize> = Vec::new();
            let mut k: usize = 0;
            while k < nn
                invariant
                    self.boundary_resolved(),
                    nn == self.near@.len(),
                    i < ni,
                    k <= nn,
                    forall|m: int| 0 <= m < lst@.len() ==> #[trigger] lst@[m] < k,
                    forall|m1: int, m2: int|
                        0 <= m1 < m2 < lst@.len() ==> #[trigger] lst@[m1] < #[trigger] lst@[m2],
                    forall|m: int| 0 <= m < lst@.len() ==> m <= #[trigger] lst@[m] as int,
                    forall|m: int|
                        0 <= m < lst@.len() ==> self.near@[#[trigger] lst@[m] as int]@[0]
                            == i as int,
                    forall|k2: int|
                        0 <= k2 < k && (#[trigger] self.near@[k2])@[0] == i as int ==> listed(
                            lst@,
                            k2,
                        ),
                decreases nn - k,
            {
                let ghost lold = lst@;
                let row = &self.near[k];
                if row[0] == i {
                    proof {
                        if lold.len() > 0 {
                            assert(lold[lold.len() - 1] as int >= lold.len() - 1);
                            assert(lold[lold.len() - 1] < k);
                        }
                    }
                    lst.push(k);
                    proof {
                        assert(lst@[lst@.len() - 1] == k);
                        assert(lst@.len() - 1 <= k as int);
                    }
                }
                proof {
                    assert forall|k2: int|
                        0 <= k2 < k + 1 && (#[trigger] self.near@[k2])@[0] == i as int
                        implies listed(lst@, k2) by {
                        if k2 == k {
                            assert(lst@[lst@.len() - 1] == k2);
                        } else {
                            assert(listed(lold, k2));
                            let m = choose|m: int|
                                0 <= m < lold.len() && #[trigger] lold[m] == k2;
                            assert(lst@[m] == k2);
                        }
                    }
                }
                k = k + 1;
            }
            proof {
                if lst@.len() > 0 {
                    assert(lst@[lst@.len() - 1] as int >= lst@.len() - 1);
                    assert(lst@[lst@.len() - 1] < nn);
                }
                assert(lst@.len() <= nn);
            }
            let ghost lsnap = lst@;
            let ghost oold = out@;
            out.push(lst);
            proof {
                assert forall|q: int, k: int|
                    #![trigger self.near@[k], out@[q]]
                    0 <= q < i + 1 && 0 <= k < nn && self.near@[k]@[0] == q implies listed(
                    out@[q]@,
                    k,
                ) by {
                    if q == i {
                        assert(listed(lsnap, k));
                        assert(out@[q]@ == lsnap);
                    } else {
                        assert(listed(oold[q]@, k));
                        assert(out@[q]@ == oold[q]@);
                    }
                }
            }
            i = i + 1;
        }
        self.near_points_boundary = out;
    }

    /// Gives every interior point a zero polynomial of the given degree.
    pub fn init_poly(&mut self, dim: usize)
        requires
            old(self).poly@.len() == 0,
            dim <= MAX_DEGREE,
        ensures
            final(self).interior == old(self).interior,
            final(self).boundary == old(self).boundary,
            final(self).value@ == old(self).value@,
            final(self).near@ == old(self).near@,
            final(self).near_points_interior@ == old(self).near_points_interior@,
            final(self).near_points_boundary@ == old(self).near_points_boundary@,
            final(self).patches_ready(),
            forall|k: int|
                0 <= k < final(self).poly@.len() ==> (#[trigger] final(self).poly@[k]).degree
                    == dim,
            forall|k: int, m: int|
                0 <= k < final(self).poly@.len() && 0 <= m < final(self).poly@[k].two_poly@.len()
                    ==> #[trigger] final(self).poly@[k].two_poly@[m] == 0,
    {
        let n = self.interior.points.len();
        let mut i: usize = 0;
        while i < n
            invariant
                n == self.interior.points@.len(),
                i <= n,
                self.poly@.len() == i,
                forall|k: int| 0 <= k < i ==> (#[trigger] self.poly@[k]).wf(),
                forall|k: int| 0 <= k < i ==> (#[trigger] self.poly@[k]).degree == dim,
                forall|k: int, m: int|
                    0 <= k < i && 0 <= m < self.poly@[k].two_poly@.len()
                        ==> #[trigger] self.poly@[k].two_poly@[m] == 0,
                dim <= MAX_DEGREE,
                self.interior == old(self).interior,
                self.boundary == old(self).boundary,
                self.value@ == old(self).value@,
                self.near@ == old(self).near@,
                self.near_points_interior@ == old(self).near_points_interior@,
                self.near_points_boundary@ == old(self).near_points_boundary@,
            decreases n - i,
        {
            self.poly.push(TwoPolynomial::new(dim));
            i = i + 1;
        }
    }
}

impl WaveEq {
    /// Fits every patch to its resolved neighborhood sample, under the
    /// given tolerance, failing the whole build fast on the first patch
    /// that has no samples or does not converge. On success every patch
    /// holds exactly the coefficients the capped descent (`descent`) ends
    /// on for its sample set, and its objective is below the tolerance; on
    /// failure the patch table is left untouched.
    pub fn set_init_poly(&mut self, tol: i64) -> (r: Result<(), ModelError>)
        requires
            old(self).clouds_wf(),
            old(self).values_set(),
            old(self).boundary_resolved(),
            old(self).interior_resolved(),
            old(self).plus_resolved(),
            old(self).patches_ready(),
        ensures
            final(self).interior == old(self).interior,
            final(self).boundary == old(self).boundary,
            final(self).value@ == old(self).value@,
            final(self).near@ == old(self).near@,
            final(self).near_points_interior@ == old(self).near_points_interior@,
            final(self).near_points_boundary@ == old(self).near_points_boundary@,
            r is Err ==> final(self).poly@ == old(self).poly@,
            r matches Err(e) ==> e == ModelError::EmptyNeighborhood || e
                == ModelError::NonConvergence,
            (r matches Err(e) && e == ModelError::EmptyNeighborhood) ==> (exists|i: int|
                0 <= i < old(self).interior.points@.len() && (#[trigger] final(self).fit_samples(
                    i,
                )).len() == 0),
            (r matches Err(e) && e == ModelError::NonConvergence) ==> (exists|i: int|
                0 <= i < old(self).interior.points@.len() && (#[trigger] final(self).fit_samples(
                    i,
                )).len() > 0 && !descent(
                    final(self).fit_samples(i),
                    old(self).poly@[i].degree as int,
                    tol as int,
                    old(self).poly@[i].two_poly@,
                    DT_INIT as int,
                    0,
                ).1),
            r is Ok ==> forall|i: int|
                0 <= i < final(self).poly@.len() ==> ({
                    let d = descent(
                        final(self).fit_samples(i),
                        old(self).poly@[i].degree as int,
                        tol as int,
                        old(self).poly@[i].two_poly@,
                        DT_INIT as int,
                        0,
                    );
                    (#[trigger] final(self).poly@[i]).two_poly@ == d.0 && d.1
                }),
            r is Ok ==> final(self).patches_ready(),
            r is Ok ==> final(self).poly@.len() == old(self).poly@.len(),
            r is Ok ==> forall|i: int|
                0 <= i < final(self).poly@.len() ==> (#[trigger] final(self).poly@[i]).degree
                    == old(self).poly@[i].degree,
            r is Ok ==> forall|i: int|
                0 <= i < final(self).poly@.len() ==> potential_spec(
                    final(self).fit_samples(i),
                    (#[trigger] final(self).poly@[i]).two_poly@,
                    final(self).poly@[i].degree as int,
                ) < tol,
    {
        let n = self.interior.points.len();
        let mut fitted: Vec<TwoPolynomial> = Vec::new();
        let mut i: usize = 0;
        while i < n
            invariant
                self.clouds_wf(),
                self.values_set(),
                self.boundary_resolved(),
                self.interior_resolved(),
                self.plus_resolved(),
                self.patches_ready(),
                n == self.interior.points@.len(),
                i <= n,
                fitted@.len() == i,
                forall|q: int| 0 <= q < i ==> (#[trigger] fitted@[q]).wf(),
                forall|q: int|
                    0 <= q < i ==> (#[trigger] fitted@[q]).degree == self.poly@[q].degree,
                forall|q: int|
                    0 <= q < i ==> ({
                        let d = descent(
                            self.fit_samples(q),
                            self.poly@[q].degree as int,
                            tol as int,
                            self.poly@[q].two_poly@,
                            DT_INIT as int,
                            0,
                        );
                        (#[trigger] fitted@[q]).two_poly@ == d.0 && d.1
                    }),
                forall|q: int|
                    0 <= q < i ==> potential_spec(
                        self.fit_samples(q),
                        (#[trigger] fitted@[q]).two_poly@,
                        fitted@[q].degree as int,
                    ) < tol,
                self.interior == old(self).interior,
                self.boundary == old(self).boundary,
                self.value@ == old(self).value@,
                self.near@ == old(self).near@,
                self.near_points_interior@ == old(self).near_points_interior@,
                self.near_points_boundary@ == old(self).near_points_boundary@,
                self.poly@ == old(self).poly@,
            decreases n - i,
        {
            let mut grid = Grid3D::new();
            let ni_len = self.near_points_interior[i].len();
            let mut m: usize = 0;
            while m < ni_len
                invariant
                    self.clouds_wf(),
                    self.values_set(),
                    self.interior_resolved(),
                    i < self.near_points_interior@.len(),
                    ni_len == self.near_points_interior@[i as int]@.len(),
                    m <= ni_len,
                    grid.wf(),
                    grid.points_3d@.len() == m,
                    grid.points_3d@ == self.near_points_interior@[i as int]@.subrange(
                        0,
                        m as int,
                    ).map_values(
                        |j: usize|
                            (Point3 {
                                x: self.interior.points@[j as int].x,
                                y: self.interior.points@[j as int].y,
                                z: self.value@[j as int],
                            }),
                    ),
                decreases ni_len - m,
            {
                let j = self.near_points_interior[i][m];
                let p = self.interior.points[j];
                grid.push(Point3 { x: p.x, y: p.y, z: self.value[j] });
                proof {
                    let f = |j: usize|
                        (Point3 {
                            x: self.interior.points@[j as int].x,
                            y: self.interior.points@[j as int].y,
                            z: self.value@[j as int],
                        });
                    assert(grid.points_3d@ =~= self.near_points_interior@[i as int]@.subrange(
                        0,
                        m + 1,
                    ).map_values(f));
                }
                m = m + 1;
            }
            let nb_len = self.near_points_boundary[i].len();
            let ghost first_part = grid.points_3d@;
            let mut m2: usize = 0;
            while m2 < nb_len
                invariant
                    self.clouds_wf(),
                    self.boundary_resolved(),
                    self.plus_resolved(),
                    i < self.near_points_boundary@.len(),
                    nb_len == self.near_points_boundary@[i as int]@.len(),
                    m2 <= nb_len,
                    first_part.len() <= 1000000,
                    grid.wf(),
                    grid.points_3d@.len() == first_part.len() + m2,
                    grid.points_3d@ == first_part + self.near_points_boundary@[i as int]@.subrange(
                        0,
                        m2 as int,
                    ).map_values(
                        |k: usize|
                            (Point3 {
                                x: self.boundary.points@[k as int].x,
                                y: self.boundary.points@[k as int].y,
                                z: 0,
                            }),
                    ),
                decreases nb_len - m2,
            {
                let k = self.near_points_boundary[i][m2];
                let p = self.boundary.points[k];
                grid.push(Point3 { x: p.x, y: p.y, z: 0 });
                proof {
                    let f = |k: usize|
                        (Point3 {
                            x: self.boundary.points@[k as int].x,
                            y: self.boundary.points@[k as int].y,
                            z: 0,
                        });
                    assert(grid.points_3d@ =~= first_part
                        + self.near_points_boundary@[i as int]@.subrange(0, m2 + 1).map_values(f));
                }
                m2 = m2 + 1;
            }
            proof {
                assert(self.near_points_interior@[i as int]@.subrange(
                    0,
                    ni_len as int,
                ) =~= self.near_points_interior@[i as int]@);
                assert(self.near_points_boundary@[i as int]@.subrange(
                    0,
                    nb_len as int,
                ) =~= self.near_points_boundary@[i as int]@);
                assert(grid.points_3d@ =~= self.fit_samples(i as int));
            }
            let src = &self.poly[i];
            let mut pw = src.duplicate();
            let res = grid.poly_fitting_by_euler_with_tol(&mut pw, tol);
            match res {
                Result::Err(e) => {
                    proof {
                        assert(self.fit_samples(i as int).len() == 0);
                    }
                    return Err(e);
                },
                Result::Ok(out) => {
                    if !out.1 {
                        proof {
                            assert(self.fit_samples(i as int).len() > 0);
                            assert(!descent(
                                self.fit_samples(i as int),
                                self.poly@[i as int].degree as int,
                                tol as int,
                                self.poly@[i as int].two_poly@,
                                DT_INIT as int,
                                0,
                            ).1);
                        }
                        return Err(ModelError::NonConvergence);
                    }
                    proof {
                        assert(pw.two_poly@ == descent(
                            self.fit_samples(i as int),
                            self.poly@[i as int].degree as int,
                            tol as int,
                            self.poly@[i as int].two_poly@,
                            DT_INIT as int,
                            0,
                        ).0);
                    }
                    fitted.push(pw);
                },
            }
            i = i + 1;
        }
        self.poly = fitted;
        Ok(())
    }

    /// Answers a point query: grows a search radius against the interior
    /// index until some patch is within reach, then evaluates the patch of
    /// the least interior index within the settled radius — the first of
    /// the growth sequence that reaches any point. The contract pins the
    /// result as a function of the frozen model and the query point alone,
    /// so repeated queries of one model provably return identical values;
    /// the call fails (with `NoPatchFound`) exactly when the interior cloud
    /// is empty.
    pub fn poly_eval(&self, x: i64, y: i64) -> (r: Result<i64, ModelError>)
        requires
            self.clouds_wf(),
            self.patches_ready(),
            self.boundary.points@.len() > 0,
            -crate::fixed::COORD_LIMIT <= x <= crate::fixed::COORD_LIMIT,
            -crate::fixed::COORD_LIMIT <= y <= crate::fixed::COORD_LIMIT,
        ensures
            r is Err <==> self.interior.points@.len() == 0,
            r is Err ==> (r matches Err(e) && e == ModelError::NoPatchFound),
            r matches Ok(v) ==> ({
                let q = (Grid2D { x: x, y: y });
                let nbq = self.boundary.points@.len() as int;
                let ms = settle_step(self.interior.points@, q, nbq, 0);
                let idx = first_within(self.interior.points@, q, grown_radius(nbq, ms), 0);
                &&& 0 <= idx < self.poly@.len()
                &&& dist_sq(self.interior.points@[idx], q) <= grown_radius(nbq, ms)
                    * grown_radius(nbq, ms)
                &&& (ms > 0 ==> !has_within(self.interior.points@, q, grown_radius(nbq, ms - 1)))
                &&& v as int == eval_mantissa(
                    self.poly@[idx].two_poly@,
                    self.poly@[idx].degree as int,
                    x as int,
                    y as int,
                )
            }),
    {
        let vec = Grid2D::new(x, y);
        let tree = KDTree::construct_kd_tree(&self.interior);
        let nb = self.boundary.points.len();
        let ghost cloud = self.interior.points@;
        let ghost nbi = nb as int;
        let r0: i64 = PI_SCALED / (nb as i64);
        proof {
            lemma_div_band(PI_SCALED as int, nb as int);
            assert(0 <= r0 <= 12868);
            lemma_div_band(r0 as int, 100);
            vstd::arithmetic::div_mod::lemma_div_is_ordered(r0 as int, 12868, 100);
            assert(12868int / 100 == 128);
        }
        let dr0: i64 = r0 / 100;
        let dr: i64 = if dr0 < 1 {
            1
        } else {
            dr0
        };
        let mut radius: i64 = r0;
        let mut steps: usize = 0;
        let mut found = tree.neighbor_search(&vec, radius);
        while found.len() == 0 && steps < RADIUS_CAP
            invariant
                tree.wf(),
                tree.cloud@ == cloud,
                cloud == self.interior.points@,
                self.clouds_wf(),
                vec.in_range(),
                vec == (Grid2D { x: x, y: y }),
                nbi == nb as int,
                nb == self.boundary.points@.len(),
                steps <= RADIUS_CAP,
                0 <= r0 <= 12868,
                1 <= dr <= 130,
                r0 as int == base_radius(nbi),
                dr as int == radius_step(nbi),
                0 <= radius,
                radius <= 13000 + (steps as int) * 130,
                radius as int == grown_radius(nbi, steps as int),
                exact_neighbors(found@, cloud, vec, radius as int),
                settle_step(cloud, vec, nbi, 0) == settle_step(cloud, vec, nbi, steps as int),
                steps > 0 ==> !has_within(cloud, vec, grown_radius(nbi, steps as int - 1)),
            decreases RADIUS_CAP - steps,
        {
            proof {
                assert(!has_within(cloud, vec, grown_radius(nbi, steps as int))) by {
                    if has_within(cloud, vec, grown_radius(nbi, steps as int)) {
                        let w = choose|i: int|
                            0 <= i < cloud.len() && dist_sq(#[trigger] cloud[i], vec)
                                <= grown_radius(nbi, steps as int) * grown_radius(
                                nbi,
                                steps as int,
                            );
                        assert(listed(found@, w));
                        let m = choose|m: int| 0 <= m < found@.len() && #[trigger] found@[m] == w;
                        assert(false);
                    }
                }
            }
            radius = radius + dr;
            found = tree.neighbor_search(&vec, radius);
            steps = steps + 1;
            proof {
                assert((steps as int) * radius_step(nbi) == (steps as int - 1) * radius_step(
                    nbi,
                ) + radius_step(nbi)) by (nonlinear_arith);
            }
        }
        if found.len() == 0 {
            proof {
                assert(steps == RADIUS_CAP);
                assert(radius as int >= 100000) by (nonlinear_arith)
                    requires
                        radius as int == grown_radius(nbi, steps as int),
                        grown_radius(nbi, steps as int) == base_radius(nbi) + (steps as int)
                            * radius_step(nbi),
                        base_radius(nbi) >= 0,
                        radius_step(nbi) >= 1,
                        steps == RADIUS_CAP,
                        RADIUS_CAP == 100000,
                ;
                if cloud.len() > 0 {
                    assert(dist_sq(cloud[0], vec) <= (radius as int) * (radius as int))
                        by (nonlinear_arith)
                        requires
                            -16384 <= cloud[0].x <= 16384,
                            -16384 <= cloud[0].y <= 16384,
                            -16384 <= vec.x <= 16384,
                            -16384 <= vec.y <= 16384,
                            dist_sq(cloud[0], vec) == (cloud[0].x - vec.x) * (cloud[0].x - vec.x)
                                + (cloud[0].y - vec.y) * (cloud[0].y - vec.y),
                            radius as int >= 100000,
                    ;
                    assert(listed(found@, 0));
                    let m = choose|m: int| 0 <= m < found@.len() && #[trigger] found@[m] == 0;
                    assert(false);
                }
            }
            return Err(ModelError::NoPatchFound);
        }
        let mut idx: usize = found[0];
        let mut t: usize = 1;
        while t < found.len()
            invariant
                t <= found@.len(),
                0 < found@.len(),
                listed(found@, idx as int),
                forall|m: int| 0 <= m < t ==> idx <= #[trigger] found@[m],
            decreases found@.len() - t,
        {
            if found[t] < idx {
                idx = found[t];
            }
            proof {
                assert(listed(found@, idx as int)) by {
                    assert(exists|m: int| 0 <= m < found@.len() && #[trigger] found@[m] == idx);
                }
            }
            t = t + 1;
        }
        proof {
            // the settled step is this loop's step count
            assert(has_within(cloud, vec, radius as int)) by {
                let m0 = choose|m: int| 0 <= m < found@.len() && #[trigger] found@[m] == idx;
                assert(dist_sq(cloud[idx as int], vec) <= (radius as int) * (radius as int));
            }
            assert(settle_step(cloud, vec, nbi, steps as int) == steps as int);
            // the chosen index is the least one within the settled radius
            let mi = choose|m: int| 0 <= m < found@.len() && #[trigger] found@[m] == idx;
            assert(idx < cloud.len());
            assert forall|j: int| 0 <= j < idx implies dist_sq(#[trigger] cloud[j], vec)
                > (radius as int) * (radius as int) by {
                if dist_sq(cloud[j], vec) <= (radius as int) * (radius as int) {
                    assert(listed(found@, j));
                    let mj = choose|m: int| 0 <= m < found@.len() && #[trigger] found@[m] == j;
                    assert(idx <= found@[mj]);
                    assert(false);
                }
            }
            lemma_first_within_is(cloud, vec, radius as int, idx as int, 0);
        }
        let v = self.poly[idx].eval_xy(x, y);
        Ok(v)
    }

    /// Runs the whole pipeline: clouds and relaxation, initial values,
    /// neighborhood resolution, and patch fitting, failing fast on the first
    /// error. On success the model is ready for point queries.
    pub fn make(num_points: usize, dim: usize, tol: i64, rng: &mut rand::rngs::StdRng) -> (r:
        Result<WaveEq, ModelError>)
        ensures
            (num_points == 0 || num_points > RING_CAP || dim > MAX_DEGREE) <==> (r matches Err(
            e) && e == ModelError::Configuration),
            r matches Ok(w) ==> ({
                &&& w.clouds_wf()
                &&& w.values_set()
                &&& w.boundary_resolved()
                &&& w.interior_resolved()
                &&& w.plus_resolved()
                &&& w.patches_ready()
                &&& w.boundary.points@.len() == num_points
                &&& w.interior.points@.len() == interior_count(num_points as int)
                &&& w.value@.len() == interior_count(num_points as int)
                &&& w.near@.len() == num_points
                &&& forall|i: int|
                    0 <= i < w.poly@.len() ==> (#[trigger] w.poly@[i]).degree == dim
                &&& forall|i: int|
                    0 <= i < w.poly@.len() ==> potential_spec(
                        w.fit_samples(i),
                        (#[trigger] w.poly@[i]).two_poly@,
                        w.poly@[i].degree as int,
                    ) < tol
            }),
    {
        if dim > MAX_DEGREE {
            return Err(ModelError::Configuration);
        }
        let mut wave = WaveEq::new();
        match wave.create(num_points, rng) {
            Result::Err(e) => {
                return Err(e);
            },
            Result::Ok(u) => {
                u
            },
        }
        wave.set_initial_condition();
        match wave.set_boundary_near_points() {
            Result::Err(e) => {
                return Err(e);
            },
            Result::Ok(u) => {
                u
            },
        }
        match wave.set_interior_near_points() {
            Result::Err(e) => {
                return Err(e);
            },
            Result::Ok(u) => {
                u
            },
        }
        wave.set_interior_near_points_plus_boundary();
        wave.init_poly(dim);
        match wave.set_init_poly(tol) {
            Result::Err(e) => {
                return Err(e);
            },
            Result::Ok(u) => {
                u
            },
        }
        Ok(wave)
    }
}

/// The least-index scan settles on a minimum: if nothing before `idx` is
/// within the radius and `idx` is, the scan from `k` returns `idx`.
proof fn lemma_first_within_is(
    cloud: Seq<Grid2D>,
    center: Grid2D,
    radius: int,
    idx: int,
    k: int,
)
    requires
        0 <= k <= idx < cloud.len(),
        forall|j: int| k <= j < idx ==> dist_sq(#[trigger] cloud[j], center) > radius * radius,
        dist_sq(cloud[idx], center) <= radius * radius,
    ensures
        first_within(cloud, center, radius, k) == idx,
    decreases idx - k,
{
    if k < idx {
        assert(dist_sq(cloud[k], center) > radius * radius);
        lemma_first_within_is(cloud, center, radius, idx, k + 1);
    }
}

/// A list in which every index below `n` occurs is at least `n` long.
proof fn lemma_covering_list(s: Seq<usize>, n: int)
    requires
        0 <= n,
        forall|i: int| 0 <= i < n ==> listed(s, i),
    ensures
        s.len() >= n,
{
    let si = s.map_values(|u: usize| u as int);
    si.lemma_cardinality_of_set();
    vstd::seq_lib::seq_to_set_is_finite(si);
    vstd::set_lib::lemma_int_range(0, n);
    assert(vstd::set_lib::set_int_range(0, n).subset_of(si.to_set())) by {
        assert forall|x: int|
            vstd::set_lib::set_int_range(0, n).contains(x) implies si.to_set().contains(x) by {
            assert(listed(s, x));
            let m = choose|m: int| 0 <= m < s.len() && #[trigger] s[m] == x;
            assert(si[m] == x);
            assert(si.contains(x));
        }
    }
    vstd::set_lib::lemma_len_subset(vstd::set_lib::set_int_range(0, n), si.to_set());
}

/// A sequence of distinct indices below `n` cannot be longer than `n`.
proof fn lemma_distinct_bounded(s: Seq<usize>, n: int)
    requires
        0 <= n,
        forall|k1: int, k2: int| 0 <= k1 < k2 < s.len() ==> s[k1] != s[k2],
        forall|k: int| 0 <= k < s.len() ==> (#[trigger] s[k]) < n,
    ensures
        s.len() <= n,
{
    let si = s.map_values(|u: usize| u as int);
    assert(si.no_duplicates()) by {
        assert forall|i1: int, i2: int|
            0 <= i1 < si.len() && 0 <= i2 < si.len() && i1 != i2 implies si[i1] != si[i2] by {
            assert(si[i1] == s[i1] as int && si[i2] == s[i2] as int);
            if i1 < i2 {
                assert(s[i1] != s[i2]);
            } else {
                assert(s[i2] != s[i1]);
            }
        }
    }
    si.unique_seq_to_set();
    vstd::set_lib::lemma_int_range(0, n);
    assert(si.to_set().subset_of(vstd::set_lib::set_int_range(0, n))) by {
        assert forall|x: int| si.to_set().contains(x) implies vstd::set_lib::set_int_range(
            0,
            n,
        ).contains(x) by {
            assert(si.contains(x));
            let k = choose|k: int| 0 <= k < si.len() && si[k] == x;
            assert(s[k] < n);
        }
    }
    vstd::set_lib::lemma_len_subset(si.to_set(), vstd::set_lib::set_int_range(0, n));
}

/// Halving both components after the quarter turn takes the squared norm
/// down to at most a quarter of what it was.
proof fn lemma_halving_shrinks(ox: int, oy: int)
    requires
        ox * ox + oy * oy >= (SCALE as int) * (SCALE as int),
    ensures
        (-div_trunc(oy, 2)) * (-div_trunc(oy, 2)) + div_trunc(ox, 2) * div_trunc(ox, 2) < ox * ox
            + oy * oy,
        -(div_trunc(oy, 2)) == if oy >= 0 { -(oy / 2) } else { (-oy) / 2 },
{
    let hx = div_trunc(ox, 2);
    let hy = div_trunc(oy, 2);
    lemma_abs_halving(ox);
    lemma_abs_halving(oy);
    assert({
        &&& 4 * (hx * hx) <= ox * ox
        &&& 4 * (hy * hy) <= oy * oy
    }) by (nonlinear_arith)
        requires
            -ox <= 2 * hx <= ox || ox <= 2 * hx <= -ox,
            -oy <= 2 * hy <= oy || oy <= 2 * hy <= -oy,
    ;
    assert((-hy) * (-hy) == hy * hy) by (nonlinear_arith);
    assert(ox * ox + oy * oy >= 16777216);
}

/// The truncated half of a value has at most half its magnitude.
proof fn lemma_abs_halving(v: int)
    ensures
        -v <= 2 * div_trunc(v, 2) <= v || v <= 2 * div_trunc(v, 2) <= -v,
{
    if v >= 0 {
        vstd::arithmetic::div_mod::lemma_fundamental_div_mod(v, 2);
        vstd::arithmetic::div_mod::lemma_mod_division_less_than_divisor(v, 2);
        vstd::arithmetic::div_mod::lemma_div_pos_is_pos(v, 2);
    } else {
        vstd::arithmetic::div_mod::lemma_fundamental_div_mod(-v, 2);
        vstd::arithmetic::div_mod::lemma_mod_division_less_than_divisor(-v, 2);
        vstd::arithmetic::div_mod::lemma_div_pos_is_pos(-v, 2);
    }
}

/// One pairwise 12-6 force contribution in fixed point, with the ratio
/// `sigma / r` saturated so that near-coincident points give the largest
/// representable repulsion instead of overflowing.
fn lj_term(dx: i64, dy: i64, sigma: i64) -> (t: (i128, i128))
    requires
        -32768 <= dx <= 32768,
        -32768 <= dy <= 32768,
        0 <= sigma <= 13451264,
    ensures
        -4000000000000000000000000 <= t.0 <= 4000000000000000000000000,
        -4000000000000000000000000 <= t.1 <= 4000000000000000000000000,
        t.0 == lj_term_spec(dx as int, dy as int, sigma as int).0,
        t.1 == lj_term_spec(dx as int, dy as int, sigma as int).1,
{
    proof {
        assert({
            &&& 0 <= (dx as int) * (dx as int) <= 1073741824
            &&& 0 <= (dy as int) * (dy as int) <= 1073741824
        }) by (nonlinear_arith)
            requires
                -32768 <= dx <= 32768,
                -32768 <= dy <= 32768,
        ;
    }
    let r2: i64 = dx * dx + dy * dy;
    let r: u64 = isqrt_u64(r2 as u64);
    proof {
        assert(r <= 65536) by (nonlinear_arith)
            requires
                (r as int) * (r as int) <= 2147483648,
                0 <= r,
        ;
    }
    let rc: i128 = if r == 0 {
        1
    } else {
        r as i128
    };
    proof {
        assert(0 <= (sigma as int) * (SCALE as int) <= 55096377344) by (nonlinear_arith)
            requires
                0 <= sigma <= 13451264,
                SCALE == 4096,
        ;
        lemma_div_band((sigma as int) * (SCALE as int), rc as int);
    }
    let u0: i128 = ((sigma as i128) * (SCALE as i128)) / rc;
    let u: i128 = if u0 > 65536 {
        65536
    } else {
        u0
    };
    proof {
        assert(0 <= u * u <= 4294967296) by (nonlinear_arith)
            requires
                0 <= u <= 65536,
        ;
    }
    let u2pre: i128 = u * u;
    proof {
        vstd::arithmetic::div_mod::lemma_div_pos_is_pos(u2pre as int, SCALE as int);
        vstd::arithmetic::div_mod::lemma_div_is_ordered(u2pre as int, 4294967296, SCALE as int);
    }
    let u2: i128 = u2pre / (SCALE as i128);
    proof {
        assert(0 <= u2 * u2 <= 1099511627776) by (nonlinear_arith)
            requires
                0 <= u2 <= 1048576,
        ;
    }
    let u4pre: i128 = u2 * u2;
    proof {
        vstd::arithmetic::div_mod::lemma_div_pos_is_pos(u4pre as int, SCALE as int);
        vstd::arithmetic::div_mod::lemma_div_is_ordered(u4pre as int, 1099511627776, SCALE as int);
    }
    let u4: i128 = u4pre / (SCALE as i128);
    proof {
        assert(0 <= u4 * u2 <= 281474976710656) by (nonlinear_arith)
            requires
                0 <= u4 <= 268435456,
                0 <= u2 <= 1048576,
        ;
    }
    let u6pre: i128 = u4 * u2;
    proof {
        vstd::arithmetic::div_mod::lemma_div_pos_is_pos(u6pre as int, SCALE as int);
        vstd::arithmetic::div_mod::lemma_div_is_ordered(u6pre as int, 281474976710656, SCALE as int);
    }
    let u6: i128 = u6pre / (SCALE as i128);
    proof {
        assert(0 <= u6 * u6 <= 4722366482869645213696) by (nonlinear_arith)
            requires
                0 <= u6 <= 68719476736,
        ;
    }
    let u12pre: i128 = u6 * u6;
    proof {
        vstd::arithmetic::div_mod::lemma_div_pos_is_pos(u12pre as int, SCALE as int);
        vstd::arithmetic::div_mod::lemma_div_is_ordered(
            u12pre as int,
            4722366482869645213696,
            SCALE as int,
        );
    }
    let u12: i128 = u12pre / (SCALE as i128);
    proof {
        assert(rc as int == lj_rc_spec(dx as int, dy as int));
        assert(u as int == lj_u_spec(sigma as int, rc as int));
    }
    let tx = lj_component(u12, u6, dx, rc);
    let ty = lj_component(u12, u6, dy, rc);
    (tx, ty)
}

/// The force component along one axis: `48 u^12 d / r - 24 u^6 d / r`.
fn lj_component(u12: i128, u6: i128, d: i64, rc: i128) -> (t: i128)
    requires
        0 <= u12 <= 1152921504606846976,
        0 <= u6 <= 68719476736,
        -32768 <= d <= 32768,
        1 <= rc <= 65536,
    ensures
        -4000000000000000000000000 <= t <= 4000000000000000000000000,
        t == lj_component_spec(u12 as int, u6 as int, d as int, rc as int),
{
    proof {
        assert({
            &&& -1813388729421943762059264 <= 48 * u12 * (d as int)
            &&& 48 * u12 * (d as int) <= 1813388729421943762059264
            &&& -108086391056891904 <= 24 * u6 * (d as int)
            &&& 24 * u6 * (d as int) <= 108086391056891904
        }) by (nonlinear_arith)
            requires
                0 <= u12 <= 1152921504606846976,
                0 <= u6 <= 68719476736,
                -32768 <= d <= 32768,
        ;
    }
    let a: i128 = 48 * u12 * (d as i128);
    let b: i128 = 24 * u6 * (d as i128);
    proof {
        lemma_div_trunc_bound(a as int, rc as int, 1813388729421943762059264);
        lemma_div_trunc_bound(b as int, rc as int, 108086391056891904);
        assert({
            &&& -(1813388729421943762059264 * rc) <= a <= 1813388729421943762059264 * rc
            &&& -(108086391056891904 * rc) <= b <= 108086391056891904 * rc
        }) by (nonlinear_arith)
            requires
                -1813388729421943762059264 <= a <= 1813388729421943762059264,
                -108086391056891904 <= b <= 108086391056891904,
                1 <= rc,
        ;
    }
    let t1 = crate::fixed::div_trunc_i128(a, rc);
    let t2 = crate::fixed::div_trunc_i128(b, rc);
    t1 - t2
}

} // verus!
