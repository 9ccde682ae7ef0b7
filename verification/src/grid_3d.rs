//! Batch gradient descent fitting of a two-variable polynomial to a set of
//! (x, y, z) samples, minimizing the mean squared error.
//!
//! The objective and its gradient are exact integer computations over the
//! fixed-point mantissas, so the descent loop carries a proved guarantee: a
//! candidate step is adopted only when it strictly lowers the objective, and
//! the objective of the polynomial handed back never exceeds the objective of
//! the one handed in. The loop is capped; running out of iterations is
//! reported as a flag beside the best coefficients found, never as success.

use crate::error::ModelError;
use crate::fixed::COORD_LIMIT;
use crate::fixed::SCALE;
use crate::fixed::clamp;
use crate::fixed::div_trunc;
use crate::fixed::int_pow;
use crate::fixed::lemma_div_trunc_bound;
use crate::fixed::lemma_four_pow_cap;
use crate::fixed::lemma_pow_caps;
use crate::fixed::scale_pow;
use crate::point::Point3;
use crate::two_variable_polynomial::COEF_LIMIT;
use crate::two_variable_polynomial::MAX_DEGREE;
use crate::two_variable_polynomial::TwoPolynomial;
use crate::two_variable_polynomial::VALUE_LIMIT;
use crate::two_variable_polynomial::eval_mantissa;
use vstd::arithmetic::power::pow;
use vstd::prelude::*;

verus! {

/// Largest residual mantissa a well-formed sample and polynomial can give.
pub const RES_LIMIT: i64 = COEF_LIMIT + VALUE_LIMIT;

/// Cap on one squared-residual contribution to the objective.
pub const SQ_CAP: i128 = 400000000000000000000000000;

/// Band the reported gradient entries are clamped into.
pub const GRAD_LIMIT: i64 = 0x4000_0000_0000_0000;

/// Largest number of samples a grid may hold.
pub const LEN_LIMIT: usize = 0x4000_0000;

/// Scale of the descent step size `dt`: the square of the coordinate scale.
pub const DT_SCALE: i64 = SCALE * SCALE;

/// Initial, smallest and largest step sizes of the descent loop.
pub const DT_INIT: i64 = 16777;

pub const DT_MIN: i64 = 167;

pub const DT_MAX: i64 = 1000 * DT_SCALE;

/// Iteration bound of the descent loop; reaching it without meeting the
/// tolerance is reported, not treated as success.
pub const MAX_FIT_ITERS: usize = 50000;

/// A sample whose mantissas lie in the bands the fitter accepts.
pub open spec fn sample_ok(p: Point3) -> bool {
    &&& -COORD_LIMIT <= p.x <= COORD_LIMIT
    &&& -COORD_LIMIT <= p.y <= COORD_LIMIT
    &&& -COEF_LIMIT <= p.z <= COEF_LIMIT
}

/// The residual of one sample under the polynomial: `z - P(x, y)`.
pub open spec fn residual(p: Point3, c: Seq<i64>, n: int) -> int {
    p.z - eval_mantissa(c, n, p.x as int, p.y as int)
}

/// One sample's contribution to the objective: its squared residual brought
/// back to the common scale.
pub open spec fn sq_term(p: Point3, c: Seq<i64>, n: int) -> int {
    div_trunc(residual(p, c, n) * residual(p, c, n), SCALE as int)
}

/// Sum of the first `j` samples' contributions to the objective.
pub open spec fn pot_prefix(pts: Seq<Point3>, c: Seq<i64>, n: int, j: int) -> int
    decreases j,
{
    if j <= 0 {
        0
    } else {
        pot_prefix(pts, c, n, j - 1) + sq_term(pts[j - 1], c, n)
    }
}

/// The mean squared error objective of the fit.
pub open spec fn potential_spec(pts: Seq<Point3>, c: Seq<i64>, n: int) -> int {
    div_trunc(pot_prefix(pts, c, n, pts.len() as int), pts.len() as int)
}

/// One sample's contribution to the gradient entry with powers `(xd, yd)`.
pub open spec fn grad_term(p: Point3, c: Seq<i64>, n: int, xd: int, yd: int) -> int {
    div_trunc(
        pow(p.x as int, xd as nat) * pow(p.y as int, yd as nat) * residual(p, c, n),
        pow(SCALE as int, (xd + yd) as nat),
    )
}

/// Sum of the first `j` samples' contributions to that gradient entry.
pub open spec fn grad_prefix(pts: Seq<Point3>, c: Seq<i64>, n: int, xd: int, yd: int, j: int) -> int
    decreases j,
{
    if j <= 0 {
        0
    } else {
        grad_prefix(pts, c, n, xd, yd, j - 1) + grad_term(pts[j - 1], c, n, xd, yd)
    }
}

/// The descent direction entry for buffer index `idx`: minus the gradient
/// sum, clamped; entries outside the triangular part are zero.
pub open spec fn du_at(pts: Seq<Point3>, c: Seq<i64>, n: int, idx: int) -> int {
    let xd = idx / (n + 1);
    let yd = idx % (n + 1);
    if xd + yd <= n {
        clamp(-grad_prefix(pts, c, n, xd, yd, pts.len() as int), GRAD_LIMIT as int)
    } else {
        0
    }
}

/// The coefficient at `idx` after one descent step of size `dt`.
pub open spec fn step_coef(pts: Seq<Point3>, c: Seq<i64>, n: int, dt: int, idx: int) -> int {
    clamp(
        c[idx] - div_trunc(dt * du_at(pts, c, n, idx), DT_SCALE as int),
        COEF_LIMIT as int,
    )
}

/// All coefficients after one descent step.
pub open spec fn step_all(pts: Seq<Point3>, c: Seq<i64>, n: int, dt: int) -> Seq<i64> {
    Seq::new(c.len(), |idx: int| step_coef(pts, c, n, dt, idx) as i64)
}

/// The step-size schedule: grow a hundredth after an adopted or neutral
/// step, shrink a tenth after a worse one, within the caps.
pub open spec fn dt_grow(dt: int) -> int {
    if dt + dt / 100 > DT_MAX {
        DT_MAX as int
    } else {
        dt + dt / 100
    }
}

pub open spec fn dt_shrink(dt: int) -> int {
    if dt - dt / 10 < DT_MIN {
        DT_MIN as int
    } else {
        dt - dt / 10
    }
}

/// The capped adaptive descent, from coefficients `c` and step size `dt`
/// with `it` iterations already spent: the coefficients it ends on, and
/// whether a candidate objective fell below the tolerance.
pub open spec fn descent(
    pts: Seq<Point3>,
    n: int,
    tol: int,
    c: Seq<i64>,
    dt: int,
    it: int,
) -> (Seq<i64>, bool)
    decreases MAX_FIT_ITERS - it,
{
    if it >= MAX_FIT_ITERS {
        (c, false)
    } else {
        let tmp = step_all(pts, c, n, dt);
        let pre = potential_spec(pts, c, n);
        let post = potential_spec(pts, tmp, n);
        let c2 = if pre > post {
            tmp
        } else {
            c
        };
        let dt2 = if pre > post {
            dt_grow(dt)
        } else if post > pre {
            dt_shrink(dt)
        } else {
            dt_grow(dt)
        };
        if post < tol {
            (c2, true)
        } else {
            descent(pts, n, tol, c2, dt2, it + 1)
        }
    }
}

#[derive(Debug)]
pub struct Grid3D {
    pub points_3d: Vec<Point3>,
}

impl Grid3D {
    /// Every sample is in band and the grid is not unreasonably large.
    pub open spec fn wf(&self) -> bool {
        &&& self.points_3d@.len() <= LEN_LIMIT
        &&& forall|k: int| 0 <= k < self.points_3d@.len() ==> sample_ok(#[trigger] self.points_3d@[k])
    }

    pub fn new() -> (r: Self)
        ensures
            r.wf(),
            r.points_3d@.len() == 0,
    {
        Grid3D { points_3d: Vec::new() }
    }

    /// Appends a sample; the samples already stored keep their positions.
    pub fn push(&mut self, vec: Point3)
        requires
            old(self).wf(),
            old(self).points_3d@.len() < LEN_LIMIT,
            sample_ok(vec),
        ensures
            final(self).wf(),
            final(self).points_3d@ == old(self).points_3d@.push(vec),
    {
        self.points_3d.push(Point3 { x: vec.x, y: vec.y, z: vec.z });
        proof {
            assert(self.points_3d@ =~= old(self).points_3d@.push(vec));
        }
    }

    /// The mean squared error of the polynomial over the samples, exactly as
    /// `potential_spec` states it.
    pub fn potential(&self, poly: &TwoPolynomial) -> (u: i128)
        requires
            self.wf(),
            poly.wf(),
            self.points_3d@.len() > 0,
        ensures
            u == potential_spec(self.points_3d@, poly.two_poly@, poly.degree as int),
            u >= 0,
    {
        let ghost pts = self.points_3d@;
        let ghost cg = poly.two_poly@;
        let ghost ni = poly.degree as int;
        let len = self.points_3d.len();
        let mut sum: i128 = 0;
        let mut j: usize = 0;
        while j < len
            invariant
                self.wf(),
                poly.wf(),
                pts == self.points_3d@,
                cg == poly.two_poly@,
                ni == poly.degree as int,
                j <= len,
                len == pts.len(),
                sum == pot_prefix(pts, cg, ni, j as int),
                0 <= sum <= (j as int) * SQ_CAP,
            decreases len - j,
        {
            let p = self.points_3d[j];
            let ev = poly.eval_xy(p.x, p.y);
            let r64: i64 = p.z - ev;
            let rw: i128 = r64 as i128;
            proof {
                assert(0 <= rw * rw <= 1600000000000000000000000000) by (nonlinear_arith)
                    requires
                        -39583492341760 <= rw <= 39583492341760,
                ;
            }
            let rr: i128 = rw * rw;
            let term = crate::fixed::div_trunc_i128(rr, SCALE as i128);
            proof {
                vstd::arithmetic::div_mod::lemma_div_pos_is_pos(rr as int, SCALE as int);
                lemma_div_trunc_bound(rr as int, SCALE as int, SQ_CAP as int);
                assert(r64 as int == residual(pts[j as int], cg, ni));
                assert(term == sq_term(pts[j as int], cg, ni));
            }
            sum = sum + term;
            j = j + 1;
        }
        let u = crate::fixed::div_trunc_i128(sum, len as i128);
        proof {
            vstd::arithmetic::div_mod::lemma_div_pos_is_pos(sum as int, len as int);
            vstd::arithmetic::div_mod::lemma_div_nonincreasing(sum as int, len as int);
        }
        u
    }

    /// The gradient of the total squared error in every coefficient, clamped
    /// entrywise into the reporting band.
    pub fn potential_deriv(&self, poly: &TwoPolynomial) -> (du: Vec<i64>)
        requires
            self.wf(),
            poly.wf(),
        ensures
            du@.len() == poly.two_poly@.len(),
            forall|idx: int|
                0 <= idx < du@.len() ==> #[trigger] du@[idx] as int == du_at(
                    self.points_3d@,
                    poly.two_poly@,
                    poly.degree as int,
                    idx,
                ),
    {
        let ghost pts = self.points_3d@;
        let ghost cg = poly.two_poly@;
        let ghost ni = poly.degree as int;
        let n = poly.degree;
        let d1: usize = n + 1;
        assert(d1 * d1 <= 36 && cg.len() == d1 * d1) by (nonlinear_arith)
            requires
                d1 == n + 1,
                n <= 5,
                cg.len() == (n + 1) * (n + 1),
        ;
        let nc: usize = d1 * d1;
        let len = self.points_3d.len();
        let mut du: Vec<i64> = Vec::new();
        let mut idx: usize = 0;
        while idx < nc
            invariant
                self.wf(),
                poly.wf(),
                pts == self.points_3d@,
                cg == poly.two_poly@,
                ni == poly.degree as int,
                n == poly.degree,
                d1 == n + 1,
                nc == d1 * d1,
                nc == cg.len(),
                len == pts.len(),
                idx <= nc,
                du@.len() == idx,
                forall|m: int|
                    0 <= m < idx ==> #[trigger] du@[m] as int == du_at(pts, cg, ni, m),
            decreases nc - idx,
        {
            let xd: usize = idx / d1;
            let yd: usize = idx % d1;
            proof {
                vstd::arithmetic::div_mod::lemma_multiply_divide_lt(idx as int, d1 as int, d1 as int);
                vstd::arithmetic::div_mod::lemma_mod_division_less_than_divisor(idx as int, d1 as int);
                assert(xd as int == idx as int / (ni + 1));
                assert(yd as int == idx as int % (ni + 1));
            }
            if xd + yd <= n {
                let ghost xi = xd as int;
                let ghost yi = yd as int;
                let mut acc: i128 = 0;
                let mut j: usize = 0;
                while j < len
                    invariant
                        self.wf(),
                        poly.wf(),
                        pts == self.points_3d@,
                        cg == poly.two_poly@,
                        ni == poly.degree as int,
                        len == pts.len(),
                        j <= len,
                        xi == xd as int,
                        yi == yd as int,
                        xd + yd <= poly.degree,
                        acc == grad_prefix(pts, cg, ni, xi, yi, j as int),
                        -((j as int) * (1024 * RES_LIMIT)) <= acc <= (j as int) * (1024
                            * RES_LIMIT),
                    decreases len - j,
                {
                    let p = self.points_3d[j];
                    let ev = poly.eval_xy(p.x, p.y);
                    let r64: i64 = p.z - ev;
                    let px = int_pow(p.x, xd);
                    let py = int_pow(p.y, yd);
                    let ghost e = (xi + yi) as nat;
                    proof {
                        vstd::arithmetic::power::lemma_pow_adds(COORD_LIMIT as int, xd as nat, yd as nat);
                        lemma_pow_caps(e);
                        lemma_pow_caps(xd as nat);
                        lemma_pow_caps(yd as nat);
                        assert({
                            &&& -pow(COORD_LIMIT as int, e) <= px * py <= pow(COORD_LIMIT as int, e)
                        }) by (nonlinear_arith)
                            requires
                                -pow(COORD_LIMIT as int, xd as nat) <= px <= pow(COORD_LIMIT as int, xd as nat),
                                -pow(COORD_LIMIT as int, yd as nat) <= py <= pow(COORD_LIMIT as int, yd as nat),
                                pow(COORD_LIMIT as int, e) == pow(COORD_LIMIT as int, xd as nat)
                                    * pow(COORD_LIMIT as int, yd as nat),
                                0 <= pow(COORD_LIMIT as int, xd as nat),
                                0 <= pow(COORD_LIMIT as int, yd as nat),
                        ;
                    }
                    let prod: i128 = px * py;
                    proof {
                        assert(-50000000000000000000000000000000000 <= prod * (r64 as i128)
                            <= 50000000000000000000000000000000000) by (nonlinear_arith)
                            requires
                                -1180591620717411303424 <= prod <= 1180591620717411303424,
                                -39583492341760 <= r64 <= 39583492341760,
                        ;
                    }
                    let v: i128 = prod * (r64 as i128);
                    let sp = scale_pow(xd + yd);
                    proof {
                        vstd::arithmetic::power::lemma_pow_distributes(4, SCALE as int, e);
                        lemma_four_pow_cap(e);
                        assert({
                            &&& -(pow(COORD_LIMIT as int, e) * 39583492341760) <= prod * (
                            r64 as i128)
                            &&& prod * (r64 as i128) <= pow(COORD_LIMIT as int, e)
                                * 39583492341760
                        }) by (nonlinear_arith)
                            requires
                                -pow(COORD_LIMIT as int, e) <= prod <= pow(COORD_LIMIT as int, e),
                                -39583492341760 <= r64 <= 39583492341760,
                                0 <= pow(COORD_LIMIT as int, e),
                        ;
                        assert({
                            &&& -((1024 * RES_LIMIT) * pow(SCALE as int, e)) <= v
                            &&& v <= (1024 * RES_LIMIT) * pow(SCALE as int, e)
                        }) by (nonlinear_arith)
                            requires
                                -(pow(COORD_LIMIT as int, e) * 39583492341760) <= v
                                    <= pow(COORD_LIMIT as int, e) * 39583492341760,
                                pow(COORD_LIMIT as int, e) == pow(4, e) * pow(SCALE as int, e),
                                0 < pow(4, e) <= 1024,
                                0 < pow(SCALE as int, e),
                                RES_LIMIT == 39583492341760,
                        ;
                        lemma_div_trunc_bound(v as int, pow(SCALE as int, e), 1024 * RES_LIMIT);
                    }
                    let term = crate::fixed::div_trunc_i128(v, sp);
                    proof {
                        assert(r64 as int == residual(pts[j as int], cg, ni));
                        assert(term == grad_term(pts[j as int], cg, ni, xi, yi));
                        assert(-(1024 * RES_LIMIT) <= term <= 1024 * RES_LIMIT);
                        assert(-((j as int) * (1024 * RES_LIMIT)) - (1024 * RES_LIMIT)
                            <= acc + term);
                        assert(acc + term <= (j as int) * (1024 * RES_LIMIT) + (1024
                            * RES_LIMIT));
                        assert((j as int) * (1024 * RES_LIMIT) + (1024 * RES_LIMIT) == ((
                        j + 1) as int) * (1024 * RES_LIMIT)) by (nonlinear_arith);
                        assert(-50000000000000000000000000000 <= acc + term
                            <= 50000000000000000000000000000) by (nonlinear_arith)
                            requires
                                -((j as int) * 40533496157962240) - 40533496157962240 <= acc
                                    + term <= (j as int) * 40533496157962240
                                    + 40533496157962240,
                                0 <= j < 0x4000_0000,
                        ;
                    }
                    acc = acc + term;
                    j = j + 1;
                }
                proof {
                    assert(-50000000000000000000000000000 <= acc
                        <= 50000000000000000000000000000) by (nonlinear_arith)
                        requires
                            -((j as int) * 40533496157962240) <= acc <= (j as int)
                                * 40533496157962240,
                            0 <= j <= 0x4000_0000,
                    ;
                }
                let entry = crate::fixed::clamp_i128(-acc, GRAD_LIMIT);
                du.push(entry);
                proof {
                    assert(du@[idx as int] as int == du_at(pts, cg, ni, idx as int));
                }
            } else {
                du.push(0);
                proof {
                    assert(du@[idx as int] as int == du_at(pts, cg, ni, idx as int));
                }
            }
            idx = idx + 1;
        }
        du
    }

    /// One batch descent step: every coefficient moves against its gradient
    /// entry by `dt`, staying inside the coefficient band.
    pub fn euler_step(&self, poly: &mut TwoPolynomial, dt: i64)
        requires
            self.wf(),
            old(poly).wf(),
            0 < dt <= DT_MAX,
        ensures
            final(poly).wf(),
            final(poly).degree == old(poly).degree,
            final(poly).two_poly@.len() == old(poly).two_poly@.len(),
            forall|idx: int|
                0 <= idx < final(poly).two_poly@.len()
                    ==> #[trigger] final(poly).two_poly@[idx] as int == step_coef(
                    self.points_3d@,
                    old(poly).two_poly@,
                    old(poly).degree as int,
                    dt as int,
                    idx,
                ),
    {
        let ghost pts = self.points_3d@;
        let ghost cg = old(poly).two_poly@;
        let ghost ni = old(poly).degree as int;
        let du = self.potential_deriv(poly);
        let nc = poly.two_poly.len();
        let mut buf: Vec<i64> = Vec::new();
        let mut idx: usize = 0;
        while idx < nc
            invariant
                idx <= nc,
                nc == cg.len(),
                du@.len() == nc,
                poly.wf(),
                cg == poly.two_poly@,
                ni == poly.degree as int,
                pts == self.points_3d@,
                0 < dt <= DT_MAX,
                forall|m: int|
                    0 <= m < nc ==> #[trigger] du@[m] as int == du_at(pts, cg, ni, m),
                buf@.len() == idx,
                forall|m: int|
                    0 <= m < idx ==> #[trigger] buf@[m] as int == step_coef(
                        pts,
                        cg,
                        ni,
                        dt as int,
                        m,
                    ),
                forall|m: int|
                    0 <= m < idx ==> -COEF_LIMIT <= #[trigger] buf@[m] <= COEF_LIMIT,
            decreases nc - idx,
        {
            let g: i128 = du[idx] as i128;
            proof {
                assert({
                    &&& -85070591730234615865843651857942052864 <= (dt as i128) * g
                    &&& (dt as i128) * g <= 85070591730234615865843651857942052864
                }) by (nonlinear_arith)
                    requires
                        0 < dt <= 16777216000,
                        -0x4000_0000_0000_0000 <= g <= 0x4000_0000_0000_0000,
                ;
                assert({
                    &&& -77371252455336267181195264000 <= (dt as int) * (g as int)
                    &&& (dt as int) * (g as int) <= 77371252455336267181195264000
                }) by (nonlinear_arith)
                    requires
                        0 < dt <= 16777216000,
                        -0x4000_0000_0000_0000 <= g <= 0x4000_0000_0000_0000,
                ;
                assert(4611686018427387904000 * (DT_SCALE as int)
                    == 77371252455336267181195264000) by (nonlinear_arith);
                lemma_div_trunc_bound(
                    (dt as int) * (g as int),
                    DT_SCALE as int,
                    4611686018427387904000,
                );
            }
            let upd = crate::fixed::div_trunc_i128((dt as i128) * g, DT_SCALE as i128);
            let cv: i128 = poly.two_poly[idx] as i128;
            let nv = crate::fixed::clamp_i128(cv - upd, COEF_LIMIT);
            buf.push(nv);
            idx = idx + 1;
        }
        poly.two_poly = buf;
    }

    /// Gradient descent with an adaptive step size: a candidate step is
    /// adopted only when it strictly lowers the objective, so the objective
    /// of the polynomial handed back never exceeds the one handed in. Stops
    /// as soon as a candidate objective falls below `tol`; gives up after
    /// `MAX_FIT_ITERS` iterations and reports the best coefficients with a
    /// `false` flag. The outcome is exactly what the spec-level `descent`
    /// of the same samples, tolerance and starting point computes. An empty
    /// sample set is an error.
    pub fn poly_fitting_by_euler_with_tol(&self, poly: &mut TwoPolynomial, tol: i64) -> (r: Result<
        (Vec<i64>, bool),
        ModelError,
    >)
        requires
            self.wf(),
            old(poly).wf(),
        ensures
            final(poly).wf(),
            final(poly).degree == old(poly).degree,
            r is Err <==> self.points_3d@.len() == 0,
            r is Err ==> *final(poly) == *old(poly) && (r matches Err(e) && e
                == ModelError::EmptyNeighborhood),
            r matches Ok(out) ==> out.0@ == final(poly).two_poly@,
            r matches Ok(out) ==> ({
                let d = descent(
                    self.points_3d@,
                    old(poly).degree as int,
                    tol as int,
                    old(poly).two_poly@,
                    DT_INIT as int,
                    0,
                );
                final(poly).two_poly@ == d.0 && out.1 == d.1
            }),
            r is Ok ==> potential_spec(
                self.points_3d@,
                final(poly).two_poly@,
                final(poly).degree as int,
            ) <= potential_spec(self.points_3d@, old(poly).two_poly@, old(poly).degree as int),
            r matches Ok(out) && out.1 ==> potential_spec(
                self.points_3d@,
                final(poly).two_poly@,
                final(poly).degree as int,
            ) < tol,
    {
        if self.points_3d.len() == 0 {
            return Err(ModelError::EmptyNeighborhood);
        }
        let ghost pts = self.points_3d@;
        let ghost c_init = old(poly).two_poly@;
        let ghost ni = old(poly).degree as int;
        let mut dt: i64 = DT_INIT;
        let mut it: usize = 0;
        let mut converged = false;
        while it < MAX_FIT_ITERS && !converged
            invariant
                self.wf(),
                poly.wf(),
                pts == self.points_3d@,
                pts.len() > 0,
                poly.degree as int == ni,
                ni == old(poly).degree as int,
                c_init == old(poly).two_poly@,
                it <= MAX_FIT_ITERS,
                DT_MIN <= dt <= DT_MAX,
                potential_spec(pts, poly.two_poly@, ni) <= potential_spec(pts, c_init, ni),
                converged ==> potential_spec(pts, poly.two_poly@, ni) < tol,
                converged ==> descent(pts, ni, tol as int, c_init, DT_INIT as int, 0) == (
                poly.two_poly@, true),
                !converged ==> descent(pts, ni, tol as int, c_init, DT_INIT as int, 0) == descent(
                    pts,
                    ni,
                    tol as int,
                    poly.two_poly@,
                    dt as int,
                    it as int,
                ),
            decreases MAX_FIT_ITERS - it,
        {
            let ghost c_cur = poly.two_poly@;
            let ghost dt_cur = dt as int;
            let pre = self.potential(poly);
            let mut tmp = poly.duplicate();
            self.euler_step(&mut tmp, dt);
            let post = self.potential(&tmp);
            proof {
                assert forall|idx: int|
                    0 <= idx < tmp.two_poly@.len() implies #[trigger] tmp.two_poly@[idx]
                    == step_all(pts, c_cur, ni, dt_cur)[idx] by {
                    assert(tmp.two_poly@[idx] as int == step_coef(pts, c_cur, ni, dt_cur, idx));
                    assert(-COEF_LIMIT <= step_coef(pts, c_cur, ni, dt_cur, idx) <= COEF_LIMIT);
                }
                assert(tmp.two_poly@ =~= step_all(pts, c_cur, ni, dt_cur));
            }
            if pre > post {
                *poly = tmp;
                dt = dt + dt / 100;
                if dt > DT_MAX {
                    dt = DT_MAX;
                }
            } else if post > pre {
                dt = dt - dt / 10;
                if dt < DT_MIN {
                    dt = DT_MIN;
                }
            } else {
                // a step too small to move the truncated objective: grow the
                // step size so the loop cannot stall on zero-sized updates
                dt = dt + dt / 100;
                if dt > DT_MAX {
                    dt = DT_MAX;
                }
            }
            if post < tol as i128 {
                converged = true;
            }
            proof {
                assert(descent(pts, ni, tol as int, c_cur, dt_cur, it as int) == (if converged {
                    (poly.two_poly@, true)
                } else {
                    descent(pts, ni, tol as int, poly.two_poly@, dt as int, it as int + 1)
                }));
            }
            it = it + 1;
        }
        proof {
            if !converged {
                assert(descent(pts, ni, tol as int, poly.two_poly@, dt as int, it as int) == (
                poly.two_poly@, false));
            }
        }
        let out = poly.duplicate();
        Ok((out.two_poly, converged))
    }
}

} // verus!
