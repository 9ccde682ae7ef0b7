//! One-variable polynomial fitting over (x, y) samples: Horner evaluation,
//! the mean squared error objective and its gradient, and a capped gradient
//! descent with the same adopt-only-on-improvement rule as the two-variable
//! fitter. The coefficient vector is dense, lowest power first.

use crate::error::ModelError;
use crate::fixed::COORD_LIMIT;
use crate::fixed::SCALE;
use crate::fixed::clamp;
use crate::fixed::div_trunc;
use crate::fixed::int_pow;
use crate::fixed::lemma_div_trunc_bound;
use crate::fixed::lemma_four_pow_cap;
use crate::fixed::lemma_pow_caps;
use crate::fixed::scale_pow;
use crate::grid_3d::DT_INIT;
use crate::grid_3d::DT_MIN;
use crate::grid_3d::DT_SCALE;
use crate::grid_3d::GRAD_LIMIT;
use crate::grid_3d::LEN_LIMIT;
use crate::grid_3d::MAX_FIT_ITERS;
use crate::grid_3d::RES_LIMIT;
use crate::grid_3d::SQ_CAP;
use crate::two_variable_polynomial::COEF_LIMIT;
use crate::two_variable_polynomial::VALUE_LIMIT;
use crate::two_variable_polynomial::row_horner;
use crate::two_variable_polynomial::row_terms;
use crate::vector2::Vector2;
use vstd::arithmetic::power::pow;
use vstd::prelude::*;

verus! {

/// Largest step size of the one-variable descent loop (one, in fixed point).
pub const DT_MAX_1D: i64 = DT_SCALE;

/// A dense coefficient vector the routines accept: non-empty, of degree at
/// most five, with every coefficient in the band.
pub open spec fn coefs1_ok(c: Seq<i64>) -> bool {
    &&& 1 <= c.len() <= 6
    &&& forall|k: int| 0 <= k < c.len() ==> -COEF_LIMIT <= #[trigger] c[k] <= COEF_LIMIT
}

/// The one-variable polynomial value at `x`, scaled by `SCALE^degree`: the
/// direct sum `sum_j c[j] * x^j * SCALE^(degree - j)`, which is row zero of
/// the two-variable scheme.
pub open spec fn poly1_num(c: Seq<i64>, x: int) -> int {
    row_terms(c, c.len() - 1, 0, x, 0)
}

/// The fixed-point mantissa of the polynomial value at `x`.
pub open spec fn eval1_mantissa(c: Seq<i64>, x: int) -> int {
    div_trunc(poly1_num(c, x), pow(SCALE as int, (c.len() - 1) as nat))
}

/// A sample whose mantissas lie in the accepted bands.
pub open spec fn sample1_ok(p: Vector2) -> bool {
    &&& -COORD_LIMIT <= p.x <= COORD_LIMIT
    &&& -COEF_LIMIT <= p.y <= COEF_LIMIT
}

/// The residual of one sample: `y - P(x)`.
pub open spec fn residual1(p: Vector2, c: Seq<i64>) -> int {
    p.y - eval1_mantissa(c, p.x as int)
}

/// One sample's contribution to the objective.
pub open spec fn sq1_term(p: Vector2, c: Seq<i64>) -> int {
    div_trunc(residual1(p, c) * residual1(p, c), SCALE as int)
}

/// Sum of the first `j` samples' contributions to the objective.
pub open spec fn pot1_prefix(pts: Seq<Vector2>, c: Seq<i64>, j: int) -> int
    decreases j,
{
    if j <= 0 {
        0
    } else {
        pot1_prefix(pts, c, j - 1) + sq1_term(pts[j - 1], c)
    }
}

/// The mean squared error objective.
pub open spec fn potential1_spec(pts: Seq<Vector2>, c: Seq<i64>) -> int {
    div_trunc(pot1_prefix(pts, c, pts.len() as int), pts.len() as int)
}

/// One sample's contribution to the gradient entry of power `d`, brought
/// back to the common scale.
pub open spec fn grad1_term(p: Vector2, c: Seq<i64>, d: int) -> int {
    div_trunc(pow(p.x as int, d as nat) * residual1(p, c), pow(SCALE as int, d as nat))
}

/// Sum of the first `j` samples' contributions to that entry.
pub open spec fn grad1_prefix(pts: Seq<Vector2>, c: Seq<i64>, d: int, j: int) -> int
    decreases j,
{
    if j <= 0 {
        0
    } else {
        grad1_prefix(pts, c, d, j - 1) + grad1_term(pts[j - 1], c, d)
    }
}

/// The descent direction entry of power `d`: minus the mean gradient,
/// clamped.
pub open spec fn du1_at(pts: Seq<Vector2>, c: Seq<i64>, d: int) -> int {
    clamp(
        -div_trunc(grad1_prefix(pts, c, d, pts.len() as int), pts.len() as int),
        GRAD_LIMIT as int,
    )
}

/// The coefficient of power `d` after one descent step of size `dt`.
pub open spec fn step1_coef(pts: Seq<Vector2>, c: Seq<i64>, dt: int, d: int) -> int {
    clamp(c[d] - div_trunc(dt * du1_at(pts, c, d), DT_SCALE as int), COEF_LIMIT as int)
}

/// All coefficients after one descent step.
pub open spec fn step1_all(pts: Seq<Vector2>, c: Seq<i64>, dt: int) -> Seq<i64> {
    Seq::new(c.len(), |d: int| step1_coef(pts, c, dt, d) as i64)
}

/// The one-variable step-size schedule: grow a hundredth after an adopted
/// or neutral step, shrink a tenth after a worse one, within its caps.
pub open spec fn dt1_grow(dt: int) -> int {
    if dt + dt / 100 > DT_MAX_1D {
        DT_MAX_1D as int
    } else {
        dt + dt / 100
    }
}

pub open spec fn dt1_shrink(dt: int) -> int {
    if dt - dt / 10 < DT_MIN {
        DT_MIN as int
    } else {
        dt - dt / 10
    }
}

/// The capped adaptive one-variable descent, from coefficients `c` and step
/// size `dt` with `it` iterations spent: the coefficients it ends on, and
/// whether a candidate objective fell below the tolerance.
pub open spec fn descent1(pts: Seq<Vector2>, tol: int, c: Seq<i64>, dt: int, it: int) -> (
    Seq<i64>,
    bool,
)
    decreases MAX_FIT_ITERS - it,
{
    if it >= MAX_FIT_ITERS {
        (c, false)
    } else {
        let tmp = step1_all(pts, c, dt);
        let pre = potential1_spec(pts, c);
        let post = potential1_spec(pts, tmp);
        let c2 = if pre > post {
            tmp
        } else {
            c
        };
        let dt2 = if pre > post {
            dt1_grow(dt)
        } else if post > pre {
            dt1_shrink(dt)
        } else {
            dt1_grow(dt)
        };
        if post < tol {
            (c2, true)
        } else {
            descent1(pts, tol, c2, dt2, it + 1)
        }
    }
}

/// Magnitude bound on the Horner state of row zero of a coefficient vector.
proof fn lemma_poly1_bound(c: Seq<i64>, x: int, k: int)
    requires
        coefs1_ok(c),
        0 <= k <= c.len() - 1,
        -COORD_LIMIT <= x <= COORD_LIMIT,
    ensures
        -((c.len() - k) * COEF_LIMIT * pow(COORD_LIMIT as int, (c.len() - 1 - k) as nat))
            <= row_horner(c, c.len() - 1, 0, x, k),
        row_horner(c, c.len() - 1, 0, x, k) <= (c.len() - k) * COEF_LIMIT * pow(
            COORD_LIMIT as int,
            (c.len() - 1 - k) as nat,
        ),
    decreases c.len() - k,
{
    reveal(pow);
    let n = c.len() - 1;
    if k == n {
        assert(pow(COORD_LIMIT as int, 0) == 1);
    } else {
        lemma_poly1_bound(c, x, k + 1);
        crate::fixed::lemma_pow_base_le(SCALE as int, COORD_LIMIT as int, (n - k) as nat);
        let a = row_horner(c, n, 0, x, k + 1);
        let pb = pow(COORD_LIMIT as int, (n - k - 1) as nat);
        let pb1 = pow(COORD_LIMIT as int, (n - k) as nat);
        assert(pb1 == COORD_LIMIT * pb);
        let ps = pow(SCALE as int, (n - k) as nat);
        let cf = c[k] as int;
        assert(row_horner(c, n, 0, x, k) == a * x + cf * ps);
        assert({
            &&& -((n - k + 1) * COEF_LIMIT * pb1) <= a * x + cf * ps
            &&& a * x + cf * ps <= (n - k + 1) * COEF_LIMIT * pb1
        }) by (nonlinear_arith)
            requires
                -((n - k) * COEF_LIMIT * pb) <= a <= (n - k) * COEF_LIMIT * pb,
                -COORD_LIMIT <= x <= COORD_LIMIT,
                -COEF_LIMIT <= cf <= COEF_LIMIT,
                0 <= ps <= pb1,
                pb1 == COORD_LIMIT * pb,
                0 <= pb,
                0 < COORD_LIMIT,
                0 < COEF_LIMIT,
                1 <= n - k,
        ;
    }
}

/// The scaled one-variable value of a well-formed vector is bounded, and its
/// mantissa lies within `VALUE_LIMIT`.
pub proof fn lemma_eval1_bound(c: Seq<i64>, x: int)
    requires
        coefs1_ok(c),
        -COORD_LIMIT <= x <= COORD_LIMIT,
    ensures
        poly1_num(c, x) == row_horner(c, c.len() - 1, 0, x, 0),
        -((6 * COEF_LIMIT * 1024) * pow(SCALE as int, (c.len() - 1) as nat)) <= poly1_num(c, x),
        poly1_num(c, x) <= (6 * COEF_LIMIT * 1024) * pow(SCALE as int, (c.len() - 1) as nat),
        -VALUE_LIMIT <= eval1_mantissa(c, x) <= VALUE_LIMIT,
{
    reveal(pow);
    let n = c.len() - 1;
    let e = n as nat;
    crate::two_variable_polynomial::lemma_row_zero_shift(c, n, x);
    lemma_poly1_bound(c, x, 0);
    lemma_pow_caps(e);
    vstd::arithmetic::power::lemma_pow_distributes(4, SCALE as int, e);
    lemma_four_pow_cap(e);
    assert({
        &&& (n + 1) * COEF_LIMIT * pow(COORD_LIMIT as int, e) <= (6 * COEF_LIMIT * 1024) * pow(
            SCALE as int,
            e,
        )
        &&& (6 * COEF_LIMIT * 1024) * pow(SCALE as int, e) <= 6 * COEF_LIMIT * 1024
            * 1152921504606846976
    }) by (nonlinear_arith)
        requires
            pow(COORD_LIMIT as int, e) == pow(4, e) * pow(SCALE as int, e),
            1 <= n + 1 <= 6,
            0 < pow(4, e) <= 1024,
            0 < pow(SCALE as int, e) <= 1152921504606846976,
            0 < COEF_LIMIT,
    ;
    lemma_div_trunc_bound(poly1_num(c, x), pow(SCALE as int, e), 6 * COEF_LIMIT * 1024);
    assert(6 * COEF_LIMIT * 1024 <= VALUE_LIMIT);
}

#[derive(Debug)]
pub struct Grid2D {
    pub point_2d: Vec<Vector2>,
}

impl Grid2D {
    /// Every sample is in band and the grid is not unreasonably large.
    pub open spec fn wf(&self) -> bool {
        &&& self.point_2d@.len() <= LEN_LIMIT
        &&& forall|k: int| 0 <= k < self.point_2d@.len() ==> sample1_ok(#[trigger] self.point_2d@[k])
    }

    pub fn new() -> (r: Self)
        ensures
            r.wf(),
            r.point_2d@.len() == 0,
    {
        Grid2D { point_2d: Vec::new() }
    }

    /// Horner evaluation of the polynomial at `x`: the direct sum
    /// `sum_j c[j] * x^j`, carried out exactly at scale `SCALE^degree` and
    /// truncated once toward zero.
    pub fn eval(&self, poly: &Vec<i64>, x: i64) -> (r: i64)
        requires
            coefs1_ok(poly@),
            -COORD_LIMIT <= x <= COORD_LIMIT,
        ensures
            r as int == eval1_mantissa(poly@, x as int),
            -VALUE_LIMIT <= r <= VALUE_LIMIT,
    {
        let ghost cg = poly@;
        let n = poly.len() - 1;
        let mut t: i128 = poly[n] as i128;
        let mut p: i128 = 1;
        let mut k = n;
        proof {
            reveal(pow);
        }
        while k > 0
            invariant
                coefs1_ok(cg),
                cg == poly@,
                k <= n,
                n == poly@.len() - 1,
                -COORD_LIMIT <= x <= COORD_LIMIT,
                t == row_horner(cg, n as int, 0, x as int, k as int),
                p == pow(SCALE as int, (n - k) as nat),
            decreases k,
        {
            proof {
                reveal(pow);
                lemma_poly1_bound(cg, x as int, k as int);
                lemma_pow_caps((n - k) as nat);
                lemma_pow_caps((n - k + 1) as nat);
                lemma_pow_caps((n - (k - 1)) as nat);
                assert(pow(SCALE as int, (n - k + 1) as nat) == SCALE * pow(
                    SCALE as int,
                    (n - k) as nat,
                ));
                assert((n - k + 1) * COEF_LIMIT * pow(COORD_LIMIT as int, (n - k) as nat) <= 6
                    * COEF_LIMIT * 1180591620717411303424) by (nonlinear_arith)
                    requires
                        1 <= n - k + 1 <= 6,
                        0 < pow(COORD_LIMIT as int, (n - k) as nat) <= 1180591620717411303424,
                        0 < COEF_LIMIT,
                ;
            }
            k = k - 1;
            let c = poly[k] as i128;
            let pk = p * (SCALE as i128);
            assert({
                &&& -200000000000000000000000000000000000 <= t * (x as i128)
                &&& t * (x as i128) <= 200000000000000000000000000000000000
                &&& -2000000000000000000000000000 <= c * pk
                &&& c * pk <= 2000000000000000000000000000
            }) by (nonlinear_arith)
                requires
                    -(6 * COEF_LIMIT * 1180591620717411303424) <= t <= 6 * COEF_LIMIT
                        * 1180591620717411303424,
                    -COORD_LIMIT <= x <= COORD_LIMIT,
                    -COEF_LIMIT <= c <= COEF_LIMIT,
                    0 < pk <= 1152921504606846976,
                    COEF_LIMIT == 0x4000_0000,
                    COORD_LIMIT == 16384,
            ;
            t = t * (x as i128) + c * pk;
            p = pk;
        }
        let sn = scale_pow(n);
        proof {
            lemma_eval1_bound(cg, x as int);
            lemma_pow_caps(n as nat);
            assert({
                &&& -85070591730234615865843651857942052864
                    <= (6 * COEF_LIMIT * 1024) * pow(SCALE as int, n as nat)
                &&& (6 * COEF_LIMIT * 1024) * pow(SCALE as int, n as nat)
                    <= 85070591730234615865843651857942052864
            }) by (nonlinear_arith)
                requires
                    0 < pow(SCALE as int, n as nat) <= 1152921504606846976,
                    COEF_LIMIT == 0x4000_0000,
            ;
        }
        let r = crate::fixed::div_trunc_i128(t, sn);
        r as i64
    }

    /// The mean squared error of the polynomial over the samples.
    pub fn potential(&self, poly: &Vec<i64>) -> (u: i128)
        requires
            self.wf(),
            coefs1_ok(poly@),
            self.point_2d@.len() > 0,
        ensures
            u == potential1_spec(self.point_2d@, poly@),
            u >= 0,
    {
        let ghost pts = self.point_2d@;
        let ghost cg = poly@;
        let len = self.point_2d.len();
        let mut sum: i128 = 0;
        let mut j: usize = 0;
        while j < len
            invariant
                self.wf(),
                coefs1_ok(cg),
                pts == self.point_2d@,
                cg == poly@,
                j <= len,
                len == pts.len(),
                sum == pot1_prefix(pts, cg, j as int),
                0 <= sum <= (j as int) * SQ_CAP,
            decreases len - j,
        {
            let p = self.point_2d[j];
            let ev = self.eval(poly, p.x);
            let r64: i64 = p.y - ev;
            let rw: i128 = r64 as i128;
            proof {
                assert(0 <= rw * rw <= 1600000000000000000000000000) by (nonlinear_arith)
                    requires
                        -39583492341760 <= rw <= 39583492341760,
                ;
            }
            let rr: i128 = rw * rw;
            let term = crate::fixed::div_trunc_i128(rr, SCALE as i128);
            proof {
                vstd::arithmetic::div_mod::lemma_div_pos_is_pos(rr as int, SCALE as int);
                lemma_div_trunc_bound(rr as int, SCALE as int, SQ_CAP as int);
                assert(r64 as int == residual1(pts[j as int], cg));
                assert(term == sq1_term(pts[j as int], cg));
            }
            sum = sum + term;
            j = j + 1;
        }
        let u = crate::fixed::div_trunc_i128(sum, len as i128);
        proof {
            vstd::arithmetic::div_mod::lemma_div_pos_is_pos(sum as int, len as int);
        }
        u
    }

    /// The gradient of the mean squared error in every coefficient, clamped
    /// entrywise.
    pub fn potential_deriv(&self, poly: &Vec<i64>) -> (du: Vec<i64>)
        requires
            self.wf(),
            coefs1_ok(poly@),
            self.point_2d@.len() > 0,
        ensures
            du@.len() == poly@.len(),
            forall|d: int|
                0 <= d < du@.len() ==> #[trigger] du@[d] as int == du1_at(
                    self.point_2d@,
                    poly@,
                    d,
                ),
    {
        let ghost pts = self.point_2d@;
        let ghost cg = poly@;
        let nc = poly.len();
        let len = self.point_2d.len();
        let mut du: Vec<i64> = Vec::new();
        let mut d: usize = 0;
        while d < nc
            invariant
                self.wf(),
                coefs1_ok(cg),
                pts == self.point_2d@,
                cg == poly@,
                nc == cg.len(),
                len == pts.len(),
                0 < len,
                d <= nc,
                du@.len() == d,
                forall|m: int| 0 <= m < d ==> #[trigger] du@[m] as int == du1_at(pts, cg, m),
            decreases nc - d,
        {
            let sp = scale_pow(d);
            let mut acc: i128 = 0;
            let mut j: usize = 0;
            while j < len
                invariant
                    self.wf(),
                    coefs1_ok(cg),
                    pts == self.point_2d@,
                    cg == poly@,
                    len == pts.len(),
                    j <= len,
                    d < nc,
                    nc == cg.len(),
                    sp == pow(SCALE as int, d as nat),
                    0 < sp,
                    acc == grad1_prefix(pts, cg, d as int, j as int),
                    -((j as int) * 40533496157962240) <= acc <= (j as int) * 40533496157962240,
                decreases len - j,
            {
                let p = self.point_2d[j];
                let ev = self.eval(poly, p.x);
                let r64: i64 = p.y - ev;
                let px = int_pow(p.x, d);
                let ghost e = d as nat;
                proof {
                    lemma_pow_caps(e);
                    assert({
                        &&& -(pow(COORD_LIMIT as int, e) * 39583492341760) <= px * (r64 as i128)
                        &&& px * (r64 as i128) <= pow(COORD_LIMIT as int, e) * 39583492341760
                    }) by (nonlinear_arith)
                        requires
                            -pow(COORD_LIMIT as int, e) <= px <= pow(COORD_LIMIT as int, e),
                            -39583492341760 <= r64 <= 39583492341760,
                            0 <= pow(COORD_LIMIT as int, e),
                            pow(COORD_LIMIT as int, e) <= 1180591620717411303424,
                    ;
                }
                let v: i128 = px * (r64 as i128);
                proof {
                    vstd::arithmetic::power::lemma_pow_distributes(4, SCALE as int, e);
                    lemma_four_pow_cap(e);
                    assert({
                        &&& -((1024 * RES_LIMIT) * pow(SCALE as int, e)) <= v
                        &&& v <= (1024 * RES_LIMIT) * pow(SCALE as int, e)
                    }) by (nonlinear_arith)
                        requires
                            -(pow(COORD_LIMIT as int, e) * 39583492341760) <= v
                                <= pow(COORD_LIMIT as int, e) * 39583492341760,
                            pow(COORD_LIMIT as int, e) == pow(4, e) * pow(SCALE as int, e),
                            0 < pow(4, e) <= 1024,
                            0 < pow(SCALE as int, e),
                            RES_LIMIT == 39583492341760,
                    ;
                    lemma_div_trunc_bound(v as int, pow(SCALE as int, e), 1024 * RES_LIMIT);
                }
                let term = crate::fixed::div_trunc_i128(v, sp);
                proof {
                    assert(r64 as int == residual1(pts[j as int], cg));
                    assert(term == grad1_term(pts[j as int], cg, d as int));
                    assert((j as int) * 40533496157962240 + 40533496157962240 == ((j + 1) as int)
                        * 40533496157962240) by (nonlinear_arith);
                    assert(-50000000000000000000000000000 <= acc + term
                        <= 50000000000000000000000000000) by (nonlinear_arith)
                        requires
                            -((j as int) * 40533496157962240) - 40533496157962240 <= acc + term
                                <= (j as int) * 40533496157962240 + 40533496157962240,
                            0 <= j < 0x4000_0000,
                    ;
                }
                acc = acc + term;
                j = j + 1;
            }
            proof {
                assert(-50000000000000000000000000000 <= acc <= 50000000000000000000000000000)
                    by (nonlinear_arith)
                    requires
                        -((j as int) * 40533496157962240) <= acc <= (j as int)
                            * 40533496157962240,
                        0 <= j <= 0x4000_0000,
                ;
                lemma_div_trunc_bound(acc as int, len as int, 50000000000000000000000000000);
                assert(50000000000000000000000000000 * (len as int)
                    <= 50000000000000000000000000000 * 0x4000_0000) by (nonlinear_arith)
                    requires
                        0 < len <= 0x4000_0000,
                ;
            }
            let g = crate::fixed::div_trunc_i128(acc, len as i128);
            let entry = crate::fixed::clamp_i128(-g, GRAD_LIMIT);
            du.push(entry);
            proof {
                assert(du@[d as int] as int == du1_at(pts, cg, d as int));
            }
            d = d + 1;
        }
        du
    }

    /// One batch descent step on the coefficient vector.
    pub fn euler_step(&self, poly: &mut Vec<i64>, dt: i64)
        requires
            self.wf(),
            coefs1_ok(old(poly)@),
            self.point_2d@.len() > 0,
            0 < dt <= DT_MAX_1D,
        ensures
            coefs1_ok(final(poly)@),
            final(poly)@.len() == old(poly)@.len(),
            forall|d: int|
                0 <= d < final(poly)@.len() ==> #[trigger] final(poly)@[d] as int == step1_coef(
                    self.point_2d@,
                    old(poly)@,
                    dt as int,
                    d,
                ),
    {
        let ghost pts = self.point_2d@;
        let ghost cg = old(poly)@;
        let du = self.potential_deriv(poly);
        let nc = poly.len();
        let mut buf: Vec<i64> = Vec::new();
        let mut d: usize = 0;
        while d < nc
            invariant
                d <= nc,
                nc == cg.len(),
                1 <= nc <= 6,
                du@.len() == nc,
                cg == poly@,
                pts == self.point_2d@,
                0 < dt <= DT_MAX_1D,
                forall|m: int| 0 <= m < nc ==> #[trigger] du@[m] as int == du1_at(pts, cg, m),
                buf@.len() == d,
                forall|m: int|
                    0 <= m < d ==> #[trigger] buf@[m] as int == step1_coef(pts, cg, dt as int, m),
                forall|m: int| 0 <= m < d ==> -COEF_LIMIT <= #[trigger] buf@[m] <= COEF_LIMIT,
            decreases nc - d,
        {
            let g: i128 = du[d] as i128;
            proof {
                assert({
                    &&& -85070591730234615865843651857942052864 <= (dt as i128) * g
                    &&& (dt as i128) * g <= 85070591730234615865843651857942052864
                    &&& -(4611686018427387904000 * (DT_SCALE as int)) <= (dt as int) * (g as int)
                    &&& (dt as int) * (g as int) <= 4611686018427387904000 * (DT_SCALE as int)
                }) by (nonlinear_arith)
                    requires
                        0 < dt <= 16777216,
                        -0x4000_0000_0000_0000 <= g <= 0x4000_0000_0000_0000,
                        DT_SCALE == 16777216,
                ;
                lemma_div_trunc_bound(
                    (dt as int) * (g as int),
                    DT_SCALE as int,
                    4611686018427387904000,
                );
            }
            let upd = crate::fixed::div_trunc_i128((dt as i128) * g, DT_SCALE as i128);
            let cv: i128 = poly[d] as i128;
            let nv = crate::fixed::clamp_i128(cv - upd, COEF_LIMIT);
            buf.push(nv);
            d = d + 1;
        }
        *poly = buf;
    }

    /// Gradient descent with an adaptive step size, as in the two-variable
    /// fitter: steps are adopted only when they strictly lower the
    /// objective, so the objective of the vector handed back never exceeds
    /// the one handed in; stops once a candidate objective falls below
    /// `tol`, and gives up after `MAX_FIT_ITERS` iterations with a `false`
    /// flag. The outcome is exactly what the spec-level `descent1` of the
    /// same samples, tolerance and starting point computes. An empty sample
    /// set is an error.
    pub fn poly_fitting_by_euler_with_tol(&self, poly: &mut Vec<i64>, tol: i64) -> (r: Result<
        (Vec<i64>, bool),
        ModelError,
    >)
        requires
            self.wf(),
            coefs1_ok(old(poly)@),
        ensures
            coefs1_ok(final(poly)@),
            r is Err <==> self.point_2d@.len() == 0,
            r is Err ==> final(poly)@ == old(poly)@ && (r matches Err(e) && e
                == ModelError::EmptyNeighborhood),
            r matches Ok(out) ==> out.0@ == final(poly)@,
            r matches Ok(out) ==> ({
                let d = descent1(self.point_2d@, tol as int, old(poly)@, DT_INIT as int, 0);
                final(poly)@ == d.0 && out.1 == d.1
            }),
            r is Ok ==> potential1_spec(self.point_2d@, final(poly)@) <= potential1_spec(
                self.point_2d@,
                old(poly)@,
            ),
            r matches Ok(out) && out.1 ==> potential1_spec(self.point_2d@, final(poly)@) < tol,
    {
        if self.point_2d.len() == 0 {
            return Err(ModelError::EmptyNeighborhood);
        }
        let ghost pts = self.point_2d@;
        let ghost c_init = old(poly)@;
        let mut dt: i64 = DT_INIT;
        let mut it: usize = 0;
        let mut converged = false;
        while it < MAX_FIT_ITERS && !converged
            invariant
                self.wf(),
                coefs1_ok(poly@),
                pts == self.point_2d@,
                pts.len() > 0,
                c_init == old(poly)@,
                it <= MAX_FIT_ITERS,
                DT_MIN <= dt <= DT_MAX_1D,
                potential1_spec(pts, poly@) <= potential1_spec(pts, c_init),
                converged ==> potential1_spec(pts, poly@) < tol,
                converged ==> descent1(pts, tol as int, c_init, DT_INIT as int, 0) == (
                poly@, true),
                !converged ==> descent1(pts, tol as int, c_init, DT_INIT as int, 0) == descent1(
                    pts,
                    tol as int,
                    poly@,
                    dt as int,
                    it as int,
                ),
            decreases MAX_FIT_ITERS - it,
        {
            let ghost c_cur = poly@;
            let ghost dt_cur = dt as int;
            let pre = self.potential(poly);
            let mut tmp = copy_vec(poly);
            self.euler_step(&mut tmp, dt);
            let post = self.potential(&tmp);
            proof {
                assert forall|d: int|
                    0 <= d < tmp@.len() implies #[trigger] tmp@[d] == step1_all(
                    pts,
                    c_cur,
                    dt_cur,
                )[d] by {
                    assert(tmp@[d] as int == step1_coef(pts, c_cur, dt_cur, d));
                    assert(-COEF_LIMIT <= step1_coef(pts, c_cur, dt_cur, d) <= COEF_LIMIT);
                }
                assert(tmp@ =~= step1_all(pts, c_cur, dt_cur));
            }
            if pre > post {
                *poly = tmp;
                dt = dt + dt / 100;
                if dt > DT_MAX_1D {
                    dt = DT_MAX_1D;
                }
            } else if post > pre {
                dt = dt - dt / 10;
                if dt < DT_MIN {
                    dt = DT_MIN;
                }
            } else {
                // a step too small to move the truncated objective: grow the
                // step size so the loop cannot stall on zero-sized updates
                dt = dt + dt / 100;
                if dt > DT_MAX_1D {
                    dt = DT_MAX_1D;
                }
            }
            if post < tol as i128 {
                converged = true;
            }
            proof {
                assert(descent1(pts, tol as int, c_cur, dt_cur, it as int) == (if converged {
                    (poly@, true)
                } else {
                    descent1(pts, tol as int, poly@, dt as int, it as int + 1)
                }));
            }
            it = it + 1;
        }
        proof {
            if !converged {
                assert(descent1(pts, tol as int, poly@, dt as int, it as int) == (poly@, false));
            }
        }
        let out = copy_vec(poly);
        Ok((out, converged))
    }
}

/// An exact copy of a coefficient vector.
fn copy_vec(p: &Vec<i64>) -> (r: Vec<i64>)
    ensures
        r@ == p@,
{
    let nc = p.len();
    let mut buf: Vec<i64> = Vec::new();
    let mut i: usize = 0;
    while i < nc
        invariant
            i <= nc,
            nc == p@.len(),
            buf@.len() == i,
            forall|m: int| 0 <= m < i ==> #[trigger] buf@[m] == p@[m],
        decreases nc - i,
    {
        buf.push(p[i]);
        i = i + 1;
    }
    proof {
        assert(buf@ =~= p@);
    }
    buf
}

} // verus!
