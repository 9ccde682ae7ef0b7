//! Dense two-variable polynomials and their Horner-style evaluation.
//!
//! A polynomial of degree `n` owns a buffer of `(n + 1) * (n + 1)` fixed-point
//! coefficients; the entry at index `i * (n + 1) + j` is the coefficient of
//! `x^i * y^j`, and evaluation covers the triangular part `i + j <= n`.
//! Evaluation keeps every intermediate product exact in `i128` and truncates
//! once at the end, so its contract equates the result with the direct double
//! sum of the coefficients.

use crate::fixed::COORD_LIMIT;
use crate::fixed::SCALE;
use crate::fixed::div_trunc;
use crate::fixed::lemma_div_trunc_bound;
use crate::fixed::lemma_four_pow_cap;
use crate::fixed::lemma_pow_base_le;
use crate::fixed::lemma_pow_caps;
use crate::fixed::scale_pow;
use vstd::arithmetic::power::pow;
use vstd::prelude::*;

verus! {

/// Largest degree a coefficient buffer may be built for.
pub const MAX_DEGREE: usize = 5;

/// Largest coefficient mantissa the fitting routines ever store; keeping
/// coefficients within this band makes every evaluation free of overflow.
pub const COEF_LIMIT: i64 = 0x4000_0000;

/// Largest mantissa an evaluation can return under `wf` inputs:
/// `36 * COEF_LIMIT * 4^MAX_DEGREE`.
pub const VALUE_LIMIT: i64 = 36 * COEF_LIMIT * 1024;

/// The coefficient of `x^i * y^j` in a degree-`n` buffer, as an integer.
pub open spec fn coef_at(c: Seq<i64>, n: int, i: int, j: int) -> int {
    c[i * (n + 1) + j] as int
}

/// A buffer of the right length whose coefficients all lie in the band.
pub open spec fn coefs_ok(c: Seq<i64>, n: int) -> bool {
    &&& c.len() == (n + 1) * (n + 1)
    &&& forall|k: int| 0 <= k < c.len() ==> -COEF_LIMIT <= #[trigger] c[k] <= COEF_LIMIT
}

/// Direct scaled sum of row `i` from column `k` on:
/// `sum_{j = k}^{n - i} coef(i, j) * y^j * SCALE^(n - i - j)`.
pub open spec fn row_terms(c: Seq<i64>, n: int, i: int, y: int, k: int) -> int
    decreases n - i - k + 1,
{
    if k > n - i {
        0
    } else {
        coef_at(c, n, i, k) * pow(y, k as nat) * pow(SCALE as int, (n - i - k) as nat)
            + row_terms(c, n, i, y, k + 1)
    }
}

/// Direct scaled double sum from row `m` on:
/// `sum_{i = m}^{n} row_terms(i, 0) * x^i`.
pub open spec fn poly_terms(c: Seq<i64>, n: int, x: int, y: int, m: int) -> int
    decreases n - m + 1,
{
    if m > n {
        0
    } else {
        row_terms(c, n, m, y, 0) * pow(x, m as nat) + poly_terms(c, n, x, y, m + 1)
    }
}

/// The polynomial value at `(x, y)`, scaled by `SCALE^n`: the direct double
/// sum `sum_{i + j <= n} coef(i, j) * x^i * y^j * SCALE^(n - i - j)`.
pub open spec fn eval_num(c: Seq<i64>, n: int, x: int, y: int) -> int {
    poly_terms(c, n, x, y, 0)
}

/// The fixed-point mantissa of the polynomial value at `(x, y)`: the scaled
/// double sum brought back to the common scale, rounded toward zero.
pub open spec fn eval_mantissa(c: Seq<i64>, n: int, x: int, y: int) -> int {
    div_trunc(eval_num(c, n, x, y), pow(SCALE as int, n as nat))
}

/// Horner state of row `i` after folding columns `n - i` down to `k`:
/// `sum_{j = k}^{n - i} coef(i, j) * y^(j - k) * SCALE^(n - i - j)`.
pub open spec fn row_horner(c: Seq<i64>, n: int, i: int, y: int, k: int) -> int
    decreases n - i - k,
{
    if k >= n - i {
        coef_at(c, n, i, n - i)
    } else {
        row_horner(c, n, i, y, k + 1) * y
            + coef_at(c, n, i, k) * pow(SCALE as int, (n - i - k) as nat)
    }
}

/// Horner state over rows `m` to `n`:
/// `sum_{i = m}^{n} row_horner(i, 0) * x^(i - m)`.
pub open spec fn poly_horner(c: Seq<i64>, n: int, x: int, y: int, m: int) -> int
    decreases n - m,
{
    if m >= n {
        row_horner(c, n, n, y, 0)
    } else {
        poly_horner(c, n, x, y, m + 1) * x + row_horner(c, n, m, y, 0)
    }
}

/// A triangular index stays inside the square buffer.
proof fn lemma_index_in_range(n: int, i: int, k: int)
    requires
        0 <= i <= n,
        0 <= k <= n - i,
    ensures
        0 <= i * (n + 1) + k < (n + 1) * (n + 1),
{
    assert(0 <= i * (n + 1) + k < (n + 1) * (n + 1)) by (nonlinear_arith)
        requires
            0 <= i <= n,
            0 <= k <= n - i,
    ;
}

/// The Horner state of a row, times the power of `y` it still owes, is the
/// direct sum of the row.
proof fn lemma_row_shift(c: Seq<i64>, n: int, i: int, y: int, k: int)
    requires
        0 <= i <= n,
        0 <= k <= n - i,
    ensures
        row_horner(c, n, i, y, k) * pow(y, k as nat) == row_terms(c, n, i, y, k),
    decreases n - i - k,
{
    reveal(pow);
    if k == n - i {
        assert(row_terms(c, n, i, y, k + 1) == 0);
        assert(pow(SCALE as int, 0) == 1);
        assert(row_horner(c, n, i, y, k) == coef_at(c, n, i, n - i));
    } else {
        lemma_row_shift(c, n, i, y, k + 1);
        let a = row_horner(c, n, i, y, k + 1);
        let t = coef_at(c, n, i, k) * pow(SCALE as int, (n - i - k) as nat);
        let p = pow(y, k as nat);
        let q = pow(y, (k + 1) as nat);
        assert(q == y * p);
        assert((a * y + t) * p == a * q + t * p) by (nonlinear_arith)
            requires
                q == y * p,
        ;
        assert(row_horner(c, n, i, y, k) == a * y + t);
        assert(a * q == row_terms(c, n, i, y, k + 1));
        assert(coef_at(c, n, i, k) * p * pow(SCALE as int, (n - i - k) as nat) == t * p)
            by (nonlinear_arith)
            requires
                t == coef_at(c, n, i, k) * pow(SCALE as int, (n - i - k) as nat),
        ;
    }
}

/// The Horner state over rows, times the power of `x` it still owes, is the
/// direct double sum from that row on.
proof fn lemma_poly_shift(c: Seq<i64>, n: int, x: int, y: int, m: int)
    requires
        0 <= m <= n,
    ensures
        poly_horner(c, n, x, y, m) * pow(x, m as nat) == poly_terms(c, n, x, y, m),
    decreases n - m,
{
    reveal(pow);
    lemma_row_shift(c, n, m, y, 0);
    assert(pow(y, 0) == 1);
    assert(row_horner(c, n, m, y, 0) * 1 == row_terms(c, n, m, y, 0));
    if m == n {
        assert(poly_terms(c, n, x, y, m + 1) == 0);
    } else {
        lemma_poly_shift(c, n, x, y, m + 1);
        let a = poly_horner(c, n, x, y, m + 1);
        let r = row_horner(c, n, m, y, 0);
        let p = pow(x, m as nat);
        let q = pow(x, (m + 1) as nat);
        assert(q == x * p);
        assert((a * x + r) * p == a * q + r * p) by (nonlinear_arith)
            requires
                q == x * p,
        ;
        assert(poly_horner(c, n, x, y, m) == a * x + r);
        assert(a * q == poly_terms(c, n, x, y, m + 1));
    }
}

/// Row zero's Horner state owes no power of `y`: it already equals the
/// direct sum of the row.
pub proof fn lemma_row_zero_shift(c: Seq<i64>, n: int, y: int)
    requires
        0 <= n,
    ensures
        row_horner(c, n, 0, y, 0) == row_terms(c, n, 0, y, 0),
{
    reveal(pow);
    lemma_row_shift(c, n, 0, y, 0);
    assert(pow(y, 0) == 1);
    assert(row_horner(c, n, 0, y, 0) * 1 == row_horner(c, n, 0, y, 0));
}

/// Magnitude bound on a row's Horner state.
proof fn lemma_row_horner_bound(c: Seq<i64>, n: int, i: int, y: int, k: int)
    requires
        coefs_ok(c, n),
        0 <= i <= n,
        0 <= k <= n - i,
        -COORD_LIMIT <= y <= COORD_LIMIT,
    ensures
        -((n - i - k + 1) * COEF_LIMIT * pow(COORD_LIMIT as int, (n - i - k) as nat))
            <= row_horner(c, n, i, y, k),
        row_horner(c, n, i, y, k)
            <= (n - i - k + 1) * COEF_LIMIT * pow(COORD_LIMIT as int, (n - i - k) as nat),
    decreases n - i - k,
{
    reveal(pow);
    let d = n - i;
    if k == d {
        lemma_index_in_range(n, i, d);
        assert(pow(COORD_LIMIT as int, 0) == 1);
    } else {
        lemma_row_horner_bound(c, n, i, y, k + 1);
        lemma_index_in_range(n, i, k);
        lemma_pow_base_le(SCALE as int, COORD_LIMIT as int, (d - k) as nat);
        let a = row_horner(c, n, i, y, k + 1);
        let e1 = (d - k - 1) as nat;
        let pb = pow(COORD_LIMIT as int, e1);
        let pb1 = pow(COORD_LIMIT as int, (d - k) as nat);
        assert(pb1 == COORD_LIMIT * pb);
        let ps = pow(SCALE as int, (d - k) as nat);
        let cf = coef_at(c, n, i, k);
        assert(row_horner(c, n, i, y, k) == a * y + cf * ps);
        assert({
            &&& -((d - k + 1) * COEF_LIMIT * pb1) <= a * y + cf * ps
            &&& a * y + cf * ps <= (d - k + 1) * COEF_LIMIT * pb1
        }) by (nonlinear_arith)
            requires
                -((d - k) * COEF_LIMIT * pb) <= a <= (d - k) * COEF_LIMIT * pb,
                -COORD_LIMIT <= y <= COORD_LIMIT,
                -COEF_LIMIT <= cf <= COEF_LIMIT,
                0 <= ps <= pb1,
                pb1 == COORD_LIMIT * pb,
                0 <= pb,
                0 < COORD_LIMIT,
                0 < COEF_LIMIT,
                1 <= d - k,
        ;
    }
}

/// Magnitude bound on the Horner state over rows.
proof fn lemma_poly_horner_bound(c: Seq<i64>, n: int, x: int, y: int, m: int)
    requires
        coefs_ok(c, n),
        0 <= m <= n,
        -COORD_LIMIT <= x <= COORD_LIMIT,
        -COORD_LIMIT <= y <= COORD_LIMIT,
    ensures
        -((n + 1) * (n - m + 1) * COEF_LIMIT * pow(COORD_LIMIT as int, (n - m) as nat))
            <= poly_horner(c, n, x, y, m),
        poly_horner(c, n, x, y, m)
            <= (n + 1) * (n - m + 1) * COEF_LIMIT * pow(COORD_LIMIT as int, (n - m) as nat),
    decreases n - m,
{
    reveal(pow);
    lemma_row_horner_bound(c, n, m, y, 0);
    if m == n {
        assert(pow(COORD_LIMIT as int, 0) == 1);
        let b0 = row_horner(c, n, n, y, 0);
        assert({
            &&& -((n + 1) * 1 * COEF_LIMIT * 1) <= b0
            &&& b0 <= (n + 1) * 1 * COEF_LIMIT * 1
        }) by (nonlinear_arith)
            requires
                -(1 * COEF_LIMIT * 1) <= b0 <= 1 * COEF_LIMIT * 1,
                0 <= n,
                0 < COEF_LIMIT,
        ;
    } else {
        lemma_poly_horner_bound(c, n, x, y, m + 1);
        let a = poly_horner(c, n, x, y, m + 1);
        let r = row_horner(c, n, m, y, 0);
        let e1 = (n - m - 1) as nat;
        let pb = pow(COORD_LIMIT as int, e1);
        let pb1 = pow(COORD_LIMIT as int, (n - m) as nat);
        assert(pb1 == COORD_LIMIT * pb);
        lemma_pow_base_le(0, COORD_LIMIT as int, e1);
        assert(poly_horner(c, n, x, y, m) == a * x + r);
        assert({
            &&& -((n + 1) * (n - m + 1) * COEF_LIMIT * pb1) <= a * x + r
            &&& a * x + r <= (n + 1) * (n - m + 1) * COEF_LIMIT * pb1
        }) by (nonlinear_arith)
            requires
                -((n + 1) * (n - m) * COEF_LIMIT * pb) <= a <= (n + 1) * (n - m) * COEF_LIMIT
                    * pb,
                -COORD_LIMIT <= x <= COORD_LIMIT,
                -((n - m + 1) * COEF_LIMIT * pb1) <= r <= (n - m + 1) * COEF_LIMIT * pb1,
                pb1 == COORD_LIMIT * pb,
                0 <= pb,
                0 < COORD_LIMIT,
                0 < COEF_LIMIT,
                1 <= n - m,
                n - m + 1 <= n + 1,
        ;
    }
}

#[derive(Debug)]
pub struct TwoPolynomial {
    pub two_poly: Vec<i64>,
    pub degree: usize,
}

impl TwoPolynomial {
    /// The coefficient buffer matches the degree and every coefficient
    /// mantissa lies within the band the fitter maintains.
    pub open spec fn wf(&self) -> bool {
        &&& self.degree <= MAX_DEGREE
        &&& coefs_ok(self.two_poly@, self.degree as int)
    }

    /// The zero polynomial of the given degree.
    pub fn new(degree_: usize) -> (r: Self)
        requires
            degree_ <= MAX_DEGREE,
        ensures
            r.wf(),
            r.degree == degree_,
            r.two_poly@.len() == (degree_ + 1) * (degree_ + 1),
            forall|k: int| 0 <= k < r.two_poly@.len() ==> #[trigger] r.two_poly@[k] == 0,
    {
        let d1: usize = degree_ + 1;
        assert(d1 * d1 <= 36) by (nonlinear_arith)
            requires
                d1 <= 6,
        ;
        let n: usize = d1 * d1;
        let mut buf: Vec<i64> = Vec::new();
        let mut i: usize = 0;
        while i < n
            invariant
                i <= n,
                buf@.len() == i,
                forall|k: int| 0 <= k < i ==> #[trigger] buf@[k] == 0,
            decreases n - i,
        {
            buf.push(0);
            i = i + 1;
        }
        TwoPolynomial { two_poly: buf, degree: degree_ }
    }

    /// An exact copy, coefficient by coefficient.
    pub fn duplicate(&self) -> (r: Self)
        ensures
            r.two_poly@ == self.two_poly@,
            r.degree == self.degree,
    {
        let nc = self.two_poly.len();
        let mut buf: Vec<i64> = Vec::new();
        let mut i: usize = 0;
        while i < nc
            invariant
                i <= nc,
                nc == self.two_poly@.len(),
                buf@.len() == i,
                forall|m: int| 0 <= m < i ==> #[trigger] buf@[m] == self.two_poly@[m],
            decreases nc - i,
        {
            buf.push(self.two_poly[i]);
            i = i + 1;
        }
        proof {
            assert(buf@ =~= self.two_poly@);
        }
        TwoPolynomial { two_poly: buf, degree: self.degree }
    }

    /// The exact Horner state of one row, kept wide.
    fn row_scaled(&self, i: usize, y: i64) -> (t: i128)
        requires
            self.wf(),
            i <= self.degree,
            -COORD_LIMIT <= y <= COORD_LIMIT,
        ensures
            t == row_horner(self.two_poly@, self.degree as int, i as int, y as int, 0),
    {
        let n = self.degree;
        let d = n - i;
        proof {
            lemma_index_in_range(n as int, i as int, d as int);
            assert(i * (n + 1) + d < 36) by (nonlinear_arith)
                requires
                    i <= n,
                    n <= 5,
                    d == n - i,
            ;
        }
        let base: usize = i * (n + 1);
        let mut t: i128 = self.two_poly[base + d] as i128;
        let mut p: i128 = 1;
        let mut k = d;
        proof {
            reveal(pow);
        }
        while k > 0
            invariant
                self.wf(),
                k <= d,
                d == n - i,
                i <= n,
                n == self.degree,
                -COORD_LIMIT <= y <= COORD_LIMIT,
                base == i * (n + 1),
                t == row_horner(self.two_poly@, n as int, i as int, y as int, k as int),
                p == pow(SCALE as int, (d - k) as nat),
            decreases k,
        {
            proof {
                reveal(pow);
                lemma_row_horner_bound(self.two_poly@, n as int, i as int, y as int, k as int);
                lemma_pow_caps((n - i - k) as nat);
                lemma_pow_caps((d - k) as nat);
                lemma_pow_caps((d - k + 1) as nat);
                assert(pow(SCALE as int, (d - k + 1) as nat)
                    == SCALE * pow(SCALE as int, (d - k) as nat));
                assert((n - i - k + 1) * COEF_LIMIT * pow(COORD_LIMIT as int, (n - i - k) as nat)
                    <= 6 * COEF_LIMIT * 1180591620717411303424) by (nonlinear_arith)
                    requires
                        1 <= n - i - k + 1 <= 6,
                        0 < pow(COORD_LIMIT as int, (n - i - k) as nat)
                            <= 1180591620717411303424,
                        0 < COEF_LIMIT,
                ;
                lemma_index_in_range(n as int, i as int, (k - 1) as int);
                assert(i * (n + 1) + (k - 1) < 36) by (nonlinear_arith)
                    requires
                        i <= n,
                        n <= 5,
                        0 < k <= n - i,
                ;
            }
            k = k - 1;
            let c = self.two_poly[base + k] as i128;
            let pk = p * (SCALE as i128);
            assert({
                &&& -200000000000000000000000000000000000 <= t * (y as i128)
                &&& t * (y as i128) <= 200000000000000000000000000000000000
                &&& -2000000000000000000000000000 <= c * pk
                &&& c * pk <= 2000000000000000000000000000
            }) by (nonlinear_arith)
                requires
                    -(6 * COEF_LIMIT * 1180591620717411303424) <= t <= 6 * COEF_LIMIT
                        * 1180591620717411303424,
                    -COORD_LIMIT <= y <= COORD_LIMIT,
                    -COEF_LIMIT <= c <= COEF_LIMIT,
                    0 < pk <= 1152921504606846976,
                    COEF_LIMIT == 0x4000_0000,
                    COORD_LIMIT == 16384,
            ;
            t = t * (y as i128) + c * pk;
            p = pk;
        }
        t
    }

    /// The value of row `order` of the coefficient grid at `y`, truncated to
    /// the common scale: the direct sum
    /// `sum_j coef(order, j) * y^j * SCALE^(n - order - j)`, divided by
    /// `SCALE^(n - order)` and rounded toward zero.
    pub fn eval_y(&self, order: usize, y: i64) -> (r: i64)
        requires
            self.wf(),
            order <= self.degree,
            -COORD_LIMIT <= y <= COORD_LIMIT,
        ensures
            r as int == div_trunc(
                row_terms(self.two_poly@, self.degree as int, order as int, y as int, 0),
                pow(SCALE as int, (self.degree - order) as nat),
            ),
            -VALUE_LIMIT <= r <= VALUE_LIMIT,
    {
        let n = self.degree;
        let t = self.row_scaled(order, y);
        let sn = scale_pow(n - order);
        proof {
            reveal(pow);
            let cg = self.two_poly@;
            let ni = n as int;
            let oi = order as int;
            let e = (ni - oi) as nat;
            lemma_row_shift(cg, ni, oi, y as int, 0);
            assert(pow(y as int, 0) == 1);
            lemma_row_horner_bound(cg, ni, oi, y as int, 0);
            lemma_pow_caps(e);
            vstd::arithmetic::power::lemma_pow_distributes(4, SCALE as int, e);
            lemma_four_pow_cap(e);
            assert({
                &&& (ni - oi + 1) * COEF_LIMIT * pow(COORD_LIMIT as int, e)
                    <= (6 * COEF_LIMIT * 1024) * pow(SCALE as int, e)
                &&& (6 * COEF_LIMIT * 1024) * pow(SCALE as int, e)
                    <= 6 * COEF_LIMIT * 1024 * 1152921504606846976
            }) by (nonlinear_arith)
                requires
                    pow(COORD_LIMIT as int, e) == pow(4, e) * pow(SCALE as int, e),
                    1 <= ni - oi + 1 <= 6,
                    0 < pow(4, e) <= 1024,
                    0 < pow(SCALE as int, e) <= 1152921504606846976,
                    0 < COEF_LIMIT,
            ;
            lemma_div_trunc_bound(
                row_horner(cg, ni, oi, y as int, 0),
                pow(SCALE as int, e),
                6 * COEF_LIMIT * 1024,
            );
        }
        let r = crate::fixed::div_trunc_i128(t, sn);
        r as i64
    }

    /// Horner evaluation of the whole polynomial at `(x, y)`: the direct
    /// double sum `sum_{i + j <= n} coef(i, j) * x^i * y^j`, carried out
    /// exactly at scale `SCALE^n` and truncated once toward zero.
    pub fn eval_xy(&self, x: i64, y: i64) -> (r: i64)
        requires
            self.wf(),
            -COORD_LIMIT <= x <= COORD_LIMIT,
            -COORD_LIMIT <= y <= COORD_LIMIT,
        ensures
            r as int == eval_mantissa(self.two_poly@, self.degree as int, x as int, y as int),
            -VALUE_LIMIT <= r <= VALUE_LIMIT,
    {
        let n = self.degree;
        let mut t: i128 = self.row_scaled(n, y);
        let mut m = n;
        while m > 0
            invariant
                self.wf(),
                m <= n,
                n == self.degree,
                -COORD_LIMIT <= x <= COORD_LIMIT,
                -COORD_LIMIT <= y <= COORD_LIMIT,
                t == poly_horner(self.two_poly@, n as int, x as int, y as int, m as int),
            decreases m,
        {
            proof {
                reveal(pow);
                let cg = self.two_poly@;
                let ni = n as int;
                lemma_poly_horner_bound(cg, ni, x as int, y as int, m as int);
                lemma_pow_caps((ni - m) as nat);
                assert((ni + 1) * (ni - m + 1) * COEF_LIMIT
                    * pow(COORD_LIMIT as int, (ni - m) as nat) <= 36 * COEF_LIMIT
                    * 1180591620717411303424) by (nonlinear_arith)
                    requires
                        1 <= ni + 1 <= 6,
                        1 <= ni - m + 1 <= 6,
                        0 < pow(COORD_LIMIT as int, (ni - m) as nat)
                            <= 1180591620717411303424,
                        0 < COEF_LIMIT,
                ;
            }
            m = m - 1;
            let row = self.row_scaled(m, y);
            assert({
                &&& -800000000000000000000000000000000000 <= t * (x as i128)
                &&& t * (x as i128) <= 800000000000000000000000000000000000
            }) by (nonlinear_arith)
                requires
                    -(36 * COEF_LIMIT * 1180591620717411303424) <= t <= 36 * COEF_LIMIT
                        * 1180591620717411303424,
                    -COORD_LIMIT <= x <= COORD_LIMIT,
                    COEF_LIMIT == 0x4000_0000,
                    COORD_LIMIT == 16384,
            ;
            proof {
                lemma_row_horner_bound(
                    self.two_poly@,
                    n as int,
                    m as int,
                    y as int,
                    0,
                );
                lemma_pow_caps((n - m) as nat);
                assert((n - m + 1) * COEF_LIMIT * pow(COORD_LIMIT as int, (n - m) as nat)
                    <= 6 * COEF_LIMIT * 1180591620717411303424) by (nonlinear_arith)
                    requires
                        1 <= n - m + 1 <= 6,
                        0 < pow(COORD_LIMIT as int, (n - m) as nat) <= 1180591620717411303424,
                        0 < COEF_LIMIT,
                ;
            }
            t = t * (x as i128) + row;
        }
        let sn = scale_pow(n);
        proof {
            lemma_eval_bound(self.two_poly@, n as int, x as int, y as int);
        }
        let r = crate::fixed::div_trunc_i128(t, sn);
        r as i64
    }
}

/// The scaled double sum of a well-formed buffer is what the Horner pass
/// computes, and its mantissa lies within `VALUE_LIMIT`.
pub proof fn lemma_eval_bound(c: Seq<i64>, n: int, x: int, y: int)
    requires
        coefs_ok(c, n),
        0 <= n <= MAX_DEGREE,
        -COORD_LIMIT <= x <= COORD_LIMIT,
        -COORD_LIMIT <= y <= COORD_LIMIT,
    ensures
        eval_num(c, n, x, y) == poly_horner(c, n, x, y, 0),
        -((36 * COEF_LIMIT * 1024) * pow(SCALE as int, n as nat)) <= eval_num(c, n, x, y),
        eval_num(c, n, x, y) <= (36 * COEF_LIMIT * 1024) * pow(SCALE as int, n as nat),
        -(36 * 0x4000_0000 * 1024 * 1152921504606846976) <= eval_num(c, n, x, y),
        eval_num(c, n, x, y) <= 36 * 0x4000_0000 * 1024 * 1152921504606846976,
        -VALUE_LIMIT <= eval_mantissa(c, n, x, y) <= VALUE_LIMIT,
{
    reveal(pow);
    let e = n as nat;
    lemma_poly_shift(c, n, x, y, 0);
    assert(pow(x, 0) == 1);
    lemma_poly_horner_bound(c, n, x, y, 0);
    lemma_pow_caps(e);
    vstd::arithmetic::power::lemma_pow_distributes(4, SCALE as int, e);
    lemma_four_pow_cap(e);
    assert({
        &&& (n + 1) * (n + 1) * COEF_LIMIT * pow(COORD_LIMIT as int, e)
            <= (36 * COEF_LIMIT * 1024) * pow(SCALE as int, e)
        &&& (36 * COEF_LIMIT * 1024) * pow(SCALE as int, e)
            <= 36 * COEF_LIMIT * 1024 * 1152921504606846976
    }) by (nonlinear_arith)
        requires
            pow(COORD_LIMIT as int, e) == pow(4, e) * pow(SCALE as int, e),
            1 <= n + 1 <= 6,
            0 < pow(4, e) <= 1024,
            0 < pow(SCALE as int, e) <= 1152921504606846976,
            0 < COEF_LIMIT,
    ;
    lemma_div_trunc_bound(
        eval_num(c, n, x, y),
        pow(SCALE as int, e),
        36 * COEF_LIMIT * 1024,
    );
}

} // verus!
