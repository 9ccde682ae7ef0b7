//! The fixed-point scalar every module computes with.
//!
//! A mantissa `m: i64` stands for the real number `m / SCALE`. Sums and
//! differences of mantissas are exact; a product of two mantissas carries the
//! square of the scale and is brought back by one truncating division, which
//! `div_trunc` captures. Wide intermediates live in `i128`.

use vstd::arithmetic::power::pow;
use vstd::prelude::*;

verus! {

/// Denominator of every fixed-point quantity in the crate.
pub const SCALE: i64 = 4096;

/// Largest coordinate mantissa the geometric routines accept (four units).
pub const COORD_LIMIT: i64 = 4 * SCALE;

/// The circle constant at scale `SCALE`, rounded to nearest.
pub const PI_SCALED: i64 = 12868;

/// Quotient of `a` by `b`, rounded toward zero, as Rust's integer division
/// rounds; spec-level `/` on `int` rounds toward minus infinity instead.
pub open spec fn div_trunc(a: int, b: int) -> int
    recommends
        b > 0,
{
    if a >= 0 {
        a / b
    } else {
        -((-a) / b)
    }
}

/// `v` clamped to the band `[-lim, lim]`.
pub open spec fn clamp(v: int, lim: int) -> int
    recommends
        lim > 0,
{
    if v > lim {
        lim
    } else if v < -lim {
        -lim
    } else {
        v
    }
}

/// A quotient of non-negative by positive stays within the dividend's band.
pub proof fn lemma_div_band(a: int, b: int)
    requires
        0 <= a,
        1 <= b,
    ensures
        0 <= a / b <= a,
{
    vstd::arithmetic::div_mod::lemma_div_pos_is_pos(a, b);
    vstd::arithmetic::div_mod::lemma_div_nonincreasing(a, b);
}

/// A truncated quotient of a bounded value is bounded by the same multiple.
pub proof fn lemma_div_trunc_bound(a: int, b: int, k: int)
    requires
        b > 0,
        0 <= k,
        -(k * b) <= a <= k * b,
    ensures
        -k <= div_trunc(a, b) <= k,
{
    if a >= 0 {
        vstd::arithmetic::div_mod::lemma_div_is_ordered(a, k * b, b);
        vstd::arithmetic::div_mod::lemma_div_by_multiple(k, b);
        vstd::arithmetic::div_mod::lemma_div_pos_is_pos(a, b);
    } else {
        vstd::arithmetic::div_mod::lemma_div_is_ordered(-a, k * b, b);
        vstd::arithmetic::div_mod::lemma_div_by_multiple(k, b);
        vstd::arithmetic::div_mod::lemma_div_pos_is_pos(-a, b);
    }
}

/// Quotient of `a` by positive `b`, rounded toward zero.
pub fn div_trunc_i128(a: i128, b: i128) -> (r: i128)
    requires
        b > 0,
        a > i128::MIN,
    ensures
        r == div_trunc(a as int, b as int),
        -a <= r <= a || a <= r <= -a,
{
    if a >= 0 {
        proof {
            vstd::arithmetic::div_mod::lemma_div_pos_is_pos(a as int, b as int);
            vstd::arithmetic::div_mod::lemma_div_nonincreasing(a as int, b as int);
        }
        a / b
    } else {
        proof {
            vstd::arithmetic::div_mod::lemma_div_pos_is_pos(-(a as int), b as int);
            vstd::arithmetic::div_mod::lemma_div_nonincreasing(-(a as int), b as int);
        }
        -((-a) / b)
    }
}

/// A wide value clamped into the band `[-lim, lim]` of a narrow mantissa.
pub fn clamp_i128(v: i128, lim: i64) -> (r: i64)
    requires
        lim > 0,
    ensures
        r == clamp(v as int, lim as int),
        -lim <= r <= lim,
{
    if v > lim as i128 {
        lim
    } else if v < -(lim as i128) {
        -lim
    } else {
        v as i64
    }
}

/// Powers of a smaller non-negative base never overtake those of a larger.
pub proof fn lemma_pow_base_le(a: int, b: int, e: nat)
    requires
        0 <= a <= b,
    ensures
        0 <= pow(a, e) <= pow(b, e),
    decreases e,
{
    reveal(pow);
    if e > 0 {
        lemma_pow_base_le(a, b, (e - 1) as nat);
        assert(0 <= a * pow(a, (e - 1) as nat) <= b * pow(b, (e - 1) as nat))
            by (nonlinear_arith)
            requires
                0 <= a <= b,
                0 <= pow(a, (e - 1) as nat) <= pow(b, (e - 1) as nat),
        ;
    }
}

/// Concrete caps on the powers the evaluation routines meet:
/// `SCALE^5 == 2^60` and `COORD_LIMIT^5 == 2^70`.
pub proof fn lemma_pow_caps(e: nat)
    requires
        e <= 5,
    ensures
        0 < pow(SCALE as int, e) <= 1152921504606846976,
        0 < pow(COORD_LIMIT as int, e) <= 1180591620717411303424,
        pow(SCALE as int, e) <= pow(COORD_LIMIT as int, e),
{
    reveal(pow);
    assert(pow(SCALE as int, 1) == SCALE * pow(SCALE as int, 0));
    assert(pow(SCALE as int, 2) == SCALE * pow(SCALE as int, 1));
    assert(pow(SCALE as int, 3) == SCALE * pow(SCALE as int, 2));
    assert(pow(SCALE as int, 4) == SCALE * pow(SCALE as int, 3));
    assert(pow(SCALE as int, 5) == SCALE * pow(SCALE as int, 4));
    assert(pow(COORD_LIMIT as int, 1) == COORD_LIMIT * pow(COORD_LIMIT as int, 0));
    assert(pow(COORD_LIMIT as int, 2) == COORD_LIMIT * pow(COORD_LIMIT as int, 1));
    assert(pow(COORD_LIMIT as int, 3) == COORD_LIMIT * pow(COORD_LIMIT as int, 2));
    assert(pow(COORD_LIMIT as int, 4) == COORD_LIMIT * pow(COORD_LIMIT as int, 3));
    assert(pow(COORD_LIMIT as int, 5) == COORD_LIMIT * pow(COORD_LIMIT as int, 4));
    lemma_pow_base_le(SCALE as int, COORD_LIMIT as int, e);
    vstd::arithmetic::power::lemma_pow_positive(SCALE as int, e);
    if e < 5 {
        vstd::arithmetic::power::lemma_pow_increases(SCALE as nat, e, 5);
        vstd::arithmetic::power::lemma_pow_increases(COORD_LIMIT as nat, e, 5);
    }
}

/// `4^e` is capped by `4^5` for the degrees in range.
pub proof fn lemma_four_pow_cap(e: nat)
    requires
        e <= 5,
    ensures
        0 < pow(4, e) <= 1024,
{
    reveal(pow);
    assert(pow(4, 1) == 4 * pow(4, 0));
    assert(pow(4, 2) == 4 * pow(4, 1));
    assert(pow(4, 3) == 4 * pow(4, 2));
    assert(pow(4, 4) == 4 * pow(4, 3));
    assert(pow(4, 5) == 4 * pow(4, 4));
    if e < 5 {
        vstd::arithmetic::power::lemma_pow_increases(4, e, 5);
    }
}

/// `SCALE^e` as a wide integer.
pub fn scale_pow(e: usize) -> (r: i128)
    requires
        e <= 5,
    ensures
        r == pow(SCALE as int, e as nat),
        0 < r,
{
    proof {
        lemma_pow_caps(e as nat);
        reveal(pow);
    }
    let mut r: i128 = 1;
    let mut k: usize = 0;
    while k < e
        invariant
            k <= e,
            e <= 5,
            r == pow(SCALE as int, k as nat),
            0 < r,
        decreases e - k,
    {
        proof {
            reveal(pow);
            lemma_pow_caps(k as nat);
            lemma_pow_caps((k + 1) as nat);
            assert(pow(SCALE as int, (k + 1) as nat) == SCALE * pow(SCALE as int, k as nat));
            assert(0 < r <= 1152921504606846976);
            assert(0 < r * 4096 <= 4722366482869645213696) by (nonlinear_arith)
                requires
                    0 < r <= 1152921504606846976,
            ;
        }
        r = r * (SCALE as i128);
        k = k + 1;
    }
    r
}

/// `b^e` as a wide integer, for a coordinate-sized base.
pub fn int_pow(b: i64, e: usize) -> (r: i128)
    requires
        -COORD_LIMIT <= b <= COORD_LIMIT,
        e <= 5,
    ensures
        r == pow(b as int, e as nat),
        -pow(COORD_LIMIT as int, e as nat) <= r <= pow(COORD_LIMIT as int, e as nat),
{
    proof {
        reveal(pow);
        lemma_pow_caps(e as nat);
        lemma_pow_base_le(0, COORD_LIMIT as int, e as nat);
        if b >= 0 {
            lemma_pow_base_le(b as int, COORD_LIMIT as int, e as nat);
        }
    }
    let mut r: i128 = 1;
    let mut k: usize = 0;
    while k < e
        invariant
            k <= e,
            e <= 5,
            -COORD_LIMIT <= b <= COORD_LIMIT,
            r == pow(b as int, k as nat),
            -pow(COORD_LIMIT as int, k as nat) <= r <= pow(COORD_LIMIT as int, k as nat),
        decreases e - k,
    {
        proof {
            reveal(pow);
            lemma_pow_caps(k as nat);
            lemma_pow_caps((k + 1) as nat);
            assert(pow(b as int, (k + 1) as nat) == b * pow(b as int, k as nat));
            assert(pow(COORD_LIMIT as int, (k + 1) as nat)
                == COORD_LIMIT * pow(COORD_LIMIT as int, k as nat));
            let pb = pow(COORD_LIMIT as int, k as nat);
            assert({
                &&& b * r == r * b
                &&& -(COORD_LIMIT * pb) <= r * b <= COORD_LIMIT * pb
            }) by (nonlinear_arith)
                requires
                    -pb <= r <= pb,
                    -COORD_LIMIT <= b <= COORD_LIMIT,
                    0 <= pb,
            ;
            assert(0 < COORD_LIMIT * pb <= 1180591620717411303424 * 16384)
                by (nonlinear_arith)
                requires
                    0 < pb <= 1180591620717411303424,
                    COORD_LIMIT == 16384,
            ;
        }
        r = r * (b as i128);
        k = k + 1;
    }
    r
}

/// The integer square root as a spec value: the unique non-negative `r`
/// with `r * r <= n < (r + 1) * (r + 1)`.
pub open spec fn floor_sqrt(n: int) -> int {
    choose|r: int| r >= 0 && #[trigger] (r * r) <= n && n < (r + 1) * (r + 1)
}

/// Any witness of the square-root characterization is the spec value.
pub proof fn lemma_floor_sqrt(n: int, r: int)
    requires
        r >= 0,
        r * r <= n,
        n < (r + 1) * (r + 1),
    ensures
        floor_sqrt(n) == r,
{
    assert(exists|q: int| q >= 0 && #[trigger] (q * q) <= n && n < (q + 1) * (q + 1)) by {
        assert(r >= 0 && r * r <= n && n < (r + 1) * (r + 1));
    }
    let r2 = floor_sqrt(n);
    assert(r2 >= 0 && r2 * r2 <= n && n < (r2 + 1) * (r2 + 1));
    assert(r2 == r) by (nonlinear_arith)
        requires
            r >= 0,
            r * r <= n,
            n < (r + 1) * (r + 1),
            r2 >= 0,
            r2 * r2 <= n,
            n < (r2 + 1) * (r2 + 1),
    ;
}

/// The reciprocal of Euler's number at scale `SCALE`, rounded to nearest.
pub const E_INV_SCALED: i64 = 1507;

/// The integer base-folding of `exp_neg`: `SCALE` with `1/e` multiplied in
/// `k` times, truncating at the common scale each time.
pub open spec fn exp_base_spec(k: int) -> int
    decreases k,
{
    if k <= 0 {
        SCALE as int
    } else {
        (exp_base_spec(k - 1) * E_INV_SCALED) / (SCALE as int)
    }
}

/// The integer computation of `exp_neg`: the value of `exp(-q / SCALE)` as
/// the folded base for the integer part times the clamped Taylor value of
/// the fractional part, brought back to the common scale.
pub open spec fn exp_neg_spec(q: int) -> int {
    let m = q / (SCALE as int);
    let f = q % (SCALE as int);
    let mm = if m > 64 {
        64int
    } else {
        m
    };
    let t = SCALE - f + (f * f) / (2 * SCALE as int) - (f * f * f) / (6 * SCALE as int
        * SCALE as int) + (f * f * f * f) / (24 * SCALE as int * SCALE as int * SCALE as int);
    let tp = if clamp(t, SCALE as int) < 0 {
        0
    } else {
        clamp(t, SCALE as int)
    };
    (exp_base_spec(mm) * tp) / (SCALE as int)
}

/// The clamped Taylor cosine of `cos_quarter`, as a spec value.
pub open spec fn cos_quarter_spec(a: int) -> int {
    clamp(
        SCALE - (a * a) / (2 * SCALE as int) + (a * a * a * a) / (24 * SCALE as int * SCALE as int
            * SCALE as int) - (a * a * a * a * a * a) / (720 * SCALE as int * SCALE as int
            * SCALE as int * SCALE as int * SCALE as int),
        SCALE as int,
    )
}

/// The clamped Taylor sine of `sin_quarter`, as a spec value.
pub open spec fn sin_quarter_spec(a: int) -> int {
    clamp(
        a - (a * a * a) / (6 * SCALE as int * SCALE as int) + (a * a * a * a * a) / (120
            * SCALE as int * SCALE as int * SCALE as int * SCALE as int),
        SCALE as int,
    )
}

/// The integer computation of `circle_point`: quadrant reduction of the
/// turn fraction `i / n`, then the Taylor pair rotated into the quadrant.
pub open spec fn circle_point_spec(i: int, n: int) -> (int, int) {
    let q = (4 * i) / n;
    let f = (4 * i) % n;
    let a = (PI_SCALED * f) / (2 * n);
    let c = cos_quarter_spec(a);
    let s = sin_quarter_spec(a);
    let qm = q % 4;
    if qm == 0 {
        (c, s)
    } else if qm == 1 {
        (-s, c)
    } else if qm == 2 {
        (-c, -s)
    } else {
        (s, -c)
    }
}

/// The point `i` of `n` evenly spaced points on the unit circle, as
/// fixed-point `(cos, sin)` mantissas: a quadrant reduction followed by a
/// short Taylor series, clamped into the unit band.
pub fn circle_point(i: usize, n: usize) -> (r: (i64, i64))
    requires
        0 < n <= 1000000,
        i < n,
    ensures
        -SCALE <= r.0 <= SCALE,
        -SCALE <= r.1 <= SCALE,
        r.0 as int == circle_point_spec(i as int, n as int).0,
        r.1 as int == circle_point_spec(i as int, n as int).1,
{
    let fi = i as u64;
    let fn_ = n as u64;
    // quadrant and the fraction of a quarter turn inside it
    let q: u64 = (4 * fi) / fn_;
    let f: u64 = (4 * fi) % fn_;
    proof {
        vstd::arithmetic::div_mod::lemma_mod_division_less_than_divisor(
            (4 * fi) as int,
            fn_ as int,
        );
        vstd::arithmetic::div_mod::lemma_multiply_divide_lt((4 * fi) as int, fn_ as int, 4);
    }
    // the angle within the quadrant, in [0, pi/2) at scale SCALE
    proof {
        assert((PI_SCALED as u64) * f <= 12868000000) by (nonlinear_arith)
            requires
                0 <= f < 1000000,
                PI_SCALED == 12868,
        ;
    }
    let a: i64 = (((PI_SCALED as u64) * f) / (2 * fn_)) as i64;
    proof {
        vstd::arithmetic::div_mod::lemma_div_pos_is_pos(((PI_SCALED as u64) * f) as int, (2
            * fn_) as int);
        assert((PI_SCALED as u64) * f < (PI_SCALED as u64) * fn_) by (nonlinear_arith)
            requires
                f < fn_,
                0 < (PI_SCALED as u64),
        ;
        vstd::arithmetic::div_mod::lemma_multiply_divide_lt(
            ((PI_SCALED as u64) * f) as int,
            (2 * fn_) as int,
            PI_SCALED as int,
        );
        assert(((PI_SCALED as u64) * f) / (2 * fn_) < PI_SCALED as u64);
    }
    let c = cos_quarter(a);
    let s = sin_quarter(a);
    let qm = q % 4;
    proof {
        assert(q as int == (4 * i as int) / (n as int));
        assert(f as int == (4 * i as int) % (n as int));
        assert(a as int == (PI_SCALED * f as int) / (2 * n as int));
        assert(qm as int == (q as int) % 4);
    }
    if qm == 0 {
        (c, s)
    } else if qm == 1 {
        (-s, c)
    } else if qm == 2 {
        (-c, -s)
    } else {
        (s, -c)
    }
}

/// Cosine on `[0, pi/2)` at scale `SCALE`: a degree-six Taylor polynomial,
/// clamped into the unit band.
fn cos_quarter(a: i64) -> (r: i64)
    requires
        0 <= a < PI_SCALED,
    ensures
        -SCALE <= r <= SCALE,
        r as int == cos_quarter_spec(a as int),
{
    let aw = a as i128;
    let sw = SCALE as i128;
    proof {
        assert(0 <= aw * aw <= 165585424) by (nonlinear_arith)
            requires
                0 <= aw < 12868,
        ;
    }
    let a2: i128 = aw * aw;
    proof {
        assert(0 <= a2 * a2 <= 28000000000000000) by (nonlinear_arith)
            requires
                0 <= a2 <= 165585424,
        ;
    }
    let a4: i128 = a2 * a2;
    proof {
        assert(0 <= a4 * a2 <= 5000000000000000000000000) by (nonlinear_arith)
            requires
                0 <= a2 <= 165585424,
                0 <= a4 <= 28000000000000000,
        ;
    }
    let a6: i128 = a4 * a2;
    proof {
        lemma_div_band(a2 as int, 2 * SCALE as int);
        lemma_div_band(a4 as int, 24 * SCALE as int * SCALE as int * SCALE as int);
        lemma_div_band(
            a6 as int,
            720 * SCALE as int * SCALE as int * SCALE as int * SCALE as int * SCALE as int,
        );
    }
    let t: i128 = sw - a2 / (2 * sw) + a4 / (24 * sw * sw * sw) - a6 / (720 * sw * sw * sw * sw
        * sw);
    proof {
        let ai = a as int;
        assert({
            &&& a2 == ai * ai
            &&& a4 == ai * ai * ai * ai
            &&& a6 == ai * ai * ai * ai * ai * ai
        }) by (nonlinear_arith)
            requires
                a2 == (a as int) * (a as int),
                a4 == a2 * a2,
                a6 == a4 * a2,
                ai == a as int,
        ;
    }
    let r = clamp_i128(t, SCALE);
    proof {
        assert(r as int == cos_quarter_spec(a as int));
    }
    r
}

/// Sine on `[0, pi/2)` at scale `SCALE`: a degree-five Taylor polynomial,
/// clamped into the unit band.
fn sin_quarter(a: i64) -> (r: i64)
    requires
        0 <= a < PI_SCALED,
    ensures
        -SCALE <= r <= SCALE,
        r as int == sin_quarter_spec(a as int),
{
    let aw = a as i128;
    let sw = SCALE as i128;
    proof {
        assert(0 <= aw * aw <= 165585424) by (nonlinear_arith)
            requires
                0 <= aw < 12868,
        ;
    }
    let a2: i128 = aw * aw;
    proof {
        assert(0 <= a2 * aw <= 2200000000000) by (nonlinear_arith)
            requires
                0 <= a2 <= 165585424,
                0 <= aw < 12868,
        ;
    }
    let a3: i128 = a2 * aw;
    proof {
        assert(0 <= a3 * a2 <= 400000000000000000000) by (nonlinear_arith)
            requires
                0 <= a2 <= 165585424,
                0 <= a3 <= 2200000000000,
        ;
    }
    let a5: i128 = a3 * a2;
    proof {
        lemma_div_band(a3 as int, 6 * SCALE as int * SCALE as int);
        lemma_div_band(a5 as int, 120 * SCALE as int * SCALE as int * SCALE as int * SCALE as int);
    }
    let t: i128 = aw - a3 / (6 * sw * sw) + a5 / (120 * sw * sw * sw * sw);
    proof {
        let ai = a as int;
        assert({
            &&& a3 == ai * ai * ai
            &&& a5 == ai * ai * ai * ai * ai
        }) by (nonlinear_arith)
            requires
                a2 == (a as int) * (a as int),
                a3 == a2 * (a as int),
                a5 == a3 * a2,
                ai == a as int,
        ;
    }
    let r = clamp_i128(t, SCALE);
    proof {
        assert(r as int == sin_quarter_spec(a as int));
    }
    r
}

/// `exp(-q / SCALE)` for a non-negative fixed-point `q`, as a mantissa in
/// `[0, SCALE]`: the integer part is folded in by repeated multiplication
/// with `1/e`, the fractional part by a short alternating Taylor series. The
/// value at `q == 0` is exactly one.
pub fn exp_neg(q: i64) -> (r: i64)
    requires
        0 <= q,
    ensures
        0 <= r <= SCALE,
        q == 0 ==> r == SCALE,
        r as int == exp_neg_spec(q as int),
{
    let sw = SCALE as i128;
    let m: i64 = q / SCALE;
    let f: i64 = q % SCALE;
    proof {
        vstd::arithmetic::div_mod::lemma_mod_division_less_than_divisor(q as int, SCALE as int);
        vstd::arithmetic::div_mod::lemma_mod_bound(q as int, SCALE as int);
        vstd::arithmetic::div_mod::lemma_div_pos_is_pos(q as int, SCALE as int);
    }
    let mut base: i128 = sw;
    let mut k: i64 = 0;
    // fold e^-1 in min(m, 64) times; beyond that the value is already zero
    let mm: i64 = if m > 64 {
        64
    } else {
        m
    };
    while k < mm
        invariant
            sw == SCALE as i128,
            0 <= base <= SCALE as i128,
            0 <= k <= mm,
            mm <= 64,
            base == exp_base_spec(k as int),
            m == 0 ==> base == SCALE as i128,
            m == 0 ==> mm == 0,
        decreases mm - k,
    {
        proof {
            assert(0 <= (base as int) * 1507 <= 16777216) by (nonlinear_arith)
                requires
                    0 <= base <= 4096,
            ;
        }
        let prod: i128 = base * (E_INV_SCALED as i128);
        proof {
            vstd::arithmetic::div_mod::lemma_div_pos_is_pos(prod as int, SCALE as int);
            vstd::arithmetic::div_mod::lemma_div_is_ordered(prod as int, 16777216, SCALE as int);
            vstd::arithmetic::div_mod::lemma_div_by_multiple(SCALE as int, SCALE as int);
            assert(16777216 == SCALE as int * SCALE as int);
            assert(exp_base_spec(k as int + 1) == (exp_base_spec(k as int) * E_INV_SCALED) / (
            SCALE as int));
        }
        base = prod / sw;
        k = k + 1;
    }
    let fw = f as i128;
    proof {
        assert(0 <= fw * fw <= 16777216) by (nonlinear_arith)
            requires
                0 <= fw < 4096,
        ;
    }
    let f2: i128 = fw * fw;
    proof {
        assert(0 <= f2 * fw <= 68719476736) by (nonlinear_arith)
            requires
                0 <= f2 <= 16777216,
                0 <= fw < 4096,
        ;
    }
    let f3: i128 = f2 * fw;
    proof {
        assert(0 <= f3 * fw <= 281474976710656) by (nonlinear_arith)
            requires
                0 <= f3 <= 68719476736,
                0 <= fw < 4096,
        ;
    }
    let f4: i128 = f3 * fw;
    proof {
        lemma_div_band(f2 as int, 2 * SCALE as int);
        lemma_div_band(f3 as int, 6 * SCALE as int * SCALE as int);
        lemma_div_band(f4 as int, 24 * SCALE as int * SCALE as int * SCALE as int);
    }
    let t: i128 = sw - fw + f2 / (2 * sw) - f3 / (6 * sw * sw) + f4 / (24 * sw * sw * sw);
    let tc: i64 = clamp_i128(t, SCALE);
    let tpos: i64 = if tc < 0 {
        0
    } else {
        tc
    };
    proof {
        assert(0 <= base * (tpos as i128) <= (SCALE as i128) * (SCALE as i128))
            by (nonlinear_arith)
            requires
                0 <= base <= SCALE as i128,
                0 <= tpos <= SCALE,
        ;
        vstd::arithmetic::div_mod::lemma_div_pos_is_pos(base as int * tpos as int, SCALE as int);
        vstd::arithmetic::div_mod::lemma_div_is_ordered(
            base as int * tpos as int,
            SCALE as int * SCALE as int,
            SCALE as int,
        );
        vstd::arithmetic::div_mod::lemma_div_by_multiple(SCALE as int, SCALE as int);
    }
    let r128: i128 = (base * (tpos as i128)) / sw;
    let r = r128 as i64;
    proof {
        let qi = q as int;
        assert(m as int == qi / (SCALE as int));
        assert(f as int == qi % (SCALE as int));
        assert({
            &&& f2 == (f as int) * (f as int)
            &&& f3 == (f as int) * (f as int) * (f as int)
            &&& f4 == (f as int) * (f as int) * (f as int) * (f as int)
        }) by (nonlinear_arith)
            requires
                f2 == (f as int) * (f as int),
                f3 == f2 * (f as int),
                f4 == f3 * (f as int),
        ;
        assert(base == exp_base_spec(if m > 64 { 64int } else { m as int }));
        assert(r as int == exp_neg_spec(q as int));
        if q == 0 {
            assert(m == 0 && f == 0);
            assert(fw == 0 && f2 == 0 && f3 == 0 && f4 == 0);
            vstd::arithmetic::div_mod::lemma_basic_div(0, 2 * SCALE as int);
            vstd::arithmetic::div_mod::lemma_basic_div(0, 6 * SCALE as int * SCALE as int);
            vstd::arithmetic::div_mod::lemma_basic_div(
                0,
                24 * SCALE as int * SCALE as int * SCALE as int,
            );
            assert(f2 as int / (2 * SCALE as int) == 0);
            assert(f3 as int / (6 * SCALE as int * SCALE as int) == 0);
            assert(f4 as int / (24 * SCALE as int * SCALE as int * SCALE as int) == 0);
            assert(t == sw);
            assert(tpos == SCALE);
            assert(base == SCALE as i128);
            assert(r128 as int == ((SCALE as int) * (SCALE as int)) / (SCALE as int));
        }
    }
    r
}

/// The integer square root: the largest `r` with `r * r <= n`.
pub fn isqrt_u64(n: u64) -> (r: u64)
    ensures
        r * r <= n < (r + 1) * (r + 1),
        r as int == floor_sqrt(n as int),
{
    let mut lo: u64 = 0;
    let mut hi: u64 = 0xffff_ffff;
    while lo < hi
        invariant
            lo <= hi <= 0xffff_ffff,
            lo * lo <= n,
            n < (hi + 1) * (hi + 1),
        decreases hi - lo,
    {
        let mid: u64 = lo + (hi - lo + 1) / 2;
        assert(mid * mid <= 0xffff_ffff_ffff_ffff) by (nonlinear_arith)
            requires mid <= 0xffff_ffff;
        if mid * mid <= n {
            assert(lo < mid <= hi);
            lo = mid;
        } else {
            hi = mid - 1;
        }
    }
    proof {
        lemma_floor_sqrt(n as int, lo as int);
    }
    lo
}

} // verus!
