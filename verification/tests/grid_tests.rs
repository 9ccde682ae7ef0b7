use meshfree::error::ModelError;
use meshfree::fixed::SCALE;
use meshfree::grid_2d::Grid2D;
use meshfree::grid_3d::Grid3D;
use meshfree::point::Point3;
use meshfree::two_variable_polynomial::TwoPolynomial;
use meshfree::vector2::Vector2;

fn units(v: &[i64]) -> Vec<i64> {
    v.iter().map(|c| c * SCALE).collect()
}

fn poly_with(degree: usize, coefs: Vec<i64>) -> TwoPolynomial {
    let mut p = TwoPolynomial::new(degree);
    assert_eq!(p.two_poly.len(), coefs.len());
    p.two_poly = coefs;
    p
}

#[test]
fn polynomial_eval_test() {
    let poly = units(&[1, 2, 3]);
    let test = Grid2D::new();
    assert_eq!(test.eval(&poly, SCALE), 6 * SCALE);
    assert_eq!(test.eval(&poly, 2 * SCALE), 17 * SCALE);
}

#[test]
fn potential_eval_1() {
    let poly = units(&[3, 2, 1]);
    let mut test = Grid2D::new();
    test.point_2d.push(Vector2 { x: 0, y: 3 * SCALE });
    test.point_2d.push(Vector2 { x: SCALE, y: 6 * SCALE });
    test.point_2d.push(Vector2 { x: 2 * SCALE, y: 11 * SCALE });
    assert_eq!(test.potential(&poly), 0);
}

#[test]
fn potential_eval_2() {
    let poly = units(&[3, 2, 1]);
    let mut test = Grid2D::new();
    test.point_2d.push(Vector2 { x: 0, y: 4 * SCALE });
    test.point_2d.push(Vector2 { x: SCALE, y: 7 * SCALE });
    test.point_2d.push(Vector2 { x: 2 * SCALE, y: 12 * SCALE });
    assert_eq!(test.potential(&poly), SCALE as i128);
}

#[test]
fn grid_2d_potential_deriv_1() {
    let poly = units(&[3, 2, 1]);
    let mut test = Grid2D::new();
    test.point_2d.push(Vector2 { x: 0, y: 3 * SCALE });
    test.point_2d.push(Vector2 { x: SCALE, y: 6 * SCALE });
    test.point_2d.push(Vector2 { x: 2 * SCALE, y: 11 * SCALE });
    assert_eq!(test.potential_deriv(&poly)[0], 0);
    assert_eq!(test.potential_deriv(&poly)[1], 0);
    assert_eq!(test.potential_deriv(&poly)[2], 0);
}

#[test]
fn grid_2d_potential_deriv_2() {
    let poly = units(&[0, 0]);
    let mut test = Grid2D::new();
    test.point_2d.push(Vector2 { x: SCALE, y: SCALE });
    test.point_2d.push(Vector2 { x: -SCALE, y: -SCALE });
    assert_eq!(test.potential_deriv(&poly)[0], 0);
    assert_eq!(test.potential_deriv(&poly)[1], -SCALE);
}

// Samples exactly on (x - 1)^2; the spectator coordinate is held in the
// fixed-point band.
#[test]
fn two_poly_deriv_1() {
    let poly = poly_with(2, units(&[1, 0, 0, -2, 0, 0, 1, 0, 0]));
    let mut data = Grid3D::new();
    data.push(Point3 { x: SCALE, y: -4 * SCALE, z: 0 });
    data.push(Point3 { x: 0, y: 4 * SCALE, z: SCALE });
    data.push(Point3 { x: 3 * SCALE, y: 4 * SCALE, z: 4 * SCALE });
    assert_eq!(data.potential(&poly), 0);
}

#[test]
fn two_poly_deriv_2() {
    let poly = poly_with(2, units(&[1, 0, 0, -2, 0, 0, 1, 0, 0]));
    let mut data = Grid3D::new();
    data.push(Point3 { x: SCALE, y: -4 * SCALE, z: 0 });
    data.push(Point3 { x: 0, y: 4 * SCALE, z: SCALE });
    data.push(Point3 { x: 3 * SCALE, y: 4 * SCALE, z: 4 * SCALE });
    let du = data.potential_deriv(&poly);
    assert_eq!(du[0], 0);
    assert_eq!(du[1], 0);
    assert_eq!(du[2], 0);
    assert_eq!(du[3], 0);
    assert_eq!(du[4], 0);
    assert_eq!(du[5], 0);
}

#[test]
fn grid_3d_potential_deriv_1() {
    let poly = poly_with(2, units(&[1, 0, 0, -2, 0, 0, 1, 0, 0]));
    let mut test = Grid3D::new();
    test.push(Point3 { x: 0, y: 0, z: SCALE });
    test.push(Point3 { x: SCALE, y: 0, z: 0 });
    test.push(Point3 { x: 2 * SCALE, y: 0, z: SCALE });
    let du = test.potential_deriv(&poly);
    for k in 0..6 {
        assert_eq!(du[k], 0);
    }
}

#[test]
fn grid_3d_potential_deriv_2() {
    let poly = poly_with(2, units(&[1, -2, 1, 0, 0, 0, 0, 0, 0]));
    let mut test = Grid3D::new();
    test.push(Point3 { x: 0, y: 0, z: SCALE });
    test.push(Point3 { x: 0, y: SCALE, z: 0 });
    test.push(Point3 { x: 0, y: 2 * SCALE, z: SCALE });
    let du = test.potential_deriv(&poly);
    for k in 0..6 {
        assert_eq!(du[k], 0);
    }
}

#[test]
fn potential_deriv_3() {
    let poly = TwoPolynomial::new(2);
    let mut test = Grid3D::new();
    test.push(Point3 { x: 0, y: 0, z: SCALE });
    test.push(Point3 { x: 0, y: SCALE, z: 0 });
    test.push(Point3 { x: 0, y: 2 * SCALE, z: SCALE });
    let du = test.potential_deriv(&poly);
    assert_eq!(du[0], -2 * SCALE);
    assert_eq!(du[1], -2 * SCALE);
    assert_eq!(du[2], -4 * SCALE);
    assert_eq!(du[3], 0);
    assert_eq!(du[4], 0);
    assert_eq!(du[5], 0);
}

#[test]
fn potential_deriv_4() {
    let poly = TwoPolynomial::new(2);
    let mut test = Grid3D::new();
    test.push(Point3 { x: 0, y: 0, z: 0 });
    test.push(Point3 { x: SCALE, y: SCALE, z: SCALE });
    test.push(Point3 { x: 2 * SCALE, y: 0, z: 4 * SCALE });
    let du = test.potential_deriv(&poly);
    assert_eq!(du[0], -5 * SCALE);
    assert_eq!(du[1], -SCALE);
    assert_eq!(du[2], -SCALE);
    assert_eq!(du[3], -9 * SCALE);
    assert_eq!(du[4], -SCALE);
    assert_eq!(du[5], 0);
}

// The objective never increases across a fitting run.
#[test]
fn fitting_objective_never_increases() {
    let mut poly = TwoPolynomial::new(2);
    let mut data = Grid3D::new();
    data.push(Point3 { x: 0, y: 0, z: SCALE });
    data.push(Point3 { x: SCALE, y: 0, z: 0 });
    data.push(Point3 { x: 2 * SCALE, y: SCALE, z: SCALE });
    let pre = data.potential(&poly);
    let res = data.poly_fitting_by_euler_with_tol(&mut poly, 500);
    assert!(res.is_ok());
    let post = data.potential(&poly);
    assert!(post <= pre, "objective rose from {pre} to {post}");
}

// Exact-fit recovery: a degree-2 fit of (x - 1)^2 sampled at three points on
// the curve drives the objective all the way to zero.
#[test]
fn exact_fit_recovery_degree_2() {
    let mut poly = TwoPolynomial::new(2);
    let mut data = Grid3D::new();
    data.push(Point3 { x: -SCALE, y: 0, z: 4 * SCALE });
    data.push(Point3 { x: 0, y: 0, z: SCALE });
    data.push(Point3 { x: SCALE, y: 0, z: 0 });
    let res = data.poly_fitting_by_euler_with_tol(&mut poly, 1);
    let (coefs, converged) = res.expect("fit failed");
    assert!(converged, "descent did not reach the tolerance");
    assert_eq!(data.potential(&poly), 0);
    assert_eq!(coefs, poly.two_poly);
}

#[test]
fn empty_sample_set_is_an_error() {
    let mut poly = TwoPolynomial::new(2);
    let data = Grid3D::new();
    let res = data.poly_fitting_by_euler_with_tol(&mut poly, 100);
    assert_eq!(res.unwrap_err(), ModelError::EmptyNeighborhood);
}

// An unreachable tolerance leaves the non-convergence flag cleared.
#[test]
fn unreachable_tolerance_is_flagged() {
    let mut poly = TwoPolynomial::new(0);
    let mut data = Grid3D::new();
    data.push(Point3 { x: 0, y: 0, z: SCALE });
    let res = data.poly_fitting_by_euler_with_tol(&mut poly, 0);
    let (_, converged) = res.expect("fit failed");
    assert!(!converged);
}
