use meshfree::fixed::SCALE;
use meshfree::two_variable_polynomial::TwoPolynomial;

fn poly_with(degree: usize, coefs: Vec<i64>) -> TwoPolynomial {
    let mut p = TwoPolynomial::new(degree);
    assert_eq!(p.two_poly.len(), coefs.len());
    p.two_poly = coefs;
    p
}

fn units(v: &[i64]) -> Vec<i64> {
    v.iter().map(|c| c * SCALE).collect()
}

#[test]
fn two_poly_degree_1() {
    let test = TwoPolynomial::new(3);
    assert_eq!(test.degree, 3);
}

#[test]
fn two_poly_degree_2() {
    let test = TwoPolynomial::new(4);
    assert_eq!(test.two_poly.len(), 25);
}

#[test]
fn two_poly_eval_1() {
    let test = poly_with(
        3,
        units(&[1, 2, 3, 4, 5, 6, 7, 8, 9, 10, 11, 12, 13, 14, 15, 16]),
    );
    assert_eq!(test.eval_y(0, SCALE), 10 * SCALE);
    assert_eq!(test.eval_y(1, SCALE), 18 * SCALE);
    assert_eq!(test.eval_y(2, SCALE), 19 * SCALE);
    assert_eq!(test.eval_y(3, SCALE), 13 * SCALE);
}

#[test]
fn two_poly_eval_2() {
    let test = poly_with(
        3,
        units(&[1, 2, 3, 4, 5, 6, 7, 8, 9, 10, 11, 12, 13, 14, 15, 16]),
    );
    assert_eq!(test.eval_y(0, 2 * SCALE), 49 * SCALE);
    assert_eq!(test.eval_y(1, 2 * SCALE), 45 * SCALE);
    assert_eq!(test.eval_y(2, 2 * SCALE), 29 * SCALE);
    assert_eq!(test.eval_y(3, 2 * SCALE), 13 * SCALE);
}

#[test]
fn two_poly_eval_3() {
    let test = poly_with(
        3,
        units(&[1, 2, 3, 4, 5, 6, 7, 8, 9, 10, 11, 12, 13, 14, 15, 16]),
    );
    assert_eq!(test.eval_xy(SCALE, SCALE), 60 * SCALE);
    assert_eq!(test.eval_xy(2 * SCALE, SCALE), 226 * SCALE);
}

#[test]
fn two_poly_eval_4() {
    let test = poly_with(2, units(&[1, 2, 3, 4, 5, 6, 7, 8, 9]));
    assert_eq!(test.eval_xy(SCALE, SCALE), 22 * SCALE);
    assert_eq!(test.eval_xy(2 * SCALE, SCALE), 52 * SCALE);
    assert_eq!(test.eval_xy(2 * SCALE, 2 * SCALE), 73 * SCALE);
    assert_eq!(test.eval_xy(SCALE, 2 * SCALE), 38 * SCALE);
    assert_eq!(test.eval_xy(0, 0), SCALE);
}

/// The direct triangular double sum over integer-unit inputs, for comparison
/// with the Horner evaluation.
fn direct_sum(coefs: &[i64], degree: usize, x_units: i64, y_units: i64) -> i64 {
    let n = degree;
    let mut total: i64 = 0;
    for i in 0..(n + 1) {
        for j in 0..(n + 1) {
            if i + j <= n {
                let mut term = coefs[i * (n + 1) + j];
                for _ in 0..i {
                    term *= x_units;
                }
                for _ in 0..j {
                    term *= y_units;
                }
                total += term;
            }
        }
    }
    total
}

#[test]
fn horner_matches_double_sum_degree_0() {
    let c = [-7i64];
    let p = poly_with(0, units(&c));
    assert_eq!(p.eval_xy(3 * SCALE, -2 * SCALE), direct_sum(&c, 0, 3, -2) * SCALE);
}

#[test]
fn horner_matches_double_sum_degree_2() {
    let c = [3i64, -2, 1, -4, 5, 0, 7, 0, 0];
    let p = poly_with(2, units(&c));
    for (x, y) in [(1i64, 1i64), (-2, 3), (2, -2), (0, -1)] {
        assert_eq!(
            p.eval_xy(x * SCALE, y * SCALE),
            direct_sum(&c, 2, x, y) * SCALE,
            "mismatch at ({x}, {y})"
        );
    }
}

#[test]
fn horner_matches_double_sum_degree_3() {
    let c = [1i64, -1, 2, -2, 3, -3, 4, 0, 5, 0, 0, 0, -6, 0, 0, 0];
    let p = poly_with(3, units(&c));
    for (x, y) in [(1i64, -1i64), (-1, 2), (2, 1), (-2, -2)] {
        assert_eq!(
            p.eval_xy(x * SCALE, y * SCALE),
            direct_sum(&c, 3, x, y) * SCALE,
            "mismatch at ({x}, {y})"
        );
    }
}
