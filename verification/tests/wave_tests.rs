use meshfree::error::ModelError;
use meshfree::fixed::SCALE;
use meshfree::two_variable_polynomial::TwoPolynomial;
use meshfree::wave_eqation::WaveEq;
use rand::SeedableRng;

fn seeded() -> rand::rngs::StdRng {
    rand::rngs::StdRng::from_seed([1u8; 32])
}

#[test]
fn wave_init() {
    let wave = WaveEq::new();
    assert_eq!(wave.boundary.points.len(), 0);
    assert_eq!(wave.interior.points.len(), 0);
}

#[test]
fn wave_init_boundary_interior() {
    let mut wave = WaveEq::new();
    wave.create(25, &mut seeded()).unwrap();
    assert_eq!(wave.boundary.points.len(), 25);
    assert_eq!(wave.interior.points.len(), 49);
}

#[test]
fn set_initial() {
    let mut wave = WaveEq::new();
    wave.create(25, &mut seeded()).unwrap();
    wave.set_initial_condition();
    assert_eq!(wave.value.len(), 49);
    assert_eq!(wave.boundary.points.len(), 25);
    assert_eq!(wave.interior.points.len(), 49);
}

#[test]
fn set_near_boundary_points() {
    let mut wave = WaveEq::new();
    wave.create(25, &mut seeded()).unwrap();
    wave.set_initial_condition();
    wave.set_boundary_near_points().unwrap();
    assert_eq!(wave.near.len(), 25);
    for list in &wave.near {
        assert!(!list.is_empty());
    }
}

#[test]
fn set_near_interior_points() {
    let mut wave = WaveEq::new();
    wave.create(25, &mut seeded()).unwrap();
    wave.set_initial_condition();
    wave.set_boundary_near_points().unwrap();
    wave.set_interior_near_points().unwrap();
    assert_eq!(wave.near_points_interior.len(), 49);
    for list in &wave.near_points_interior {
        assert!(list.len() > 3);
    }
}

// Every boundary point whose first resolved neighbor is interior point `i`
// appears in that point's boundary list, and nowhere else.
#[test]
fn set_near_interior_points_plus_boundary() {
    let mut wave = WaveEq::new();
    wave.create(25, &mut seeded()).unwrap();
    wave.set_initial_condition();
    wave.set_boundary_near_points().unwrap();
    wave.set_interior_near_points().unwrap();
    wave.set_interior_near_points_plus_boundary();
    assert_eq!(wave.near_points_boundary.len(), 49);
    for (i, list) in wave.near_points_boundary.iter().enumerate() {
        for &k in list {
            assert_eq!(wave.near[k][0], i);
        }
    }
    for (k, list) in wave.near.iter().enumerate() {
        let owner = list[0];
        assert!(wave.near_points_boundary[owner].contains(&k));
    }
}

fn assert_in_disk(wave: &WaveEq, n: usize) {
    for p in &wave.interior.points {
        assert!(
            (p.x as i128) * (p.x as i128) + (p.y as i128) * (p.y as i128)
                < (SCALE as i128) * (SCALE as i128),
            "point escaped the disk for boundary size {n}"
        );
    }
}

// Containment after relaxation: every interior point stays strictly inside
// the unit disk, for two small boundary sizes built by the full pipeline.
#[test]
fn relaxation_keeps_points_in_disk() {
    for n in [4usize, 25] {
        let mut wave = WaveEq::new();
        wave.create(n, &mut seeded()).unwrap();
        for _ in 0..3 {
            wave.euler_step();
        }
        assert_in_disk(&wave, n);
    }
}

// The same containment for a boundary of 100 points, over a hand-placed
// interior cloud (skipping the thousand construction-time steps).
#[test]
fn relaxation_keeps_points_in_disk_large() {
    let mut wave = WaveEq::new();
    let n = 100usize;
    for i in 0..n {
        let (c, s) = meshfree::fixed::circle_point(i, n);
        wave.boundary.push(c, s);
    }
    let mut k: i64 = 0;
    while wave.interior.points.len() < 795 {
        let x = (k * 37) % 3500 - 1750;
        let y = (k * 53) % 3500 - 1750;
        if x * x + y * y < SCALE * SCALE {
            wave.interior.push(x, y);
        }
        k += 1;
    }
    for _ in 0..3 {
        wave.euler_step();
    }
    assert_in_disk(&wave, n);
}

// The whole pipeline, and the derived counts of the end-to-end scenario.
#[test]
fn end_to_end_counts() {
    let wave = WaveEq::make(25, 2, 100 * SCALE, &mut seeded()).unwrap();
    assert_eq!(wave.boundary.points.len(), 25);
    assert_eq!(wave.interior.points.len(), 49);
    assert_eq!(wave.value.len(), 49);
    assert_eq!(wave.near.len(), 25);
    for list in &wave.near {
        assert!(!list.is_empty());
    }
    assert_eq!(wave.poly.len(), 49);
}

// Repeated queries of a frozen model at the same point return the identical
// value: the query takes the model by shared reference and cannot mutate it.
#[test]
fn poly_eval_is_idempotent() {
    let wave = WaveEq::make(22, 2, 100 * SCALE, &mut seeded()).unwrap();
    for (x, y) in [(0i64, 0i64), (-SCALE / 2, 0), (SCALE / 4, -SCALE / 4)] {
        let first = wave.poly_eval(x, y).unwrap();
        let second = wave.poly_eval(x, y).unwrap();
        let third = wave.poly_eval(x, y).unwrap();
        assert_eq!(first, second);
        assert_eq!(second, third);
    }
}

#[test]
fn zero_points_is_a_configuration_error() {
    let mut wave = WaveEq::new();
    assert_eq!(wave.create(0, &mut seeded()).unwrap_err(), ModelError::Configuration);
}

#[test]
fn oversized_degree_is_a_configuration_error() {
    assert_eq!(
        WaveEq::make(25, 6, 100 * SCALE, &mut seeded()).unwrap_err(),
        ModelError::Configuration
    );
}

#[test]
fn query_without_patches_reports_no_patch() {
    let mut wave = WaveEq::new();
    wave.boundary.push(SCALE, 0);
    assert_eq!(wave.poly_eval(0, 0).unwrap_err(), ModelError::NoPatchFound);
}

#[test]
fn unreachable_tolerance_fails_the_build() {
    let mut wave = WaveEq::new();
    wave.interior.push(0, 0);
    wave.value.push(SCALE);
    wave.near_points_interior.push(vec![0]);
    wave.near_points_boundary.push(Vec::new());
    wave.poly.push(TwoPolynomial::new(0));
    assert_eq!(wave.set_init_poly(0).unwrap_err(), ModelError::NonConvergence);
}
