use meshfree::fixed::SCALE;
use meshfree::kd_tree::Grid2D;
use meshfree::kd_tree::KDTree;
use meshfree::kd_tree::Points2D;
use rand::Rng;
use rand::SeedableRng;

fn brute_force(points: &Points2D, center: &Grid2D, radius: i64) -> Vec<usize> {
    let rr = (radius as i128) * (radius as i128);
    let mut out = Vec::new();
    for (i, p) in points.points.iter().enumerate() {
        let dx = (p.x - center.x) as i128;
        let dy = (p.y - center.y) as i128;
        if dx * dx + dy * dy <= rr {
            out.push(i);
        }
    }
    out
}

fn random_cloud(rng: &mut rand::rngs::StdRng, n: usize) -> Points2D {
    let mut cloud = Points2D::new();
    for _ in 0..n {
        cloud.push(rng.gen_range(-SCALE..SCALE), rng.gen_range(-SCALE..SCALE));
    }
    cloud
}

fn check_cloud(rng: &mut rand::rngs::StdRng, n: usize) {
    let cloud = random_cloud(rng, n);
    let tree = KDTree::construct_kd_tree(&cloud);
    for _ in 0..20 {
        let center = Grid2D::new(rng.gen_range(-SCALE..SCALE), rng.gen_range(-SCALE..SCALE));
        let radius = rng.gen_range(0..2 * SCALE);
        let mut got = tree.neighbor_search(&center, radius);
        let mut want = brute_force(&cloud, &center, radius);
        got.sort();
        want.sort();
        assert_eq!(got, want, "cloud of {n}: query mismatch");
    }
}

// The radius query returns exactly the brute-force index set, for clouds of
// several sizes.
#[test]
fn radius_query_matches_brute_force() {
    let mut rng = rand::rngs::StdRng::from_seed([7u8; 32]);
    for n in [1usize, 2, 50, 500] {
        check_cloud(&mut rng, n);
    }
}

#[test]
fn radius_query_empty_cloud() {
    let cloud = Points2D::new();
    let tree = KDTree::construct_kd_tree(&cloud);
    let got = tree.neighbor_search(&Grid2D::new(0, 0), SCALE);
    assert!(got.is_empty());
}

#[test]
fn radius_query_self_is_neighbor() {
    let mut cloud = Points2D::new();
    cloud.push(100, -200);
    cloud.push(3000, 3000);
    let tree = KDTree::construct_kd_tree(&cloud);
    let got = tree.neighbor_search(&Grid2D::new(100, -200), 0);
    assert_eq!(got, vec![0]);
}

#[test]
fn radius_query_ties_at_median() {
    let mut cloud = Points2D::new();
    for _ in 0..5 {
        cloud.push(0, 0);
    }
    let tree = KDTree::construct_kd_tree(&cloud);
    let mut got = tree.neighbor_search(&Grid2D::new(0, 0), 1);
    got.sort();
    assert_eq!(got, vec![0, 1, 2, 3, 4]);
}
