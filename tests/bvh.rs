use rand::rngs::StdRng;
use rand::SeedableRng;
use raytracer::bvh::{coord_key, sort_along, BvhTree};

fn minima_of(points: &[[f32; 3]]) -> Vec<[u32; 3]> {
    points.iter().map(|p| [p[0].to_bits(), p[1].to_bits(), p[2].to_bits()]).collect()
}

fn surfaces(tree: &BvhTree, out: &mut Vec<usize>) {
    match tree {
        BvhTree::Surface(i) => out.push(*i),
        BvhTree::Split { left, right, .. } => {
            if let (BvhTree::Surface(a), BvhTree::Surface(b)) = (&**left, &**right) {
                if a == b {
                    out.push(*a);
                    return;
                }
            }
            surfaces(left, out);
            surfaces(right, out);
        }
    }
}

fn axes(tree: &BvhTree, out: &mut Vec<usize>) {
    if let BvhTree::Split { axis, left, right } = tree {
        out.push(*axis);
        axes(left, out);
        axes(right, out);
    }
}

#[test]
fn coord_key_orders_like_floats() {
    let values = [-1.0e30f32, -2.5, -1.0, -1.0e-30, 0.0, 1.0e-30, 0.5, 1.0, 3.0, 1.0e30];
    for w in values.windows(2) {
        assert!(coord_key(w[0].to_bits()) < coord_key(w[1].to_bits()));
    }
    assert_eq!(coord_key(0.0f32.to_bits()), 0x8000_0000);
    assert_eq!(coord_key((-0.0f32).to_bits()), 0x7fff_ffff);
    assert_eq!(coord_key(f32::NEG_INFINITY.to_bits()) < coord_key(f32::MIN.to_bits()), true);
}

#[test]
fn sort_along_orders_by_chosen_axis_and_is_stable() {
    let minima = minima_of(&[[3.0, 0.0, -1.0], [-2.0, 5.0, -1.0], [1.0, -4.0, -1.0], [1.0, 2.0, -1.0]]);
    let items = vec![0, 1, 2, 3];
    assert_eq!(sort_along(&items, &minima, 0), vec![1, 2, 3, 0]);
    assert_eq!(sort_along(&items, &minima, 1), vec![2, 0, 3, 1]);
    assert_eq!(sort_along(&items, &minima, 2), vec![0, 1, 2, 3]);
    assert_eq!(sort_along(&vec![3, 2], &minima, 0), vec![3, 2]);
}

#[test]
fn build_single_surface_is_tested_twice() {
    let minima = minima_of(&[[1.0, 2.0, 3.0]]);
    let mut rng = StdRng::seed_from_u64(1);
    match BvhTree::build(&minima, &mut rng) {
        BvhTree::Split { axis, left, right } => {
            assert!(axis < 3);
            assert_eq!(*left, BvhTree::Surface(0));
            assert_eq!(*right, BvhTree::Surface(0));
        }
        BvhTree::Surface(_) => panic!("the root is always a split"),
    }
}

#[test]
fn build_two_surfaces_one_per_side_in_order() {
    // the second surface begins first along every axis
    let minima = minima_of(&[[1.0, 1.0, 1.0], [-1.0, -1.0, -1.0]]);
    let mut rng = StdRng::seed_from_u64(7);
    match BvhTree::build(&minima, &mut rng) {
        BvhTree::Split { left, right, .. } => {
            assert_eq!(*left, BvhTree::Surface(1));
            assert_eq!(*right, BvhTree::Surface(0));
        }
        BvhTree::Surface(_) => panic!("the root is always a split"),
    }
}

#[test]
fn build_splits_at_the_median() {
    // the same order along every axis, so the leaves come out in that order
    let xs = [4.0f32, -3.0, 9.0, 0.5, 2.0];
    let points: Vec<[f32; 3]> = xs.iter().map(|&x| [x, x, x]).collect();
    let minima = minima_of(&points);
    let mut rng = StdRng::seed_from_u64(42);
    let tree = BvhTree::build(&minima, &mut rng);
    let mut leaves = Vec::new();
    surfaces(&tree, &mut leaves);
    assert_eq!(leaves, vec![1, 3, 4, 0, 2]);
    match &tree {
        BvhTree::Split { left, right, .. } => {
            let mut l = Vec::new();
            let mut r = Vec::new();
            surfaces(left, &mut l);
            surfaces(right, &mut r);
            assert_eq!(l, vec![1, 3]);
            assert_eq!(r, vec![4, 0, 2]);
        }
        BvhTree::Surface(_) => panic!("the root is always a split"),
    }
}

#[test]
fn build_covers_every_surface_once() {
    let mut points = Vec::new();
    for k in 0..37 {
        let f = k as f32;
        points.push([(f * 7.3) % 11.0 - 5.0, (f * 3.1) % 5.0, -(f * 1.7) % 13.0]);
    }
    let minima = minima_of(&points);
    let mut rng = StdRng::seed_from_u64(3);
    let tree = BvhTree::build(&minima, &mut rng);
    let mut leaves = Vec::new();
    surfaces(&tree, &mut leaves);
    leaves.sort();
    assert_eq!(leaves, (0..37).collect::<Vec<usize>>());
}

#[test]
fn build_is_reproducible_from_a_seed() {
    let points: Vec<[f32; 3]> = (0..20).map(|k| [(k * 5 % 7) as f32, (k * 3 % 11) as f32, (k % 4) as f32]).collect();
    let minima = minima_of(&points);
    let a = BvhTree::build(&minima, &mut StdRng::seed_from_u64(9));
    let b = BvhTree::build(&minima, &mut StdRng::seed_from_u64(9));
    assert_eq!(a, b);
}

#[test]
fn build_draws_every_axis() {
    let points: Vec<[f32; 3]> = (0..64).map(|k| [k as f32, -(k as f32), (k % 8) as f32]).collect();
    let minima = minima_of(&points);
    let mut rng = StdRng::seed_from_u64(11);
    let mut seen = Vec::new();
    axes(&BvhTree::build(&minima, &mut rng), &mut seen);
    assert!(seen.iter().all(|&a| a < 3));
    for a in 0..3 {
        assert!(seen.contains(&a));
    }
}
