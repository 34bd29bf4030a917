use hyper_ray_tracer::perlin::{generate_permutation, permute, swap_down, PerlinLattice, POINT_COUNT};
use rand::rngs::StdRng;
use rand::SeedableRng;

#[test]
fn permutation_holds_each_point_once() {
    let mut rng = StdRng::seed_from_u64(7);
    let p = generate_permutation(&mut rng);
    assert_eq!(p.len(), POINT_COUNT);
    let mut sorted = p.clone();
    sorted.sort();
    let expected: Vec<u32> = (0..256).collect();
    assert_eq!(sorted, expected);
}

#[test]
fn permutation_moves_every_point() {
    let mut rng = StdRng::seed_from_u64(11);
    let p = generate_permutation(&mut rng);
    for (i, v) in p.iter().enumerate() {
        assert_ne!(*v as usize, i);
    }
}

#[test]
fn permute_keeps_the_values() {
    let mut rng = StdRng::seed_from_u64(3);
    let mut v: Vec<u32> = vec![5, 6, 7];
    permute(&mut v, &mut rng);
    assert!(v == vec![6, 7, 5] || v == vec![7, 5, 6]);
    let mut empty: Vec<u32> = Vec::new();
    permute(&mut empty, &mut rng);
    assert!(empty.is_empty());
}

#[test]
fn seeded_tables_are_reproducible() {
    let a = generate_permutation(&mut StdRng::seed_from_u64(42));
    let b = generate_permutation(&mut StdRng::seed_from_u64(42));
    assert_eq!(a, b);
}

#[test]
fn hash_wraps_around_the_lattice() {
    let mut rng = StdRng::seed_from_u64(5);
    let lattice = PerlinLattice::new(&mut rng);
    for i in -300..300 {
        let h = lattice.hash(i, 2 * i, -i);
        assert!(h < POINT_COUNT);
        assert_eq!(h, lattice.hash(i + 256, 2 * i - 512, -i + 256));
    }
    assert_eq!(lattice.hash(-1, 0, 0), lattice.hash(255, 0, 0));
    assert_eq!(lattice.hash(i32::MIN, i32::MAX, 0), lattice.hash(0, 255, 0));
}

#[test]
fn swap_down_applies_draws_from_the_top() {
    let mut v: Vec<u32> = vec![10, 20, 30, 40];
    swap_down(&mut v, &vec![0, 0, 1, 2]);
    assert_eq!(v, vec![40, 10, 20, 30]);
    let mut w: Vec<u32> = vec![10, 20, 30, 40];
    swap_down(&mut w, &vec![0, 0, 0, 0]);
    assert_eq!(w, vec![20, 30, 40, 10]);
    let mut one: Vec<u32> = vec![7];
    swap_down(&mut one, &vec![0]);
    assert_eq!(one, vec![7]);
}
