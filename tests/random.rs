use rand::Rng;
use raytracer::random::{slice_rng, slice_seed};

#[test]
fn slice_seed_offsets_base() {
    assert_eq!(slice_seed(1000, 3), 1003);
    assert_eq!(slice_seed(u128::MAX, 1), 0);
    assert_eq!(slice_seed(u128::MAX - 1, 3), 1);
}

#[test]
fn same_seed_gives_same_stream() {
    let mut a = slice_rng(42, 5);
    let mut b = slice_rng(42, 5);
    let xs: Vec<u64> = (0..16).map(|_| a.gen::<u64>()).collect();
    let ys: Vec<u64> = (0..16).map(|_| b.gen::<u64>()).collect();
    assert_eq!(xs, ys);
}

#[test]
fn neighbouring_slices_draw_differently() {
    let mut a = slice_rng(42, 0);
    let mut b = slice_rng(42, 2);
    let xs: Vec<u64> = (0..4).map(|_| a.gen::<u64>()).collect();
    let ys: Vec<u64> = (0..4).map(|_| b.gen::<u64>()).collect();
    assert_ne!(xs, ys);
}
