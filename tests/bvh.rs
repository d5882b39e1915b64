use raytracer::bvh::{sort_by_axis, BoundKey, BVH};
use raytracer::random::slice_rng;

fn key(x: i64, y: i64, z: i64) -> BoundKey {
    BoundKey { x, y, z }
}

fn collect(t: &BVH, out: &mut Vec<usize>) {
    match t {
        BVH::Pair { left_item, right_item, .. } => {
            out.push(*left_item);
            out.push(*right_item);
        }
        BVH::Split { left, right, .. } => {
            collect(left, out);
            collect(right, out);
        }
    }
}

#[test]
fn sort_is_descending_and_stable() {
    let items = vec![(0, key(1, 0, 0)), (1, key(3, 0, 0)), (2, key(1, 0, 0)), (3, key(2, 0, 0))];
    let sorted: Vec<usize> = sort_by_axis(&items, 0).iter().map(|e| e.0).collect();
    assert_eq!(sorted, vec![1, 3, 0, 2]);
    // Along y every key is equal: the order is kept.
    let sorted_y: Vec<usize> = sort_by_axis(&items, 1).iter().map(|e| e.0).collect();
    assert_eq!(sorted_y, vec![0, 1, 2, 3]);
}

#[test]
fn single_element_is_held_twice() {
    let mut rng = slice_rng(7, 0);
    match BVH::new(&mut rng, &vec![key(4, 5, 6)]) {
        BVH::Pair { axis, left_item, right_item } => {
            assert!(axis < 3);
            assert_eq!((left_item, right_item), (0, 0));
        }
        other => panic!("unexpected node {:?}", other),
    }
}

#[test]
fn pair_puts_larger_minimum_left() {
    let mut rng = slice_rng(7, 0);
    match BVH::new(&mut rng, &vec![key(5, 5, 5), key(1, 1, 1)]) {
        BVH::Pair { left_item, right_item, .. } => assert_eq!((left_item, right_item), (0, 1)),
        other => panic!("unexpected node {:?}", other),
    }
    match BVH::new(&mut rng, &vec![key(1, 1, 1), key(5, 5, 5)]) {
        BVH::Pair { left_item, right_item, .. } => assert_eq!((left_item, right_item), (1, 0)),
        other => panic!("unexpected node {:?}", other),
    }
    // Equal keys: the second element goes left.
    match BVH::new(&mut rng, &vec![key(2, 2, 2), key(2, 2, 2)]) {
        BVH::Pair { left_item, right_item, .. } => assert_eq!((left_item, right_item), (1, 0)),
        other => panic!("unexpected node {:?}", other),
    }
}

#[test]
fn every_element_is_in_the_hierarchy() {
    for n in 1..40usize {
        let keys: Vec<BoundKey> = (0..n)
            .map(|i| key((i as i64 * 37) % 11, (i as i64 * 13) % 7, -(i as i64)))
            .collect();
        let mut rng = slice_rng(1234, n as u32);
        let t = BVH::new(&mut rng, &keys);
        let mut seen = Vec::new();
        collect(&t, &mut seen);
        seen.sort();
        seen.dedup();
        assert_eq!(seen, (0..n).collect::<Vec<usize>>());
    }
}

#[test]
fn larger_sets_split_at_the_middle() {
    let keys = vec![key(0, 0, 0), key(1, 1, 1), key(2, 2, 2), key(3, 3, 3)];
    let mut rng = slice_rng(99, 0);
    match BVH::new(&mut rng, &keys) {
        BVH::Split { left, right, .. } => {
            let mut l = Vec::new();
            collect(&left, &mut l);
            let mut r = Vec::new();
            collect(&right, &mut r);
            l.sort();
            r.sort();
            // Sorted by key, largest first, on whichever axis: 3, 2 | 1, 0.
            assert_eq!(l, vec![2, 3]);
            assert_eq!(r, vec![0, 1]);
        }
        other => panic!("unexpected node {:?}", other),
    }
}

#[test]
fn same_seed_builds_same_hierarchy() {
    let keys: Vec<BoundKey> = (0..25).map(|i| key(i % 5, (i * 3) % 8, 100 - i)).collect();
    let a = BVH::new(&mut slice_rng(2024, 1), &keys);
    let b = BVH::new(&mut slice_rng(2024, 1), &keys);
    assert_eq!(format!("{:?}", a), format!("{:?}", b));
}
