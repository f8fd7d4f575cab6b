use immunepuzzle::shapes::{
    draw_shapes, is_mirror_symmetric, kill_reflection, max_depth_tenths, random_depth_for_q, random_shape, replace_shape,
    shape_key, shape_of, shapes_suffice, Shape, ShapeTable,
};
use rand::rngs::StdRng;
use rand::SeedableRng;

#[test]
fn depth_bounds() {
    let bounds: Vec<u8> = (0..=10).map(max_depth_tenths).collect();
    assert_eq!(bounds, vec![0, 1, 3, 4, 6, 8, 6, 4, 3, 1, 0]);
}

#[test]
fn drawn_depths_stay_in_bounds() {
    let mut rng = StdRng::seed_from_u64(5);
    let mut depths = Vec::new();
    for _ in 0..200 {
        assert!(random_depth_for_q(&mut rng, 1) <= 1);
        let deep = random_depth_for_q(&mut rng, 5);
        assert!((1..=8).contains(&deep));
        depths.push(deep);
    }
    assert_eq!(random_depth_for_q(&mut rng, 0), 1);
    assert_eq!(random_depth_for_q(&mut rng, 10), 1);
    depths.sort();
    depths.dedup();
    assert!(depths.len() > 1);
}

#[test]
fn flat_points_belong_next_to_the_ends() {
    assert!(shape_of([1, 5, 9], [0, 3, 0]).is_some());
    assert!(shape_of([1, 5, 9], [0, 0, 1]).is_none());
    assert!(shape_of([2, 5, 9], [0, 3, 1]).is_none());
}

#[test]
fn equal_depths_make_no_shape() {
    assert!(shape_of([2, 5, 8], [1, 1, 1]).is_none());
    assert!(shape_of([1, 5, 9], [0, 0, 0]).is_none());
    let shape = shape_of([2, 5, 8], [1, 1, 2]).unwrap();
    assert_eq!((shape.q, shape.p), ([2, 5, 8], [1, 1, 2]));
}

#[test]
fn drawn_shapes_are_in_order() {
    let mut rng = StdRng::seed_from_u64(11);
    for _ in 0..500 {
        let shape = random_shape(&mut rng);
        assert!(1 <= shape.q[0] && shape.q[0] < shape.q[1] && shape.q[1] < shape.q[2] && shape.q[2] <= 9);
        assert!(shape_of(shape.q, shape.p).is_some());
        for i in 0..3 {
            assert!(shape.p[i] <= max_depth_tenths(shape.q[i]));
        }
    }
}

#[test]
fn keys_leave_flat_points_out() {
    let shape = Shape { q: [1, 4, 9], p: [0, 2, 1] };
    assert_eq!(shape_key(&shape), vec![(4, 2), (9, 1)]);
    let flat = Shape { q: [1, 4, 9], p: [0, 0, 0] };
    assert_eq!(shape_key(&flat), vec![(0, 0)]);
}

#[test]
fn mirror_images() {
    assert!(is_mirror_symmetric(&Shape { q: [2, 5, 8], p: [1, 4, 1] }));
    assert!(is_mirror_symmetric(&Shape { q: [1, 5, 9], p: [0, 4, 0] }));
    assert!(!is_mirror_symmetric(&Shape { q: [2, 5, 8], p: [1, 4, 2] }));
    assert!(!is_mirror_symmetric(&Shape { q: [2, 5, 9], p: [1, 4, 1] }));
    // A flat point at one end does not count.
    assert!(is_mirror_symmetric(&Shape { q: [1, 4, 6], p: [0, 2, 2] }));
}

#[test]
fn table_of_shapes_has_no_repeats() {
    let mut rng = StdRng::seed_from_u64(3);
    let (table, _) = draw_shapes(120, &mut rng);
    assert_eq!(table.len(), 121);
    assert_eq!((table[0].q, table[0].p), ([0; 3], [0; 3]));
    let mut keys: Vec<Vec<(u8, u8)>> = table[1..].iter().map(shape_key).collect();
    keys.sort();
    keys.dedup();
    assert_eq!(keys.len(), 120);
    let (empty, vain) = draw_shapes(0, &mut rng);
    assert_eq!((empty.len(), vain), (1, 0));
}

#[test]
fn crowded_table_counts_draws_in_vain() {
    let mut rng = StdRng::seed_from_u64(8);
    let (table, vain) = draw_shapes(2000, &mut rng);
    assert_eq!(table.len(), 2001);
    assert!(vain > 0);
}

#[test]
fn asymmetric_table_is_left_alone() {
    let mut rng = StdRng::seed_from_u64(1);
    let flat = Shape { q: [0; 3], p: [0; 3] };
    let skew = Shape { q: [2, 5, 8], p: [1, 4, 2] };
    let even = Shape { q: [2, 5, 8], p: [1, 4, 1] };
    let mut table = vec![flat, even, skew];
    assert_eq!(kill_reflection(&mut table, &mut rng), true);
    assert_eq!(table[1].p, [1, 4, 1]);
    assert_eq!(table[2].p, [1, 4, 2]);
}

#[test]
fn symmetric_table_is_changed_in_one_place() {
    let mut rng = StdRng::seed_from_u64(1);
    let flat = Shape { q: [0; 3], p: [0; 3] };
    let even = Shape { q: [2, 5, 8], p: [1, 4, 1] };
    let mut table = vec![flat, even, even];
    assert_eq!(kill_reflection(&mut table, &mut rng), true);
    let skewed = (1..3).filter(|i| !is_mirror_symmetric(&table[*i])).count();
    assert_eq!(skewed, 1);
}

#[test]
fn first_shape_is_replaced_before_the_others() {
    let flat = Shape { q: [0; 3], p: [0; 3] };
    let even = Shape { q: [2, 5, 8], p: [1, 4, 1] };
    for seed in 0..4 {
        let mut rng = StdRng::seed_from_u64(seed);
        let mut table = vec![flat, even, even, even];
        assert!(kill_reflection(&mut table, &mut rng));
        assert!(!is_mirror_symmetric(&table[1]));
        assert_eq!((table[2].q, table[2].p), (even.q, even.p));
        assert_eq!((table[3].q, table[3].p), (even.q, even.p));
    }
}

#[test]
fn table_with_the_flat_shape_only_stays_symmetric() {
    let mut rng = StdRng::seed_from_u64(1);
    let mut table = vec![Shape { q: [0; 3], p: [0; 3] }];
    assert_eq!(kill_reflection(&mut table, &mut rng), false);
    assert_eq!(table.len(), 1);
}

#[test]
fn replacements_differ_from_their_mirror_image() {
    let even = Shape { q: [2, 5, 8], p: [1, 4, 1] };
    let skew = Shape { q: [2, 5, 8], p: [1, 4, 2] };
    let mut table = vec![even, even];
    assert!(!replace_shape(&mut table, 1, Shape { q: [1, 5, 9], p: [1, 2, 1] }));
    assert_eq!(table[1].p, [1, 4, 1]);
    assert!(replace_shape(&mut table, 1, skew));
    assert_eq!(table[0].p, [1, 4, 1]);
    assert_eq!(table[1].p, [1, 4, 2]);
}

#[test]
fn shapes_are_taken_once() {
    let even = Shape { q: [2, 5, 8], p: [1, 4, 1] };
    let skew = Shape { q: [2, 5, 8], p: [1, 4, 2] };
    let mut table = ShapeTable::new();
    assert_eq!((table.shapes.len(), table.collisions), (1, 0));
    table.take(even);
    table.take(skew);
    table.take(even);
    table.take(even);
    assert_eq!((table.shapes.len(), table.collisions), (3, 2));
    assert_eq!(table.shapes[1].p, [1, 4, 1]);
    assert_eq!(table.shapes[2].p, [1, 4, 2]);
    // A flat point at an end does not tell shapes apart.
    table.take(Shape { q: [1, 4, 5], p: [0, 1, 2] });
    table.take(Shape { q: [4, 5, 9], p: [1, 2, 0] });
    assert_eq!((table.shapes.len(), table.collisions), (4, 3));
}

#[test]
fn shapes_abound() {
    let mut rng = StdRng::seed_from_u64(3);
    let (table, _) = draw_shapes(338, &mut rng);
    assert_eq!(table.len(), 339);
}

#[test]
fn shapes_suffice_up_to_their_number() {
    assert!(shapes_suffice(0));
    assert!(shapes_suffice(338));
    assert!(shapes_suffice(339));
    assert!(shapes_suffice(5189));
    assert!(!shapes_suffice(5190));
    assert!(!shapes_suffice(usize::MAX));
}
