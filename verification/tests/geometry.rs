use immunepuzzle::geometry::{
    build_piece_geom_if_valid, canonical_shape, concave_order, concaves_apart, edge_shape_from_id, is_piece_valid,
    is_simple_polygon, outline_sides, polygon_self_intersects, position_pattern, segments_intersect,
    segments_intersect_or_meet, side_of, Crossing, EdgeShape, GeomMemo, ShapeKind, Side,
};
use immunepuzzle::edge_map::EdgeMap;
use immunepuzzle::grid::rotate_edges;
use std::cell::Cell;

#[test]
fn canonical_rotation_is_the_least() {
    assert_eq!(canonical_shape(&[3, 1, 2, 0, 5, 4]), ([0, 5, 4, 3, 1, 2], 3));
    assert_eq!(canonical_shape(&[0; 6]), ([0; 6], 0));
    assert_eq!(canonical_shape(&[1, 2, 1, 2, 1, 2]), ([1, 2, 1, 2, 1, 2], 0));
    assert_eq!(canonical_shape(&[2, 1, 2, 1, 2, 1]), ([1, 2, 1, 2, 1, 2], 1));
    assert_eq!(canonical_shape(&[1, -7, 3, 0, -7, 2]), ([-7, 2, 1, -7, 3, 0], 4));
}

#[test]
fn turned_pieces_share_their_canonical_rotation() {
    let edges = [4, -2, 0, 7, -2, 0];
    let (best, _) = canonical_shape(&edges);
    for rot in 0..6 {
        let turned = rotate_edges(&edges, rot);
        let (again, back) = canonical_shape(&turned);
        assert_eq!(again, best);
        assert_eq!(rotate_edges(&turned, back), best);
    }
    assert_eq!(canonical_shape(&best), (best, 0));
}

#[test]
fn position_patterns() {
    let spans: Vec<Option<(u32, u32)>> = (0..8).map(position_pattern).collect();
    assert_eq!(
        spans,
        vec![
            Some((2, 4)),
            Some((3, 4)),
            Some((4, 4)),
            Some((2, 3)),
            Some((3, 3)),
            Some((4, 3)),
            Some((5, 3)),
            None
        ]
    );
}

fn trapezoid(t0: u32, length: u32, h0: u32, h1: u32) -> Option<EdgeShape> {
    Some(EdgeShape { kind: ShapeKind::Trapezoid { t0, length, h0, h1 } })
}

fn triangle(t0: u32, length: u32, apex_offset: u32, height: u32) -> Option<EdgeShape> {
    Some(EdgeShape { kind: ShapeKind::Triangle { t0, length, apex_offset, height } })
}

#[test]
fn shapes_of_ids() {
    assert_eq!(edge_shape_from_id(0), None);
    assert_eq!(edge_shape_from_id(-3), None);
    assert_eq!(edge_shape_from_id(1), trapezoid(2, 4, 2, 2));
    assert_eq!(edge_shape_from_id(2), trapezoid(2, 4, 2, 3));
    assert_eq!(edge_shape_from_id(6), trapezoid(2, 4, 3, 2));
    assert_eq!(edge_shape_from_id(26), trapezoid(3, 4, 2, 2));
    assert_eq!(edge_shape_from_id(175), trapezoid(5, 3, 6, 6));
    assert_eq!(edge_shape_from_id(176), triangle(2, 4, 1, 2));
    assert_eq!(edge_shape_from_id(195), triangle(2, 4, 4, 6));
    assert_eq!(edge_shape_from_id(196), triangle(3, 4, 1, 2));
    assert_eq!(edge_shape_from_id(235), triangle(4, 4, 4, 6));
    assert_eq!(edge_shape_from_id(236), triangle(2, 3, 1, 2));
    assert_eq!(edge_shape_from_id(295), triangle(5, 3, 3, 6));
    assert_eq!(edge_shape_from_id(296), None);
}

#[test]
fn ids_have_different_shapes() {
    let shapes: Vec<EdgeShape> = (1..=295).map(|id| edge_shape_from_id(id).unwrap()).collect();
    for i in 0..shapes.len() {
        for j in 0..i {
            assert!(shapes[i] != shapes[j]);
        }
    }
}

#[test]
fn heights_of_ids() {
    let memo: GeomMemo<u8> = GeomMemo::new(300);
    assert_eq!(memo.edge_meta.len(), 301);
    assert_eq!(memo.edge_meta[0].max_height, 0);
    assert_eq!(memo.edge_meta[1].max_height, 2);
    assert_eq!(memo.edge_meta[2].max_height, 3);
    assert_eq!(memo.edge_meta[6].max_height, 3);
    assert_eq!(memo.edge_meta[180].max_height, 6);
    assert_eq!(memo.edge_meta[296].max_height, 0);
    let none: GeomMemo<u8> = GeomMemo::new(-1);
    assert_eq!(none.edge_meta.len(), 0);
}

#[test]
fn outline_is_built_once_for_all_rotations() {
    let built = Cell::new(0);
    let build = |canon: &[i32; 6]| {
        built.set(built.get() + 1);
        if canon[0] < 0 {
            None
        } else {
            Some(*canon)
        }
    };
    let turn = |geom: &[i32; 6], rot: usize| rotate_edges(geom, rot);
    let mut memo: GeomMemo<[i32; 6]> = GeomMemo::new(10);
    let edges = [5, 1, 2, 3, 4, 9];
    for rot in 0..6 {
        let turned = rotate_edges(&edges, rot);
        let outline = build_piece_geom_if_valid(&turned, &mut memo, &build, &turn);
        assert_eq!(outline, Some(turned));
        assert!(is_piece_valid(&turned, &mut memo, &build));
    }
    assert_eq!(built.get(), 1);
    let notched = [1, -1, 2, 2, 2, 2];
    for rot in 0..6 {
        let turned = rotate_edges(&notched, rot);
        assert!(!is_piece_valid(&turned, &mut memo, &build));
        assert_eq!(build_piece_geom_if_valid(&turned, &mut memo, &build, &turn), None);
    }
    assert_eq!(built.get(), 2);
}

#[test]
fn edge_map_holds_what_was_put_in() {
    let mut map: EdgeMap<i32> = EdgeMap::new();
    let keys = [[3, 0, 0, 0, 0, 0], [1, 0, 0, 0, 0, 9], [1, 0, 0, 0, 0, 2], [-4, 7, 7, 7, 7, 7], [2; 6]];
    for (i, key) in keys.iter().enumerate() {
        assert_eq!(map.get(key), None);
        map.insert(*key, i as i32);
    }
    for (i, key) in keys.iter().enumerate() {
        assert_eq!(map.get(key), Some(&(i as i32)));
    }
    assert_eq!(map.get(&[0; 6]), None);
}

#[test]
fn sides_of_a_piece() {
    assert_eq!(side_of(0), Side::Flat);
    assert_eq!(side_of(400), Side::Flat);
    let shape = edge_shape_from_id(7).unwrap();
    assert_eq!(side_of(7), Side::Raised { shape, concave: false });
    assert_eq!(side_of(-7), Side::Raised { shape, concave: true });
    let (sides, concave) = outline_sides(&[0, -7, 7, -400, 1, -180]);
    assert_eq!(sides.len(), 6);
    assert_eq!(sides[0], Side::Flat);
    assert_eq!(sides[1], side_of(-7));
    assert_eq!(sides[3], Side::Flat);
    assert_eq!(concave, vec![7, 180]);
}

#[test]
fn highest_notches_come_first() {
    assert_eq!(concave_order(&vec![2, 5, 3, 5, 2]), vec![1, 3, 2, 0, 4]);
    assert_eq!(concave_order(&vec![]), Vec::<usize>::new());
}

#[test]
fn notches_too_close() {
    let order = vec![2, 0, 1];
    assert!(concaves_apart(&order, |_, _| false));
    assert!(!concaves_apart(&order, |a, b| (a, b) == (2, 1)));
    assert!(concaves_apart(&order, |a, b| (a, b) == (1, 2)));
    assert!(concaves_apart(&vec![0], |_, _| true));
}

#[test]
fn simple_polygons() {
    assert!(!is_simple_polygon(2, |_, _| false));
    assert!(is_simple_polygon(3, |_, _| true));
    assert!(is_simple_polygon(4, |_, _| false));
    assert!(!is_simple_polygon(4, |i, j| (i, j) == (0, 2)));
    assert!(is_simple_polygon(4, |i, j| (i, j) == (0, 1) || (i, j) == (0, 3)));
}

#[test]
fn polygons_that_cross_themselves() {
    assert!(!polygon_self_intersects(3, |_, _| true));
    assert!(!polygon_self_intersects(5, |_, _| false));
    assert!(polygon_self_intersects(5, |i, j| (i, j) == (1, 3)));
    assert!(!polygon_self_intersects(5, |i, j| (i, j) == (0, 4)));
}

#[test]
fn segments_cross() {
    let none = [false; 4];
    assert!(segments_intersect(&Crossing { turns: [1, -1, -1, 1], within: none }));
    assert!(!segments_intersect(&Crossing { turns: [1, 1, -1, 1], within: none }));
    assert!(!segments_intersect(&Crossing { turns: [1, 0, -1, 1], within: none }));
    assert!(segments_intersect_or_meet(&Crossing { turns: [1, 0, -1, 1], within: none }));
    assert!(!segments_intersect_or_meet(&Crossing { turns: [-1, 0, -1, 1], within: none }));
    let on = [false, true, false, false];
    assert!(segments_intersect(&Crossing { turns: [1, 0, 1, 1], within: on }));
    assert!(segments_intersect_or_meet(&Crossing { turns: [1, 0, 1, 1], within: on }));
    assert!(!segments_intersect(&Crossing { turns: [1, 1, 1, 1], within: [true; 4] }));
}
