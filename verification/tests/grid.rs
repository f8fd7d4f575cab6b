use immunepuzzle::grid::{
    build_hex_cells, build_neighbors, opposite_dir, rotate_edges, Axial, Board, DIRS,
};

#[test]
fn side_one_board_is_one_cell() {
    let board = Board::new(1);
    assert_eq!(board.cell_count(), 1);
    assert_eq!(board.cells[0], Axial::new(0, 0));
    assert_eq!(board.neighbors[0], [None; 6]);
    assert_eq!(board.boundary[0], [true; 6]);
}

#[test]
fn side_zero_board_is_empty() {
    assert_eq!(Board::new(0).cell_count(), 0);
    assert_eq!(build_hex_cells(-3).len(), 0);
}

#[test]
fn hexagon_sizes() {
    for (side, size) in [(1, 1), (2, 7), (3, 19), (4, 37), (8, 169)] {
        assert_eq!(Board::new(side).cell_count(), size);
    }
}

#[test]
fn cells_are_listed_by_column() {
    let cells = build_hex_cells(2);
    let expected = [(-1, 0), (-1, 1), (0, -1), (0, 0), (0, 1), (1, -1), (1, 0)];
    let listed: Vec<(i32, i32)> = cells.iter().map(|c| (c.q, c.r)).collect();
    assert_eq!(listed, expected.to_vec());
}

#[test]
fn neighbours_see_each_other() {
    let board = Board::new(4);
    for c in 0..board.cell_count() {
        for dir in 0..6 {
            match board.neighbors[c][dir] {
                Some(nb) => {
                    assert!(!board.boundary[c][dir]);
                    assert_eq!(board.neighbors[nb][opposite_dir(dir)], Some(c));
                    let (dq, dr) = DIRS[dir];
                    assert_eq!(board.cells[c].add(Axial::new(dq, dr)), board.cells[nb]);
                }
                None => assert!(board.boundary[c][dir]),
            }
        }
    }
}

#[test]
fn board_is_connected() {
    let board = Board::new(5);
    let mut seen = vec![false; board.cell_count()];
    let mut open = vec![0usize];
    seen[0] = true;
    while let Some(c) = open.pop() {
        for nb in board.neighbors[c].iter().flatten() {
            if !seen[*nb] {
                seen[*nb] = true;
                open.push(*nb);
            }
        }
    }
    assert!(seen.iter().all(|s| *s));
}

#[test]
fn neighbours_of_listed_cells_only() {
    let cells = vec![Axial::new(0, 0), Axial::new(1, 0), Axial::new(5, 5)];
    let links = build_neighbors(&cells);
    assert_eq!(links[0], [Some(1), None, None, None, None, None]);
    assert_eq!(links[1], [None, None, None, Some(0), None, None]);
    assert_eq!(links[2], [None; 6]);
}

#[test]
fn rotation_takes_the_value_ahead() {
    let edges = [1, 2, 3, 4, 5, 6];
    assert_eq!(rotate_edges(&edges, 0), edges);
    assert_eq!(rotate_edges(&edges, 1), [2, 3, 4, 5, 6, 1]);
    assert_eq!(rotate_edges(&edges, 5), [6, 1, 2, 3, 4, 5]);
}

#[test]
fn rotations_add_up_and_undo() {
    let edges = [7, -1, 0, 4, -9, 2];
    for a in 0..6 {
        for b in 0..6 {
            assert_eq!(
                rotate_edges(&rotate_edges(&edges, a), b),
                rotate_edges(&edges, (a + b) % 6)
            );
        }
        assert_eq!(rotate_edges(&rotate_edges(&edges, a), (6 - a) % 6), edges);
    }
}

#[test]
fn opposite_directions_step_back() {
    for dir in 0..6 {
        let opp = opposite_dir(dir);
        assert_eq!(opposite_dir(opp), dir);
        assert_eq!(DIRS[opp], (-DIRS[dir].0, -DIRS[dir].1));
    }
}

#[test]
fn rim_has_six_sides_for_each_row() {
    for side in 1..7 {
        let board = Board::new(side);
        let rim = board.boundary.iter().flatten().filter(|b| **b).count();
        assert_eq!(rim, 6 * (2 * side as usize - 1));
    }
}

#[test]
fn neighbours_of_a_cell_differ() {
    for side in 1..6 {
        for row in Board::new(side).neighbors {
            let mut found: Vec<usize> = row.iter().flatten().copied().collect();
            let number = found.len();
            found.sort();
            found.dedup();
            assert_eq!(found.len(), number);
        }
    }
}
