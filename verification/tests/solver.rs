use immunepuzzle::edges::enumerate_edges;
use immunepuzzle::generator::Piece;
use immunepuzzle::grid::{opposite_dir, rotate_edges, Board};
use immunepuzzle::solver::{existence_solver, uniqueness_solver, SolverResult};

fn piece(id: usize, edges: [i32; 6], is_true: bool) -> Piece {
    Piece {
        id,
        edges,
        is_true,
        cluster_id: None,
        back_id: None,
    }
}

/// Pieces that solve a board, each inner edge with an id of its own.
fn numbered_pieces(board: &Board) -> Vec<Piece> {
    let mut rows = vec![[0; 6]; board.cell_count()];
    for (k, (a, b, dir)) in enumerate_edges(&board.neighbors).into_iter().enumerate() {
        rows[a][dir] = k as i32 + 1;
        rows[b][opposite_dir(dir)] = -(k as i32 + 1);
    }
    rows.into_iter()
        .enumerate()
        .map(|(id, edges)| piece(id, edges, true))
        .collect()
}

fn witness_solves(board: &Board, pieces: &[Piece], result: &SolverResult) -> bool {
    let witness = result.witness.as_ref().unwrap();
    let shown: Vec<[i32; 6]> = witness
        .iter()
        .map(|w| rotate_edges(&pieces[w.piece_id].edges, w.rot))
        .collect();
    let mut used: Vec<usize> = witness.iter().map(|w| w.piece_id).collect();
    used.sort();
    used.dedup();
    if used.len() != board.cell_count() {
        return false;
    }
    for c in 0..board.cell_count() {
        if witness[c].q != board.cells[c].q || witness[c].r != board.cells[c].r {
            return false;
        }
        for dir in 0..6 {
            let sum = match board.neighbors[c][dir] {
                Some(nb) => shown[c][dir] + shown[nb][opposite_dir(dir)],
                None => shown[c][dir],
            };
            if sum != 0 {
                return false;
            }
        }
    }
    true
}

#[test]
fn flat_piece_fills_one_cell_two_ways() {
    let board = Board::new(1);
    let pieces = vec![piece(0, [0; 6], true)];
    let result = uniqueness_solver(&board, &pieces, 1, 10);
    assert_eq!(result.nodes, 2);
    assert_eq!(result.solutions, 2);
    assert!(!result.aborted);
    let witness = result.witness.unwrap();
    assert_eq!(witness.len(), 1);
    assert_eq!((witness[0].q, witness[0].r), (0, 0));
    assert_eq!((witness[0].piece_id, witness[0].rot), (0, 0));
}

#[test]
fn search_is_cut_short_at_its_limit() {
    let board = Board::new(1);
    let pieces = vec![piece(0, [0; 6], true)];
    let cut = uniqueness_solver(&board, &pieces, 1, 1);
    assert_eq!((cut.nodes, cut.solutions, cut.aborted), (1, 0, true));
    assert!(cut.witness.is_none());
    let none = uniqueness_solver(&board, &pieces, 1, 0);
    assert_eq!((none.nodes, none.solutions, none.aborted), (0, 0, true));
}

#[test]
fn raised_piece_does_not_fit_the_rim() {
    let board = Board::new(1);
    let pieces = vec![piece(0, [1, 0, 0, 0, 0, 0], true)];
    let result = uniqueness_solver(&board, &pieces, 1, 10);
    assert_eq!((result.nodes, result.solutions, result.aborted), (0, 0, false));
    assert!(result.witness.is_none());
}

#[test]
fn empty_board_has_the_empty_solution() {
    let board = Board::new(0);
    let result = uniqueness_solver(&board, &[], 1, 10);
    assert_eq!((result.nodes, result.solutions, result.aborted), (0, 1, false));
    assert_eq!(result.witness.unwrap().len(), 0);
}

#[test]
fn numbered_board_is_solved_in_more_ways_than_one() {
    for side in [2, 3] {
        let board = Board::new(side);
        let pieces = numbered_pieces(&board);
        let ids = enumerate_edges(&board.neighbors).len() as i32;
        let result = uniqueness_solver(&board, &pieces, ids, 1_000_000);
        assert!(!result.aborted);
        assert_eq!(result.solutions, 2);
        assert!(witness_solves(&board, &pieces, &result));
    }
}

#[test]
fn missing_piece_leaves_no_solution() {
    let board = Board::new(2);
    let mut pieces = numbered_pieces(&board);
    pieces[3].edges[0] += 1;
    let result = uniqueness_solver(&board, &pieces, 20, 1_000_000);
    assert_eq!((result.solutions, result.aborted), (0, false));
    assert!(result.witness.is_none());
}

#[test]
fn no_decoys_means_no_search() {
    let board = Board::new(1);
    let pieces = vec![piece(0, [0; 6], true)];
    let result = existence_solver(&board, &pieces, 1, 10);
    assert_eq!((result.nodes, result.solutions, result.aborted), (0, 0, false));
    assert!(result.witness.is_none());
}

#[test]
fn flat_decoy_fills_one_cell() {
    let board = Board::new(1);
    let pieces = vec![piece(0, [0; 6], true), piece(1, [0; 6], false)];
    let result = existence_solver(&board, &pieces, 1, 10);
    assert_eq!((result.nodes, result.solutions, result.aborted), (0, 1, false));
    assert_eq!(result.witness.unwrap()[0].piece_id, 1);
}

#[test]
fn decoy_search_is_cut_short_at_its_limit() {
    let board = Board::new(1);
    let pieces = vec![piece(0, [0; 6], false)];
    let result = existence_solver(&board, &pieces, 1, 0);
    assert_eq!((result.nodes, result.solutions, result.aborted), (0, 0, true));
}

#[test]
fn decoy_that_fits_nowhere_is_not_used() {
    let board = Board::new(1);
    let pieces = vec![piece(0, [0; 6], true), piece(1, [1; 6], false)];
    let result = existence_solver(&board, &pieces, 1, 100);
    assert_eq!((result.solutions, result.aborted), (0, false));
}

#[test]
fn decoy_in_place_of_a_true_piece_is_found() {
    let board = Board::new(2);
    let mut pieces = numbered_pieces(&board);
    let twin = piece(7, pieces[3].edges, false);
    pieces.push(twin);
    let result = existence_solver(&board, &pieces, 20, 1_000_000);
    assert_eq!((result.solutions, result.aborted), (1, false));
    assert!(witness_solves(&board, &pieces, &result));
    assert!(result.witness.unwrap().iter().any(|w| w.piece_id == 7));
}

#[test]
fn larger_limit_loses_nothing() {
    let board = Board::new(2);
    let pieces = numbered_pieces(&board);
    let full = uniqueness_solver(&board, &pieces, 20, 1_000_000);
    assert!(!full.aborted);
    let mut before = uniqueness_solver(&board, &pieces, 20, 0);
    for limit in 1..full.nodes + 3 {
        let result = uniqueness_solver(&board, &pieces, 20, limit);
        assert!(before.nodes <= result.nodes && before.solutions <= result.solutions);
        assert_eq!(result.aborted, result.nodes == limit);
        assert_eq!(result.aborted, limit <= full.nodes);
        before = result;
    }
    assert_eq!((before.nodes, before.solutions), (full.nodes, full.solutions));
}
