use immunepuzzle::clusters::{build_cluster_positions, grow_from, random_cluster};
use immunepuzzle::edges::{enumerate_edges, random_spanning_tree, spanning_tree_edges};
use immunepuzzle::grid::{Axial, Board, DIRS};
use rand::rngs::StdRng;
use rand::SeedableRng;

#[test]
fn inner_edges_of_small_boards() {
    assert_eq!(enumerate_edges(&Board::new(1).neighbors).len(), 0);
    let board = Board::new(2);
    let edges = enumerate_edges(&board.neighbors);
    assert_eq!(edges.len(), 12);
    assert_eq!(edges[0], (0, 3, 0));
    for (a, b, dir) in &edges {
        assert!(a < b);
        assert_eq!(board.neighbors[*a][*dir], Some(*b));
    }
    let ranks: Vec<usize> = edges.iter().map(|(a, _, dir)| 6 * a + dir).collect();
    let mut sorted = ranks.clone();
    sorted.sort();
    assert_eq!(ranks, sorted);
}

#[test]
fn random_spanning_tree_reaches_every_cell_once() {
    for seed in 0..5 {
        let mut rng = StdRng::seed_from_u64(seed);
        let board = Board::new(4);
        let tree = random_spanning_tree(&board.neighbors, &mut rng);
        assert_eq!(tree.len(), board.cell_count() - 1);
        let mut reached = vec![false; board.cell_count()];
        reached[0] = true;
        for (a, b, dir) in tree {
            assert!(reached[a] && !reached[b]);
            assert_eq!(board.neighbors[a][dir], Some(b));
            reached[b] = true;
        }
    }
}

#[test]
fn spanning_tree_partners_join_the_board() {
    let mut rng = StdRng::seed_from_u64(9);
    let board = Board::new(4);
    let partners = spanning_tree_edges(&board.neighbors, &mut rng);
    assert_eq!(partners.len(), board.cell_count());
    let mut pairs = 0;
    let mut group: Vec<usize> = (0..board.cell_count()).collect();
    for (low, list) in partners.iter().enumerate() {
        for high in list {
            assert!(low < *high);
            assert!(board.neighbors[low].contains(&Some(*high)));
            pairs += 1;
            let (from, to) = (group[low], group[*high]);
            assert!(from != to);
            for g in group.iter_mut() {
                if *g == from {
                    *g = to;
                }
            }
        }
    }
    assert_eq!(pairs, board.cell_count() - 1);
}

#[test]
fn lone_cell_has_an_empty_tree() {
    let mut rng = StdRng::seed_from_u64(9);
    let board = Board::new(1);
    assert_eq!(random_spanning_tree(&board.neighbors, &mut rng).len(), 0);
    assert_eq!(spanning_tree_edges(&board.neighbors, &mut rng), vec![Vec::new()]);
}

fn is_cluster(cells: &[Axial]) -> bool {
    if cells[0] != Axial::new(0, 0) {
        return false;
    }
    for k in 1..cells.len() {
        if cells[..k].contains(&cells[k]) {
            return false;
        }
        let touches = cells[..k]
            .iter()
            .any(|c| DIRS.iter().any(|(dq, dr)| c.add(Axial::new(*dq, *dr)) == cells[k]));
        if !touches {
            return false;
        }
    }
    true
}

#[test]
fn clusters_grow_in_one_piece() {
    let mut rng = StdRng::seed_from_u64(21);
    for size in 1..30 {
        let tried = build_cluster_positions(size, &mut rng);
        assert_eq!(tried.len(), size);
        assert!(is_cluster(&tried));
        let stepped = random_cluster(size, &mut rng);
        assert_eq!(stepped.len(), size);
        assert!(is_cluster(&stepped));
    }
}

#[test]
fn small_clusters_always_grow() {
    for seed in 0..50 {
        let mut rng = StdRng::seed_from_u64(seed);
        for size in 1..=7 {
            assert_eq!(build_cluster_positions(size, &mut rng).len(), size);
        }
        assert_eq!(random_cluster(2, &mut rng).len(), 2);
    }
}

#[test]
fn empty_cluster_is_the_origin() {
    let mut rng = StdRng::seed_from_u64(21);
    assert_eq!(build_cluster_positions(0, &mut rng), vec![Axial::new(0, 0)]);
    assert_eq!(random_cluster(0, &mut rng), vec![Axial::new(0, 0)]);
}

#[test]
fn cluster_grows_by_the_first_new_neighbour() {
    let mut cells = vec![Axial::new(0, 0), Axial::new(1, 0)];
    grow_from(&mut cells, 0, &vec![0, 2, 1]);
    assert_eq!(cells, vec![Axial::new(0, 0), Axial::new(1, 0), Axial::new(0, -1)]);
    grow_from(&mut cells, 0, &vec![0, 2]);
    assert_eq!(cells.len(), 3);
}
