use immunepuzzle::candidate::{
    best_candidate, finish_candidate, generate_candidate, keep_better, plan_core, plan_false_count, Candidate, Cuts, Drawn,
};
use immunepuzzle::config::Config;
use immunepuzzle::geometry::canonical_shape;
use immunepuzzle::grid::{build_hex_cells, build_neighbors, opposite_dir, Board};
use immunepuzzle::shapes::{is_mirror_symmetric, Shape};
use immunepuzzle::trial::{
    canonical_edges, false_anchor_exists, max_edge_id, rotate_edges, GeometryCache, Piece, PieceKind,
};
use immunepuzzle::trial_decoys::{build_false_pieces, collect_ids, draw_cluster_sizes, random_false_id};
use immunepuzzle::trial_pieces::{build_true_pieces, count_ids, id_source, roll_of, IdSource, ROLLS};
use immunepuzzle::trial_solver::Solver;
use rand::rngs::StdRng;
use rand::SeedableRng;
use std::cell::Cell;

fn piece(id: usize, kind: PieceKind, edges: [i32; 6]) -> Piece {
    Piece {
        id,
        kind,
        cluster_id: None,
        edges,
    }
}

fn solve(side: i32, pieces: &Vec<Piece>, cap: u64, limit: u64, require_false: bool) -> (u64, u64) {
    let neighbors = Board::new(side).neighbors;
    let max_id = max_edge_id(pieces);
    let result = Solver::new(&neighbors, pieces, max_id, cap, limit, require_false).solve();
    (result.nodes, result.solutions_found)
}

#[test]
fn trial_rotation_moves_values_on() {
    let edges = [1, 2, 3, 4, 5, 6];
    assert_eq!(rotate_edges(&edges, 1), [6, 1, 2, 3, 4, 5]);
    assert_eq!(rotate_edges(&edges, 6), edges);
    for rot in 0..6 {
        assert_eq!(
            rotate_edges(&edges, rot),
            immunepuzzle::grid::rotate_edges(&edges, (6 - rot) % 6)
        );
    }
}

#[test]
fn canonical_edges_are_the_canonical_shape() {
    for edges in [[3, 1, 2, 0, 5, 4], [0; 6], [2, 1, 2, 1, 2, 1], [1, -7, 3, 0, -7, 2]] {
        assert_eq!(canonical_edges(&edges), canonical_shape(&edges).0);
    }
}

#[test]
fn geometry_is_judged_once_for_all_rotations() {
    let asked = Cell::new(0);
    let mut cache = GeometryCache::new();
    let edges = [1, 2, 3, 4, 5, -6];
    for rot in 0..6 {
        let turned = rotate_edges(&edges, rot);
        let valid = cache.is_valid(&turned, |_: &[i32; 6]| {
            asked.set(asked.get() + 1);
            true
        });
        assert!(!valid);
    }
    assert_eq!(asked.get(), 1);
    assert!(cache.is_valid(&[9; 6], |_: &[i32; 6]| false));
}

#[test]
fn greatest_ids() {
    assert_eq!(max_edge_id(&vec![]), 0);
    let pieces = vec![
        piece(0, PieceKind::True, [0, -9, 3, 0, 0, 0]),
        piece(1, PieceKind::True, [8, 0, 0, 0, 0, 0]),
    ];
    assert_eq!(max_edge_id(&pieces), 9);
}

#[test]
fn lone_cell_is_filled_twice() {
    let pieces = vec![piece(0, PieceKind::True, [0; 6])];
    assert_eq!(solve(1, &pieces, 10, 2, false), (2, 2));
    assert_eq!(solve(1, &pieces, 1, 2, false), (1, 0));
    assert_eq!(solve(1, &pieces, 0, 2, false), (0, 0));
    assert_eq!(solve(1, &pieces, 10, 0, false), (0, 0));
    assert_eq!(solve(1, &pieces, 10, 1, true), (6, 0));
}

#[test]
fn lone_cell_is_filled_with_a_false_piece() {
    let pieces = vec![
        piece(0, PieceKind::True, [0; 6]),
        piece(1, PieceKind::False, [0; 6]),
    ];
    assert_eq!(solve(1, &pieces, 100, 1, true), (7, 1));
    let raised = vec![piece(0, PieceKind::False, [1, 0, 0, 0, 0, 0])];
    assert_eq!(solve(1, &raised, 100, 1, true), (0, 0));
}

#[test]
fn untouched_inner_cell_has_no_candidates() {
    let neighbors = Board::new(2).neighbors;
    let mut rng = StdRng::seed_from_u64(2);
    let (pieces, _, _) = build_true_pieces(7, &neighbors, &mut rng, 0, 60, 0);
    assert_eq!(solve(2, &pieces, 1000, 2, false), (0, 0));
}

#[test]
fn two_cells_are_filled_both_ways() {
    let mut neighbors = vec![[None; 6]; 2];
    neighbors[0][0] = Some(1);
    neighbors[1][3] = Some(0);
    let pieces = vec![
        piece(0, PieceKind::True, [1, 0, 0, 0, 0, 0]),
        piece(1, PieceKind::True, [0, 0, 0, -1, 0, 0]),
    ];
    let result = Solver::new(&neighbors, &pieces, 1, 100, 5, false).solve();
    assert_eq!(result.solutions_found, 2);
    assert_eq!(result.nodes, 4);
}

#[test]
fn candidates_are_the_same_when_asked_again() {
    let mut neighbors = vec![[None; 6]; 2];
    neighbors[0][0] = Some(1);
    neighbors[1][3] = Some(0);
    let pieces = vec![
        piece(0, PieceKind::True, [1, 0, 0, 0, 0, 0]),
        piece(1, PieceKind::True, [0, 0, 0, -1, 0, 0]),
        piece(2, PieceKind::True, [1, 1, 0, 0, 0, 0]),
    ];
    let mut solver = Solver::new(&neighbors, &pieces, 1, 100, 5, false);
    let list = |found: Vec<immunepuzzle::trial_search::PlacementRef>| {
        found.iter().map(|p| (p.pid, p.rot)).collect::<Vec<(usize, u8)>>()
    };
    let mut first = list(solver.candidates_for_cell(0));
    assert_eq!(list(solver.candidates_for_cell(0)), first);
    first.sort();
    assert_eq!(first, vec![(0, 0), (1, 3)]);
    let mut other = list(solver.candidates_for_cell(1));
    other.sort();
    assert_eq!(other, vec![(0, 3), (1, 0)]);
    assert_eq!(solver.solve().nodes, Solver::new(&neighbors, &pieces, 1, 100, 5, false).solve().nodes);
}

#[test]
fn sources_of_ids() {
    assert_eq!(id_source(true, false, 3, 5, 5), IdSource::Unique);
    assert_eq!(id_source(true, false, 3, 5, 6), IdSource::Spare);
    assert_eq!(id_source(false, true, 3, 5, 5), IdSource::Unique);
    assert_eq!(id_source(false, true, 3, 5, 6), IdSource::Core);
    assert_eq!(id_source(false, false, 3, 5, 5), IdSource::Core);
    assert_eq!(id_source(false, false, 0, 5, 5), IdSource::Unique);
    assert_eq!(id_source(false, false, 0, 5, 6), IdSource::Any);
}

#[test]
fn rolls_are_the_upper_bits() {
    assert_eq!(roll_of(0), 0);
    assert_eq!(roll_of(2047), 0);
    assert_eq!(roll_of(2048), 1);
    assert_eq!(roll_of(u64::MAX), ROLLS - 1);
}

fn cancels(neighbors: &Vec<[Option<usize>; 6]>, pieces: &[Piece]) -> bool {
    for c in 0..neighbors.len() {
        for dir in 0..6 {
            let sum = match neighbors[c][dir] {
                Some(nb) => pieces[c].edges[dir] + pieces[nb].edges[opposite_dir(dir)],
                None => pieces[c].edges[dir],
            };
            if sum != 0 {
                return false;
            }
        }
    }
    true
}

#[test]
fn true_pieces_solve_their_board() {
    let neighbors = build_neighbors(&build_hex_cells(4));
    for seed in 0..4 {
        let mut rng = StdRng::seed_from_u64(seed);
        let (pieces, used, counts) = build_true_pieces(37, &neighbors, &mut rng, 10, 60, ROLLS / 10);
        assert_eq!(pieces.len(), 37);
        assert!(cancels(&neighbors, &pieces));
        assert!(used >= 36 && used <= 50);
        assert_eq!(counts.len(), 61);
        assert_eq!(counts, count_ids(&pieces, 60));
        assert_eq!(counts.iter().sum::<usize>(), 2 * 90);
        assert_eq!(counts[0], 0);
        assert!(pieces.iter().enumerate().all(|(i, p)| p.id == i && p.kind == PieceKind::True));
    }
}

#[test]
fn unused_ids_are_given_to_one_edge() {
    let neighbors = build_neighbors(&build_hex_cells(3));
    let mut rng = StdRng::seed_from_u64(6);
    let (_, used, counts) = build_true_pieces(19, &neighbors, &mut rng, 5, 100, 0);
    assert_eq!(used, 18);
    for id in 6..=23 {
        assert_eq!(counts[id], 2);
    }
    assert!(counts[24..].iter().all(|c| *c == 0));
}

#[test]
fn few_unused_ids_are_all_taken() {
    let neighbors = build_neighbors(&build_hex_cells(3));
    for seed in 0..4 {
        let mut rng = StdRng::seed_from_u64(seed);
        let (pieces, used, counts) = build_true_pieces(19, &neighbors, &mut rng, 5, 12, 0);
        assert_eq!(used, 7);
        assert!(counts[6..=12].iter().all(|c| *c == 2));
        for id in 6..=12 {
            let shown: Vec<i32> = pieces.iter().flat_map(|p| p.edges).filter(|e| e.abs() == id).collect();
            assert!(shown == vec![id, -id] || shown == vec![-id, id]);
        }
    }
}

#[test]
fn certain_anchors_number_every_edge() {
    let neighbors = build_neighbors(&build_hex_cells(3));
    let mut rng = StdRng::seed_from_u64(6);
    let (pieces, used, counts) = build_true_pieces(19, &neighbors, &mut rng, 5, 100, ROLLS);
    assert_eq!(used, 42);
    assert!(cancels(&neighbors, &pieces));
    assert!(counts[6..48].iter().all(|c| *c == 2));
}

#[test]
fn exhausted_alphabet_falls_back_to_the_core() {
    let neighbors = build_neighbors(&build_hex_cells(3));
    let mut rng = StdRng::seed_from_u64(6);
    let (pieces, used, counts) = build_true_pieces(19, &neighbors, &mut rng, 4, 4, 0);
    assert_eq!(used, 0);
    assert!(cancels(&neighbors, &pieces));
    assert_eq!(counts.iter().sum::<usize>(), 84);
    assert!(counts[4] >= 36);
}

#[test]
fn id_counts() {
    let pieces = vec![piece(0, PieceKind::True, [0, -2, 2, 1, 0, -2])];
    assert_eq!(count_ids(&pieces, 3), vec![0, 1, 3, 0]);
}

#[test]
fn ids_to_attach_with() {
    let pieces = vec![
        piece(0, PieceKind::True, [0, -2, 5, 2, 0, 0]),
        piece(1, PieceKind::True, [5, -1, 0, 0, 0, 0]),
    ];
    assert_eq!(collect_ids(&pieces), vec![2, 5, 1]);
    assert_eq!(collect_ids(&vec![]), vec![1]);
    assert_eq!(collect_ids(&vec![piece(0, PieceKind::True, [0; 6])]), vec![1]);
}

#[test]
fn cluster_sizes_add_up() {
    let mut rng = StdRng::seed_from_u64(4);
    for count in [0, 1, 5, 33] {
        let sizes = draw_cluster_sizes(count, &mut rng);
        assert_eq!(sizes.iter().sum::<usize>(), count);
        assert!(sizes.iter().all(|s| (1..=5).contains(s)));
    }
}

#[test]
fn false_ids_lie_above_the_true_ones() {
    let mut rng = StdRng::seed_from_u64(4);
    let mut seen = Vec::new();
    for _ in 0..200 {
        let id = random_false_id(&mut rng, 10, 14);
        assert!((11..=14).contains(&id));
        seen.push(id);
        assert!((1..=10).contains(&random_false_id(&mut rng, 10, 10)));
        assert_eq!(random_false_id(&mut rng, 1, 1), 1);
    }
    seen.sort();
    seen.dedup();
    assert_eq!(seen.len(), 4);
}

#[test]
fn false_clusters_are_numbered_on() {
    let mut rng = StdRng::seed_from_u64(14);
    let true_pieces = vec![piece(0, PieceKind::True, [3, 0, 0, 0, 0, 0])];
    let sizes = vec![3, 1, 4];
    let (pieces, given) =
        build_false_pieces(8, &true_pieces, &mut rng, 5, 9, ROLLS / 5, ROLLS / 2, Some(&sizes));
    assert_eq!(given, sizes);
    assert_eq!(pieces.len(), 8);
    let clusters: Vec<Option<usize>> = pieces.iter().map(|p| p.cluster_id).collect();
    assert_eq!(
        clusters,
        vec![Some(0), Some(0), Some(0), Some(1), Some(2), Some(2), Some(2), Some(2)]
    );
    for (i, p) in pieces.iter().enumerate() {
        assert_eq!(p.id, i + 1);
        assert_eq!(p.kind, PieceKind::False);
        for e in p.edges {
            let id = e.abs();
            assert!(id == 0 || id == 3 || (6..=9).contains(&id));
        }
    }
}

#[test]
fn flat_false_pieces() {
    let mut rng = StdRng::seed_from_u64(14);
    let sizes = vec![1];
    let (flat, _) = build_false_pieces(1, &vec![], &mut rng, 5, 9, ROLLS, ROLLS, Some(&sizes));
    assert_eq!(flat[0].edges, [0; 6]);
    let (attached, _) = build_false_pieces(1, &vec![], &mut rng, 5, 9, 0, ROLLS, Some(&sizes));
    assert!(attached[0].edges.iter().all(|e| e.abs() == 1));
    let (poison, _) = build_false_pieces(1, &vec![], &mut rng, 5, 9, 0, 0, Some(&sizes));
    assert!(poison[0].edges.iter().all(|e| (6..=9).contains(&e.abs())));
}

#[test]
fn anchors_of_false_pieces() {
    let neighbors = Board::new(2).neighbors;
    let flat = piece(0, PieceKind::False, [0; 6]);
    let fitting = piece(0, PieceKind::False, [1, 2, 3, 0, 0, 0]);
    let spiky = piece(0, PieceKind::False, [1, 2, 0, 3, 0, 0]);
    assert!(false_anchor_exists(&neighbors, &vec![flat]));
    assert!(false_anchor_exists(&neighbors, &vec![fitting]));
    assert!(!false_anchor_exists(&neighbors, &vec![spiky]));
    assert!(!false_anchor_exists(&neighbors, &vec![]));
    assert!(!false_anchor_exists(&neighbors, &vec![piece(0, PieceKind::True, [0; 6])]));
}

#[test]
fn core_leaves_ids_for_the_tree() {
    assert_eq!(plan_core(40, 240, 169), 40);
    assert_eq!(plan_core(100, 240, 169), 72);
    assert_eq!(plan_core(300, 240, 169), 72);
    assert_eq!(plan_core(40, 100, 169), 0);
    assert_eq!(plan_core(40, 100, 1), 40);
    assert_eq!(plan_core(40, 30, 1), 30);
}

#[test]
fn number_of_false_pieces() {
    assert_eq!(plan_false_count(Some(3), 169), 3);
    assert_eq!(plan_false_count(Some(0), 169), 0);
    assert_eq!(plan_false_count(None, 169), 33);
    assert_eq!(plan_false_count(None, 7), 1);
    assert_eq!(plan_false_count(None, 1), 1);
}

const CUTS: Cuts = Cuts {
    anchor: 450_359_962_737_050,
    flat: 1_801_439_850_948_199,
    attach: 4_503_599_627_370_496,
};

fn small_config(side: i32) -> Config {
    let mut cfg = Config::defaults();
    cfg.side_len = side;
    cfg.trials = 3;
    cfg
}

fn check_candidate(cfg: &Config, cand: &Candidate) {
    let cells = build_hex_cells(cfg.side_len);
    let neighbors = build_neighbors(&cells);
    let n = cells.len();
    assert_eq!(cand.true_piece_count, n);
    assert_eq!(cand.pieces.len(), n + cand.false_piece_count);
    assert!(cancels(&neighbors, &cand.pieces));
    assert_eq!(cand.shapes.len(), cfg.total_alphabet as usize + 1);
    assert_eq!(cand.placements.len(), n);
    for (i, p) in cand.placements.iter().enumerate() {
        assert_eq!((p.q, p.r, p.piece_id, p.rot), (cells[i].q, cells[i].r, i, 0));
    }
    assert_eq!(cand.stats.false_cluster_sizes.iter().sum::<usize>(), cand.false_piece_count);
    assert!(cand.stats.u_nodes <= cfg.max_u_nodes && cand.stats.f_nodes <= cfg.max_f_nodes);
    assert_eq!(cand.score_quarters(), 4 * cand.stats.f_nodes as u128 + cand.stats.u_nodes as u128);
}

#[test]
fn run_comes_to_a_puzzle() {
    for side in [1, 2, 4] {
        let cfg = small_config(side);
        let cand = best_candidate(&cfg, &CUTS, 77).unwrap();
        check_candidate(&cfg, &cand);
        assert_eq!(cand.stats.seed, 77);
        assert!(cand.stats.trial_index < 3);
        assert!(!cand.stats.reflection_killed);
    }
}

#[test]
fn run_without_trials_comes_to_nothing() {
    let mut cfg = small_config(2);
    cfg.trials = 0;
    assert!(best_candidate(&cfg, &CUTS, 77).is_none());
}

#[test]
fn run_without_an_alphabet_comes_to_nothing() {
    let mut rng = StdRng::seed_from_u64(1);
    for (total, own) in [(0, 8), (-1, 8), (8, 0), (8, -7), (0, 0)] {
        let mut cfg = small_config(2);
        cfg.total_alphabet = total;
        cfg.true_alphabet = own;
        assert!(cfg.within_limits());
        assert!(generate_candidate(&cfg, &CUTS, 1, 2, 0, &mut rng).is_none());
        assert!(best_candidate(&cfg, &CUTS, 77).is_none());
    }
}

#[test]
fn true_alphabet_is_cut_to_the_whole() {
    let mut cfg = small_config(2);
    cfg.total_alphabet = 9;
    cfg.true_alphabet = 30;
    assert!(cfg.within_limits());
    let mut rng = StdRng::seed_from_u64(1);
    let cand = generate_candidate(&cfg, &CUTS, 1, 2, 0, &mut rng).unwrap();
    assert_eq!((cand.stats.true_alphabet, cand.stats.total_alphabet), (9, 9));
    assert_eq!(cand.shapes.len(), 10);
}

#[test]
fn best_trial_is_kept() {
    let cfg = small_config(1);
    let best = best_candidate(&cfg, &CUTS, 5).unwrap();
    let mut again = StdRng::seed_from_u64(best.stats.trial_seed);
    let cand = generate_candidate(&cfg, &CUTS, 5, best.stats.trial_seed, best.stats.trial_index, &mut again).unwrap();
    assert_eq!(cand.score_quarters(), best.score_quarters());
    assert_eq!(cand.stats.u_nodes, 2);
    assert_eq!(cand.stats.u_solutions, 2);
}

#[test]
fn draws_are_finished_to_a_puzzle() {
    let cfg = small_config(1);
    let cells = build_hex_cells(1);
    let neighbors = build_neighbors(&cells);
    let mut drawn = Drawn {
        shapes: vec![Shape { q: [0; 3], p: [0; 3] }],
        shape_collisions: 8,
        reflection_killed: true,
        true_pieces: vec![piece(0, PieceKind::True, [0; 6])],
        unique_ids_used: 9,
        id_counts: vec![0, 4],
        false_pieces: vec![piece(1, PieceKind::False, [0; 6])],
        false_cluster_sizes: vec![1],
    };
    let cand = finish_candidate(&cfg, 5, 6, 7, &cells, &neighbors, drawn.clone());
    assert_eq!((cand.stats.seed, cand.stats.trial_seed, cand.stats.trial_index), (5, 6, 7));
    assert_eq!((cand.stats.u_nodes, cand.stats.u_solutions), (2, 2));
    assert_eq!((cand.stats.f_nodes, cand.stats.f_solutions), (7, 1));
    assert_eq!((cand.true_piece_count, cand.false_piece_count), (1, 1));
    assert_eq!(cand.pieces.iter().map(|p| p.id).collect::<Vec<_>>(), vec![0, 1]);
    assert_eq!((cand.stats.shape_collisions, cand.stats.unique_ids_used), (8, 9));
    assert_eq!(cand.stats.core_alphabet, 40);
    assert_eq!(cand.stats.id_counts, vec![0, 4]);
    assert!(cand.stats.reflection_killed);
    drawn.false_pieces = vec![piece(1, PieceKind::False, [1, 0, 0, 0, 0, 0])];
    let cand = finish_candidate(&cfg, 5, 6, 7, &cells, &neighbors, drawn);
    assert_eq!((cand.stats.f_nodes, cand.stats.f_solutions), (0, 0));
}

#[test]
fn settings_of_a_trial_are_followed() {
    let mut cfg = small_config(2);
    cfg.kill_reflection = true;
    cfg.rot_equiv = true;
    cfg.false_clusters = Some(vec![2, 2]);
    cfg.false_count = Some(4);
    cfg.total_alphabet = 20;
    cfg.true_alphabet = 12;
    cfg.core_alphabet = 9;
    let mut rng = StdRng::seed_from_u64(1);
    let cand = generate_candidate(&cfg, &CUTS, 1, 2, 3, &mut rng).unwrap();
    check_candidate(&cfg, &cand);
    assert!(cand.stats.reflection_killed);
    assert!(cand.shapes[1..].iter().any(|s| !is_mirror_symmetric(s)));
    assert!(cand.rotation_equivalent);
    assert_eq!(cand.stats.false_cluster_sizes, vec![2, 2]);
    assert_eq!(cand.stats.core_alphabet, 6);
    assert_eq!((cand.stats.seed, cand.stats.trial_seed, cand.stats.trial_index), (1, 2, 3));
}

#[test]
fn higher_score_is_kept() {
    let cfg = small_config(1);
    let mut rng = StdRng::seed_from_u64(1);
    let mut first = generate_candidate(&cfg, &CUTS, 1, 2, 0, &mut rng).unwrap();
    let mut second = generate_candidate(&cfg, &CUTS, 1, 3, 1, &mut rng).unwrap();
    first.stats.f_nodes = 3;
    first.stats.u_nodes = 4;
    second.stats.f_nodes = 4;
    second.stats.u_nodes = 0;
    let index = |kept: Option<Candidate>| kept.map(|c| c.stats.trial_index);
    assert_eq!(index(keep_better(None, None)), None);
    assert_eq!(index(keep_better(None, Some(first.clone()))), Some(0));
    assert_eq!(index(keep_better(Some(first.clone()), None)), Some(0));
    assert_eq!(index(keep_better(Some(first.clone()), Some(second.clone()))), Some(0));
    second.stats.u_nodes = 1;
    assert_eq!(index(keep_better(Some(first.clone()), Some(second.clone()))), Some(1));
    assert_eq!(index(keep_better(Some(second), Some(first))), Some(1));
}

#[test]
fn small_alphabet_without_anchors() {
    let mut cfg = small_config(2);
    cfg.trials = 1;
    cfg.total_alphabet = 8;
    cfg.true_alphabet = 8;
    cfg.core_alphabet = 5;
    cfg.max_u_nodes = 0;
    cfg.max_f_nodes = 0;
    let cuts = Cuts { anchor: 0, ..CUTS };
    let mut rng = StdRng::seed_from_u64(2);
    let cand = generate_candidate(&cfg, &cuts, 1, 2, 0, &mut rng).unwrap();
    assert_eq!((cand.stats.core_alphabet, cand.stats.true_alphabet, cand.stats.unique_ids_used), (2, 8, 6));
    assert_eq!((cand.stats.u_nodes, cand.stats.f_nodes, cand.score_quarters()), (0, 0, 0));
    assert_eq!((cand.true_piece_count, cand.false_piece_count, cand.pieces.len()), (7, 1, 8));
    assert_eq!(cand.shapes.len() - 1, 8);
}
