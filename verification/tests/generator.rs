use immunepuzzle::decoys::{assign_decoy_cluster, clusters_fit, generate_decoy_clusters, pick_id, signed};
use immunepuzzle::edges::enumerate_edges;
use immunepuzzle::generator::{
    assign_true_pieces, generate_puzzle, GeneratedPuzzle, GeneratorConfig, GeneratorError,
};
use immunepuzzle::geometry::{EdgeMeta, GeomMemo};
use immunepuzzle::grid::{opposite_dir, rotate_edges, Axial, Board};
use immunepuzzle::id_plan::{core_id_pool, find_fault, plan_ids, plan_lists, set_abs_edge, sorted_ids_by_height};
use immunepuzzle::orient::{
    concave_profile, notch_on_first, orient_edge, orient_edges, set_edge, target_concaves, Profile,
};
use immunepuzzle::repair::{find_move, move_bonus, repair_geometry};
use immunepuzzle::solver::{existence_solver, uniqueness_solver};
use rand::rngs::StdRng;
use rand::SeedableRng;
use std::cell::Cell;

fn settings() -> GeneratorConfig {
    GeneratorConfig {
        total_alphabet: 60,
        core_alphabet: 10,
        anchor_count: 4,
        flat_cut: 1 << 51,
        attach_cut: 1 << 52,
        false_clusters: vec![(3, 2), (1, 1)],
        chiral: true,
        back_id: true,
        max_retries: 2000,
    }
}

/// The less notches lie side by side or apart from their number, the better.
fn rate(bonus: i64, a: &Profile, b: &Profile) -> u64 {
    let penalty = 80 * (a.adjacent + b.adjacent) as i64 + 12 * (a.count_diff + b.count_diff) as i64;
    (bonus - penalty + 100_000_000) as u64
}

fn always(_: &[i32; 6]) -> Option<u8> {
    Some(1)
}

fn never(_: &[i32; 6]) -> Option<u8> {
    None
}

/// Pieces with at most three notches are valid.
fn few_notches(canon: &[i32; 6]) -> Option<u8> {
    if canon.iter().filter(|e| **e < 0).count() <= 3 {
        Some(1)
    } else {
        None
    }
}

fn check_puzzle(board: &Board, cfg: &GeneratorConfig, puzzle: &GeneratedPuzzle) {
    let n = board.cell_count();
    let falses: usize = cfg.false_clusters.iter().map(|(s, c)| s.max(&1) * c).sum();
    assert_eq!(puzzle.pieces.len(), n + falses);
    assert_eq!(puzzle.solution.len(), n);
    let mut shown = Vec::new();
    for (i, entry) in puzzle.solution.iter().enumerate() {
        assert_eq!((entry.q, entry.r), (board.cells[i].q, board.cells[i].r));
        assert_eq!(entry.piece_id, i);
        assert!(entry.rot < 6);
        shown.push(rotate_edges(&puzzle.pieces[i].edges, entry.rot));
    }
    for c in 0..n {
        for dir in 0..6 {
            let sum = match board.neighbors[c][dir] {
                Some(nb) => {
                    assert!(shown[c][dir] != 0);
                    shown[c][dir] + shown[nb][opposite_dir(dir)]
                }
                None => shown[c][dir],
            };
            assert_eq!(sum, 0);
        }
    }
    for (i, piece) in puzzle.pieces.iter().enumerate() {
        assert_eq!(piece.id, i);
        assert_eq!(piece.is_true, i < n);
        assert_eq!(piece.cluster_id.is_some(), i >= n);
        assert_eq!(piece.back_id.is_some(), cfg.back_id);
        assert!(piece.edges.iter().all(|e| e.abs() <= cfg.total_alphabet));
    }
}

#[test]
fn generated_puzzle_is_solved() {
    for side in [1, 2, 3] {
        let board = Board::new(side);
        let cfg = settings();
        let mut memo = GeomMemo::new(cfg.total_alphabet);
        let puzzle = generate_puzzle(&board, &cfg, &mut memo, 42, always, rate).unwrap();
        assert_eq!(puzzle.seed, 42);
        assert_eq!(puzzle.retries, 0);
        check_puzzle(&board, &cfg, &puzzle);
        let result = uniqueness_solver(&board, &puzzle.pieces, cfg.total_alphabet, 200_000);
        assert!(result.aborted || result.solutions >= 1);
        let found = existence_solver(&board, &puzzle.pieces, cfg.total_alphabet, 1000);
        assert!(found.nodes <= 1000);
    }
}

#[test]
fn repaired_puzzle_has_valid_pieces() {
    let board = Board::new(3);
    let mut cfg = settings();
    cfg.back_id = false;
    cfg.chiral = false;
    for seed in 0..5 {
        let mut memo = GeomMemo::new(cfg.total_alphabet);
        let puzzle = generate_puzzle(&board, &cfg, &mut memo, seed, few_notches, rate).unwrap();
        check_puzzle(&board, &cfg, &puzzle);
        for piece in &puzzle.pieces {
            assert!(few_notches(&piece.edges).is_some());
        }
        assert!(puzzle.retries <= cfg.max_retries);
    }
}

#[test]
fn clusters_are_numbered_and_closed() {
    let board = Board::new(2);
    let cfg = settings();
    let mut memo = GeomMemo::new(cfg.total_alphabet);
    let puzzle = generate_puzzle(&board, &cfg, &mut memo, 3, always, rate).unwrap();
    let clusters: Vec<usize> = puzzle.pieces[7..].iter().map(|p| p.cluster_id.unwrap()).collect();
    assert_eq!(clusters, vec![0, 0, 0, 1, 1, 1, 2]);
}

#[test]
fn faults_of_the_settings() {
    let board = Board::new(2);
    let mut memo: GeomMemo<u8> = GeomMemo::new(60);
    let mut cfg = settings();
    cfg.core_alphabet = 0;
    let fault = generate_puzzle(&board, &cfg, &mut memo, 1, always, rate).unwrap_err();
    assert_eq!(fault, GeneratorError::CoreTooSmall);
    cfg.core_alphabet = 61;
    let fault = generate_puzzle(&board, &cfg, &mut memo, 1, always, rate).unwrap_err();
    assert_eq!(fault, GeneratorError::AlphabetTooSmall);
    cfg.core_alphabet = 57;
    let fault = generate_puzzle(&board, &cfg, &mut memo, 1, always, rate).unwrap_err();
    assert_eq!(fault, GeneratorError::TooManyAnchors { target: 4, capacity: 3 });
    cfg.anchor_count = 1000;
    let fault = generate_puzzle(&board, &cfg, &mut memo, 1, always, rate).unwrap_err();
    assert_eq!(fault, GeneratorError::TooManyAnchors { target: 6, capacity: 3 });
}

#[test]
fn faults_come_before_the_board_and_the_memo() {
    let mut memo: GeomMemo<u8> = GeomMemo::new(0);
    let mut cfg = settings();
    cfg.core_alphabet = 61;
    assert_eq!(find_fault(&cfg, 0), Some(GeneratorError::AlphabetTooSmall));
    let fault = generate_puzzle(&Board::new(0), &cfg, &mut memo, 1, always, rate).unwrap_err();
    assert_eq!(fault, GeneratorError::AlphabetTooSmall);
    cfg.core_alphabet = 60;
    assert_eq!(find_fault(&cfg, 1), None);
    assert_eq!(find_fault(&cfg, 2), Some(GeneratorError::TooManyAnchors { target: 1, capacity: 0 }));
}

#[test]
fn valid_outlines_make_a_puzzle_without_repair() {
    let board = Board::new(3);
    let mut cfg = settings();
    cfg.false_clusters = vec![(2, 3), (0, 1)];
    cfg.max_retries = 1;
    for seed in 0..20 {
        let mut memo: GeomMemo<u8> = GeomMemo::new(60);
        let puzzle = generate_puzzle(&board, &cfg, &mut memo, seed, always, rate).unwrap();
        assert_eq!(puzzle.retries, 0);
        check_puzzle(&board, &cfg, &puzzle);
    }
}

#[test]
fn pieces_beyond_repair() {
    let mut cfg = settings();
    let mut memo: GeomMemo<u8> = GeomMemo::new(60);
    let fault = generate_puzzle(&Board::new(1), &cfg, &mut memo, 1, never, rate).unwrap_err();
    assert_eq!(fault, GeneratorError::NoMoves);
    cfg.max_retries = 20;
    let mut memo: GeomMemo<u8> = GeomMemo::new(60);
    let fault = generate_puzzle(&Board::new(2), &cfg, &mut memo, 1, never, rate).unwrap_err();
    assert_eq!(fault, GeneratorError::StillInvalid(7));
}

#[test]
fn clusters_beyond_reach() {
    let mut cfg = settings();
    cfg.max_retries = 0;
    let mut memo: GeomMemo<u8> = GeomMemo::new(60);
    let fault = generate_puzzle(&Board::new(2), &cfg, &mut memo, 1, always, rate).unwrap_err();
    assert_eq!(fault, GeneratorError::NoCluster);
    cfg.false_clusters = vec![(3, 0)];
    assert!(generate_puzzle(&Board::new(2), &cfg, &mut memo, 1, always, rate).is_ok());
}

#[test]
fn long_repair_shakes_a_side() {
    let board = Board::new(2);
    let mut cfg = settings();
    cfg.max_retries = 1500;
    let asked = Cell::new(0usize);
    let stubborn = |_: &[i32; 6]| {
        asked.set(asked.get() + 1);
        None::<u8>
    };
    let mut rng = StdRng::seed_from_u64(4);
    let mut memo: GeomMemo<u8> = GeomMemo::new(60);
    let lists = plan_lists(&cfg, &memo.edge_meta, 7).unwrap();
    let ids = plan_ids(&board.neighbors, &lists, cfg.chiral, &mut rng);
    let targets = target_concaves(&board.neighbors);
    let mut rows = orient_edges(&board.neighbors, &ids, &targets, &rate, &mut rng);
    let result = repair_geometry(
        &board.neighbors,
        &mut rows,
        &lists.core,
        &targets,
        cfg.max_retries,
        &mut memo,
        &stubborn,
        &rate,
        &mut rng,
    );
    assert_eq!(result, Err(GeneratorError::StillInvalid(7)));
    for (a, b, dir) in enumerate_edges(&board.neighbors) {
        assert_eq!(rows[a][dir], -rows[b][opposite_dir(dir)]);
        let (before, after) = (ids[a][dir], rows[a][dir].abs());
        assert!(before == after || (lists.core.contains(&before) && lists.core.contains(&after)));
    }
    assert!(asked.get() > 0);
}

#[test]
fn true_pieces_tell_their_ids() {
    let board = Board::new(3);
    let cfg = settings();
    let mut rng = StdRng::seed_from_u64(19);
    let mut memo: GeomMemo<u8> = GeomMemo::new(60);
    let (pieces, solution, used, steps) =
        assign_true_pieces(&board, &cfg, &mut rng, &mut memo, &always, &rate).unwrap();
    assert_eq!((pieces.len(), solution.len(), steps), (19, 19, 0));
    let mut ids: Vec<i32> = pieces.iter().flat_map(|p| p.edges).filter(|e| *e != 0).map(|e| e.abs()).collect();
    ids.sort();
    ids.dedup();
    let mut told = used.clone();
    told.sort();
    assert_eq!(told, ids);
}

#[test]
fn ids_by_height() {
    let meta: Vec<EdgeMeta> = [0, 5, 2, 5, 2, 3].iter().map(|h| EdgeMeta { max_height: *h }).collect();
    assert_eq!(sorted_ids_by_height(5, &meta), vec![2, 4, 5, 1, 3]);
    assert_eq!(sorted_ids_by_height(0, &meta), Vec::<i32>::new());
}

#[test]
fn core_ids_are_the_lowest() {
    let memo: GeomMemo<u8> = GeomMemo::new(295);
    let mut cfg = settings();
    cfg.total_alphabet = 295;
    cfg.core_alphabet = 3;
    assert_eq!(core_id_pool(&cfg, &memo.edge_meta), Some(vec![1, 26, 51]));
    cfg.core_alphabet = 0;
    assert_eq!(core_id_pool(&cfg, &memo.edge_meta), None);
    cfg.core_alphabet = 296;
    assert_eq!(core_id_pool(&cfg, &memo.edge_meta), None);
}

#[test]
fn lists_of_ids() {
    let memo: GeomMemo<u8> = GeomMemo::new(60);
    let mut cfg = settings();
    let lists = plan_lists(&cfg, &memo.edge_meta, 7).unwrap();
    assert_eq!((lists.core.len(), lists.anchors.len(), lists.chiral.len()), (10, 4, 2));
    let sorted = sorted_ids_by_height(60, &memo.edge_meta);
    let joined: Vec<i32> = [&lists.core[..], &lists.anchors[..], &lists.chiral[..]].concat();
    assert_eq!(joined, sorted[..16].to_vec());
    cfg.anchor_count = 0;
    assert_eq!(plan_lists(&cfg, &memo.edge_meta, 7).unwrap().anchors.len(), 1);
    assert_eq!(plan_lists(&cfg, &memo.edge_meta, 1).unwrap().anchors.len(), 0);
    cfg.core_alphabet = 59;
    assert_eq!(plan_lists(&cfg, &memo.edge_meta, 7).unwrap().chiral.len(), 0);
}

#[test]
fn planned_ids_stand_on_both_sides() {
    let board = Board::new(3);
    let memo: GeomMemo<u8> = GeomMemo::new(60);
    let mut rng = StdRng::seed_from_u64(23);
    let lists = plan_lists(&settings(), &memo.edge_meta, 19).unwrap();
    let rows = plan_ids(&board.neighbors, &lists, true, &mut rng);
    let mut special = Vec::new();
    for (a, b, dir) in enumerate_edges(&board.neighbors) {
        let id = rows[a][dir];
        assert!(id > 0);
        assert_eq!(id, rows[b][opposite_dir(dir)]);
        if !lists.core.contains(&id) {
            special.push(id);
        }
    }
    special.sort();
    let mut expected = [&lists.anchors[..], &lists.chiral[..]].concat();
    expected.sort();
    assert_eq!(special, expected);
    let plain = plan_ids(&board.neighbors, &lists, false, &mut rng);
    let anchored = enumerate_edges(&board.neighbors)
        .into_iter()
        .filter(|(a, _, dir)| lists.anchors.contains(&plain[*a][*dir]))
        .count();
    assert_eq!(anchored, 4);
}

#[test]
fn edges_are_set_on_both_sides() {
    let mut rows = vec![[0; 6]; 2];
    set_abs_edge(&mut rows, 0, 1, 2, 7);
    assert_eq!(rows, vec![[0, 0, 7, 0, 0, 0], [0, 0, 0, 0, 0, 7]]);
    set_edge(&mut rows, 0, 1, 2, -7);
    assert_eq!(rows, vec![[0, 0, -7, 0, 0, 0], [0, 0, 0, 0, 0, 7]]);
}

#[test]
fn targets_are_half_the_neighbours() {
    assert_eq!(target_concaves(&Board::new(1).neighbors), vec![0]);
    assert_eq!(target_concaves(&Board::new(2).neighbors), vec![1, 1, 1, 3, 1, 1, 1]);
}

#[test]
fn profiles_of_pieces() {
    let profile = concave_profile(&[-3, -4, 0, 5, 6, -1], 1);
    assert_eq!(profile.adjacent, 2);
    assert_eq!(profile.count_diff, 2);
    assert_eq!(profile.concave, [3, 4, 0, 0, 0, 1]);
    let flat = concave_profile(&[0; 6], 3);
    assert_eq!((flat.adjacent, flat.count_diff), (0, 3));
    let all = concave_profile(&[-1; 6], 6);
    assert_eq!((all.adjacent, all.count_diff), (6, 0));
}

#[test]
fn better_rated_way_is_taken() {
    assert!(notch_on_first(2, 1, false));
    assert!(!notch_on_first(1, 2, true));
    assert!(notch_on_first(1, 1, true));
    assert!(!notch_on_first(1, 1, false));
    let mut rng = StdRng::seed_from_u64(2);
    let a = [0; 6];
    let b = [0; 6];
    let towards_a = |_: i64, pa: &Profile, _: &Profile| if pa.concave[1] != 0 { 1 } else { 0 };
    assert_eq!(orient_edge(&a, 1, &b, 1, 1, 9, &towards_a, &mut rng), -9);
    let towards_b = |_: i64, _: &Profile, pb: &Profile| if pb.concave[4] != 0 { 1 } else { 0 };
    assert_eq!(orient_edge(&a, 1, &b, 1, 1, 9, &towards_b, &mut rng), 9);
    let either = |_: i64, _: &Profile, _: &Profile| 5u64;
    let mut ways: Vec<i32> = (0..50).map(|_| orient_edge(&a, 1, &b, 1, 1, 9, &either, &mut rng)).collect();
    ways.sort();
    ways.dedup();
    assert_eq!(ways, vec![-9, 9]);
}

#[test]
fn bonus_of_a_change() {
    assert_eq!(move_bonus(false, false, true, true), 2_220_000);
    assert_eq!(move_bonus(false, true, true, true), 1_220_000);
    assert_eq!(move_bonus(false, true, false, true), 20_000);
    assert_eq!(move_bonus(false, true, true, false), 200_000);
    assert_eq!(move_bonus(false, true, false, false), -1_000_000);
}

#[test]
fn valid_pieces_are_not_repaired() {
    let board = Board::new(2);
    let mut rng = StdRng::seed_from_u64(2);
    let mut memo: GeomMemo<u8> = GeomMemo::new(60);
    let targets = target_concaves(&board.neighbors);
    let mut rows = vec![[0; 6]; 7];
    for (a, b, dir) in enumerate_edges(&board.neighbors) {
        set_edge(&mut rows, a, b, dir, 2);
    }
    let before = rows.clone();
    let steps = repair_geometry(
        &board.neighbors,
        &mut rows,
        &vec![1, 2, 3],
        &targets,
        10,
        &mut memo,
        &always,
        &rate,
        &mut rng,
    );
    assert_eq!(steps, Ok(0));
    assert_eq!(rows, before);
}

#[test]
fn repair_without_steps_changes_nothing() {
    let board = Board::new(2);
    let mut rng = StdRng::seed_from_u64(2);
    let mut memo: GeomMemo<u8> = GeomMemo::new(60);
    let targets = target_concaves(&board.neighbors);
    let mut rows = vec![[0; 6]; 7];
    for (a, b, dir) in enumerate_edges(&board.neighbors) {
        set_edge(&mut rows, a, b, dir, 2);
    }
    let before = rows.clone();
    let core = vec![1, 2, 3];
    let links = &board.neighbors;
    let ended = repair_geometry(links, &mut rows, &core, &targets, 0, &mut memo, &never, &rate, &mut rng);
    assert_eq!(ended, Err(GeneratorError::StillInvalid(7)));
    assert_eq!(rows, before);
}

#[test]
fn one_turn_can_be_enough() {
    let mut links = vec![[None; 6]; 2];
    links[0][0] = Some(1);
    links[1][3] = Some(0);
    let mut rows = vec![[-5, 0, 0, 0, 0, 0], [0, 0, 0, 5, 0, 0]];
    let build = |canon: &[i32; 6]| if canon.contains(&-5) { None } else { Some(1u8) };
    let mut memo: GeomMemo<u8> = GeomMemo::new(60);
    let mut rng = StdRng::seed_from_u64(1);
    let ended = repair_geometry(&links, &mut rows, &vec![1], &vec![0, 0], 1, &mut memo, &build, &rate, &mut rng);
    assert_eq!(ended, Err(GeneratorError::StillInvalid(1)));
    assert_eq!(rows, vec![[5, 0, 0, 0, 0, 0], [0, 0, 0, -5, 0, 0]]);
    let few = |canon: &[i32; 6]| if canon == &[-5, 0, 0, 0, 0, 0] { None } else { Some(1u8) };
    let mut rows = vec![[-5, 0, 0, 0, 0, 0], [0, 0, 0, 5, 0, 0]];
    rows[1][0] = 0;
    let mut memo: GeomMemo<u8> = GeomMemo::new(60);
    let core = vec![1, 5];
    let ended = repair_geometry(&links, &mut rows, &core, &vec![0, 0], 50, &mut memo, &few, &rate, &mut rng);
    assert!(ended.is_ok());
    assert_eq!(rows[0][0], -rows[1][3]);
}

#[test]
fn best_change_is_found() {
    let mut links = vec![[None; 6]; 2];
    links[0][0] = Some(1);
    links[1][3] = Some(0);
    let rows = vec![[5, 0, 0, 0, 0, 0], [0, 0, 0, -5, 0, 0]];
    let valid = vec![false, true];
    let targets = vec![0, 0];
    let drawn = [[1, 5, 1], [0; 3], [0; 3], [0; 3], [0; 3], [0; 3]];
    let shallow = |_: i64, a: &Profile, _: &Profile| (10 - a.concave[0]) as u64;
    let deep = |_: i64, a: &Profile, _: &Profile| a.concave[0] as u64;
    let mut memo: GeomMemo<u8> = GeomMemo::new(60);
    let core = vec![1, 5];
    let best = find_move(&links, &core, &rows, &valid, &targets, 0, &drawn, &mut memo, &always, &shallow).unwrap();
    assert_eq!((best.dir, best.nb, best.value, best.key), (0, 1, 1, 10));
    let best = find_move(&links, &core, &rows, &valid, &targets, 0, &drawn, &mut memo, &always, &deep).unwrap();
    assert_eq!((best.value, best.key), (-5, 5));
    let best = find_move(&links, &vec![1], &rows, &valid, &targets, 0, &drawn, &mut memo, &always, &shallow).unwrap();
    assert_eq!((best.value, best.key), (-5, 5));
    let blank = vec![[0; 6]; 2];
    let best = find_move(&links, &core, &blank, &valid, &targets, 0, &drawn, &mut memo, &always, &shallow);
    assert!(best.is_none());
}

#[test]
fn scattered_decoys_have_outer_sides_only() {
    let mut rng = StdRng::seed_from_u64(12);
    let cells = vec![Axial::new(7, 7), Axial::new(-90, 3), Axial::new(-89, 3)];
    let mut cfg = settings();
    cfg.flat_cut = 1 << 53;
    let rows = assign_decoy_cluster(&cells, &cfg, &mut rng, &vec![4], &vec![7], &vec![8]);
    assert_eq!(rows[0], [0; 6]);
    assert_eq!(rows[1][0].abs(), 4);
    assert_eq!(rows[1][0], -rows[2][3]);
    assert_eq!(rows[1][1..], [0; 5]);
}

#[test]
fn picked_ids_come_from_the_pool() {
    let mut rng = StdRng::seed_from_u64(2);
    let mut seen: Vec<i32> = (0..60).map(|_| pick_id(&vec![4, 5], &vec![9], &mut rng)).collect();
    seen.sort();
    seen.dedup();
    assert_eq!(seen, vec![4, 5]);
    assert_eq!(pick_id(&vec![], &vec![9], &mut rng), 9);
}

#[test]
fn ids_with_a_sign() {
    assert_eq!(signed(7, true), 7);
    assert_eq!(signed(7, false), -7);
}

#[test]
fn decoy_cluster_fits_together() {
    let mut rng = StdRng::seed_from_u64(12);
    let cells = vec![Axial::new(0, 0), Axial::new(1, 0), Axial::new(0, 1)];
    let mut cfg = settings();
    cfg.flat_cut = 0;
    cfg.attach_cut = 1 << 53;
    let rows = assign_decoy_cluster(&cells, &cfg, &mut rng, &vec![1, 2], &vec![7], &vec![8]);
    assert_eq!(rows[0][0], -rows[1][3]);
    assert_eq!(rows[0][5], -rows[2][2]);
    assert_eq!(rows[1][4], -rows[2][1]);
    let inner = [(0, 0), (1, 3), (0, 5), (2, 2), (1, 4), (2, 1)];
    for i in 0..3 {
        for dir in 0..6 {
            let id = rows[i][dir].abs();
            if inner.contains(&(i, dir)) {
                assert!(id == 1 || id == 2);
            } else {
                assert_eq!(id, 7);
            }
        }
    }
    cfg.attach_cut = 0;
    let poisoned = assign_decoy_cluster(&cells, &cfg, &mut rng, &vec![1, 2], &vec![7], &vec![8]);
    assert_eq!(poisoned[0][1].abs(), 8);
    cfg.flat_cut = 1 << 53;
    let flat = assign_decoy_cluster(&cells, &cfg, &mut rng, &vec![1, 2], &vec![7], &vec![8]);
    assert_eq!(flat[0][1], 0);
}

#[test]
fn decoys_go_on_numbering() {
    let mut rng = StdRng::seed_from_u64(12);
    let mut memo: GeomMemo<u8> = GeomMemo::new(60);
    let mut cfg = settings();
    cfg.false_clusters = vec![(2, 1), (0, 1)];
    let core = vec![1, 2, 3];
    let pieces =
        generate_decoy_clusters(&cfg, &mut rng, &mut memo, &always, &core, &vec![], &vec![], 30).unwrap();
    let told: Vec<(usize, Option<usize>)> = pieces.iter().map(|p| (p.id, p.cluster_id)).collect();
    assert_eq!(told, vec![(30, Some(0)), (31, Some(0)), (32, Some(1))]);
    assert!(pieces.iter().all(|p| p.edges.iter().all(|e| e.abs() <= 3)));
}

#[test]
fn clusters_that_cannot_be_numbered() {
    assert!(clusters_fit(&vec![(3, 2), (0, 1)], 100));
    assert!(!clusters_fit(&vec![(3, 2)], usize::MAX - 5));
    assert!(clusters_fit(&vec![(3, 2)], usize::MAX - 6));
    assert!(!clusters_fit(&vec![(i32::MAX as usize, 1)], 0));
    assert!(clusters_fit(&vec![], usize::MAX));
}
