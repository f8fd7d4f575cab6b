//! One trial after another: a puzzle is drawn, searched, and the hardest one
//! is kept.

use crate::config::Config;
use crate::grid::{
    build_hex_cells, build_neighbors, hexagon_size, lemma_hexagon_links_mutual, links_cells, links_in_range,
    lists_hexagon, magnitude, Axial, Links,
};
use crate::rng::{gave_word, generator, seeded_from, next_word};
use crate::shapes::{
    draw_shapes, drawable, drawn_table, kill_reflection, lacks_keys, law_table_distinct, reflection_drawn,
    reflection_settled, shapes_drawn, Shape,
};
use crate::trial::{false_anchor_exists, has_false_anchor, max_edge_id, Piece};
use crate::trial_decoys::{
    attach_ids, build_false_pieces, false_pieces_drawn, false_pieces_of, ids_seen, size_sum, DecoyPlan,
    MAX_DRAWN_CLUSTER,
};
use crate::trial_laws::{identity, law_trial_search, law_true_pieces_solve, solves};
use crate::trial_pieces::{
    build_true_pieces, counts_ids, ids_within, law_true_ids_within, made_true_pieces, true_pieces_drawn, Numbering,
};
use crate::trial_search::{explore, fresh, PlacementRef, Quest};
use crate::trial_solver::{offset_of, within_alphabet, SolveResult, Solver};
use rand::rngs::StdRng;
use vstd::prelude::*;

verus! {

/// The shares of a run as numbers of rolls: of the edges that are anchored,
/// of the outer edges of false clusters that are flat, and of those that are
/// flat or attach.
#[derive(Clone, Copy, Debug)]
pub struct Cuts {
    pub anchor: u64,
    pub flat: u64,
    pub attach: u64,
}

/// Where a piece lies in the solution.
#[derive(Clone, Copy, Debug)]
pub struct PlacementOutput {
    pub q: i32,
    pub r: i32,
    pub piece_id: usize,
    pub rot: u8,
}

/// What is told of a trial.
#[derive(Clone, Debug)]
pub struct Stats {
    pub seed: u64,
    pub trial_seed: u64,
    pub trial_index: usize,
    pub u_nodes: u64,
    pub f_nodes: u64,
    pub u_solutions: u64,
    pub f_solutions: u64,
    pub unique_ids_used: usize,
    pub core_alphabet: i32,
    pub true_alphabet: i32,
    pub total_alphabet: i32,
    pub shape_collisions: usize,
    pub false_cluster_sizes: Vec<usize>,
    /// How often each id occurs on the true pieces.
    pub id_counts: Vec<usize>,
    pub reflection_killed: bool,
}

/// A puzzle that a trial came to.
#[derive(Clone, Debug)]
pub struct Candidate {
    pub side_len: i32,
    pub true_piece_count: usize,
    pub false_piece_count: usize,
    /// The true pieces, and behind them the false ones.
    pub pieces: Vec<Piece>,
    /// The shapes by id. The first one is flat.
    pub shapes: Vec<Shape>,
    pub placements: Vec<PlacementOutput>,
    pub rotation_equivalent: bool,
    pub stats: Stats,
}

impl Candidate {
    /// Four times the score: the nodes of the search with false pieces, and
    /// a quarter of those of the search without.
    pub open spec fn quarters(&self) -> int {
        4 * self.stats.f_nodes + self.stats.u_nodes
    }

    pub fn score_quarters(&self) -> (score: u128)
        ensures
            score == self.quarters(),
    {
        4 * (self.stats.f_nodes as u128) + self.stats.u_nodes as u128
    }
}

/// One node of the search with false pieces weighs as much as four nodes of
/// the search without.
pub proof fn law_score(a: Candidate, b: Candidate)
    ensures
        a.quarters() > b.quarters() <==> 4 * (a.stats.f_nodes - b.stats.f_nodes) > b.stats.u_nodes - a.stats.u_nodes,
        a.quarters() == b.quarters() <==> 4 * (a.stats.f_nodes - b.stats.f_nodes) == b.stats.u_nodes - a.stats.u_nodes,
{
}

/// The number of core ids: as many as asked for, but few enough to leave an
/// unused id to each of `needed` edges where the alphabet allows.
pub open spec fn core_size(core: int, alphabet: int, needed: int) -> int {
    let asked = if core < alphabet {
        core
    } else {
        alphabet
    };
    if alphabet - asked >= needed {
        asked
    } else if alphabet > needed {
        alphabet - needed
    } else {
        0
    }
}

pub fn plan_core(core: i32, alphabet: i32, cells: usize) -> (size: i32)
    requires
        0 <= core,
        0 <= alphabet,
        cells <= i32::MAX,
    ensures
        size == core_size(core as int, alphabet as int, if cells > 0 {
            cells - 1
        } else {
            0
        }),
        0 <= size <= alphabet,
{
    let needed: i32 = if cells > 0 { (cells - 1) as i32 } else { 0 };
    let asked: i32 = if core < alphabet { core } else { alphabet };
    if alphabet - asked >= needed {
        asked
    } else if alphabet > needed {
        alphabet - needed
    } else {
        0
    }
}

/// The number of false pieces: the one asked for, or a fifth of the cells,
/// but at least one.
pub open spec fn false_size(asked: Option<usize>, cells: int) -> int {
    match asked {
        Some(count) => count as int,
        None => if cells / 5 > 1 {
            cells / 5
        } else {
            1
        },
    }
}

/// Without a count asked for there is one false piece to every five cells,
/// rounded down, but at least one; otherwise there are as many as asked for.
pub proof fn law_false_size(asked: Option<usize>, cells: int)
    requires
        0 <= cells,
    ensures
        asked is Some ==> false_size(asked, cells) == asked->0,
        asked is None && cells < 5 ==> false_size(asked, cells) == 1,
        asked is None && cells >= 5 ==> 5 * false_size(asked, cells) <= cells < 5 * (false_size(asked, cells) + 1),
{
}

pub fn plan_false_count(asked: Option<usize>, cells: usize) -> (count: usize)
    ensures
        count == false_size(asked, cells as int),
        asked is Some ==> count == asked->0,
        asked is None ==> count >= 1 && (cells >= 5 ==> 5 * count <= cells < 5 * (count + 1)) && (cells < 5 ==> count
            == 1),
{
    match asked {
        Some(count) => count,
        None => if cells / 5 > 1 {
            cells / 5
        } else {
            1
        },
    }
}

/// The search for a second solution.
pub open spec fn second_solution_quest(links: Seq<[Option<usize>; 6]>, pieces: Seq<Piece>, cap: u64) -> Quest {
    Quest { links, pieces, node_cap: cap as int, solution_limit: 2, require_false: false }
}

/// The search for a solution with a false piece.
pub open spec fn false_solution_quest(links: Seq<[Option<usize>; 6]>, pieces: Seq<Piece>, cap: u64) -> Quest {
    Quest { links, pieces, node_cap: cap as int, solution_limit: 1, require_false: true }
}

/// Whether the shapes are a drawn table, changed if no reflection is to be
/// left and none of them differed from its mirror image.
pub open spec fn drawn_shapes(shapes: Seq<Shape>, total: int, collisions: int, kill: bool, killed: bool) -> bool {
    exists|draws: Seq<Shape>, table: Seq<Shape>| #[trigger]
        drawn_table(draws, table, total, collisions) && settled_shapes(table, shapes, kill, killed)
}

pub open spec fn settled_shapes(table: Seq<Shape>, shapes: Seq<Shape>, kill: bool, killed: bool) -> bool {
    if kill {
        reflection_settled(table, shapes, killed)
    } else {
        shapes == table && !killed
    }
}

/// Whether the shapes of a trial are made of what generator `before` gives,
/// and the generator is `after` then. No more is said should the draws in
/// vain be as many as can be counted.
pub open spec fn trial_shapes_drawn(
    before: StdRng,
    after: StdRng,
    shapes: Seq<Shape>,
    total: int,
    collisions: int,
    kill: bool,
    killed: bool,
) -> bool {
    collisions < usize::MAX ==> exists|draws: Seq<Shape>, table: Seq<Shape>, mid: StdRng|
        #![trigger drawn_table(draws, table, total, collisions), shapes_drawn(before, mid, draws)]
        drawn_table(draws, table, total, collisions) && shapes_drawn(before, mid, draws) && if kill {
            reflection_settled(table, shapes, killed) && reflection_drawn(mid, after, table, shapes, killed)
        } else {
            shapes == table && !killed && after == mid
        }
}

/// Whether the placements put each true piece unturned on its own cell.
pub open spec fn own_cells(cells: Seq<Axial>, placements: Seq<PlacementOutput>) -> bool {
    &&& placements.len() == cells.len()
    &&& forall|i: int|
        0 <= i < cells.len() ==> (#[trigger] placements[i]).q == cells[i].q && placements[i].r == cells[i].r
            && placements[i].piece_id == i && placements[i].rot == 0
}

/// The pieces and counts of a trial on a board.
pub open spec fn trial_pieces(
    cfg: Config,
    cuts: Cuts,
    links: Seq<[Option<usize>; 6]>,
    cand: Candidate,
    true_pieces: Seq<Piece>,
    false_pieces: Seq<Piece>,
) -> bool {
    let stats = cand.stats;
    let plan = Numbering {
        core: stats.core_alphabet as int,
        alphabet: stats.true_alphabet as int,
        cut: cuts.anchor,
    };
    let decoys = DecoyPlan {
        true_alphabet: stats.true_alphabet as int,
        total_alphabet: stats.total_alphabet as int,
        attach: attach_ids(true_pieces),
        flat_cut: cuts.flat,
        attach_cut: cuts.attach,
    };
    let sizes = stats.false_cluster_sizes@;
    &&& cand.pieces@ == true_pieces + false_pieces
    &&& ids_within(cand.pieces@, stats.total_alphabet as int)
    &&& true_pieces.len() == links.len()
    &&& made_true_pieces(links, plan, true_pieces, stats.unique_ids_used as int)
    &&& counts_ids(true_pieces, stats.true_alphabet as int, stats.id_counts@)
    &&& false_pieces_of(false_pieces, sizes, links.len() as int, decoys)
    &&& match cfg.false_clusters {
        Some(given) => sizes == given@,
        None => (forall|i: int| 0 <= i < sizes.len() ==> 1 <= #[trigger] sizes[i] <= MAX_DRAWN_CLUSTER) && size_sum(
            sizes,
            sizes.len() as int,
        ) == cand.false_piece_count,
    }
}

/// The results of the two searches of a trial. The second one is left out
/// where no false piece could lie on the rim.
pub open spec fn searched(
    cfg: Config,
    links: Seq<[Option<usize>; 6]>,
    cand: Candidate,
    true_pieces: Seq<Piece>,
) -> bool {
    let u = second_solution_quest(links, true_pieces, cfg.max_u_nodes);
    let f = false_solution_quest(links, cand.pieces@, cfg.max_f_nodes);
    let u_after = explore(u, fresh(u), false);
    let f_after = explore(f, fresh(f), false);
    let stats = cand.stats;
    &&& stats.u_nodes == u_after.nodes
    &&& stats.u_solutions == u_after.found
    &&& if has_false_anchor(links, cand.pieces@) {
        stats.f_nodes == f_after.nodes && stats.f_solutions == f_after.found
    } else {
        stats.f_nodes == 0 && stats.f_solutions == 0
    }
}

/// Whether a trial with these settings can come to `cand`.
pub open spec fn is_candidate(cfg: Config, cuts: Cuts, seed: u64, trial_seed: u64, index: usize, cand: Candidate) -> bool {
    exists|cells: Seq<Axial>, links: Seq<[Option<usize>; 6]>, true_pieces: Seq<Piece>, false_pieces: Seq<Piece>| #[trigger]
        candidate_on(cfg, cuts, seed, trial_seed, index, cand, cells, links, true_pieces, false_pieces)
}

/// The same, with the board and the two lots of pieces.
pub open spec fn candidate_on(
    cfg: Config,
    cuts: Cuts,
    seed: u64,
    trial_seed: u64,
    index: usize,
    cand: Candidate,
    cells: Seq<Axial>,
    links: Seq<[Option<usize>; 6]>,
    true_pieces: Seq<Piece>,
    false_pieces: Seq<Piece>,
) -> bool {
    let stats = cand.stats;
    let n = hexagon_size(cfg.side_len - 1);
    &&& !cfg.lacks_alphabet()
    &&& lists_hexagon(cells, cfg.side_len - 1)
    &&& cells.len() == n
    &&& links_cells(cells, links)
    &&& stats.seed == seed
    &&& stats.trial_seed == trial_seed
    &&& stats.trial_index == index
    &&& stats.total_alphabet == cfg.total_alphabet
    &&& stats.true_alphabet == cfg.true_ids()
    &&& stats.core_alphabet == core_size(cfg.core_alphabet as int, cfg.true_ids(), n - 1)
    &&& cand.side_len == cfg.side_len
    &&& cand.true_piece_count == n
    &&& cand.false_piece_count == false_size(cfg.false_count, n)
    &&& cand.rotation_equivalent == cfg.rot_equiv
    &&& drawn_shapes(
        cand.shapes@,
        cfg.total_alphabet as int,
        stats.shape_collisions as int,
        cfg.kill_reflection,
        stats.reflection_killed,
    )
    &&& own_cells(cells, cand.placements@)
    &&& trial_pieces(cfg, cuts, links, cand, true_pieces, false_pieces)
    &&& searched(cfg, links, cand, true_pieces)
}

/// Whether a trial that is drawn with generator `before` comes to `cand`, and
/// the generator is `after` then: first the shapes, then the true pieces, and
/// then the false ones are made of what it gives.
pub open spec fn candidate_drawn(
    before: StdRng,
    after: StdRng,
    cfg: Config,
    cuts: Cuts,
    seed: u64,
    trial_seed: u64,
    index: usize,
    cand: Candidate,
) -> bool {
    exists|
        mid: StdRng,
        last: StdRng,
        cells: Seq<Axial>,
        links: Seq<[Option<usize>; 6]>,
        true_pieces: Seq<Piece>,
        false_pieces: Seq<Piece>,
    |
        #![trigger pieces_drawn(mid, last, after, cfg, cuts, cand, links, true_pieces, false_pieces), candidate_on(cfg, cuts, seed, trial_seed, index, cand, cells, links, true_pieces, false_pieces)]
        candidate_on(cfg, cuts, seed, trial_seed, index, cand, cells, links, true_pieces, false_pieces)
            && trial_shapes_drawn(
            before,
            mid,
            cand.shapes@,
            cfg.total_alphabet as int,
            cand.stats.shape_collisions as int,
            cfg.kill_reflection,
            cand.stats.reflection_killed,
        ) && pieces_drawn(mid, last, after, cfg, cuts, cand, links, true_pieces, false_pieces)
}

/// Whether the two lots of pieces of a trial are made of what the generator
/// gives.
pub open spec fn pieces_drawn(
    before: StdRng,
    mid: StdRng,
    after: StdRng,
    cfg: Config,
    cuts: Cuts,
    cand: Candidate,
    links: Seq<[Option<usize>; 6]>,
    true_pieces: Seq<Piece>,
    false_pieces: Seq<Piece>,
) -> bool {
    &&& true_pieces_drawn(
        before,
        mid,
        links,
        Numbering {
            core: cand.stats.core_alphabet as int,
            alphabet: cand.stats.true_alphabet as int,
            cut: cuts.anchor,
        },
        true_pieces,
        cand.stats.unique_ids_used as int,
    )
    &&& false_pieces_drawn(
        mid,
        after,
        cand.false_piece_count as int,
        cfg.false_clusters is Some,
        DecoyPlan {
            true_alphabet: cand.stats.true_alphabet as int,
            total_alphabet: cand.stats.total_alphabet as int,
            attach: attach_ids(true_pieces),
            flat_cut: cuts.flat,
            attach_cut: cuts.attach,
        },
        false_pieces,
        cand.stats.false_cluster_sizes@,
    )
}

/// The shapes of a trial: the table, the draws in vain, and whether some
/// shape is known to differ from its mirror image.
fn trial_shapes(total: usize, kill: bool, rng: &mut StdRng) -> (drawn: (Vec<Shape>, usize, bool))
    requires
        total < usize::MAX,
        !lacks_keys(total as int),
    ensures
        drawn_shapes(drawn.0@, total as int, drawn.1 as int, kill, drawn.2),
        trial_shapes_drawn(*old(rng), *final(rng), drawn.0@, total as int, drawn.1 as int, kill, drawn.2),
{
    let (mut shapes, collisions) = draw_shapes(total, rng);
    let ghost table = shapes@;
    let ghost mid = *rng;
    let ghost draws = choose|draws: Seq<Shape>| #[trigger]
        drawn_table(draws, table, total as int, collisions as int) && (collisions < usize::MAX ==> shapes_drawn(
            *old(rng),
            mid,
            draws,
        ));
    proof {
        law_table_distinct(draws);
        assert forall|i: int, k: int| 0 <= i < table.len() && 0 <= k < 3 implies (#[trigger] table[i].q@[k]) <= 10 by {
            if i > 0 {
                assert(drawable(table[i]));
                assert(table[i].q@[0] <= 10 && table[i].q@[1] <= 10 && table[i].q@[2] <= 10);
            }
        }
    }
    let mut killed: bool = false;
    if kill {
        killed = kill_reflection(&mut shapes, rng);
    }
    assert(settled_shapes(table, shapes@, kill, killed));
    assert(drawn_shapes(shapes@, total as int, collisions as int, kill, killed));
    assert(collisions < usize::MAX ==> shapes_drawn(*old(rng), mid, draws));
    assert(trial_shapes_drawn(*old(rng), *rng, shapes@, total as int, collisions as int, kill, killed));
    (shapes, collisions, killed)
}

/// Searches with the alphabet that the pieces need.
fn run_search(neighbors: &Links, pieces: &Vec<Piece>, cap: u64, limit: u64, require_false: bool) -> (result: SolveResult)
    requires
        links_in_range(neighbors@),
        ids_within(pieces@, 0x3fff_fffe),
    ensures
        ({
            let quest = Quest {
                links: neighbors@,
                pieces: pieces@,
                node_cap: cap as int,
                solution_limit: limit as int,
                require_false,
            };
            let after = explore(quest, fresh(quest), false);
            result.nodes == after.nodes && result.solutions_found == after.found
        }),
{
    let max_id: i32 = max_edge_id(pieces);
    proof {
        assert(max_id <= 0x3fff_fffe);
        assert(within_alphabet(pieces@, max_id)) by {
            assert forall|p: int, dir: int| 0 <= p < pieces.len() && 0 <= dir < 6 implies -offset_of(max_id)
                <= #[trigger] pieces@[p].edges@[dir] <= offset_of(max_id) by {
                assert(magnitude(pieces@[p].edges@[dir]) <= max_id);
            }
        }
    }
    Solver::new(neighbors, pieces, max_id, cap, limit, require_false).solve()
}

/// Ids to attach with lie within the alphabet of the true pieces.
proof fn lemma_attach_within(pieces: Seq<Piece>, alphabet: int, n: int)
    requires
        1 <= alphabet <= i32::MAX,
        ids_within(pieces, alphabet),
        n <= 6 * pieces.len(),
    ensures
        forall|i: int| 0 <= i < ids_seen(pieces, n).len() ==> 1 <= #[trigger] ids_seen(pieces, n)[i] <= alphabet,
    decreases n,
{
    if n > 0 {
        lemma_attach_within(pieces, alphabet, n - 1);
        let p = (n - 1) / 6;
        let dir = (n - 1) % 6;
        assert(-alphabet <= pieces[p].edges@[dir] <= alphabet);
        let before = ids_seen(pieces, n - 1);
        let seen = ids_seen(pieces, n);
        assert forall|i: int| 0 <= i < seen.len() implies 1 <= #[trigger] seen[i] <= alphabet by {
            if i < before.len() {
                assert(seen[i] == before[i]);
            }
        }
    }
}

/// What the draws of a trial came to.
#[derive(Clone, Debug)]
pub struct Drawn {
    pub shapes: Vec<Shape>,
    pub shape_collisions: usize,
    pub reflection_killed: bool,
    pub true_pieces: Vec<Piece>,
    pub unique_ids_used: usize,
    pub id_counts: Vec<usize>,
    pub false_pieces: Vec<Piece>,
    pub false_cluster_sizes: Vec<usize>,
}

/// Whether `cand` is the puzzle that the draws make on a board.
pub open spec fn finished(
    cfg: Config,
    seed: u64,
    trial_seed: u64,
    index: usize,
    cells: Seq<Axial>,
    links: Seq<[Option<usize>; 6]>,
    drawn: Drawn,
    cand: Candidate,
) -> bool {
    let stats = cand.stats;
    &&& cand.side_len == cfg.side_len
    &&& cand.true_piece_count == cells.len()
    &&& cand.false_piece_count == false_size(cfg.false_count, cells.len() as int)
    &&& cand.pieces@ == drawn.true_pieces@ + drawn.false_pieces@
    &&& cand.shapes == drawn.shapes
    &&& own_cells(cells, cand.placements@)
    &&& cand.rotation_equivalent == cfg.rot_equiv
    &&& stats.seed == seed
    &&& stats.trial_seed == trial_seed
    &&& stats.trial_index == index
    &&& searched(cfg, links, cand, drawn.true_pieces@)
    &&& stats.unique_ids_used == drawn.unique_ids_used
    &&& stats.core_alphabet == core_size(cfg.core_alphabet as int, cfg.true_ids(), if cells.len() > 0 {
        cells.len() - 1
    } else {
        0
    })
    &&& stats.true_alphabet == cfg.true_ids()
    &&& stats.total_alphabet == cfg.total_alphabet
    &&& stats.shape_collisions == drawn.shape_collisions
    &&& stats.false_cluster_sizes == drawn.false_cluster_sizes
    &&& stats.id_counts == drawn.id_counts
    &&& stats.reflection_killed == drawn.reflection_killed
}

fn clamp_true(cfg: &Config) -> (ids: i32)
    ensures
        ids == cfg.true_ids(),
{
    if cfg.true_alphabet < cfg.total_alphabet {
        cfg.true_alphabet
    } else {
        cfg.total_alphabet
    }
}

/// The puzzle that the draws of a trial make on a board, searched.
pub fn finish_candidate(
    cfg: &Config,
    base_seed: u64,
    trial_seed: u64,
    trial_index: usize,
    cells: &Vec<Axial>,
    neighbors: &Links,
    drawn: Drawn,
) -> (candidate: Candidate)
    requires
        0 <= cfg.core_alphabet,
        0 <= cfg.true_ids(),
        cells.len() <= i32::MAX,
        links_in_range(neighbors@),
        ids_within(drawn.true_pieces@, 0x3fff_fffe),
        ids_within(drawn.false_pieces@, 0x3fff_fffe),
    ensures
        finished(*cfg, base_seed, trial_seed, trial_index, cells@, neighbors@, drawn, candidate),
{
    let pieces: Vec<Piece> = joined(&drawn.true_pieces, &drawn.false_pieces);
    assert(ids_within(pieces@, 0x3fff_fffe)) by {
        let n = drawn.true_pieces@.len();
        assert forall|i: int, dir: int| 0 <= i < pieces.len() && 0 <= dir < 6 implies -0x3fff_fffe
            <= #[trigger] pieces@[i].edges@[dir] <= 0x3fff_fffe by {
            if i < n {
                assert(-0x3fff_fffe <= drawn.true_pieces@[i].edges@[dir] <= 0x3fff_fffe);
            } else {
                assert(-0x3fff_fffe <= drawn.false_pieces@[i - n].edges@[dir] <= 0x3fff_fffe);
            }
        }
    }
    let true_alphabet: i32 = clamp_true(cfg);
    let u_result: SolveResult = run_search(neighbors, &drawn.true_pieces, cfg.max_u_nodes, 2, false);
    let f_result: SolveResult = if false_anchor_exists(neighbors, &pieces) {
        run_search(neighbors, &pieces, cfg.max_f_nodes, 1, true)
    } else {
        SolveResult { nodes: 0, solutions_found: 0 }
    };
    let stats: Stats = Stats {
        seed: base_seed,
        trial_seed,
        trial_index,
        u_nodes: u_result.nodes,
        f_nodes: f_result.nodes,
        u_solutions: u_result.solutions_found,
        f_solutions: f_result.solutions_found,
        unique_ids_used: drawn.unique_ids_used,
        core_alphabet: plan_core(cfg.core_alphabet, true_alphabet, cells.len()),
        true_alphabet,
        total_alphabet: cfg.total_alphabet,
        shape_collisions: drawn.shape_collisions,
        false_cluster_sizes: drawn.false_cluster_sizes,
        id_counts: drawn.id_counts,
        reflection_killed: drawn.reflection_killed,
    };
    Candidate {
        side_len: cfg.side_len,
        true_piece_count: cells.len(),
        false_piece_count: plan_false_count(cfg.false_count, cells.len()),
        pieces,
        shapes: drawn.shapes,
        placements: place_all(cells),
        rotation_equivalent: cfg.rot_equiv,
        stats,
    }
}

/// A puzzle drawn with `rng`, and searched. `None` means that there are no ids
/// for the true pieces.
pub fn generate_candidate(
    cfg: &Config,
    cuts: &Cuts,
    base_seed: u64,
    trial_seed: u64,
    trial_index: usize,
    rng: &mut StdRng,
) -> (attempt: Option<Candidate>)
    requires
        cfg.can_run(),
    ensures
        attempt is Some ==> is_candidate(*cfg, *cuts, base_seed, trial_seed, trial_index, attempt->0),
        attempt is None <==> cfg.total_alphabet <= 0 || cfg.true_alphabet <= 0,
        attempt is Some ==> candidate_drawn(
            *old(rng),
            *final(rng),
            *cfg,
            *cuts,
            base_seed,
            trial_seed,
            trial_index,
            attempt->0,
        ),
        attempt is None ==> *final(rng) == *old(rng),
{
    if cfg.total_alphabet <= 0 || cfg.true_alphabet <= 0 {
        return None;
    }
    let side_len: i32 = cfg.side_len;
    proof {
        lemma_side_bound(side_len);
    }
    let cells: Vec<Axial> = build_hex_cells(side_len);
    let neighbors: Links = build_neighbors(&cells);
    let n: usize = cells.len();
    proof {
        lemma_hexagon_links_mutual(cells@, neighbors@, side_len - 1);
    }
    let false_count: usize = plan_false_count(cfg.false_count, n);
    let true_alphabet: i32 = clamp_true(cfg);
    let core_alphabet: i32 = plan_core(cfg.core_alphabet, true_alphabet, n);
    let (shapes, shape_collisions, reflection_killed) = trial_shapes(
        cfg.total_alphabet as usize,
        cfg.kill_reflection,
        rng,
    );
    let ghost mid = *rng;
    let (true_pieces, unique_ids_used, id_counts) = build_true_pieces(
        n,
        &neighbors,
        rng,
        core_alphabet,
        true_alphabet,
        cuts.anchor,
    );
    assert forall|i: int, dir: int| 0 <= i < true_pieces.len() && 0 <= dir < 6 implies (#[trigger] true_pieces@[i].edges@[dir])
        > i32::MIN by {
    }
    let ghost last = *rng;
    let sizes: Option<&Vec<usize>> = match &cfg.false_clusters {
        Some(given) => Some(given),
        None => None,
    };
    let (false_pieces, false_cluster_sizes) = build_false_pieces(
        false_count,
        &true_pieces,
        rng,
        true_alphabet,
        cfg.total_alphabet,
        cuts.flat,
        cuts.attach,
        sizes,
    );
    let ghost pieces = true_pieces@ + false_pieces@;
    proof {
        lemma_attach_within(true_pieces@, true_alphabet as int, 6 * true_pieces@.len() as int);
        assert(ids_within(pieces, cfg.total_alphabet as int)) by {
            assert forall|i: int, dir: int| 0 <= i < pieces.len() && 0 <= dir < 6 implies -cfg.total_alphabet
                <= #[trigger] pieces[i].edges@[dir] <= cfg.total_alphabet by {
                if i < n {
                    assert(pieces[i] == true_pieces@[i]);
                    assert(true_pieces@[i].edges@[dir] <= true_alphabet);
                } else {
                    assert(pieces[i] == false_pieces@[i - n]);
                    let value = false_pieces@[i - n].edges@[dir];
                    let ids = attach_ids(true_pieces@);
                    if ids.contains(magnitude(value) as i32) {
                        let k = choose|k: int| 0 <= k < ids.len() && ids[k] == magnitude(value) as i32;
                        assert(1 <= ids[k] <= true_alphabet);
                    }
                }
            }
        }
    }
    assert(ids_within(false_pieces@, 0x3fff_fffe)) by {
        assert forall|i: int, dir: int| 0 <= i < false_pieces.len() && 0 <= dir < 6 implies -0x3fff_fffe
            <= #[trigger] false_pieces@[i].edges@[dir] <= 0x3fff_fffe by {
            assert(pieces[n + i] == false_pieces@[i]);
            assert(-cfg.total_alphabet <= pieces[n + i].edges@[dir] <= cfg.total_alphabet);
        }
    }
    let ghost first = true_pieces@;
    let ghost second = false_pieces@;
    let drawn: Drawn = Drawn {
        shapes,
        shape_collisions,
        reflection_killed,
        true_pieces,
        unique_ids_used,
        id_counts,
        false_pieces,
        false_cluster_sizes,
    };
    let candidate: Candidate = finish_candidate(cfg, base_seed, trial_seed, trial_index, &cells, &neighbors, drawn);
    proof {
        assert(trial_pieces(*cfg, *cuts, neighbors@, candidate, first, second));
        assert(searched(*cfg, neighbors@, candidate, first));
        assert(candidate_on(
            *cfg,
            *cuts,
            base_seed,
            trial_seed,
            trial_index,
            candidate,
            cells@,
            neighbors@,
            first,
            second,
        ));
        assert(pieces_drawn(mid, last, *rng, *cfg, *cuts, candidate, neighbors@, first, second));
    }
    Some(candidate)
}

/// A board whose cells can be counted has short sides.
proof fn lemma_side_bound(side_len: i32)
    requires
        1 <= side_len,
        hexagon_size(side_len - 1) <= i32::MAX,
    ensures
        side_len <= 0x1_0000,
        1 <= hexagon_size(side_len - 1),
{
    let r = side_len - 1;
    assert(3 * r * (r + 1) == (3 * r) * (r + 1));
    assert((3 * r) * (r + 1) >= 0) by (nonlinear_arith)
        requires
            r >= 0,
    ;
    if side_len > 0x1_0000 {
        assert((3 * r) * (r + 1) > i32::MAX) by (nonlinear_arith)
            requires
                r >= 0x1_0000,
        ;
    }
}

fn joined(first: &Vec<Piece>, second: &Vec<Piece>) -> (all: Vec<Piece>)
    ensures
        all@ == first@ + second@,
{
    let mut all: Vec<Piece> = Vec::new();
    for i in 0..first.len()
        invariant
            all@ == first@.take(i as int),
    {
        all.push(first[i]);
        assert(first@.take(i + 1) =~= first@.take(i as int).push(first@[i as int]));
    }
    assert(first@.take(first@.len() as int) =~= first@);
    for i in 0..second.len()
        invariant
            all@ == first@ + second@.take(i as int),
    {
        all.push(second[i]);
        assert(first@ + second@.take(i + 1) =~= (first@ + second@.take(i as int)).push(second@[i as int]));
    }
    assert(second@.take(second@.len() as int) =~= second@);
    all
}

fn place_all(cells: &Vec<Axial>) -> (placements: Vec<PlacementOutput>)
    ensures
        own_cells(cells@, placements@),
{
    let mut placements: Vec<PlacementOutput> = Vec::new();
    for i in 0..cells.len()
        invariant
            placements.len() == i,
            forall|k: int|
                0 <= k < i ==> (#[trigger] placements@[k]).q == cells@[k].q && placements@[k].r == cells@[k].r
                    && placements@[k].piece_id == k && placements@[k].rot == 0,
    {
        placements.push(PlacementOutput { q: cells[i].q, r: cells[i].r, piece_id: i, rot: 0 });
    }
    placements
}

/// The better of what was kept and an attempt: the attempt, if it came to
/// anything and scores higher.
pub fn keep_better(best: Option<Candidate>, attempt: Option<Candidate>) -> (kept: Option<Candidate>)
    ensures
        kept == (match attempt {
            Some(candidate) => if best is Some && best->0.quarters() >= candidate.quarters() {
                best
            } else {
                attempt
            },
            None => best,
        }),
{
    match attempt {
        Some(candidate) => {
            let better: bool = match &best {
                Some(kept) => candidate.score_quarters() > kept.score_quarters(),
                None => true,
            };
            if better {
                Some(candidate)
            } else {
                best
            }
        },
        None => best,
    }
}

/// The first of the attempts with the greatest score.
pub open spec fn best_of(attempts: Seq<Option<Candidate>>) -> Option<Candidate>
    decreases attempts.len(),
{
    if attempts.len() == 0 {
        None
    } else {
        let before = best_of(attempts.drop_last());
        match attempts.last() {
            Some(cand) => if before is Some && before->0.quarters() >= cand.quarters() {
                before
            } else {
                Some(cand)
            },
            None => before,
        }
    }
}

/// Whether attempt `i` of a run came to a puzzle that a trial can come to,
/// or to nothing where there is no alphabet.
pub open spec fn attempt_ok(cfg: Config, cuts: Cuts, seed: u64, attempts: Seq<Option<Candidate>>, i: int) -> bool {
    &&& attempts[i] is None <==> cfg.lacks_alphabet()
    &&& attempts[i] is Some ==> exists|trial_seed: u64| #[trigger]
        is_candidate(cfg, cuts, seed, trial_seed, i as usize, attempts[i]->0)
}

/// Whether these can be the attempts of a run.
pub open spec fn are_attempts(cfg: Config, cuts: Cuts, seed: u64, attempts: Seq<Option<Candidate>>) -> bool {
    &&& attempts.len() == cfg.trials
    &&& forall|i: int| 0 <= i < attempts.len() ==> #[trigger] attempt_ok(cfg, cuts, seed, attempts, i)
}

/// Whether the attempts are those of a run from `seed`: the generator made
/// from `seed` goes through `states` as it gives one trial seed
/// after the other, and each attempt is drawn with a generator made from its
/// trial seed.
pub open spec fn run_given(
    cfg: Config,
    cuts: Cuts,
    seed: u64,
    attempts: Seq<Option<Candidate>>,
    states: Seq<StdRng>,
    trial_seeds: Seq<u64>,
) -> bool {
    &&& states.len() == attempts.len() + 1
    &&& trial_seeds.len() == attempts.len()
    &&& seeded_from(seed, states[0])
    &&& forall|i: int|
        0 <= i < attempts.len() ==> #[trigger] attempt_given(cfg, cuts, seed, attempts[i], states, trial_seeds[i], i)
}

/// Whether trial seed `i` of a run and the attempt are given by the
/// generators.
pub open spec fn attempt_given(
    cfg: Config,
    cuts: Cuts,
    seed: u64,
    attempt: Option<Candidate>,
    states: Seq<StdRng>,
    trial_seed: u64,
    i: int,
) -> bool {
    &&& gave_word(states[i], states[i + 1], trial_seed)
    &&& attempt is Some ==> attempt_drawn(cfg, cuts, seed, trial_seed, i as usize, attempt->0)
}

/// Whether a generator made from the trial seed draws the puzzle.
pub open spec fn attempt_drawn(
    cfg: Config,
    cuts: Cuts,
    seed: u64,
    trial_seed: u64,
    index: usize,
    cand: Candidate,
) -> bool {
    exists|before: StdRng, after: StdRng| #[trigger]
        candidate_drawn(before, after, cfg, cuts, seed, trial_seed, index, cand) && seeded_from(trial_seed, before)
}

/// The puzzle of a run comes from the seed of the run: its trial seed is the
/// word that a generator made from that seed gives for its trial, after one
/// word for each trial before it, and a generator made from the trial seed
/// draws its shapes and pieces.
pub proof fn law_run_from_seed(
    cfg: Config,
    cuts: Cuts,
    seed: u64,
    attempts: Seq<Option<Candidate>>,
    states: Seq<StdRng>,
    trial_seeds: Seq<u64>,
)
    requires
        attempts.len() <= usize::MAX,
        run_given(cfg, cuts, seed, attempts, states, trial_seeds),
        best_of(attempts) is Some,
    ensures
        ({
            let best = best_of(attempts)->0;
            let index = best.stats.trial_index as int;
            &&& best.stats.seed == seed
            &&& seeded_from(seed, states[0])
            &&& index + 1 < states.len()
            &&& forall|i: int| 0 <= i < index ==> gave_word(#[trigger] states[i], states[i + 1], trial_seeds[i])
            &&& gave_word(states[index], states[index + 1], best.stats.trial_seed)
            &&& attempt_drawn(cfg, cuts, seed, best.stats.trial_seed, best.stats.trial_index, best)
        }),
{
    lemma_best_listed(attempts);
    let k = choose|k: int| 0 <= k < attempts.len() && attempts[k] == best_of(attempts);
    let best = best_of(attempts)->0;
    assert(attempt_given(cfg, cuts, seed, attempts[k], states, trial_seeds[k], k));
    let (before, after) = choose|before: StdRng, after: StdRng| #[trigger]
        candidate_drawn(before, after, cfg, cuts, seed, trial_seeds[k], k as usize, best) && seeded_from(
            trial_seeds[k],
            before,
        );
    assert(best.stats.trial_index == k && best.stats.trial_seed == trial_seeds[k] && best.stats.seed == seed);
    assert forall|i: int| 0 <= i < k implies gave_word(#[trigger] states[i], states[i + 1], trial_seeds[i]) by {
        assert(attempt_given(cfg, cuts, seed, attempts[i], states, trial_seeds[i], i));
    }
}

/// One attempt more goes on with the run.
proof fn lemma_run_step(
    cfg: Config,
    cuts: Cuts,
    seed: u64,
    attempts: Seq<Option<Candidate>>,
    states: Seq<StdRng>,
    trial_seeds: Seq<u64>,
    attempt: Option<Candidate>,
    trial_seed: u64,
    next: StdRng,
    start: StdRng,
    end: StdRng,
)
    requires
        run_given(cfg, cuts, seed, attempts, states, trial_seeds),
        attempts.len() < usize::MAX,
        gave_word(states.last(), next, trial_seed),
        seeded_from(trial_seed, start),
        attempt is Some ==> candidate_drawn(
            start,
            end,
            cfg,
            cuts,
            seed,
            trial_seed,
            attempts.len() as usize,
            attempt->0,
        ),
    ensures
        run_given(cfg, cuts, seed, attempts.push(attempt), states.push(next), trial_seeds.push(trial_seed)),
{
    let more = attempts.push(attempt);
    let further = states.push(next);
    let seeds = trial_seeds.push(trial_seed);
    let n = attempts.len() as int;
    assert forall|i: int| 0 <= i < more.len() implies #[trigger] attempt_given(cfg, cuts, seed, more[i], further, seeds[i], i) by {
        if i < n {
            assert(attempt_given(cfg, cuts, seed, attempts[i], states, trial_seeds[i], i));
            assert(further[i] == states[i] && further[i + 1] == states[i + 1]);
        } else {
            assert(further[i] == states.last() && further[i + 1] == next);
            if attempt is Some {
                assert(attempt_drawn(cfg, cuts, seed, trial_seed, n as usize, attempt->0));
            }
        }
    }
}

/// The hardest puzzle of a run: as many trials as the settings ask for, each
/// with a seed of its own. `None` means that there are no trials, or no ids
/// for the true pieces.
pub fn best_candidate(cfg: &Config, cuts: &Cuts, base_seed: u64) -> (best: Option<Candidate>)
    requires
        cfg.can_run(),
    ensures
        exists|attempts: Seq<Option<Candidate>>| #[trigger]
            are_attempts(*cfg, *cuts, base_seed, attempts) && best == best_of(attempts) && (exists|
                states: Seq<StdRng>,
                trial_seeds: Seq<u64>,
            | #[trigger]
                run_given(*cfg, *cuts, base_seed, attempts, states, trial_seeds)),
        best is None <==> cfg.trials == 0 || cfg.lacks_alphabet(),
{
    let mut rng: StdRng = generator(base_seed);
    let mut best: Option<Candidate> = None;
    let ghost mut attempts: Seq<Option<Candidate>> = Seq::empty();
    let ghost mut states: Seq<StdRng> = seq![rng];
    let ghost mut trial_seeds: Seq<u64> = Seq::empty();
    for trial in 0..cfg.trials
        invariant
            cfg.can_run(),
            attempts.len() == trial,
            forall|i: int| 0 <= i < trial ==> #[trigger] attempt_ok(*cfg, *cuts, base_seed, attempts, i),
            best == best_of(attempts),
            run_given(*cfg, *cuts, base_seed, attempts, states, trial_seeds),
            states.last() == rng,
    {
        let trial_seed: u64 = next_word(&mut rng);
        let mut trial_rng: StdRng = generator(trial_seed);
        let ghost start = trial_rng;
        let attempt: Option<Candidate> = generate_candidate(cfg, cuts, base_seed, trial_seed, trial, &mut trial_rng);
        let ghost before = attempts;
        let ghost past = states;
        let ghost past_seeds = trial_seeds;
        proof {
            attempts = attempts.push(attempt);
            states = states.push(rng);
            trial_seeds = trial_seeds.push(trial_seed);
            lemma_run_step(
                *cfg,
                *cuts,
                base_seed,
                before,
                past,
                past_seeds,
                attempt,
                trial_seed,
                rng,
                start,
                trial_rng,
            );
            assert(attempts.drop_last() =~= before);
            assert forall|i: int| 0 <= i < trial + 1 implies #[trigger] attempt_ok(*cfg, *cuts, base_seed, attempts, i) by {
                if i < trial {
                    assert(attempt_ok(*cfg, *cuts, base_seed, before, i));
                    assert(attempts[i] == before[i]);
                } else if attempt is Some {
                    assert(is_candidate(*cfg, *cuts, base_seed, trial_seed, i as usize, attempts[i]->0));
                }
            }
        }
        best = keep_better(best, attempt);
    }
    proof {
        if cfg.trials > 0 {
            assert(attempt_ok(*cfg, *cuts, base_seed, attempts, 0));
            if attempts[0] is Some {
                law_best(attempts, 0);
            } else if best is Some {
                lemma_best_listed(attempts);
                let k = choose|k: int| 0 <= k < attempts.len() && attempts[k] == best;
                assert(attempt_ok(*cfg, *cuts, base_seed, attempts, k));
            }
        }
    }
    assert(are_attempts(*cfg, *cuts, base_seed, attempts));
    assert(run_given(*cfg, *cuts, base_seed, attempts, states, trial_seeds));
    best
}

/// The puzzle of a run scores as high as any attempt, and a run without a
/// puzzle had no attempt that came to anything.
pub proof fn law_best(attempts: Seq<Option<Candidate>>, i: int)
    requires
        0 <= i < attempts.len(),
        attempts[i] is Some,
    ensures
        best_of(attempts) is Some,
        best_of(attempts)->0.quarters() >= attempts[i]->0.quarters(),
        attempts.contains(best_of(attempts)),
    decreases attempts.len(),
{
    let front = attempts.drop_last();
    if i < front.len() {
        assert(front[i] == attempts[i]);
        law_best(front, i);
        let k = choose|k: int| 0 <= k < front.len() && front[k] == best_of(front);
        assert(attempts[k] == best_of(front));
    } else {
        if best_of(front) is Some {
            lemma_best_listed(front);
            let k = choose|k: int| 0 <= k < front.len() && front[k] == best_of(front);
            assert(attempts[k] == best_of(front));
        }
    }
    assert(attempts[attempts.len() - 1] == attempts.last());
}

proof fn lemma_best_listed(attempts: Seq<Option<Candidate>>)
    requires
        best_of(attempts) is Some,
    ensures
        attempts.contains(best_of(attempts)),
    decreases attempts.len(),
{
    let front = attempts.drop_last();
    assert(attempts[attempts.len() - 1] == attempts.last());
    if best_of(front) is Some {
        lemma_best_listed(front);
        let k = choose|k: int| 0 <= k < front.len() && front[k] == best_of(front);
        assert(attempts[k] == best_of(front));
    }
}

/// The solution of a puzzle solves its board.
pub proof fn law_candidate_solved(
    cfg: Config,
    cuts: Cuts,
    seed: u64,
    trial_seed: u64,
    index: usize,
    cand: Candidate,
    cells: Seq<Axial>,
    links: Seq<[Option<usize>; 6]>,
    true_pieces: Seq<Piece>,
    false_pieces: Seq<Piece>,
)
    requires
        cfg.can_run(),
        candidate_on(cfg, cuts, seed, trial_seed, index, cand, cells, links, true_pieces, false_pieces),
    ensures
        solves(second_solution_quest(links, cand.pieces@, cfg.max_u_nodes), identity(links.len())),
        own_cells(cells, cand.placements@),
{
    let quest = second_solution_quest(links, cand.pieces@, cfg.max_u_nodes);
    let plan = Numbering {
        core: cand.stats.core_alphabet as int,
        alphabet: cand.stats.true_alphabet as int,
        cut: cuts.anchor,
    };
    lemma_hexagon_links_mutual(cells, links, cfg.side_len - 1);
    assert forall|i: int| 0 <= i < true_pieces.len() implies true_pieces[i] == #[trigger] quest.pieces[i] by {
    }
    law_true_pieces_solve(quest, plan, true_pieces, cand.stats.unique_ids_used as int);
}

/// Where the alphabet has an id for each edge of a spanning tree, the core
/// leaves them unused.
pub proof fn law_core_leaves_ids(core: int, alphabet: int, needed: int)
    requires
        0 <= core,
        0 <= needed <= alphabet,
    ensures
        0 <= core_size(core, alphabet, needed) <= core,
        alphabet - core_size(core, alphabet, needed) >= needed,
{
}

/// The searches of a trial stay within their limits. There are at least as
/// many solutions without false pieces as the first one counts, and there is
/// one with a false piece if the second one counts it.
pub proof fn law_candidate_searches(
    cfg: Config,
    cuts: Cuts,
    seed: u64,
    trial_seed: u64,
    index: usize,
    cand: Candidate,
    cells: Seq<Axial>,
    links: Seq<[Option<usize>; 6]>,
    true_pieces: Seq<Piece>,
    false_pieces: Seq<Piece>,
)
    requires
        cfg.can_run(),
        candidate_on(cfg, cuts, seed, trial_seed, index, cand, cells, links, true_pieces, false_pieces),
    ensures
        cand.stats.u_nodes <= cfg.max_u_nodes,
        cand.stats.u_solutions <= 2,
        exists|found: Seq<Seq<Option<PlacementRef>>>| #[trigger]
            found.no_duplicates() && found.len() == cand.stats.u_solutions && (forall|i: int|
                0 <= i < found.len() ==> solves(
                    second_solution_quest(links, true_pieces, cfg.max_u_nodes),
                    #[trigger] found[i],
                )),
        cand.stats.f_nodes <= cfg.max_f_nodes,
        cand.stats.f_solutions <= 1,
        cand.stats.f_solutions == 1 ==> exists|a: Seq<Option<PlacementRef>>| #[trigger]
            solves(false_solution_quest(links, cand.pieces@, cfg.max_f_nodes), a),
{
    lemma_hexagon_links_mutual(cells, links, cfg.side_len - 1);
    let quest = second_solution_quest(links, true_pieces, cfg.max_u_nodes);
    let plan = Numbering {
        core: cand.stats.core_alphabet as int,
        alphabet: cand.stats.true_alphabet as int,
        cut: cuts.anchor,
    };
    let alphabet = cand.stats.true_alphabet;
    law_true_ids_within(links, plan, true_pieces, cand.stats.unique_ids_used as int);
    assert(within_alphabet(true_pieces, alphabet)) by {
        assert forall|p: int, dir: int| 0 <= p < true_pieces.len() && 0 <= dir < 6 implies -offset_of(
            alphabet,
        ) <= #[trigger] true_pieces[p].edges@[dir] <= offset_of(alphabet) by {
            assert(-alphabet <= true_pieces[p].edges@[dir] <= alphabet);
        }
    }
    law_trial_search(quest, alphabet);
    let other = false_solution_quest(links, cand.pieces@, cfg.max_f_nodes);
    assert(within_alphabet(cand.pieces@, cfg.total_alphabet)) by {
        assert forall|p: int, dir: int| 0 <= p < cand.pieces@.len() && 0 <= dir < 6 implies -offset_of(
            cfg.total_alphabet,
        ) <= #[trigger] cand.pieces@[p].edges@[dir] <= offset_of(cfg.total_alphabet) by {
            assert(-cfg.total_alphabet <= cand.pieces@[p].edges@[dir] <= cfg.total_alphabet);
        }
    }
    assert(cand.pieces@.len() == cand.pieces.len());
    law_trial_search(other, cfg.total_alphabet);
    let after = explore(other, fresh(other), false);
    let found = choose|found: Seq<Seq<Option<PlacementRef>>>| #[trigger]
        found.no_duplicates() && found.len() == after.found && (forall|i: int|
            0 <= i < found.len() ==> solves(other, #[trigger] found[i]));
    if cand.stats.f_solutions == 1 {
        assert(solves(other, found[0]));
    }
}

} // verus!
