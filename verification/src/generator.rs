//! Puzzle generation.

use crate::decoys::{
    all_valid, clusters_drawn, false_pieces_of, fits_clusters, gave_up, generate_decoy_clusters, lemma_all_valid_kept,
    sizes_of, ClusterPlan,
};
use crate::edges::{is_forward, joins, lemma_edge_back, Edge};
use crate::geometry::{
    law_turned_valid, lemma_memo_grew, lemma_never_refuses, memo_grew, never_refuses, valid_in, EdgeMeta, GeomMemo,
};
use crate::grid::{law_rotation_undone, magnitude, opposite, rotate_edges, rotated, Axial, Board};
use crate::id_plan::{
    anchor_target, core_id_pool, holds_id, id_plan_drawn, is_core, is_id_plan, law_planned_ids, list_fault, lists_from, lists_of,
    lowest_first, plan_ids, plan_lists, IdLists,
};
use crate::orient::{
    half_degrees, is_oriented, orient_edges, orientation_drawn, oriented, oriented_by_rating, shows, target_concaves,
    Profile,
};
use crate::repair::{
    cancels, keeps_ids, lemma_run_kept, negatable, repair_ended, repair_geometry, steps_drawn, RepairState,
    RepairStep,
};
use crate::rng::{gave_index, gave_word, generator, next_index, next_word, seeded_from};
use crate::search::{placement_count, placement_edge, uniqueness_outcome};
use crate::solutions::{is_solution, law_uniqueness};
use rand::rngs::StdRng;
use vstd::prelude::*;

verus! {

/// A puzzle piece with its six signed edge values.
#[derive(Clone, Debug)]
pub struct Piece {
    pub id: usize,
    pub edges: [i32; 6],
    pub is_true: bool,
    pub cluster_id: Option<usize>,
    pub back_id: Option<u64>,
}

/// Where a piece lies in the intended solution, and how it is turned.
#[derive(Clone, Debug)]
pub struct SolutionEntry {
    pub q: i32,
    pub r: i32,
    pub piece_id: usize,
    pub rot: usize,
}

#[derive(Clone, Debug)]
pub struct GeneratedPuzzle {
    pub pieces: Vec<Piece>,
    pub solution: Vec<SolutionEntry>,
    pub seed: u64,
    pub retries: usize,
}

/// What a puzzle is generated from.
#[derive(Clone, Debug)]
pub struct GeneratorConfig {
    pub total_alphabet: i32,
    pub core_alphabet: i32,
    /// The number of edges of the spanning tree that should be anchored,
    /// before it is brought within what the board allows.
    pub anchor_count: usize,
    /// The rolls under which an outer edge of a false cluster is flat.
    pub flat_cut: u64,
    /// The rolls under which it is flat or attaches.
    pub attach_cut: u64,
    /// The sizes of the false clusters, with how many there are of each.
    pub false_clusters: Vec<(usize, usize)>,
    pub chiral: bool,
    pub back_id: bool,
    pub max_retries: usize,
}

/// Why no puzzle was generated.
#[derive(Clone, Copy, Debug, PartialEq, Eq, Structural)]
pub enum GeneratorError {
    /// The core alphabet is empty.
    CoreTooSmall,
    /// The whole alphabet is smaller than the core alphabet.
    AlphabetTooSmall,
    /// More edges should be anchored than there are ids beside the core.
    TooManyAnchors { target: usize, capacity: usize },
    /// A piece could not be repaired, as none of its sides can be changed.
    NoMoves,
    /// The repair came to its end with invalid pieces left.
    StillInvalid(usize),
    /// No valid false cluster was found.
    NoCluster,
}

/// Edges whose sides are set the opposite way cancel, from either side.
proof fn lemma_oriented_cancels(board: Board, ids: Seq<[i32; 6]>, rows: Seq<[i32; 6]>)
    requires
        board.wf(),
        oriented(board.neighbors@, ids, rows),
    ensures
        cancels(board.neighbors@, rows),
{
    let links = board.neighbors@;
    assert forall|e: Edge| #[trigger] joins(links, e) implies shows(rows, e, rows[e.0 as int]@[e.2 as int] as int) by {
        lemma_edge_back(links, e);
        if is_forward(e) {
            assert(is_oriented(ids, rows, e));
        } else {
            let back = (e.1, e.0, opposite(e.2 as int) as usize);
            assert(opposite(opposite(e.2 as int)) == e.2);
            assert(joins(links, back) && is_forward(back));
            assert(is_oriented(ids, rows, back));
        }
    }
}

/// The ids that are listed are positive.
proof fn lemma_lists_positive(lists: IdLists, cfg: GeneratorConfig, board: Board, meta: Seq<EdgeMeta>)
    requires
        lists_of(lists, cfg, meta, board.cells@.len() as int),
        list_fault(cfg, board.cells@.len() as int) is None,
    ensures
        lists.core@.len() == cfg.core_alphabet,
        forall|i: int| 0 <= i < lists.core@.len() ==> #[trigger] lists.core@[i] > 0,
        forall|i: int| 0 <= i < lists.anchors@.len() ==> #[trigger] lists.anchors@[i] > 0,
        forall|i: int| 0 <= i < lists.chiral@.len() ==> #[trigger] lists.chiral@[i] > 0,
{
    let target = anchor_target(cfg.anchor_count as int, board.cells@.len() as int);
    let core = cfg.core_alphabet as int;
    let sorted = choose|sorted: Seq<i32>| #[trigger]
        lowest_first(sorted, meta, cfg.total_alphabet as int) && lists_from(lists, sorted, core, target);
    assert forall|i: int| 0 <= i < lists.core@.len() implies #[trigger] lists.core@[i] > 0 by {
        assert(lists.core@[i] == sorted[i]);
    }
    assert forall|i: int| 0 <= i < lists.anchors@.len() implies #[trigger] lists.anchors@[i] > 0 by {
        assert(lists.anchors@[i] == sorted[core + i]);
    }
    assert forall|i: int| 0 <= i < lists.chiral@.len() implies #[trigger] lists.chiral@[i] > 0 by {
        assert(lists.chiral@[i] == sorted[core + target + i]);
    }
}

/// Whether a true piece has the edge values of its cell, turned by `rot`, and
/// its entry in the solution turns it back.
pub open spec fn placed_as(piece: Piece, entry: SolutionEntry, cell: Axial, row: Seq<i32>, i: int, back: bool, rot: int) -> bool {
    &&& 0 <= rot < 6
    &&& piece.id == i
    &&& piece.edges@ == rotated(row, rot)
    &&& piece.is_true
    &&& piece.cluster_id is None
    &&& piece.back_id is Some == back
    &&& entry.q == cell.q
    &&& entry.r == cell.r
    &&& entry.piece_id == i
    &&& entry.rot == (6 - rot) % 6
}

/// Whether the pieces are those of the cells, each turned somehow, and the
/// solution tells where each lies and how to turn it.
pub open spec fn pieces_of(
    cells: Seq<Axial>,
    rows: Seq<[i32; 6]>,
    pieces: Seq<Piece>,
    solution: Seq<SolutionEntry>,
    back: bool,
) -> bool {
    &&& pieces.len() == cells.len()
    &&& solution.len() == cells.len()
    &&& forall|i: int|
        0 <= i < cells.len() ==> is_placed(#[trigger] pieces[i], solution[i], cells[i], rows[i]@, i, back)
}

pub open spec fn is_placed(piece: Piece, entry: SolutionEntry, cell: Axial, row: Seq<i32>, i: int, back: bool) -> bool {
    exists|rot: int| #[trigger] placed_as(piece, entry, cell, row, i, back, rot)
}

/// Whether a piece is `row` turned by what generator `before` gives, with a
/// back id that it gives too if `back` calls for one, and the generator is
/// `after` then.
pub open spec fn turn_drawn(before: StdRng, after: StdRng, row: Seq<i32>, piece: Piece, back: bool) -> bool {
    exists|mid: StdRng, rot: usize| #[trigger]
        gave_index(before, mid, 0, 6, rot) && piece.edges@ == rotated(row, rot as int) && match piece.back_id {
            Some(id) => back && gave_word(mid, after, id),
            None => !back && after == mid,
        }
}

/// Whether the first `n` pieces from `start` on are rows turned by what
/// generator `before` gives in turn, and the generator is `after` then.
pub open spec fn turns_drawn(
    before: StdRng,
    after: StdRng,
    rows: Seq<[i32; 6]>,
    pieces: Seq<Piece>,
    start: int,
    n: int,
    back: bool,
) -> bool
    decreases n,
{
    if n <= 0 {
        before == after
    } else {
        exists|mid: StdRng, row: Seq<i32>, piece: Piece| #[trigger]
            turn_drawn(mid, after, row, piece, back) && row == rows[n - 1]@ && piece == pieces[start + n - 1]
                && turns_drawn(before, mid, rows, pieces, start, n - 1, back)
    }
}

/// Turned pieces stay so in another list that holds them too.
pub(crate) proof fn lemma_turns_moved(
    before: StdRng,
    after: StdRng,
    rows: Seq<[i32; 6]>,
    pieces: Seq<Piece>,
    start: int,
    other: Seq<Piece>,
    to: int,
    n: int,
    back: bool,
)
    requires
        turns_drawn(before, after, rows, pieces, start, n, back),
        forall|i: int| start <= i < start + n ==> #[trigger] pieces[i] == other[i - start + to],
    ensures
        turns_drawn(before, after, rows, other, to, n, back),
    decreases n,
{
    if n > 0 {
        let (mid, row, piece) = choose|mid: StdRng, row: Seq<i32>, piece: Piece| #[trigger]
            turn_drawn(mid, after, row, piece, back) && row == rows[n - 1]@ && piece == pieces[start + n - 1]
                && turns_drawn(before, mid, rows, pieces, start, n - 1, back);
        lemma_turns_moved(before, mid, rows, pieces, start, other, to, n - 1, back);
        assert(pieces[start + n - 1] == other[to + n - 1]);
        assert(turn_drawn(mid, after, row, piece, back));
    }
}

/// Makes the pieces of the cells, each turned by chance.
fn turn_pieces<G>(
    cells: &Vec<Axial>,
    rows: &Vec<[i32; 6]>,
    back: bool,
    rng: &mut StdRng,
    memo: &GeomMemo<G>,
) -> (turned: (Vec<Piece>, Vec<SolutionEntry>))
    requires
        rows.len() == cells.len(),
        forall|c: int| 0 <= c < rows.len() ==> valid_in(memo.cache@, (#[trigger] rows@[c])@),
    ensures
        pieces_of(cells@, rows@, turned.0@, turned.1@, back),
        all_valid(memo.cache@, turned.0@),
        turns_drawn(*old(rng), *final(rng), rows@, turned.0@, 0, cells@.len() as int, back),
{
    let mut pieces: Vec<Piece> = Vec::with_capacity(cells.len());
    let mut solution: Vec<SolutionEntry> = Vec::with_capacity(cells.len());
    for idx in 0..cells.len()
        invariant
            rows.len() == cells.len(),
            forall|c: int| 0 <= c < rows.len() ==> valid_in(memo.cache@, (#[trigger] rows@[c])@),
            pieces.len() == idx,
            solution.len() == idx,
            forall|i: int|
                0 <= i < idx ==> is_placed(#[trigger] pieces@[i], solution@[i], cells@[i], rows@[i]@, i, back),
            all_valid(memo.cache@, pieces@),
            turns_drawn(*old(rng), *rng, rows@, pieces@, 0, idx as int, back),
    {
        let ghost source = *rng;
        let rot: usize = next_index(rng, 0, 6);
        let ghost mid = *rng;
        let edges: [i32; 6] = rotate_edges(&rows[idx], rot);
        let mut back_id: Option<u64> = None;
        if back {
            back_id = Some(next_word(rng));
        }
        let piece: Piece = Piece { id: idx, edges, is_true: true, cluster_id: None, back_id };
        let entry: SolutionEntry = SolutionEntry {
            q: cells[idx].q,
            r: cells[idx].r,
            piece_id: idx,
            rot: (6 - rot) % 6,
        };
        proof {
            law_turned_valid(memo.cache@, rows@[idx as int]@, rot as int);
            assert(valid_in(memo.cache@, rows@[idx as int]@));
            assert(placed_as(piece, entry, cells@[idx as int], rows@[idx as int]@, idx as int, back, rot as int));
        }
        let ghost past = pieces@;
        pieces.push(piece);
        solution.push(entry);
        proof {
            assert(gave_index(source, mid, 0, 6, rot));
            assert(turn_drawn(source, *rng, rows@[idx as int]@, piece, back));
            lemma_turns_moved(*old(rng), source, rows@, past, 0, pieces@, 0, idx as int, back);
        }
    }
    (pieces, solution)
}

/// Whether `ids` are the different ids of the edge values.
pub open spec fn ids_used(rows: Seq<[i32; 6]>, ids: Seq<i32>) -> bool {
    &&& ids.no_duplicates()
    &&& forall|i: int| 0 <= i < ids.len() ==> #[trigger] ids[i] > 0
    &&& forall|i: int| 0 <= i < ids.len() ==> occurs(rows, #[trigger] ids[i] as int)
    &&& forall|c: int, d: int|
        0 <= c < rows.len() && 0 <= d < 6 && (#[trigger] rows[c]@[d]) != 0 ==> ids.contains(
            magnitude(rows[c]@[d]) as i32,
        )
}

/// Whether some side has the id.
pub open spec fn occurs(rows: Seq<[i32; 6]>, id: int) -> bool {
    exists|c: int, d: int| 0 <= c < rows.len() && 0 <= d < 6 && magnitude(#[trigger] rows[c]@[d]) == id
}

fn collect_used(rows: &Vec<[i32; 6]>) -> (ids: Vec<i32>)
    requires
        negatable(rows@),
    ensures
        ids_used(rows@, ids@),
{
    let mut ids: Vec<i32> = Vec::new();
    for c in 0..rows.len()
        invariant
            negatable(rows@),
            ids@.no_duplicates(),
            forall|i: int| 0 <= i < ids.len() ==> #[trigger] ids@[i] > 0,
            forall|i: int| 0 <= i < ids.len() ==> occurs(rows@, #[trigger] ids@[i] as int),
            forall|k: int, d: int|
                0 <= k < c && 0 <= d < 6 && (#[trigger] rows@[k]@[d]) != 0 ==> ids@.contains(
                    magnitude(rows@[k]@[d]) as i32,
                ),
    {
        for dir in 0..6usize
            invariant
                c < rows.len(),
                negatable(rows@),
                ids@.no_duplicates(),
                forall|i: int| 0 <= i < ids.len() ==> #[trigger] ids@[i] > 0,
                forall|i: int| 0 <= i < ids.len() ==> occurs(rows@, #[trigger] ids@[i] as int),
                forall|k: int, d: int|
                    0 <= k < rows.len() && 0 <= d < 6 && 6 * k + d < 6 * c + dir && (#[trigger] rows@[k]@[d]) != 0
                        ==> ids@.contains(magnitude(rows@[k]@[d]) as i32),
        {
            let value: i32 = rows[c][dir];
            assert(rows@[c as int]@[dir as int] > i32::MIN);
            let ghost before = ids@;
            if value != 0 {
                let id: i32 = if value < 0 { -value } else { value };
                if !holds_id(&ids, id) {
                    assert(magnitude(rows@[c as int]@[dir as int]) == id);
                    ids.push(id);
                }
            }
            proof {
                assert forall|k: int, d: int|
                    0 <= k < rows.len() && 0 <= d < 6 && 6 * k + d < 6 * c + dir + 1 && (#[trigger] rows@[k]@[d]) != 0 implies ids@.contains(
                    magnitude(rows@[k]@[d]) as i32,
                ) by {
                    let id = magnitude(rows@[k]@[d]) as i32;
                    if 6 * k + d < 6 * c + dir {
                        assert(before.contains(id));
                    }
                    if before.contains(id) {
                        let i = choose|i: int| 0 <= i < before.len() && before[i] == id;
                        assert(ids@[i] == id);
                    } else {
                        assert(ids@[ids@.len() - 1] == id);
                    }
                }
            }
        }
    }
    ids
}

/// How the edge values of a board were made: the lists of ids, the id of each
/// edge, the number of notches that each piece should have, the values before
/// the repair, and the states and steps of the repair.
pub struct Making {
    pub lists: IdLists,
    pub ids: Seq<[i32; 6]>,
    pub targets: Seq<usize>,
    pub first: Seq<[i32; 6]>,
    pub trace: Seq<RepairState>,
    pub steps: Seq<RepairStep>,
}

/// Whether the edge values of a board come of the rules: ids planned, sides
/// set by their ratings, and then repaired, with that result.
pub open spec fn made_by_rules<G, P: Fn(i64, &Profile, &Profile) -> u64>(
    board: Board,
    cfg: GeneratorConfig,
    meta: Seq<EdgeMeta>,
    rate: P,
    memo: Map<Seq<i32>, Option<G>>,
    rows: Seq<[i32; 6]>,
    repaired: Result<usize, GeneratorError>,
) -> bool {
    exists|making: Making| #[trigger] made_with(board, cfg, meta, rate, memo, rows, repaired, making)
}

pub open spec fn made_with<G, P: Fn(i64, &Profile, &Profile) -> u64>(
    board: Board,
    cfg: GeneratorConfig,
    meta: Seq<EdgeMeta>,
    rate: P,
    memo: Map<Seq<i32>, Option<G>>,
    rows: Seq<[i32; 6]>,
    repaired: Result<usize, GeneratorError>,
    making: Making,
) -> bool {
    let links = board.neighbors@;
    let core = making.lists.core@;
    &&& lists_of(making.lists, cfg, meta, board.cells@.len() as int)
    &&& is_id_plan(links, making.lists, cfg.chiral, making.ids)
    &&& half_degrees(links, making.targets)
    &&& oriented(links, making.ids, making.first)
    &&& oriented_by_rating(rate, links, making.ids, making.targets, making.first)
    &&& repair_ended(
        links,
        core,
        rate,
        memo,
        making.targets,
        making.first,
        rows,
        cfg.max_retries as int,
        repaired,
        making.trace,
        making.steps,
    )
    &&& keeps_ids(links, core, making.first, rows)
    &&& cancels(links, rows)
}

/// Whether edge values are made with what generator `before` gives, and the
/// generator is `after` then: the plan of the ids, the sides of the edges, and
/// the steps of the repair.
pub open spec fn making_drawn<P: Fn(i64, &Profile, &Profile) -> u64>(
    before: StdRng,
    after: StdRng,
    board: Board,
    cfg: GeneratorConfig,
    rate: P,
    making: Making,
) -> bool {
    let links = board.neighbors@;
    exists|mid: StdRng, last: StdRng|
        #![trigger id_plan_drawn(before, mid, links, making.lists, cfg.chiral, making.ids), orientation_drawn(mid, last, rate, links, making.ids, making.targets, making.first)]
        id_plan_drawn(before, mid, links, making.lists, cfg.chiral, making.ids) && orientation_drawn(
            mid,
            last,
            rate,
            links,
            making.ids,
            making.targets,
            making.first,
        ) && steps_drawn(
            last,
            after,
            links,
            making.lists.core@,
            making.trace,
            making.steps,
            making.steps.len() as int,
        )
}

/// Whether edge values that need no more repair are made by the rules with
/// what generator `before` gives, and the generator is `after` then.
pub open spec fn rows_made_drawn<G, P: Fn(i64, &Profile, &Profile) -> u64>(
    before: StdRng,
    after: StdRng,
    board: Board,
    cfg: GeneratorConfig,
    meta: Seq<EdgeMeta>,
    rate: P,
    memo: Map<Seq<i32>, Option<G>>,
    rows: Seq<[i32; 6]>,
    taken: usize,
) -> bool {
    exists|making: Making| #[trigger]
        made_with(board, cfg, meta, rate, memo, rows, Ok::<usize, GeneratorError>(taken), making) && making_drawn(
            before,
            after,
            board,
            cfg,
            rate,
            making,
        )
}

proof fn lemma_made_drawn_kept<G, P: Fn(i64, &Profile, &Profile) -> u64, B: Fn(&[i32; 6]) -> Option<G>>(
    source: StdRng,
    end: StdRng,
    board: Board,
    cfg: GeneratorConfig,
    meta: Seq<EdgeMeta>,
    rate: P,
    build: B,
    before: Map<Seq<i32>, Option<G>>,
    after: Map<Seq<i32>, Option<G>>,
    rows: Seq<[i32; 6]>,
    taken: usize,
)
    requires
        memo_grew(before, after, build),
        rows_made_drawn(source, end, board, cfg, meta, rate, before, rows, taken),
    ensures
        rows_made_drawn(source, end, board, cfg, meta, rate, after, rows, taken),
{
    let made = Ok::<usize, GeneratorError>(taken);
    let making = choose|making: Making| #[trigger]
        made_with(board, cfg, meta, rate, before, rows, made, making) && making_drawn(
            source,
            end,
            board,
            cfg,
            rate,
            making,
        );
    lemma_run_kept(
        board.neighbors@,
        making.lists.core@,
        rate,
        build,
        before,
        after,
        making.targets,
        making.first,
        making.trace,
        making.steps,
    );
    assert(made_with(board, cfg, meta, rate, after, rows, made, making));
}

/// Edge values stay made by the rules as the memo grows.
proof fn lemma_made_kept<G, P: Fn(i64, &Profile, &Profile) -> u64, B: Fn(&[i32; 6]) -> Option<G>>(
    board: Board,
    cfg: GeneratorConfig,
    meta: Seq<EdgeMeta>,
    rate: P,
    build: B,
    before: Map<Seq<i32>, Option<G>>,
    after: Map<Seq<i32>, Option<G>>,
    rows: Seq<[i32; 6]>,
    repaired: Result<usize, GeneratorError>,
)
    requires
        memo_grew(before, after, build),
        made_by_rules(board, cfg, meta, rate, before, rows, repaired),
    ensures
        made_by_rules(board, cfg, meta, rate, after, rows, repaired),
{
    let making = choose|making: Making| #[trigger] made_with(board, cfg, meta, rate, before, rows, repaired, making);
    lemma_run_kept(
        board.neighbors@,
        making.lists.core@,
        rate,
        build,
        before,
        after,
        making.targets,
        making.first,
        making.trace,
        making.steps,
    );
    assert(made_with(board, cfg, meta, rate, after, rows, repaired, making));
}

/// Edge values for the cells of a board such that every piece has a valid
/// outline, with the number of steps that the repair took.
fn make_rows<G, B: Fn(&[i32; 6]) -> Option<G>, P: Fn(i64, &Profile, &Profile) -> u64>(
    board: &Board,
    cfg: &GeneratorConfig,
    lists: &IdLists,
    rng: &mut StdRng,
    memo: &mut GeomMemo<G>,
    build: &B,
    rate: &P,
) -> (made: Result<(Vec<[i32; 6]>, usize), GeneratorError>)
    requires
        board.wf(),
        board.cells.len() > 0,
        old(memo).wf(),
        forall|canon: &[i32; 6]| #[trigger] build.requires((canon,)),
        forall|n: i64, pa: &Profile, pb: &Profile| #[trigger] rate.requires((n, pa, pb)),
        list_fault(*cfg, board.cells@.len() as int) is None,
        lists_of(*lists, *cfg, old(memo).edge_meta@, board.cells@.len() as int),
    ensures
        final(memo).wf(),
        final(memo).edge_meta == old(memo).edge_meta,
        memo_grew(old(memo).cache@, final(memo).cache@, *build),
        match made {
            Ok((rows, steps)) => {
                &&& made_by_rules(
                    *board,
                    *cfg,
                    old(memo).edge_meta@,
                    *rate,
                    final(memo).cache@,
                    rows@,
                    Ok::<usize, GeneratorError>(steps),
                )
                &&& rows.len() == board.cells.len()
                &&& negatable(rows@)
                &&& steps <= cfg.max_retries
                &&& forall|c: int| 0 <= c < rows.len() ==> valid_in(final(memo).cache@, (#[trigger] rows@[c])@)
                &&& rows_made_drawn(
                    *old(rng),
                    *final(rng),
                    *board,
                    *cfg,
                    old(memo).edge_meta@,
                    *rate,
                    final(memo).cache@,
                    rows@,
                    steps,
                )
            },
            Err(e) => {
                &&& e is NoMoves || e is StillInvalid
                &&& !never_refuses(old(memo).cache@, *build)
                &&& exists|rows: Seq<[i32; 6]>| #[trigger]
                    made_by_rules(
                        *board,
                        *cfg,
                        old(memo).edge_meta@,
                        *rate,
                        final(memo).cache@,
                        rows,
                        Err::<usize, GeneratorError>(e),
                    )
            },
        },
{
    let ghost meta = memo.edge_meta@;
    proof {
        lemma_lists_positive(*lists, *cfg, *board, meta);
        assert(board.neighbors@.len() == board.neighbors.len());
    }
    let ids: Vec<[i32; 6]> = plan_ids(&board.neighbors, lists, cfg.chiral, rng);
    let ghost mid = *rng;
    proof {
        law_planned_ids(board.neighbors@, *lists, cfg.chiral, ids@);
        assert forall|c: int, d: int| 0 <= c < ids.len() && 0 <= d < 6 implies (#[trigger] ids@[c]@[d]) > i32::MIN by {
            match board.neighbors@[c]@[d] {
                Some(nb) => {
                    assert(joins(board.neighbors@, (c as usize, nb, d as usize)));
                },
                None => {},
            }
        }
    }
    let targets: Vec<usize> = target_concaves(&board.neighbors);
    let mut rows: Vec<[i32; 6]> = orient_edges(&board.neighbors, &ids, &targets, rate, rng);
    let ghost first = rows@;
    let ghost last = *rng;
    proof {
        lemma_oriented_cancels(*board, ids@, first);
    }
    let result: Result<usize, GeneratorError> = repair_geometry(
        &board.neighbors,
        &mut rows,
        &lists.core,
        &targets,
        cfg.max_retries,
        memo,
        build,
        rate,
        rng,
    );
    proof {
        let (trace, steps) = choose|trace: Seq<RepairState>, steps: Seq<RepairStep>| #[trigger]
            repair_ended(
                board.neighbors@,
                lists.core@,
                *rate,
                memo.cache@,
                targets@,
                first,
                rows@,
                cfg.max_retries as int,
                result,
                trace,
                steps,
            ) && (result != Err::<usize, GeneratorError>(GeneratorError::NoMoves) ==> steps_drawn(
                last,
                *rng,
                board.neighbors@,
                lists.core@,
                trace,
                steps,
                steps.len() as int,
            ));
        let making = Making { lists: *lists, ids: ids@, targets: targets@, first, trace, steps };
        assert(made_with(*board, *cfg, meta, *rate, memo.cache@, rows@, result, making));
        if result is Ok {
            assert(id_plan_drawn(*old(rng), mid, board.neighbors@, making.lists, cfg.chiral, making.ids)
                && orientation_drawn(
                mid,
                last,
                *rate,
                board.neighbors@,
                making.ids,
                making.targets,
                making.first,
            ));
            assert(making_drawn(*old(rng), *rng, *board, *cfg, *rate, making));
        }
        assert(made_by_rules(*board, *cfg, meta, *rate, memo.cache@, rows@, result));
        if never_refuses(old(memo).cache@, *build) {
            lemma_never_refuses(old(memo).cache@, memo.cache@, *build);
        }
    }
    match result {
        Ok(steps) => Ok((rows, steps)),
        Err(e) => Err(e),
    }
}

/// Whether the true pieces are made by the rules with what generator `before`
/// gives, and the generator is `after` then: their edge values, and how they
/// are turned.
pub open spec fn true_pieces_drawn<G, P: Fn(i64, &Profile, &Profile) -> u64>(
    before: StdRng,
    after: StdRng,
    board: Board,
    cfg: GeneratorConfig,
    meta: Seq<EdgeMeta>,
    rate: P,
    memo: Map<Seq<i32>, Option<G>>,
    pieces: Seq<Piece>,
    solution: Seq<SolutionEntry>,
    used: Seq<i32>,
    taken: usize,
) -> bool {
    exists|mid: StdRng, rows: Seq<[i32; 6]>| #[trigger]
        rows_made_drawn(before, mid, board, cfg, meta, rate, memo, rows, taken) && pieces_of(
            board.cells@,
            rows,
            pieces,
            solution,
            cfg.back_id,
        ) && ids_used(rows, used) && turns_drawn(
            mid,
            after,
            rows,
            pieces,
            0,
            board.cells@.len() as int,
            cfg.back_id,
        )
}

proof fn lemma_pieces_drawn_kept<G, P: Fn(i64, &Profile, &Profile) -> u64, B: Fn(&[i32; 6]) -> Option<G>>(
    source: StdRng,
    end: StdRng,
    board: Board,
    cfg: GeneratorConfig,
    meta: Seq<EdgeMeta>,
    rate: P,
    build: B,
    before: Map<Seq<i32>, Option<G>>,
    after: Map<Seq<i32>, Option<G>>,
    pieces: Seq<Piece>,
    solution: Seq<SolutionEntry>,
    used: Seq<i32>,
    taken: usize,
)
    requires
        memo_grew(before, after, build),
        true_pieces_drawn(source, end, board, cfg, meta, rate, before, pieces, solution, used, taken),
    ensures
        true_pieces_drawn(source, end, board, cfg, meta, rate, after, pieces, solution, used, taken),
{
    let (mid, rows) = choose|mid: StdRng, rows: Seq<[i32; 6]>| #[trigger]
        rows_made_drawn(source, mid, board, cfg, meta, rate, before, rows, taken) && pieces_of(
            board.cells@,
            rows,
            pieces,
            solution,
            cfg.back_id,
        ) && ids_used(rows, used) && turns_drawn(
            mid,
            end,
            rows,
            pieces,
            0,
            board.cells@.len() as int,
            cfg.back_id,
        );
    lemma_made_drawn_kept(source, mid, board, cfg, meta, rate, build, before, after, rows, taken);
}

/// The true pieces of a board, their solution, the ids on them, and the
/// number of steps that the repair took.
pub fn assign_true_pieces<G, B: Fn(&[i32; 6]) -> Option<G>, P: Fn(i64, &Profile, &Profile) -> u64>(
    board: &Board,
    cfg: &GeneratorConfig,
    rng: &mut StdRng,
    memo: &mut GeomMemo<G>,
    build: &B,
    rate: &P,
) -> (assigned: Result<(Vec<Piece>, Vec<SolutionEntry>, Vec<i32>, usize), GeneratorError>)
    requires
        board.wf(),
        old(memo).wf(),
        list_fault(*cfg, board.cells@.len() as int) is None ==> {
            &&& board.cells.len() > 0
            &&& cfg.total_alphabet < old(memo).edge_meta.len()
            &&& cfg.total_alphabet < i32::MAX
        },
        forall|canon: &[i32; 6]| #[trigger] build.requires((canon,)),
        forall|n: i64, pa: &Profile, pb: &Profile| #[trigger] rate.requires((n, pa, pb)),
    ensures
        final(memo).wf(),
        final(memo).edge_meta == old(memo).edge_meta,
        memo_grew(old(memo).cache@, final(memo).cache@, *build),
        match assigned {
            Ok((pieces, solution, used, steps)) => {
                &&& list_fault(*cfg, board.cells@.len() as int) is None
                &&& steps <= cfg.max_retries
                &&& all_valid(final(memo).cache@, pieces@)
                &&& true_pieces_made(
                    *board,
                    *cfg,
                    old(memo).edge_meta@,
                    *rate,
                    final(memo).cache@,
                    pieces@,
                    solution@,
                    used@,
                    steps,
                )
                &&& forall|i: int| 0 <= i < used.len() ==> #[trigger] used@[i] > 0
                &&& true_pieces_drawn(
                    *old(rng),
                    *final(rng),
                    *board,
                    *cfg,
                    old(memo).edge_meta@,
                    *rate,
                    final(memo).cache@,
                    pieces@,
                    solution@,
                    used@,
                    steps,
                )
            },
            Err(e) => if list_fault(*cfg, board.cells@.len() as int) is Some {
                list_fault(*cfg, board.cells@.len() as int) == Some(e)
            } else {
                &&& e is NoMoves || e is StillInvalid
                &&& !never_refuses(old(memo).cache@, *build)
                &&& exists|rows: Seq<[i32; 6]>| #[trigger]
                    made_by_rules(
                        *board,
                        *cfg,
                        old(memo).edge_meta@,
                        *rate,
                        final(memo).cache@,
                        rows,
                        Err::<usize, GeneratorError>(e),
                    )
            },
        },
{
    let lists: IdLists = match plan_lists(cfg, &memo.edge_meta, board.cell_count()) {
        Ok(lists) => lists,
        Err(e) => {
            return Err(e);
        },
    };
    let ghost meta = memo.edge_meta@;
    let (rows, steps) = match make_rows(board, cfg, &lists, rng, memo, build, rate) {
        Ok(made) => made,
        Err(e) => {
            return Err(e);
        },
    };
    let ghost mid = *rng;
    let used: Vec<i32> = collect_used(&rows);
    let (pieces, solution) = turn_pieces(&board.cells, &rows, cfg.back_id, rng, memo);
    assert(made_from(*board, *cfg, meta, *rate, memo.cache@, pieces@, solution@, used@, steps, rows@));
    assert(rows_made_drawn(*old(rng), mid, *board, *cfg, meta, *rate, memo.cache@, rows@, steps));
    Ok((pieces, solution, used, steps))
}

/// Whether the true pieces, their solution and their ids come of the rules,
/// with that many steps of repair.
pub open spec fn true_pieces_made<G, P: Fn(i64, &Profile, &Profile) -> u64>(
    board: Board,
    cfg: GeneratorConfig,
    meta: Seq<EdgeMeta>,
    rate: P,
    memo: Map<Seq<i32>, Option<G>>,
    pieces: Seq<Piece>,
    solution: Seq<SolutionEntry>,
    used: Seq<i32>,
    taken: usize,
) -> bool {
    exists|rows: Seq<[i32; 6]>| #[trigger]
        made_from(board, cfg, meta, rate, memo, pieces, solution, used, taken, rows)
}

pub open spec fn made_from<G, P: Fn(i64, &Profile, &Profile) -> u64>(
    board: Board,
    cfg: GeneratorConfig,
    meta: Seq<EdgeMeta>,
    rate: P,
    memo: Map<Seq<i32>, Option<G>>,
    pieces: Seq<Piece>,
    solution: Seq<SolutionEntry>,
    used: Seq<i32>,
    taken: usize,
    rows: Seq<[i32; 6]>,
) -> bool {
    &&& made_by_rules(board, cfg, meta, rate, memo, rows, Ok::<usize, GeneratorError>(taken))
    &&& pieces_of(board.cells@, rows, pieces, solution, cfg.back_id)
    &&& ids_used(rows, used)
}

/// The ids from 1 to `total` that are not in `used`, in order.
pub open spec fn unused_below(used: Seq<i32>, total: int) -> Seq<i32>
    decreases total,
{
    if total <= 0 {
        Seq::empty()
    } else if used.contains(total as i32) {
        unused_below(used, total - 1)
    } else {
        unused_below(used, total - 1).push(total as i32)
    }
}

fn list_unused(used: &Vec<i32>, total: i32) -> (ids: Vec<i32>)
    requires
        0 <= total < i32::MAX,
    ensures
        ids@ == unused_below(used@, total as int),
        forall|i: int| 0 <= i < ids.len() ==> #[trigger] ids@[i] > 0,
{
    let mut ids: Vec<i32> = Vec::new();
    let mut id: i32 = 1;
    while id <= total
        invariant
            1 <= id <= total + 1,
            total < i32::MAX,
            ids@ == unused_below(used@, id - 1),
            forall|i: int| 0 <= i < ids.len() ==> #[trigger] ids@[i] > 0,
        decreases total + 1 - id,
    {
        if !holds_id(used, id) {
            ids.push(id);
        }
        id = id + 1;
    }
    ids
}

/// Whether the pieces of a puzzle come of the rules: the true pieces, and
/// behind them the false ones.
pub open spec fn puzzle_made<G, P: Fn(i64, &Profile, &Profile) -> u64>(
    board: Board,
    cfg: GeneratorConfig,
    meta: Seq<EdgeMeta>,
    rate: P,
    memo: Map<Seq<i32>, Option<G>>,
    puzzle: GeneratedPuzzle,
) -> bool {
    exists|true_pieces: Seq<Piece>, false_pieces: Seq<Piece>, used: Seq<i32>| #[trigger]
        puzzle_from(board, cfg, meta, rate, memo, puzzle, true_pieces, false_pieces, used)
}

pub open spec fn puzzle_from<G, P: Fn(i64, &Profile, &Profile) -> u64>(
    board: Board,
    cfg: GeneratorConfig,
    meta: Seq<EdgeMeta>,
    rate: P,
    memo: Map<Seq<i32>, Option<G>>,
    puzzle: GeneratedPuzzle,
    true_pieces: Seq<Piece>,
    false_pieces: Seq<Piece>,
    used: Seq<i32>,
) -> bool {
    let sizes = sizes_of(cfg.false_clusters@, cfg.false_clusters@.len() as int);
    &&& puzzle.pieces@ == true_pieces + false_pieces
    &&& true_pieces_made(board, cfg, meta, rate, memo, true_pieces, puzzle.solution@, used, puzzle.retries)
    &&& exists|core: Seq<i32>| #[trigger]
        is_core(core, meta, cfg.total_alphabet as int, cfg.core_alphabet as int) && false_pieces_of(
            false_pieces,
            sizes,
            sizes.len() as int,
            board.cells@.len() as int,
            ClusterPlan {
                core,
                attach: used,
                unused: unused_below(used, cfg.total_alphabet as int),
                flat_cut: cfg.flat_cut,
                attach_cut: cfg.attach_cut,
            },
            cfg.back_id,
        )
}

/// Whether a puzzle is made with what a generator made from its seed gives:
/// the true pieces first, and then the false ones.
pub open spec fn puzzle_drawn<G, P: Fn(i64, &Profile, &Profile) -> u64>(
    board: Board,
    cfg: GeneratorConfig,
    meta: Seq<EdgeMeta>,
    rate: P,
    memo: Map<Seq<i32>, Option<G>>,
    puzzle: GeneratedPuzzle,
) -> bool {
    exists|states: Seq<StdRng>, true_pieces: Seq<Piece>, false_pieces: Seq<Piece>, used: Seq<i32>, core: Seq<i32>| #[trigger]
        puzzle_given(states, board, cfg, meta, rate, memo, puzzle, true_pieces, false_pieces, used, core)
}

/// The same, as the generator goes through `states`.
pub open spec fn puzzle_given<G, P: Fn(i64, &Profile, &Profile) -> u64>(
    states: Seq<StdRng>,
    board: Board,
    cfg: GeneratorConfig,
    meta: Seq<EdgeMeta>,
    rate: P,
    memo: Map<Seq<i32>, Option<G>>,
    puzzle: GeneratedPuzzle,
    true_pieces: Seq<Piece>,
    false_pieces: Seq<Piece>,
    used: Seq<i32>,
    core: Seq<i32>,
) -> bool {
    let sizes = sizes_of(cfg.false_clusters@, cfg.false_clusters@.len() as int);
    &&& states.len() == 3
    &&& seeded_from(puzzle.seed, states[0])
    &&& puzzle.pieces@ == true_pieces + false_pieces
    &&& true_pieces_drawn(
        states[0],
        states[1],
        board,
        cfg,
        meta,
        rate,
        memo,
        true_pieces,
        puzzle.solution@,
        used,
        puzzle.retries,
    )
    &&& is_core(core, meta, cfg.total_alphabet as int, cfg.core_alphabet as int)
    &&& clusters_drawn(
        states[1],
        states[2],
        ClusterPlan {
            core,
            attach: used,
            unused: unused_below(used, cfg.total_alphabet as int),
            flat_cut: cfg.flat_cut,
            attach_cut: cfg.attach_cut,
        },
        sizes,
        false_pieces,
        sizes.len() as int,
        cfg.max_retries as int,
        cfg.back_id,
    )
}

/// How the false clusters of a puzzle came to nothing: the true pieces that
/// were made, with their solution, their ids and the steps of repair, what
/// the clusters were to be made of, the cluster that was given up, and the
/// tries at it.
pub struct Failure {
    pub pieces: Seq<Piece>,
    pub solution: Seq<SolutionEntry>,
    pub used: Seq<i32>,
    pub taken: usize,
    pub core: Seq<i32>,
    pub cluster: int,
    pub tries: Seq<(Seq<Axial>, Seq<[i32; 6]>)>,
}

/// Whether the true pieces were made by the rules, and a false cluster to go
/// with them was given up.
pub open spec fn clusters_gave_up<G, P: Fn(i64, &Profile, &Profile) -> u64>(
    board: Board,
    cfg: GeneratorConfig,
    meta: Seq<EdgeMeta>,
    rate: P,
    memo: Map<Seq<i32>, Option<G>>,
    failure: Failure,
) -> bool {
    &&& true_pieces_made(
        board,
        cfg,
        meta,
        rate,
        memo,
        failure.pieces,
        failure.solution,
        failure.used,
        failure.taken,
    )
    &&& is_core(failure.core, meta, cfg.total_alphabet as int, cfg.core_alphabet as int)
    &&& gave_up(
        memo,
        sizes_of(cfg.false_clusters@, cfg.false_clusters@.len() as int),
        ClusterPlan {
            core: failure.core,
            attach: failure.used,
            unused: unused_below(failure.used, cfg.total_alphabet as int),
            flat_cut: cfg.flat_cut,
            attach_cut: cfg.attach_cut,
        },
        cfg.max_retries as int,
        failure.cluster,
        failure.tries,
    )
}

/// True pieces stay made by the rules as the memo grows.
proof fn lemma_true_pieces_kept<G, P: Fn(i64, &Profile, &Profile) -> u64, B: Fn(&[i32; 6]) -> Option<G>>(
    board: Board,
    cfg: GeneratorConfig,
    meta: Seq<EdgeMeta>,
    rate: P,
    build: B,
    before: Map<Seq<i32>, Option<G>>,
    after: Map<Seq<i32>, Option<G>>,
    pieces: Seq<Piece>,
    solution: Seq<SolutionEntry>,
    used: Seq<i32>,
    taken: usize,
)
    requires
        memo_grew(before, after, build),
        true_pieces_made(board, cfg, meta, rate, before, pieces, solution, used, taken),
    ensures
        true_pieces_made(board, cfg, meta, rate, after, pieces, solution, used, taken),
{
    let rows = choose|rows: Seq<[i32; 6]>| #[trigger]
        made_from(board, cfg, meta, rate, before, pieces, solution, used, taken, rows);
    lemma_made_kept(board, cfg, meta, rate, build, before, after, rows, Ok::<usize, GeneratorError>(taken));
    assert(made_from(board, cfg, meta, rate, after, pieces, solution, used, taken, rows));
}

/// A puzzle for a board. `build` makes the outline of a canonical piece, or
/// none if it has no valid one; `rate` rates two neighbouring pieces by the
/// lie of their notches, the higher the better, with a bonus to add.
pub fn generate_puzzle<G, B: Fn(&[i32; 6]) -> Option<G>, P: Fn(i64, &Profile, &Profile) -> u64>(
    board: &Board,
    cfg: &GeneratorConfig,
    memo: &mut GeomMemo<G>,
    seed: u64,
    build: B,
    rate: P,
) -> (made: Result<GeneratedPuzzle, GeneratorError>)
    requires
        board.wf(),
        old(memo).wf(),
        list_fault(*cfg, board.cells@.len() as int) is None ==> {
            &&& board.cells.len() > 0
            &&& cfg.total_alphabet < old(memo).edge_meta.len()
            &&& cfg.total_alphabet < i32::MAX
            &&& fits_clusters(cfg.false_clusters@, board.cells@.len() as int)
        },
        forall|canon: &[i32; 6]| #[trigger] build.requires((canon,)),
        forall|n: i64, pa: &Profile, pb: &Profile| #[trigger] rate.requires((n, pa, pb)),
    ensures
        final(memo).wf(),
        final(memo).edge_meta == old(memo).edge_meta,
        memo_grew(old(memo).cache@, final(memo).cache@, build),
        match made {
            Ok(puzzle) => {
                &&& list_fault(*cfg, board.cells@.len() as int) is None
                &&& puzzle.seed == seed
                &&& puzzle.retries <= cfg.max_retries
                &&& puzzle_made(*board, *cfg, old(memo).edge_meta@, rate, final(memo).cache@, puzzle)
                &&& puzzle_drawn(*board, *cfg, old(memo).edge_meta@, rate, final(memo).cache@, puzzle)
                &&& all_valid(final(memo).cache@, puzzle.pieces@)
            },
            Err(e) => if list_fault(*cfg, board.cells@.len() as int) is Some {
                list_fault(*cfg, board.cells@.len() as int) == Some(e)
            } else {
                let sizes = sizes_of(cfg.false_clusters@, cfg.false_clusters@.len() as int);
                match e {
                    GeneratorError::NoMoves | GeneratorError::StillInvalid(_) => {
                        &&& !never_refuses(old(memo).cache@, build)
                        &&& exists|rows: Seq<[i32; 6]>| #[trigger]
                            made_by_rules(
                                *board,
                                *cfg,
                                old(memo).edge_meta@,
                                rate,
                                final(memo).cache@,
                                rows,
                                Err::<usize, GeneratorError>(e),
                            )
                    },
                    GeneratorError::NoCluster => {
                        &&& sizes.len() > 0
                        &&& cfg.max_retries == 0 || !never_refuses(old(memo).cache@, build)
                        &&& exists|failure: Failure| #[trigger]
                            clusters_gave_up(*board, *cfg, old(memo).edge_meta@, rate, final(memo).cache@, failure)
                    },
                    _ => false,
                }
            },
        },
{
    let ghost meta = memo.edge_meta@;
    let ghost start = memo.cache@;
    let mut rng: StdRng = generator(seed);
    let ghost source = rng;
    let (mut pieces, solution, used, retries) = match assign_true_pieces(board, cfg, &mut rng, memo, &build, &rate) {
        Ok(assigned) => assigned,
        Err(e) => {
            return Err(e);
        },
    };
    let ghost true_pieces = pieces@;
    let ghost between = rng;
    let ghost middle = memo.cache@;
    let core: Vec<i32> = match core_id_pool(cfg, &memo.edge_meta) {
        Some(core) => core,
        None => {
            return Err(GeneratorError::CoreTooSmall);
        },
    };
    proof {
        lemma_core_positive(core@, meta, cfg.total_alphabet as int, cfg.core_alphabet as int);
    }
    let unused: Vec<i32> = list_unused(&used, cfg.total_alphabet);
    let start_id: usize = pieces.len();
    match generate_decoy_clusters(cfg, &mut rng, memo, &build, &core, &used, &unused, start_id) {
        Ok(decoys) => {
            let ghost false_pieces = decoys@;
            let mut decoys: Vec<Piece> = decoys;
            pieces.append(&mut decoys);
            let puzzle: GeneratedPuzzle = GeneratedPuzzle { pieces, solution, seed, retries };
            proof {
                lemma_memo_grew(start, middle, memo.cache@, build);
                lemma_all_valid_kept(middle, memo.cache@, build, true_pieces);
                assert(puzzle.pieces@ =~= true_pieces + false_pieces);
                assert forall|i: int| 0 <= i < puzzle.pieces@.len() implies valid_in(
                    memo.cache@,
                    (#[trigger] puzzle.pieces@[i]).edges@,
                ) by {
                    if i < true_pieces.len() {
                        assert(puzzle.pieces@[i] == true_pieces[i]);
                    } else {
                        assert(puzzle.pieces@[i] == false_pieces[i - true_pieces.len()]);
                    }
                }
                assert(is_core(core@, meta, cfg.total_alphabet as int, cfg.core_alphabet as int));
                lemma_true_pieces_kept(
                    *board,
                    *cfg,
                    meta,
                    rate,
                    build,
                    middle,
                    memo.cache@,
                    true_pieces,
                    puzzle.solution@,
                    used@,
                    retries,
                );
                lemma_pieces_drawn_kept(
                    source,
                    between,
                    *board,
                    *cfg,
                    meta,
                    rate,
                    build,
                    middle,
                    memo.cache@,
                    true_pieces,
                    puzzle.solution@,
                    used@,
                    retries,
                );
                assert(puzzle_given(
                    seq![source, between, rng],
                    *board,
                    *cfg,
                    meta,
                    rate,
                    memo.cache@,
                    puzzle,
                    true_pieces,
                    false_pieces,
                    used@,
                    core@,
                ));
                assert(puzzle_from(
                    *board,
                    *cfg,
                    meta,
                    rate,
                    memo.cache@,
                    puzzle,
                    true_pieces,
                    false_pieces,
                    used@,
                ));
            }
            Ok(puzzle)
        },
        Err(e) => {
            proof {
                lemma_memo_grew(start, middle, memo.cache@, build);
                if never_refuses(start, build) {
                    lemma_never_refuses(start, middle, build);
                }
                lemma_true_pieces_kept(
                    *board,
                    *cfg,
                    meta,
                    rate,
                    build,
                    middle,
                    memo.cache@,
                    true_pieces,
                    solution@,
                    used@,
                    retries,
                );
                let sizes = sizes_of(cfg.false_clusters@, cfg.false_clusters@.len() as int);
                let plan = ClusterPlan {
                    core: core@,
                    attach: used@,
                    unused: unused@,
                    flat_cut: cfg.flat_cut,
                    attach_cut: cfg.attach_cut,
                };
                let (cluster, tries) = choose|k: int, tries: Seq<(Seq<Axial>, Seq<[i32; 6]>)>| #[trigger]
                    gave_up(memo.cache@, sizes, plan, cfg.max_retries as int, k, tries);
                let failure = Failure {
                    pieces: true_pieces,
                    solution: solution@,
                    used: used@,
                    taken: retries,
                    core: core@,
                    cluster,
                    tries,
                };
                assert(clusters_gave_up(*board, *cfg, meta, rate, memo.cache@, failure));
            }
            Err(e)
        },
    }
}

proof fn lemma_core_positive(core: Seq<i32>, meta: Seq<EdgeMeta>, total: int, size: int)
    requires
        is_core(core, meta, total, size),
        1 <= size <= total,
    ensures
        core.len() == size,
        forall|i: int| 0 <= i < core.len() ==> #[trigger] core[i] > 0,
{
    let sorted = choose|sorted: Seq<i32>| #[trigger] lowest_first(sorted, meta, total) && core == sorted.take(size);
    assert forall|i: int| 0 <= i < core.len() implies #[trigger] core[i] > 0 by {
        assert(core[i] == sorted[i]);
    }
}

/// The placements that a solution tells of.
pub open spec fn solution_placements(solution: Seq<SolutionEntry>) -> Seq<usize> {
    Seq::new(solution.len(), |c: int| (6 * solution[c].piece_id + solution[c].rot) as usize)
}

/// The solution of a generated puzzle solves its board.
pub proof fn law_generated_solution<G, P: Fn(i64, &Profile, &Profile) -> u64>(
    board: Board,
    cfg: GeneratorConfig,
    meta: Seq<EdgeMeta>,
    rate: P,
    memo: Map<Seq<i32>, Option<G>>,
    puzzle: GeneratedPuzzle,
)
    requires
        board.wf(),
        placement_count(puzzle.pieces@) <= usize::MAX,
        puzzle_made(board, cfg, meta, rate, memo, puzzle),
    ensures
        is_solution(board, puzzle.pieces@, solution_placements(puzzle.solution@)),
{
    let (true_pieces, false_pieces, used) = choose|true_pieces: Seq<Piece>, false_pieces: Seq<Piece>, used: Seq<i32>| #[trigger]
        puzzle_from(board, cfg, meta, rate, memo, puzzle, true_pieces, false_pieces, used);
    let rows = choose|rows: Seq<[i32; 6]>| #[trigger]
        made_from(board, cfg, meta, rate, memo, true_pieces, puzzle.solution@, used, puzzle.retries, rows);
    let making = choose|making: Making| #[trigger]
        made_with(board, cfg, meta, rate, memo, rows, Ok::<usize, GeneratorError>(puzzle.retries), making);
    let links = board.neighbors@;
    let sol = solution_placements(puzzle.solution@);
    let pieces = puzzle.pieces@;
    assert(cancels(links, rows));
    assert forall|c: int| 0 <= c < sol.len() implies (#[trigger] sol[c]) < placement_count(pieces) && sol[c] / 6 == c
        && (forall|dir: int| 0 <= dir < 6 ==> #[trigger] placement_edge(pieces, sol[c] as int, dir) == rows[c]@[dir]) by {
        let entry = puzzle.solution@[c];
        assert(is_placed(true_pieces[c], entry, board.cells@[c], rows[c]@, c, cfg.back_id));
        let rot = choose|rot: int| #[trigger]
            placed_as(true_pieces[c], entry, board.cells@[c], rows[c]@, c, cfg.back_id, rot);
        assert(pieces[c] == true_pieces[c]);
        assert(sol[c] == 6 * c + entry.rot);
        assert(sol[c] as int / 6 == c && sol[c] as int % 6 == entry.rot);
        law_rotation_undone(rows[c]@, rot);
    }
    assert forall|c: int, dir: int| 0 <= c < sol.len() && 0 <= dir < 6 implies match #[trigger] links[c]@[dir] {
        Some(nb) => placement_edge(pieces, sol[c] as int, dir) + placement_edge(
            pieces,
            sol[nb as int] as int,
            opposite(dir),
        ) == 0,
        None => placement_edge(pieces, sol[c] as int, dir) == 0,
    } by {
        assert(sol[c] / 6 == c);
        assert(placement_edge(pieces, sol[c] as int, dir) == rows[c]@[dir]);
        if let Some(nb) = links[c]@[dir] {
            let e = (c as usize, nb, dir as usize);
            assert(joins(links, e));
            assert(shows(rows, e, rows[c]@[dir] as int));
            assert(sol[nb as int] / 6 == nb);
            assert(placement_edge(pieces, sol[nb as int] as int, opposite(dir)) == rows[nb as int]@[opposite(dir)]);
        }
    }
    assert forall|c: int, e: int| 0 <= c < sol.len() && 0 <= e < sol.len() && c != e implies (#[trigger] sol[c]) / 6
        != (#[trigger] sol[e]) / 6 by {
    }
}

/// A search for the solutions of a generated puzzle that is not cut short
/// finds one.
pub proof fn law_generated_found<G, P: Fn(i64, &Profile, &Profile) -> u64>(
    board: Board,
    cfg: GeneratorConfig,
    meta: Seq<EdgeMeta>,
    rate: P,
    memo: Map<Seq<i32>, Option<G>>,
    puzzle: GeneratedPuzzle,
    max_nodes: u64,
)
    requires
        board.wf(),
        placement_count(puzzle.pieces@) <= usize::MAX,
        puzzle_made(board, cfg, meta, rate, memo, puzzle),
    ensures
        ({
            let (tally, aborted) = uniqueness_outcome(board, puzzle.pieces@, max_nodes);
            !aborted ==> tally.solutions >= 1
        }),
{
    law_generated_solution(board, cfg, meta, rate, memo, puzzle);
    law_uniqueness(board, puzzle.pieces@, max_nodes);
}

} // verus!
