//! The model of the placement search: what fits where, which cell is filled
//! next, what a depth-first search counts, and what its counts mean.

use crate::ascending::select_below;
use crate::generator::Piece;
use crate::grid::{opposite, rotated, Board};
use crate::solver::WitnessEntry;
use vstd::prelude::*;

verus! {

/// The limits and preferences of a search.
#[derive(Clone, Copy, Debug)]
pub struct SearchConfig {
    pub max_nodes: u64,
    pub max_solutions: usize,
    pub prefer_decoy: bool,
    pub require_decoy: bool,
}

/// What a search has counted so far.
#[verifier::ext_equal]
pub struct Tally {
    pub nodes: int,
    pub solutions: int,
    pub witness: Option<Seq<WitnessEntry>>,
}

/// A placement number stands for a piece and a rotation: six to each piece.
pub open spec fn placement_count(pieces: Seq<Piece>) -> nat {
    6 * pieces.len()
}

/// The value that a placement shows in direction `dir`.
pub open spec fn placement_edge(pieces: Seq<Piece>, pl: int, dir: int) -> i32 {
    rotated(pieces[pl / 6].edges@, pl % 6)[dir]
}

pub open spec fn is_decoy(pieces: Seq<Piece>, pl: int) -> bool {
    !pieces[pl / 6].is_true
}

/// The value that a cell must show in direction `dir`, as far as the placed
/// neighbours and the rim say.
pub open spec fn demand(
    board: Board,
    pieces: Seq<Piece>,
    assigned: Seq<Option<usize>>,
    cell: int,
    dir: int,
) -> Option<int> {
    let link = board.neighbors@[cell]@[dir];
    if link is Some && assigned[link->0 as int] is Some {
        Some(-placement_edge(pieces, assigned[link->0 as int]->0 as int, opposite(dir)))
    } else if board.boundary@[cell]@[dir] {
        Some(0)
    } else {
        None
    }
}

/// Whether a placement shows at `cell` all that is demanded there.
pub open spec fn fits(
    board: Board,
    pieces: Seq<Piece>,
    assigned: Seq<Option<usize>>,
    cell: int,
    pl: int,
) -> bool {
    forall|dir: int|
        0 <= dir < 6 && (#[trigger] demand(board, pieces, assigned, cell, dir)) is Some ==> placement_edge(
            pieces,
            pl,
            dir,
        ) == demand(board, pieces, assigned, cell, dir)->0
}

/// Whether a piece has been placed.
pub open spec fn used(assigned: Seq<Option<usize>>, piece: int) -> bool {
    exists|c: int| 0 <= c < assigned.len() && (#[trigger] assigned[c]) is Some && assigned[c]->0 / 6 == piece
}

/// Whether some decoy has been placed.
pub open spec fn decoy_used(pieces: Seq<Piece>, assigned: Seq<Option<usize>>) -> bool {
    exists|c: int|
        0 <= c < assigned.len() && (#[trigger] assigned[c]) is Some && is_decoy(pieces, assigned[c]->0 as int)
}

/// The placements that fit at a cell, used or not, in ascending order.
pub open spec fn structural(
    board: Board,
    pieces: Seq<Piece>,
    assigned: Seq<Option<usize>>,
    cell: int,
) -> Seq<usize> {
    select_below(placement_count(pieces), |pl: int| fits(board, pieces, assigned, cell, pl))
}

/// Whether a placement fits at a cell and its piece is still free.
pub open spec fn open_at(
    board: Board,
    pieces: Seq<Piece>,
    assigned: Seq<Option<usize>>,
    cell: int,
    pl: int,
) -> bool {
    fits(board, pieces, assigned, cell, pl) && !used(assigned, pl / 6)
}

/// The placements that are open at a cell, in ascending order.
pub open spec fn open_candidates(
    board: Board,
    pieces: Seq<Piece>,
    assigned: Seq<Option<usize>>,
    cell: int,
) -> Seq<usize> {
    select_below(placement_count(pieces), |pl: int| open_at(board, pieces, assigned, cell, pl))
}

/// The open placements in the order in which they are tried.
pub open spec fn ordered(
    board: Board,
    pieces: Seq<Piece>,
    assigned: Seq<Option<usize>>,
    cell: int,
    prefer_decoy: bool,
) -> Seq<usize> {
    if prefer_decoy {
        select_below(
            placement_count(pieces),
            |pl: int| open_at(board, pieces, assigned, cell, pl) && is_decoy(pieces, pl),
        ) + select_below(
            placement_count(pieces),
            |pl: int| open_at(board, pieces, assigned, cell, pl) && !is_decoy(pieces, pl),
        )
    } else {
        open_candidates(board, pieces, assigned, cell)
    }
}

/// Whether `cell` is the first free cell with the fewest open placements.
pub open spec fn is_tightest(
    board: Board,
    pieces: Seq<Piece>,
    assigned: Seq<Option<usize>>,
    cell: int,
) -> bool {
    &&& 0 <= cell < assigned.len()
    &&& assigned[cell] is None
    &&& forall|c: int|
        0 <= c < assigned.len() && (#[trigger] assigned[c]) is None ==> open_candidates(
            board,
            pieces,
            assigned,
            cell,
        ).len() <= open_candidates(board, pieces, assigned, c).len()
    &&& forall|c: int|
        0 <= c < cell && (#[trigger] assigned[c]) is None ==> open_candidates(board, pieces, assigned, cell).len()
            < open_candidates(board, pieces, assigned, c).len()
}

/// The cell that is filled next.
pub open spec fn tightest(board: Board, pieces: Seq<Piece>, assigned: Seq<Option<usize>>) -> int {
    choose|cell: int| is_tightest(board, pieces, assigned, cell)
}

pub proof fn lemma_tightest_unique(
    board: Board,
    pieces: Seq<Piece>,
    assigned: Seq<Option<usize>>,
    cell: int,
)
    requires
        is_tightest(board, pieces, assigned, cell),
    ensures
        tightest(board, pieces, assigned) == cell,
{
    let other = tightest(board, pieces, assigned);
    assert(is_tightest(board, pieces, assigned, other));
    assert(assigned[cell] is None && assigned[other] is None);
}

/// Whether every cell is filled.
pub open spec fn complete(assigned: Seq<Option<usize>>) -> bool {
    forall|c: int| 0 <= c < assigned.len() ==> (#[trigger] assigned[c]) is Some
}

/// The number of free cells.
pub open spec fn free_cells(assigned: Seq<Option<usize>>) -> nat
    decreases assigned.len(),
{
    if assigned.len() == 0 {
        0
    } else {
        free_cells(assigned.drop_last()) + (if assigned.last() is None {
            1nat
        } else {
            0
        })
    }
}

pub proof fn lemma_free_cells_update(assigned: Seq<Option<usize>>, cell: int, pl: usize)
    requires
        0 <= cell < assigned.len(),
        assigned[cell] is None,
    ensures
        free_cells(assigned.update(cell, Some(pl))) == free_cells(assigned) - 1,
    decreases assigned.len(),
{
    let after = assigned.update(cell, Some(pl));
    if cell == assigned.len() - 1 {
        assert(after.drop_last() =~= assigned.drop_last());
    } else {
        assert(after.drop_last() =~= assigned.drop_last().update(cell, Some(pl)));
        lemma_free_cells_update(assigned.drop_last(), cell, pl);
    }
}

/// The filled board as a list of placed pieces.
pub open spec fn describe(board: Board, assigned: Seq<Option<usize>>) -> Seq<WitnessEntry> {
    Seq::new(
        assigned.len(),
        |c: int|
            WitnessEntry {
                q: board.cells@[c].q,
                r: board.cells@[c].r,
                piece_id: (assigned[c]->0 / 6) as usize,
                rot: (assigned[c]->0 % 6) as usize,
            },
    )
}

/// A depth-first search from `assigned` on: the tally after it, and whether
/// it ran into the node limit. The limit is looked at before anything else;
/// a full board counts as a solution, unless a decoy is demanded and missing;
/// otherwise the tightest cell is filled in every way.
pub open spec fn search(
    board: Board,
    pieces: Seq<Piece>,
    cfg: SearchConfig,
    assigned: Seq<Option<usize>>,
    tally: Tally,
) -> (Tally, bool)
    decreases free_cells(assigned), 1int, 0int,
{
    if tally.nodes >= cfg.max_nodes {
        (tally, true)
    } else if complete(assigned) {
        if cfg.require_decoy && !decoy_used(pieces, assigned) {
            (tally, false)
        } else {
            (counted(board, assigned, tally), false)
        }
    } else {
        let cell = tightest(board, pieces, assigned);
        let candidates = ordered(board, pieces, assigned, cell, cfg.prefer_decoy);
        try_from(board, pieces, cfg, assigned, cell, candidates, 0, tally)
    }
}

/// The tally with one more solution; the first one found is the witness.
pub open spec fn counted(board: Board, assigned: Seq<Option<usize>>, tally: Tally) -> Tally {
    Tally {
        nodes: tally.nodes,
        solutions: tally.solutions + 1,
        witness: if tally.witness is None {
            Some(describe(board, assigned))
        } else {
            tally.witness
        },
    }
}

/// The part of a search that fills `cell` with `candidates[i]` and those
/// after it in turn. Each placement is a node; the search ends early at the
/// node limit and at the solution limit.
pub open spec fn try_from(
    board: Board,
    pieces: Seq<Piece>,
    cfg: SearchConfig,
    assigned: Seq<Option<usize>>,
    cell: int,
    candidates: Seq<usize>,
    i: int,
    tally: Tally,
) -> (Tally, bool)
    decreases free_cells(assigned), 0int, candidates.len() - i,
{
    if i < 0 || i >= candidates.len() || cell < 0 || cell >= assigned.len() || assigned[cell] is Some {
        (tally, false)
    } else if tally.nodes >= cfg.max_nodes {
        (tally, true)
    } else {
        proof {
            lemma_free_cells_update(assigned, cell, candidates[i]);
        }
        let (after, aborted) = search(
            board,
            pieces,
            cfg,
            assigned.update(cell, Some(candidates[i])),
            Tally { nodes: tally.nodes + 1, ..tally },
        );
        if aborted {
            (after, true)
        } else if after.solutions >= cfg.max_solutions {
            (after, false)
        } else {
            try_from(board, pieces, cfg, assigned, cell, candidates, i + 1, after)
        }
    }
}

/// The tally before anything has been tried.
pub open spec fn no_tally() -> Tally {
    Tally { nodes: 0, solutions: 0, witness: None }
}

/// The board with nothing on it.
pub open spec fn blank(board: Board) -> Seq<Option<usize>> {
    Seq::new(board.cells@.len(), |c: int| None::<usize>)
}

/// Whether a placement shows zero wherever `cell` meets the rim.
pub open spec fn rim_fits(board: Board, pieces: Seq<Piece>, cell: int, pl: int) -> bool {
    forall|dir: int|
        0 <= dir < 6 && #[trigger] board.boundary@[cell]@[dir] ==> placement_edge(pieces, pl, dir) == 0
}

/// The number of anchors that the decoy search tries at most.
pub const MAX_ANCHOR_ATTEMPTS: usize = 200;

/// The decoy search: from placement `pl` and cell `cell` on, each decoy is
/// laid on each cell whose rim it fits, and the board is searched from there,
/// for at most `MAX_ANCHOR_ATTEMPTS` such anchors; then the blank board is
/// searched. The first search that finds something or runs into the node
/// limit is the last.
pub open spec fn anchored_search(
    board: Board,
    pieces: Seq<Piece>,
    cfg: SearchConfig,
    pl: int,
    cell: int,
    attempts: int,
    tally: Tally,
) -> (Tally, bool)
    decreases placement_count(pieces) - pl, board.cells@.len() - cell,
{
    if pl >= placement_count(pieces) || attempts >= MAX_ANCHOR_ATTEMPTS {
        search(board, pieces, cfg, blank(board), tally)
    } else if cell >= board.cells@.len() || !is_decoy(pieces, pl) {
        anchored_search(board, pieces, cfg, pl + 1, 0, attempts, tally)
    } else if !rim_fits(board, pieces, cell, pl) {
        anchored_search(board, pieces, cfg, pl, cell + 1, attempts, tally)
    } else {
        let (after, aborted) = search(
            board,
            pieces,
            cfg,
            blank(board).update(cell, Some(pl as usize)),
            tally,
        );
        if after.solutions > 0 || aborted {
            (after, aborted)
        } else {
            anchored_search(board, pieces, cfg, pl, cell + 1, attempts + 1, after)
        }
    }
}

/// The settings of the uniqueness search: two solutions are enough.
pub open spec fn uniqueness_config(max_nodes: u64) -> SearchConfig {
    SearchConfig { max_nodes, max_solutions: 2, prefer_decoy: false, require_decoy: false }
}

/// The settings of the decoy search: one solution with a decoy is enough.
pub open spec fn existence_config(max_nodes: u64) -> SearchConfig {
    SearchConfig { max_nodes, max_solutions: 1, prefer_decoy: true, require_decoy: true }
}

/// Whether some piece is a decoy.
pub open spec fn has_decoy(pieces: Seq<Piece>) -> bool {
    exists|p: int| 0 <= p < pieces.len() && !(#[trigger] pieces[p]).is_true
}

/// What the uniqueness search of a board comes to.
pub open spec fn uniqueness_outcome(board: Board, pieces: Seq<Piece>, max_nodes: u64) -> (Tally, bool) {
    search(board, pieces, uniqueness_config(max_nodes), blank(board), no_tally())
}

/// What the decoy search of a board comes to.
pub open spec fn existence_outcome(board: Board, pieces: Seq<Piece>, max_nodes: u64) -> (Tally, bool) {
    if has_decoy(pieces) {
        anchored_search(board, pieces, existence_config(max_nodes), 0, 0, 0, no_tally())
    } else {
        (no_tally(), false)
    }
}

} // verus!
