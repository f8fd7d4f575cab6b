//! What the node limit does to the placement search: a search is cut short
//! exactly where it reaches its limit, and a larger limit loses nothing.

use crate::generator::Piece;
use crate::grid::Board;
use crate::search::{
    anchored_search, blank, complete, existence_config, existence_outcome, free_cells, has_decoy, is_decoy,
    lemma_free_cells_update, no_tally, ordered, placement_count, rim_fits, search, tightest, try_from,
    uniqueness_config, uniqueness_outcome, SearchConfig, Tally, MAX_ANCHOR_ATTEMPTS,
};
use vstd::prelude::*;

verus! {

/// Whether `more` has counted at least what `less` has, and keeps its
/// witness.
pub open spec fn at_least(less: Tally, more: Tally) -> bool {
    &&& less.nodes <= more.nodes
    &&& less.solutions <= more.solutions
    &&& less.witness is Some ==> more.witness == less.witness
}

/// A search that starts within its limit is cut short if and only if it
/// reaches it, loses nothing that was counted, and is not cut short once it
/// has solutions enough.
pub(crate) proof fn lemma_search_limit(
    board: Board,
    pieces: Seq<Piece>,
    cfg: SearchConfig,
    assigned: Seq<Option<usize>>,
    tally: Tally,
)
    requires
        tally.nodes <= cfg.max_nodes,
        tally.solutions < cfg.max_solutions,
    ensures
        ({
            let (after, aborted) = search(board, pieces, cfg, assigned, tally);
            &&& after.nodes <= cfg.max_nodes
            &&& aborted <==> after.nodes == cfg.max_nodes
            &&& aborted ==> after.solutions < cfg.max_solutions
            &&& at_least(tally, after)
        }),
    decreases free_cells(assigned), 1int, 0int,
{
    if tally.nodes < cfg.max_nodes && !complete(assigned) {
        let cell = tightest(board, pieces, assigned);
        let candidates = ordered(board, pieces, assigned, cell, cfg.prefer_decoy);
        lemma_try_limit(board, pieces, cfg, assigned, cell, candidates, 0, tally);
    }
}

proof fn lemma_try_limit(
    board: Board,
    pieces: Seq<Piece>,
    cfg: SearchConfig,
    assigned: Seq<Option<usize>>,
    cell: int,
    candidates: Seq<usize>,
    i: int,
    tally: Tally,
)
    requires
        tally.nodes < cfg.max_nodes,
        tally.solutions < cfg.max_solutions,
    ensures
        ({
            let (after, aborted) = try_from(board, pieces, cfg, assigned, cell, candidates, i, tally);
            &&& after.nodes <= cfg.max_nodes
            &&& aborted <==> after.nodes == cfg.max_nodes
            &&& aborted ==> after.solutions < cfg.max_solutions
            &&& at_least(tally, after)
        }),
    decreases free_cells(assigned), 0int, candidates.len() - i,
{
    if i < 0 || i >= candidates.len() || cell < 0 || cell >= assigned.len() || assigned[cell] is Some {
    } else {
        let next = assigned.update(cell, Some(candidates[i]));
        let step = Tally { nodes: tally.nodes + 1, ..tally };
        lemma_free_cells_update(assigned, cell, candidates[i]);
        lemma_search_limit(board, pieces, cfg, next, step);
        let (after, aborted) = search(board, pieces, cfg, next, step);
        if !aborted && after.solutions < cfg.max_solutions {
            lemma_try_limit(board, pieces, cfg, assigned, cell, candidates, i + 1, after);
        }
    }
}

/// Whether the settings differ in the node limit alone, and the second one
/// is no smaller.
spec fn more_nodes(cfg: SearchConfig, wider: SearchConfig) -> bool {
    &&& cfg.max_nodes <= wider.max_nodes
    &&& wider == SearchConfig { max_nodes: wider.max_nodes, ..cfg }
}

/// Whether an outcome under a larger limit has all of the outcome under a
/// smaller one, and is the same if that was not cut short.
pub open spec fn outlasts(less: (Tally, bool), more: (Tally, bool)) -> bool {
    &&& at_least(less.0, more.0)
    &&& !less.1 ==> more == less
}

proof fn lemma_search_outlasts(
    board: Board,
    pieces: Seq<Piece>,
    cfg: SearchConfig,
    wider: SearchConfig,
    assigned: Seq<Option<usize>>,
    tally: Tally,
)
    requires
        more_nodes(cfg, wider),
        tally.nodes <= cfg.max_nodes,
        tally.solutions < cfg.max_solutions,
    ensures
        outlasts(search(board, pieces, cfg, assigned, tally), search(board, pieces, wider, assigned, tally)),
    decreases free_cells(assigned), 1int, 0int,
{
    lemma_search_limit(board, pieces, wider, assigned, tally);
    if tally.nodes < cfg.max_nodes && !complete(assigned) {
        let cell = tightest(board, pieces, assigned);
        let candidates = ordered(board, pieces, assigned, cell, cfg.prefer_decoy);
        lemma_try_outlasts(board, pieces, cfg, wider, assigned, cell, candidates, 0, tally);
    }
}

proof fn lemma_try_outlasts(
    board: Board,
    pieces: Seq<Piece>,
    cfg: SearchConfig,
    wider: SearchConfig,
    assigned: Seq<Option<usize>>,
    cell: int,
    candidates: Seq<usize>,
    i: int,
    tally: Tally,
)
    requires
        more_nodes(cfg, wider),
        tally.nodes < cfg.max_nodes,
        tally.solutions < cfg.max_solutions,
    ensures
        outlasts(
            try_from(board, pieces, cfg, assigned, cell, candidates, i, tally),
            try_from(board, pieces, wider, assigned, cell, candidates, i, tally),
        ),
    decreases free_cells(assigned), 0int, candidates.len() - i,
{
    if i < 0 || i >= candidates.len() || cell < 0 || cell >= assigned.len() || assigned[cell] is Some {
    } else {
        let next = assigned.update(cell, Some(candidates[i]));
        let step = Tally { nodes: tally.nodes + 1, ..tally };
        lemma_free_cells_update(assigned, cell, candidates[i]);
        lemma_search_limit(board, pieces, cfg, next, step);
        lemma_search_limit(board, pieces, wider, next, step);
        lemma_search_outlasts(board, pieces, cfg, wider, next, step);
        let (after, aborted) = search(board, pieces, cfg, next, step);
        let (reached, cut) = search(board, pieces, wider, next, step);
        if aborted {
            if !cut && reached.solutions < wider.max_solutions {
                lemma_try_limit(board, pieces, wider, assigned, cell, candidates, i + 1, reached);
            }
        } else if after.solutions < cfg.max_solutions {
            lemma_try_outlasts(board, pieces, cfg, wider, assigned, cell, candidates, i + 1, after);
        }
    }
}

/// The decoy search, too, is cut short if and only if it reaches its limit,
/// and then has found nothing.
pub(crate) proof fn lemma_anchored_limit(
    board: Board,
    pieces: Seq<Piece>,
    max_nodes: u64,
    pl: int,
    cell: int,
    attempts: int,
    tally: Tally,
)
    requires
        tally.nodes <= max_nodes,
        tally.solutions == 0,
    ensures
        ({
            let (after, aborted) = anchored_search(
                board,
                pieces,
                existence_config(max_nodes),
                pl,
                cell,
                attempts,
                tally,
            );
            &&& after.nodes <= max_nodes
            &&& aborted <==> after.nodes == max_nodes
            &&& aborted ==> after.solutions == 0
            &&& at_least(tally, after)
        }),
    decreases placement_count(pieces) - pl, board.cells@.len() - cell,
{
    let cfg = existence_config(max_nodes);
    if pl >= placement_count(pieces) || attempts >= MAX_ANCHOR_ATTEMPTS {
        lemma_search_limit(board, pieces, cfg, blank(board), tally);
    } else if cell >= board.cells@.len() || !is_decoy(pieces, pl) {
        lemma_anchored_limit(board, pieces, max_nodes, pl + 1, 0, attempts, tally);
    } else if !rim_fits(board, pieces, cell, pl) {
        lemma_anchored_limit(board, pieces, max_nodes, pl, cell + 1, attempts, tally);
    } else {
        let start = blank(board).update(cell, Some(pl as usize));
        lemma_search_limit(board, pieces, cfg, start, tally);
        let (after, aborted) = search(board, pieces, cfg, start, tally);
        if after.solutions <= 0 && !aborted {
            lemma_anchored_limit(board, pieces, max_nodes, pl, cell + 1, attempts + 1, after);
        }
    }
}

proof fn lemma_anchored_outlasts(
    board: Board,
    pieces: Seq<Piece>,
    fewer: u64,
    more: u64,
    pl: int,
    cell: int,
    attempts: int,
    tally: Tally,
)
    requires
        fewer <= more,
        tally.nodes <= fewer,
        tally.solutions == 0,
    ensures
        outlasts(
            anchored_search(board, pieces, existence_config(fewer), pl, cell, attempts, tally),
            anchored_search(board, pieces, existence_config(more), pl, cell, attempts, tally),
        ),
    decreases placement_count(pieces) - pl, board.cells@.len() - cell,
{
    let cfg = existence_config(fewer);
    let wider = existence_config(more);
    if pl >= placement_count(pieces) || attempts >= MAX_ANCHOR_ATTEMPTS {
        lemma_search_outlasts(board, pieces, cfg, wider, blank(board), tally);
    } else if cell >= board.cells@.len() || !is_decoy(pieces, pl) {
        lemma_anchored_outlasts(board, pieces, fewer, more, pl + 1, 0, attempts, tally);
    } else if !rim_fits(board, pieces, cell, pl) {
        lemma_anchored_outlasts(board, pieces, fewer, more, pl, cell + 1, attempts, tally);
    } else {
        let start = blank(board).update(cell, Some(pl as usize));
        lemma_search_limit(board, pieces, cfg, start, tally);
        lemma_search_limit(board, pieces, wider, start, tally);
        lemma_search_outlasts(board, pieces, cfg, wider, start, tally);
        let (after, aborted) = search(board, pieces, cfg, start, tally);
        let (reached, cut) = search(board, pieces, wider, start, tally);
        if aborted {
            if reached.solutions <= 0 && !cut {
                lemma_anchored_limit(board, pieces, more, pl, cell + 1, attempts + 1, reached);
            }
        } else if after.solutions <= 0 {
            lemma_anchored_outlasts(board, pieces, fewer, more, pl, cell + 1, attempts + 1, after);
        }
    }
}

/// With a larger node limit a uniqueness search counts no less and keeps its
/// witness, and if it was not cut short before, nothing changes.
pub proof fn law_uniqueness_outlasts(board: Board, pieces: Seq<Piece>, fewer: u64, more: u64)
    requires
        fewer <= more,
    ensures
        outlasts(uniqueness_outcome(board, pieces, fewer), uniqueness_outcome(board, pieces, more)),
{
    lemma_search_outlasts(
        board,
        pieces,
        uniqueness_config(fewer),
        uniqueness_config(more),
        blank(board),
        no_tally(),
    );
}

/// With a larger node limit a decoy search counts no less and keeps its
/// witness, and if it was not cut short before, nothing changes.
pub proof fn law_existence_outlasts(board: Board, pieces: Seq<Piece>, fewer: u64, more: u64)
    requires
        fewer <= more,
    ensures
        outlasts(existence_outcome(board, pieces, fewer), existence_outcome(board, pieces, more)),
{
    if has_decoy(pieces) {
        lemma_anchored_outlasts(board, pieces, fewer, more, 0, 0, 0, no_tally());
    }
}

} // verus!
