//! What the counts of the placement search mean: every solution counted is
//! one, none is counted twice, and a search that was not cut short has
//! counted them all.

use crate::generator::Piece;
use crate::grid::{leads_back, opposite, Board};
use crate::node_limits::{lemma_anchored_limit, lemma_search_limit};
use crate::search::{
    anchored_search, blank, complete, decoy_used, demand, describe, existence_config, existence_outcome, free_cells,
    has_decoy, is_decoy, is_tightest, lemma_free_cells_update, no_tally, open_at, open_candidates, ordered,
    placement_count, placement_edge, rim_fits, search, tightest, try_from, uniqueness_config, uniqueness_outcome,
    used, SearchConfig, Tally, MAX_ANCHOR_ATTEMPTS,
};
use crate::solver::{lemma_ordered_open, pieces_distinct};
use vstd::prelude::*;

verus! {

/// Whether laying placement `sol[c]` on each cell `c` solves the board: no
/// piece lies twice, facing values cancel, and the rim is zero.
pub open spec fn is_solution(board: Board, pieces: Seq<Piece>, sol: Seq<usize>) -> bool {
    &&& sol.len() == board.cells@.len()
    &&& forall|c: int| 0 <= c < sol.len() ==> (#[trigger] sol[c]) < placement_count(pieces)
    &&& forall|c: int, e: int|
        0 <= c < sol.len() && 0 <= e < sol.len() && c != e ==> (#[trigger] sol[c]) / 6 != (#[trigger] sol[e]) / 6
    &&& forall|c: int, dir: int|
        0 <= c < sol.len() && 0 <= dir < 6 ==> match #[trigger] board.neighbors@[c]@[dir] {
            Some(nb) => placement_edge(pieces, sol[c] as int, dir) + placement_edge(
                pieces,
                sol[nb as int] as int,
                opposite(dir),
            ) == 0,
            None => placement_edge(pieces, sol[c] as int, dir) == 0,
        }
}

/// Whether a solution uses a decoy.
pub open spec fn uses_decoy(pieces: Seq<Piece>, sol: Seq<usize>) -> bool {
    exists|c: int| 0 <= c < sol.len() && is_decoy(pieces, #[trigger] sol[c] as int)
}

/// A solution as a filled board.
pub open spec fn filled(sol: Seq<usize>) -> Seq<Option<usize>> {
    Seq::new(sol.len(), |c: int| Some(sol[c]))
}

/// Whether what lies on the board so far is free of contradictions.
pub open spec fn consistent(board: Board, pieces: Seq<Piece>, assigned: Seq<Option<usize>>) -> bool {
    &&& assigned.len() == board.cells@.len()
    &&& forall|c: int|
        0 <= c < assigned.len() && (#[trigger] assigned[c]) is Some ==> assigned[c]->0 < placement_count(pieces)
    &&& pieces_distinct(assigned)
    &&& forall|c: int, dir: int|
        0 <= c < assigned.len() && 0 <= dir < 6 && assigned[c] is Some ==> match #[trigger] board.neighbors@[c]@[dir] {
            Some(nb) => assigned[nb as int] is Some ==> placement_edge(pieces, assigned[c]->0 as int, dir)
                + placement_edge(pieces, assigned[nb as int]->0 as int, opposite(dir)) == 0,
            None => placement_edge(pieces, assigned[c]->0 as int, dir) == 0,
        }
}

/// Whether a solution agrees with what lies on the board so far.
pub open spec fn extends(assigned: Seq<Option<usize>>, sol: Seq<usize>) -> bool {
    forall|c: int|
        0 <= c < assigned.len() && (#[trigger] assigned[c]) is Some ==> assigned[c] == Some(sol[c])
}

/// Whether `sol` is one of the solutions that a search from `assigned` is
/// after.
pub open spec fn wanted(
    board: Board,
    pieces: Seq<Piece>,
    cfg: SearchConfig,
    assigned: Seq<Option<usize>>,
    sol: Seq<usize>,
) -> bool {
    &&& is_solution(board, pieces, sol)
    &&& extends(assigned, sol)
    &&& cfg.require_decoy ==> uses_decoy(pieces, sol)
}

/// Whether `found` accounts for the step from `before` to `after`: as many
/// solutions as were counted, all different, and the first of them is the
/// witness if there was none.
pub open spec fn accounts(board: Board, found: Seq<Seq<usize>>, before: Tally, after: Tally) -> bool {
    &&& after.solutions == before.solutions + found.len()
    &&& found.no_duplicates()
    &&& after.witness == (if before.witness is Some || found.len() == 0 {
        before.witness
    } else {
        Some(describe(board, filled(found[0])))
    })
}

/// Filling a cell with an open placement keeps the board consistent.
proof fn lemma_consistent_step(board: Board, pieces: Seq<Piece>, assigned: Seq<Option<usize>>, cell: int, pl: usize)
    requires
        board.wf(),
        consistent(board, pieces, assigned),
        0 <= cell < assigned.len(),
        assigned[cell] is None,
        pl < placement_count(pieces),
        open_at(board, pieces, assigned, cell, pl as int),
    ensures
        consistent(board, pieces, assigned.update(cell, Some(pl))),
{
    let after = assigned.update(cell, Some(pl));
    lemma_distinct_step(assigned, cell, pl);
    assert forall|c: int, dir: int|
        0 <= c < after.len() && 0 <= dir < 6 && after[c] is Some implies match #[trigger] board.neighbors@[c]@[dir] {
        Some(nb) => after[nb as int] is Some ==> placement_edge(pieces, after[c]->0 as int, dir) + placement_edge(
            pieces,
            after[nb as int]->0 as int,
            opposite(dir),
        ) == 0,
        None => placement_edge(pieces, after[c]->0 as int, dir) == 0,
    } by {
        lemma_consistent_step_at(board, pieces, assigned, cell, pl, c, dir);
    }
}

proof fn lemma_distinct_step(assigned: Seq<Option<usize>>, cell: int, pl: usize)
    requires
        pieces_distinct(assigned),
        0 <= cell < assigned.len(),
        !used(assigned, pl as int / 6),
    ensures
        pieces_distinct(assigned.update(cell, Some(pl))),
{
    let after = assigned.update(cell, Some(pl));
    assert forall|c: int, e: int|
        0 <= c < after.len() && 0 <= e < after.len() && c != e && (#[trigger] after[c]) is Some && (
        #[trigger] after[e]) is Some implies after[c]->0 / 6 != after[e]->0 / 6 by {
        if c == cell {
            assert(assigned[e] == after[e]);
        } else if e == cell {
            assert(assigned[c] == after[c]);
        } else {
            assert(assigned[c] == after[c] && assigned[e] == after[e]);
        }
    }
}

proof fn lemma_consistent_step_at(
    board: Board,
    pieces: Seq<Piece>,
    assigned: Seq<Option<usize>>,
    cell: int,
    pl: usize,
    c: int,
    dir: int,
)
    requires
        board.wf(),
        consistent(board, pieces, assigned),
        0 <= cell < assigned.len(),
        assigned[cell] is None,
        open_at(board, pieces, assigned, cell, pl as int),
        0 <= c < assigned.len(),
        0 <= dir < 6,
        assigned.update(cell, Some(pl))[c] is Some,
    ensures
        ({
            let after = assigned.update(cell, Some(pl));
            match board.neighbors@[c]@[dir] {
                Some(nb) => after[nb as int] is Some ==> placement_edge(pieces, after[c]->0 as int, dir)
                    + placement_edge(pieces, after[nb as int]->0 as int, opposite(dir)) == 0,
                None => placement_edge(pieces, after[c]->0 as int, dir) == 0,
            }
        }),
{
    let link = board.neighbors@[c]@[dir];
    assert(board.boundary@[c]@[dir] == (link is None));
    assert(link is Some ==> link->0 < board.neighbors@.len());
    assert(leads_back(board.neighbors@, c, dir));
    if c == cell {
        lemma_placed_edge(board, pieces, assigned, cell, pl, dir);
    } else if link is Some && link->0 == cell {
        let back = opposite(dir);
        assert(opposite(back) == dir);
        assert(board.neighbors@[cell]@[back] == Some(c as usize));
        lemma_placed_edge(board, pieces, assigned, cell, pl, back);
    }
}

/// A placement that is open at a cell cancels what faces it there.
proof fn lemma_placed_edge(
    board: Board,
    pieces: Seq<Piece>,
    assigned: Seq<Option<usize>>,
    cell: int,
    pl: usize,
    dir: int,
)
    requires
        0 <= dir < 6,
        open_at(board, pieces, assigned, cell, pl as int),
        board.neighbors@[cell]@[dir] is None ==> board.boundary@[cell]@[dir],
    ensures
        match board.neighbors@[cell]@[dir] {
            Some(nb) => assigned[nb as int] is Some ==> placement_edge(pieces, pl as int, dir) + placement_edge(
                pieces,
                assigned[nb as int]->0 as int,
                opposite(dir),
            ) == 0,
            None => placement_edge(pieces, pl as int, dir) == 0,
        },
{
    assert(demand(board, pieces, assigned, cell, dir) is Some || demand(board, pieces, assigned, cell, dir) is None);
}

/// What a solution lays on a free cell is open there.
proof fn lemma_solution_open(
    board: Board,
    pieces: Seq<Piece>,
    assigned: Seq<Option<usize>>,
    cell: int,
    sol: Seq<usize>,
)
    requires
        board.wf(),
        assigned.len() == board.cells@.len(),
        is_solution(board, pieces, sol),
        extends(assigned, sol),
        0 <= cell < assigned.len(),
        assigned[cell] is None,
    ensures
        open_at(board, pieces, assigned, cell, sol[cell] as int),
        extends(assigned.update(cell, Some(sol[cell])), sol),
{
    let pl = sol[cell] as int;
    assert forall|dir: int|
        0 <= dir < 6 && (#[trigger] demand(board, pieces, assigned, cell, dir)) is Some implies placement_edge(
        pieces,
        pl,
        dir,
    ) == demand(board, pieces, assigned, cell, dir)->0 by {
        let link = board.neighbors@[cell]@[dir];
        if link is Some {
            let nb = link->0 as int;
            if assigned[nb] is Some {
                assert(assigned[nb] == Some(sol[nb]));
            } else {
                assert(board.boundary@[cell]@[dir]);
            }
        }
    }
    if used(assigned, pl / 6) {
        let c = choose|c: int|
            0 <= c < assigned.len() && (#[trigger] assigned[c]) is Some && assigned[c]->0 / 6 == pl / 6;
        assert(assigned[c] == Some(sol[c]));
        assert(sol[c] / 6 != sol[cell] / 6);
    }
}

/// Every search accounts for what it counted.
pub proof fn lemma_search_accounts(
    board: Board,
    pieces: Seq<Piece>,
    cfg: SearchConfig,
    assigned: Seq<Option<usize>>,
    tally: Tally,
) -> (found: Seq<Seq<usize>>)
    requires
        board.wf(),
        placement_count(pieces) <= usize::MAX,
        consistent(board, pieces, assigned),
        tally.solutions < cfg.max_solutions,
    ensures
        accounts(board, found, tally, search(board, pieces, cfg, assigned, tally).0),
        forall|k: int| 0 <= k < found.len() ==> wanted(board, pieces, cfg, assigned, #[trigger] found[k]),
        search(board, pieces, cfg, assigned, tally).0.solutions <= cfg.max_solutions,
        !search(board, pieces, cfg, assigned, tally).1 && search(board, pieces, cfg, assigned, tally).0.solutions
            < cfg.max_solutions ==> forall|sol: Seq<usize>| #[trigger]
            wanted(board, pieces, cfg, assigned, sol) ==> found.contains(sol),
        tally.nodes <= search(board, pieces, cfg, assigned, tally).0.nodes,
        tally.nodes <= cfg.max_nodes ==> search(board, pieces, cfg, assigned, tally).0.nodes <= cfg.max_nodes,
        search(board, pieces, cfg, assigned, tally).1 ==> search(board, pieces, cfg, assigned, tally).0.nodes
            >= cfg.max_nodes,
    decreases free_cells(assigned), 1int, 0int,
{
    if tally.nodes >= cfg.max_nodes {
        Seq::empty()
    } else if complete(assigned) {
        let sol = Seq::new(assigned.len(), |c: int| assigned[c]->0);
        lemma_complete_solution(board, pieces, assigned, sol);
        if cfg.require_decoy && !decoy_used(pieces, assigned) {
            assert forall|other: Seq<usize>| #[trigger]
                wanted(board, pieces, cfg, assigned, other) implies false by {
                assert(other =~= sol) by {
                    assert forall|c: int| 0 <= c < sol.len() implies other[c] == sol[c] by {
                        assert(assigned[c] is Some);
                    }
                }
            }
            Seq::empty()
        } else {
            let found = seq![sol];
            assert(filled(found[0]) =~= assigned);
            assert forall|other: Seq<usize>| #[trigger]
                wanted(board, pieces, cfg, assigned, other) implies found.contains(other) by {
                assert(other =~= sol) by {
                    assert forall|c: int| 0 <= c < sol.len() implies other[c] == sol[c] by {
                        assert(assigned[c] is Some);
                    }
                }
                assert(found[0] == other);
            }
            found
        }
    } else {
        lemma_tightest_exists(board, pieces, assigned);
        let cell = tightest(board, pieces, assigned);
        assert(is_tightest(board, pieces, assigned, cell));
        let candidates = ordered(board, pieces, assigned, cell, cfg.prefer_decoy);
        lemma_ordered_open(board, pieces, assigned, cell, cfg.prefer_decoy);
        let found = lemma_try_accounts(board, pieces, cfg, assigned, cell, candidates, 0, tally);
        assert forall|sol: Seq<usize>| #[trigger] wanted(board, pieces, cfg, assigned, sol) implies wanted_from(
            board,
            pieces,
            cfg,
            assigned,
            cell,
            candidates,
            0,
            sol,
        ) by {
            lemma_solution_open(board, pieces, assigned, cell, sol);
            assert(candidates.contains(sol[cell]));
            let k = choose|k: int| 0 <= k < candidates.len() && candidates[k] == sol[cell];
            assert(candidates[k] == sol[cell]);
        }
        found
    }
}

/// A solution that lays one of `candidates[i..]` on `cell`.
pub open spec fn wanted_from(
    board: Board,
    pieces: Seq<Piece>,
    cfg: SearchConfig,
    assigned: Seq<Option<usize>>,
    cell: int,
    candidates: Seq<usize>,
    i: int,
    sol: Seq<usize>,
) -> bool {
    &&& wanted(board, pieces, cfg, assigned, sol)
    &&& exists|k: int| i <= k < candidates.len() && #[trigger] candidates[k] == sol[cell]
}

proof fn lemma_try_accounts(
    board: Board,
    pieces: Seq<Piece>,
    cfg: SearchConfig,
    assigned: Seq<Option<usize>>,
    cell: int,
    candidates: Seq<usize>,
    i: int,
    tally: Tally,
) -> (found: Seq<Seq<usize>>)
    requires
        board.wf(),
        placement_count(pieces) <= usize::MAX,
        consistent(board, pieces, assigned),
        tally.solutions < cfg.max_solutions,
        0 <= cell < assigned.len(),
        assigned[cell] is None,
        0 <= i <= candidates.len(),
        forall|k: int| #![trigger candidates[k]]
            0 <= k < candidates.len() ==> candidates[k] < placement_count(pieces) && open_at(
                board,
                pieces,
                assigned,
                cell,
                candidates[k] as int,
            ),
        forall|j: int, k: int|
            0 <= j < k < candidates.len() ==> #[trigger] candidates[j] != #[trigger] candidates[k],
    ensures
        accounts(board, found, tally, try_from(board, pieces, cfg, assigned, cell, candidates, i, tally).0),
        forall|k: int|
            0 <= k < found.len() ==> wanted_from(
                board,
                pieces,
                cfg,
                assigned,
                cell,
                candidates,
                i,
                #[trigger] found[k],
            ),
        try_from(board, pieces, cfg, assigned, cell, candidates, i, tally).0.solutions <= cfg.max_solutions,
        !try_from(board, pieces, cfg, assigned, cell, candidates, i, tally).1 && try_from(
            board,
            pieces,
            cfg,
            assigned,
            cell,
            candidates,
            i,
            tally,
        ).0.solutions < cfg.max_solutions ==> forall|sol: Seq<usize>| #[trigger]
            wanted_from(board, pieces, cfg, assigned, cell, candidates, i, sol) ==> found.contains(sol),
        tally.nodes <= try_from(board, pieces, cfg, assigned, cell, candidates, i, tally).0.nodes,
        tally.nodes <= cfg.max_nodes ==> try_from(
            board,
            pieces,
            cfg,
            assigned,
            cell,
            candidates,
            i,
            tally,
        ).0.nodes <= cfg.max_nodes,
        try_from(board, pieces, cfg, assigned, cell, candidates, i, tally).1 ==> try_from(
            board,
            pieces,
            cfg,
            assigned,
            cell,
            candidates,
            i,
            tally,
        ).0.nodes >= cfg.max_nodes,
    decreases free_cells(assigned), 0int, candidates.len() - i,
{
    if i >= candidates.len() || tally.nodes >= cfg.max_nodes {
        Seq::empty()
    } else {
        let pl = candidates[i];
        let next = assigned.update(cell, Some(pl));
        let step = Tally { nodes: tally.nodes + 1, ..tally };
        lemma_free_cells_update(assigned, cell, pl);
        lemma_consistent_step(board, pieces, assigned, cell, pl);
        let here = lemma_search_accounts(board, pieces, cfg, next, step);
        let (after, aborted) = search(board, pieces, cfg, next, step);
        assert forall|k: int| 0 <= k < here.len() implies wanted_from(
            board,
            pieces,
            cfg,
            assigned,
            cell,
            candidates,
            i,
            #[trigger] here[k],
        ) && here[k][cell] == pl by {
            assert(wanted(board, pieces, cfg, next, here[k]));
            assert(next[cell] == Some(pl));
            assert(extends(assigned, here[k])) by {
                assert forall|c: int| 0 <= c < assigned.len() && (#[trigger] assigned[c]) is Some implies assigned[c]
                    == Some(here[k][c]) by {
                    assert(next[c] == assigned[c]);
                }
            }
            assert(candidates[i] == here[k][cell]);
        }
        if aborted || after.solutions >= cfg.max_solutions {
            here
        } else {
            let rest = lemma_try_accounts(board, pieces, cfg, assigned, cell, candidates, i + 1, after);
            let found = here + rest;
            assert forall|k: int| 0 <= k < rest.len() implies wanted_from(
                board,
                pieces,
                cfg,
                assigned,
                cell,
                candidates,
                i,
                #[trigger] rest[k],
            ) && rest[k][cell] != pl by {
                assert(wanted_from(board, pieces, cfg, assigned, cell, candidates, i + 1, rest[k]));
                let m = choose|m: int| i + 1 <= m < candidates.len() && #[trigger] candidates[m] == rest[k][cell];
                assert(candidates[i] != candidates[m]);
            }
            assert(found.no_duplicates()) by {
                assert forall|a: int, b: int| 0 <= a < found.len() && 0 <= b < found.len() && a != b implies found[a]
                    != found[b] by {
                    if a < here.len() && b < here.len() {
                        assert(here[a] != here[b]);
                    } else if a >= here.len() && b >= here.len() {
                        assert(rest[a - here.len()] != rest[b - here.len()]);
                    } else if a < here.len() {
                        assert(here[a][cell] == pl && rest[b - here.len()][cell] != pl);
                    } else {
                        assert(here[b][cell] == pl && rest[a - here.len()][cell] != pl);
                    }
                }
            }
            let (end, cut) = try_from(board, pieces, cfg, assigned, cell, candidates, i, tally);
            assert((end, cut) == try_from(board, pieces, cfg, assigned, cell, candidates, i + 1, after));
            if !cut && end.solutions < cfg.max_solutions {
                assert forall|sol: Seq<usize>| #[trigger]
                    wanted_from(board, pieces, cfg, assigned, cell, candidates, i, sol) implies found.contains(
                    sol,
                ) by {
                    if sol[cell] == pl {
                        lemma_solution_open(board, pieces, assigned, cell, sol);
                        assert(wanted(board, pieces, cfg, next, sol));
                        let m = choose|m: int| 0 <= m < here.len() && here[m] == sol;
                        assert(found[m] == sol);
                    } else {
                        assert(wanted_from(board, pieces, cfg, assigned, cell, candidates, i + 1, sol));
                        let m = choose|m: int| 0 <= m < rest.len() && rest[m] == sol;
                        assert(found[here.len() + m] == sol);
                    }
                }
            }
            assert forall|k: int| 0 <= k < found.len() implies wanted_from(
                board,
                pieces,
                cfg,
                assigned,
                cell,
                candidates,
                i,
                #[trigger] found[k],
            ) by {
                if k < here.len() {
                    assert(found[k] == here[k]);
                } else {
                    assert(found[k] == rest[k - here.len()]);
                }
            }
            found
        }
    }
}

proof fn lemma_complete_solution(
    board: Board,
    pieces: Seq<Piece>,
    assigned: Seq<Option<usize>>,
    sol: Seq<usize>,
)
    requires
        board.wf(),
        consistent(board, pieces, assigned),
        complete(assigned),
        sol == Seq::new(assigned.len(), |c: int| assigned[c]->0),
    ensures
        is_solution(board, pieces, sol),
        extends(assigned, sol),
        uses_decoy(pieces, sol) == decoy_used(pieces, assigned),
{
    assert forall|c: int| 0 <= c < sol.len() implies (#[trigger] sol[c]) < placement_count(pieces) by {
        assert(assigned[c] is Some);
    }
    assert forall|c: int, e: int| 0 <= c < sol.len() && 0 <= e < sol.len() && c != e implies (#[trigger] sol[c]) / 6
        != (#[trigger] sol[e]) / 6 by {
        assert(assigned[c] is Some && assigned[e] is Some);
    }
    assert forall|c: int, dir: int| 0 <= c < sol.len() && 0 <= dir < 6 implies match #[trigger] board.neighbors@[c]@[dir] {
        Some(nb) => placement_edge(pieces, sol[c] as int, dir) + placement_edge(
            pieces,
            sol[nb as int] as int,
            opposite(dir),
        ) == 0,
        None => placement_edge(pieces, sol[c] as int, dir) == 0,
    } by {
        assert(assigned[c] is Some);
        if board.neighbors@[c]@[dir] is Some {
            assert(assigned[board.neighbors@[c]@[dir]->0 as int] is Some);
        }
    }
    if uses_decoy(pieces, sol) {
        let c = choose|c: int| 0 <= c < sol.len() && is_decoy(pieces, #[trigger] sol[c] as int);
        assert(assigned[c] is Some);
    }
    if decoy_used(pieces, assigned) {
        let c = choose|c: int|
            0 <= c < assigned.len() && (#[trigger] assigned[c]) is Some && is_decoy(
                pieces,
                assigned[c]->0 as int,
            );
        assert(is_decoy(pieces, sol[c] as int));
    }
}

/// A board that is not full has a tightest cell.
proof fn lemma_tightest_exists(board: Board, pieces: Seq<Piece>, assigned: Seq<Option<usize>>)
    requires
        !complete(assigned),
    ensures
        is_tightest(board, pieces, assigned, tightest(board, pieces, assigned)),
{
    let start = choose|c: int| 0 <= c < assigned.len() && (#[trigger] assigned[c]) is None;
    lemma_tightest_below(board, pieces, assigned, start, open_candidates(board, pieces, assigned, start).len());
}

proof fn lemma_tightest_below(
    board: Board,
    pieces: Seq<Piece>,
    assigned: Seq<Option<usize>>,
    cell: int,
    count: nat,
)
    requires
        0 <= cell < assigned.len(),
        assigned[cell] is None,
        count == open_candidates(board, pieces, assigned, cell).len(),
    ensures
        exists|c: int| is_tightest(board, pieces, assigned, c),
    decreases count, cell,
{
    if !is_tightest(board, pieces, assigned, cell) {
        if exists|c: int|
            0 <= c < assigned.len() && (#[trigger] assigned[c]) is None && open_candidates(
                board,
                pieces,
                assigned,
                c,
            ).len() < count {
            let c = choose|c: int|
                0 <= c < assigned.len() && (#[trigger] assigned[c]) is None && open_candidates(
                    board,
                    pieces,
                    assigned,
                    c,
                ).len() < count;
            lemma_tightest_below(board, pieces, assigned, c, open_candidates(board, pieces, assigned, c).len());
        } else {
            let c = choose|c: int|
                0 <= c < cell && (#[trigger] assigned[c]) is None && open_candidates(
                    board,
                    pieces,
                    assigned,
                    c,
                ).len() <= count;
            assert(assigned[c] is None);
            lemma_tightest_below(board, pieces, assigned, c, open_candidates(board, pieces, assigned, c).len());
        }
    }
}

/// Nothing on the board contradicts nothing.
proof fn lemma_blank_consistent(board: Board, pieces: Seq<Piece>)
    ensures
        consistent(board, pieces, blank(board)),
        forall|sol: Seq<usize>| #[trigger] extends(blank(board), sol),
{
}

/// The outcome of a uniqueness search that was not cut short says how many
/// solutions there are: none, exactly one, or at least two. Whenever a
/// solution was counted, the witness is one. A search is cut short if and
/// only if it reaches the node limit, and then has not counted two.
pub proof fn law_uniqueness(board: Board, pieces: Seq<Piece>, max_nodes: u64)
    requires
        board.wf(),
        placement_count(pieces) <= usize::MAX,
    ensures
        ({
            let (tally, aborted) = uniqueness_outcome(board, pieces, max_nodes);
            &&& 0 <= tally.solutions <= 2
            &&& 0 <= tally.nodes <= max_nodes
            &&& aborted <==> tally.nodes == max_nodes
            &&& aborted ==> tally.solutions < 2
            &&& tally.witness is Some <==> tally.solutions >= 1
            &&& tally.solutions >= 1 ==> exists|sol: Seq<usize>| #[trigger]
                is_solution(board, pieces, sol) && tally.witness == Some(describe(board, filled(sol)))
            &&& tally.solutions == 2 ==> exists|one: Seq<usize>, two: Seq<usize>|
                one != two && #[trigger] is_solution(board, pieces, one) && #[trigger] is_solution(
                    board,
                    pieces,
                    two,
                )
            &&& !aborted && tally.solutions == 0 ==> forall|sol: Seq<usize>| !#[trigger]
                is_solution(board, pieces, sol)
            &&& !aborted && tally.solutions == 1 ==> forall|one: Seq<usize>, two: Seq<usize>| #[trigger]
                is_solution(board, pieces, one) && #[trigger] is_solution(board, pieces, two) ==> one == two
        }),
{
    let cfg = uniqueness_config(max_nodes);
    let (tally, aborted) = uniqueness_outcome(board, pieces, max_nodes);
    lemma_blank_consistent(board, pieces);
    lemma_search_limit(board, pieces, cfg, blank(board), no_tally());
    let found = lemma_search_accounts(board, pieces, cfg, blank(board), no_tally());
    if tally.solutions >= 1 {
        assert(wanted(board, pieces, cfg, blank(board), found[0]));
        assert(is_solution(board, pieces, found[0]));
    }
    if tally.solutions == 2 {
        assert(wanted(board, pieces, cfg, blank(board), found[1]));
        assert(found[0] != found[1]);
        assert(is_solution(board, pieces, found[0]) && is_solution(board, pieces, found[1]));
    }
    if !aborted && tally.solutions < 2 {
        assert forall|sol: Seq<usize>| #[trigger] is_solution(board, pieces, sol) implies found.contains(sol) by {
            assert(extends(blank(board), sol));
            assert(wanted(board, pieces, cfg, blank(board), sol));
        }
        if tally.solutions == 0 {
            assert forall|sol: Seq<usize>| !#[trigger] is_solution(board, pieces, sol) by {
                if is_solution(board, pieces, sol) {
                    assert(found.contains(sol));
                }
            }
        } else {
            assert forall|one: Seq<usize>, two: Seq<usize>| #[trigger]
                is_solution(board, pieces, one) && #[trigger] is_solution(board, pieces, two) implies one == two by {
                assert(found.contains(one) && found.contains(two));
            }
        }
    }
}

/// A decoy search that found something found a solution that uses a decoy;
/// one that found nothing and was not cut short shows that there is none.
/// Where there is a decoy, a search is cut short if and only if it reaches
/// the node limit, and then has found nothing.
pub proof fn law_existence(board: Board, pieces: Seq<Piece>, max_nodes: u64)
    requires
        board.wf(),
        placement_count(pieces) <= usize::MAX,
    ensures
        ({
            let (tally, aborted) = existence_outcome(board, pieces, max_nodes);
            &&& aborted <==> has_decoy(pieces) && tally.nodes == max_nodes
            &&& aborted ==> tally.solutions == 0
            &&& 0 <= tally.solutions <= 1
            &&& 0 <= tally.nodes <= max_nodes
            &&& tally.witness is Some <==> tally.solutions == 1
            &&& tally.solutions == 1 ==> exists|sol: Seq<usize>| #[trigger]
                is_solution(board, pieces, sol) && uses_decoy(pieces, sol) && tally.witness == Some(
                    describe(board, filled(sol)),
                )
            &&& !aborted && tally.solutions == 0 ==> forall|sol: Seq<usize>| #[trigger]
                is_solution(board, pieces, sol) ==> !uses_decoy(pieces, sol)
        }),
{
    let (tally, aborted) = existence_outcome(board, pieces, max_nodes);
    if has_decoy(pieces) {
        lemma_anchored_accounts(board, pieces, max_nodes, 0, 0, 0, no_tally());
        lemma_anchored_limit(board, pieces, max_nodes, 0, 0, 0, no_tally());
    } else {
        assert forall|sol: Seq<usize>| #[trigger] is_solution(board, pieces, sol) implies !uses_decoy(
            pieces,
            sol,
        ) by {
            if uses_decoy(pieces, sol) {
                let c = choose|c: int| 0 <= c < sol.len() && is_decoy(pieces, #[trigger] sol[c] as int);
                assert(!pieces[sol[c] as int / 6].is_true);
            }
        }
    }
}

/// A lone placement that fits the rim contradicts nothing.
proof fn lemma_anchor_consistent(board: Board, pieces: Seq<Piece>, cell: int, pl: int)
    requires
        board.wf(),
        placement_count(pieces) <= usize::MAX,
        0 <= pl < placement_count(pieces),
        0 <= cell < board.cells@.len(),
        rim_fits(board, pieces, cell, pl),
    ensures
        consistent(board, pieces, blank(board).update(cell, Some(pl as usize))),
{
    let blank = blank(board);
    assert(open_at(board, pieces, blank, cell, pl)) by {
        assert forall|dir: int|
            0 <= dir < 6 && (#[trigger] demand(board, pieces, blank, cell, dir)) is Some implies placement_edge(
            pieces,
            pl,
            dir,
        ) == demand(board, pieces, blank, cell, dir)->0 by {
            let link = board.neighbors@[cell]@[dir];
            assert(link is Some ==> link->0 < board.cells@.len());
            assert(board.boundary@[cell]@[dir]);
        }
    }
    lemma_blank_consistent(board, pieces);
    lemma_consistent_step(board, pieces, blank, cell, pl as usize);
}

proof fn lemma_anchored_accounts(
    board: Board,
    pieces: Seq<Piece>,
    max_nodes: u64,
    pl: int,
    cell: int,
    attempts: int,
    tally: Tally,
)
    requires
        board.wf(),
        placement_count(pieces) <= usize::MAX,
        0 <= pl,
        0 <= cell,
        tally.solutions == 0,
        0 <= tally.nodes <= max_nodes,
        tally.witness is None,
    ensures
        ({
            let (after, aborted) = anchored_search(
                board,
                pieces,
                existence_config(max_nodes),
                pl,
                cell,
                attempts,
                tally,
            );
            &&& 0 <= after.solutions <= 1
            &&& 0 <= after.nodes <= max_nodes
            &&& after.witness is Some <==> after.solutions == 1
            &&& after.solutions == 1 ==> exists|sol: Seq<usize>| #[trigger]
                is_solution(board, pieces, sol) && uses_decoy(pieces, sol) && after.witness == Some(
                    describe(board, filled(sol)),
                )
            &&& !aborted && after.solutions == 0 ==> forall|sol: Seq<usize>| #[trigger]
                is_solution(board, pieces, sol) ==> !uses_decoy(pieces, sol)
        }),
    decreases placement_count(pieces) - pl, board.cells@.len() - cell,
{
    let cfg = existence_config(max_nodes);
    if pl >= placement_count(pieces) || attempts >= MAX_ANCHOR_ATTEMPTS {
        lemma_blank_consistent(board, pieces);
        let found = lemma_search_accounts(board, pieces, cfg, blank(board), tally);
        let (after, aborted) = search(board, pieces, cfg, blank(board), tally);
        if after.solutions == 1 {
            assert(wanted(board, pieces, cfg, blank(board), found[0]));
        }
        if !aborted && after.solutions == 0 {
            assert forall|sol: Seq<usize>| #[trigger] is_solution(board, pieces, sol) implies !uses_decoy(
                pieces,
                sol,
            ) by {
                if uses_decoy(pieces, sol) {
                    assert(extends(blank(board), sol));
                    assert(wanted(board, pieces, cfg, blank(board), sol));
                    assert(found.contains(sol));
                }
            }
        }
    } else if cell >= board.cells@.len() || !is_decoy(pieces, pl) {
        lemma_anchored_accounts(board, pieces, max_nodes, pl + 1, 0, attempts, tally);
    } else if !rim_fits(board, pieces, cell, pl) {
        lemma_anchored_accounts(board, pieces, max_nodes, pl, cell + 1, attempts, tally);
    } else {
        let start = blank(board).update(cell, Some(pl as usize));
        lemma_anchor_consistent(board, pieces, cell, pl);
        let found = lemma_search_accounts(board, pieces, cfg, start, tally);
        let (after, aborted) = search(board, pieces, cfg, start, tally);
        if after.solutions > 0 {
            assert(wanted(board, pieces, cfg, start, found[0]));
        } else if !aborted {
            lemma_anchored_accounts(board, pieces, max_nodes, pl, cell + 1, attempts + 1, after);
        }
    }
}

} // verus!
