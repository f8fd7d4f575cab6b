//! The model of the trial solver: a depth-first search that keeps, for each
//! cell, the candidates it computed last together with the demands they were
//! computed for.
//!
//! Two things follow from what is remembered, and every count of nodes and
//! solutions rests on them. A cell starts with an empty list remembered for
//! the demands of a cell that nothing touches, so such a cell, away from the
//! rim and with free neighbours, has no candidates: a scan that comes to it
//! picks it, and that branch of the search ends. And a list that is
//! remembered lacks the pieces that were in use when it was made, even once
//! they are free again.

use crate::grid::opposite;
use crate::trial::{turned, Piece, PieceKind};
use vstd::prelude::*;

verus! {

/// A piece laid down with a rotation.
#[derive(Clone, Copy, Debug)]
pub struct PlacementRef {
    pub pid: usize,
    pub rot: u8,
}

/// What is being searched: the board, the pieces, and the limits.
pub struct Quest {
    pub links: Seq<[Option<usize>; 6]>,
    pub pieces: Seq<Piece>,
    pub node_cap: int,
    pub solution_limit: int,
    pub require_false: bool,
}

/// The candidates of a cell and the demands they were computed for.
pub struct Remembered {
    pub key: Seq<i32>,
    pub candidates: Seq<PlacementRef>,
}

/// The state of a search.
pub struct Progress {
    pub assignments: Seq<Option<PlacementRef>>,
    pub available: Seq<bool>,
    pub cache: Seq<Remembered>,
    pub nodes: int,
    pub found: int,
}

/// Whether a placement is one of an existing piece.
pub open spec fn exists_in(pieces: Seq<Piece>, p: PlacementRef) -> bool {
    p.pid < pieces.len() && p.rot < 6
}

/// The value that a placement shows in direction `dir`.
pub open spec fn shown(pieces: Seq<Piece>, p: PlacementRef, dir: int) -> i32 {
    turned(pieces[p.pid as int].edges@, p.rot as int)[dir]
}

/// The placement with number `k`: six to each piece.
pub open spec fn nth_placement(k: int) -> PlacementRef {
    PlacementRef { pid: (k / 6) as usize, rot: (k % 6) as u8 }
}

/// The placements with numbers below `n` that satisfy `keep`, in order.
pub open spec fn placements_below(n: int, keep: spec_fn(PlacementRef) -> bool) -> Seq<PlacementRef>
    decreases n,
{
    if n <= 0 {
        Seq::empty()
    } else {
        let rest = placements_below(n - 1, keep);
        if keep(nth_placement(n - 1)) {
            rest.push(nth_placement(n - 1))
        } else {
            rest
        }
    }
}

/// The mark for a direction in which nothing is demanded.
pub const FREE: i32 = i32::MAX;

/// What a cell must show: the rim demands zero, a filled neighbour the
/// negative of what it shows, a free neighbour nothing.
pub open spec fn demands(quest: Quest, assignments: Seq<Option<PlacementRef>>, idx: int) -> Seq<i32> {
    Seq::new(
        6,
        |dir: int|
            match quest.links[idx]@[dir] {
                Some(nb) => match assignments[nb as int] {
                    Some(p) => (-shown(quest.pieces, p, opposite(dir))) as i32,
                    None => FREE,
                },
                None => 0,
            },
    )
}

/// Whether a placement shows all that `key` demands.
pub open spec fn meets(pieces: Seq<Piece>, key: Seq<i32>, p: PlacementRef) -> bool {
    forall|dir: int| 0 <= dir < 6 && (#[trigger] key[dir]) != FREE ==> shown(pieces, p, dir) == key[dir]
}

/// The available placements that meet the demands `key`.
pub open spec fn meeting(quest: Quest, available: Seq<bool>, key: Seq<i32>) -> Seq<PlacementRef> {
    placements_below(
        6 * quest.pieces.len() as int,
        |p: PlacementRef| available[p.pid as int] && meets(quest.pieces, key, p),
    )
}

/// The candidates of a cell, and the state after asking for them: those
/// remembered for the same demands, as far as still available; or else those
/// that meet the demands, which are remembered.
pub open spec fn candidates_of(quest: Quest, state: Progress, idx: int) -> (Progress, Seq<PlacementRef>) {
    let key = demands(quest, state.assignments, idx);
    if state.cache[idx].key == key {
        (
            state,
            state.cache[idx].candidates.filter(|p: PlacementRef| state.available[p.pid as int]),
        )
    } else {
        let out = meeting(quest, state.available, key);
        (
            Progress { cache: state.cache.update(idx, Remembered { key, candidates: out }), ..state },
            out,
        )
    }
}

/// Goes over the free cells from `idx` on for the first one with the fewest
/// candidates, and stops at one with at most one candidate. `best` is the
/// best so far, with its number of candidates.
pub open spec fn scan_cells(
    quest: Quest,
    state: Progress,
    idx: int,
    best: Option<(int, int)>,
) -> (Progress, Option<(int, int)>)
    decreases state.assignments.len() - idx,
{
    if idx >= state.assignments.len() {
        (state, best)
    } else if state.assignments[idx] is Some {
        scan_cells(quest, state, idx + 1, best)
    } else {
        let (after, candidates) = candidates_of(quest, state, idx);
        let count = candidates.len() as int;
        let next = match best {
            Some((_, fewest)) => if count < fewest {
                Some((idx, count))
            } else {
                best
            },
            None => Some((idx, count)),
        };
        if count <= 1 {
            (after, next)
        } else {
            scan_cells(quest, after, idx + 1, next)
        }
    }
}

/// The number of free cells.
pub open spec fn open_cells(assignments: Seq<Option<PlacementRef>>) -> nat
    decreases assignments.len(),
{
    if assignments.len() == 0 {
        0
    } else {
        open_cells(assignments.drop_last()) + (if assignments.last() is None {
            1nat
        } else {
            0
        })
    }
}

pub proof fn lemma_open_cells_update(assignments: Seq<Option<PlacementRef>>, idx: int, p: PlacementRef)
    requires
        0 <= idx < assignments.len(),
        assignments[idx] is None,
    ensures
        open_cells(assignments.update(idx, Some(p))) == open_cells(assignments) - 1,
    decreases assignments.len(),
{
    let after = assignments.update(idx, Some(p));
    if idx == assignments.len() - 1 {
        assert(after.drop_last() =~= assignments.drop_last());
    } else {
        assert(after.drop_last() =~= assignments.drop_last().update(idx, Some(p)));
        lemma_open_cells_update(assignments.drop_last(), idx, p);
    }
}

pub proof fn lemma_scan_keeps(quest: Quest, state: Progress, idx: int, best: Option<(int, int)>)
    ensures
        scan_cells(quest, state, idx, best).0.assignments == state.assignments,
        scan_cells(quest, state, idx, best).0.available == state.available,
        scan_cells(quest, state, idx, best).0.nodes == state.nodes,
        scan_cells(quest, state, idx, best).0.found == state.found,
        0 <= idx && state.cache.len() == state.assignments.len() ==> scan_cells(
            quest,
            state,
            idx,
            best,
        ).0.cache.len() == state.cache.len(),
    decreases state.assignments.len() - idx,
{
    if idx < state.assignments.len() {
        if state.assignments[idx] is Some {
            lemma_scan_keeps(quest, state, idx + 1, best);
        } else {
            let (after, candidates) = candidates_of(quest, state, idx);
            let count = candidates.len() as int;
            let next = match best {
                Some((_, fewest)) => if count < fewest {
                    Some((idx, count))
                } else {
                    best
                },
                None => Some((idx, count)),
            };
            if count > 1 {
                lemma_scan_keeps(quest, after, idx + 1, next);
            }
        }
    }
}

pub open spec fn is_false_piece(pieces: Seq<Piece>, pid: int) -> bool {
    pieces[pid].kind == PieceKind::False
}

/// The state with placement `p` laid on cell `idx` as a further node.
pub open spec fn laid(state: Progress, idx: int, p: PlacementRef) -> Progress {
    Progress {
        assignments: state.assignments.update(idx, Some(p)),
        available: state.available.update(p.pid as int, false),
        nodes: state.nodes + 1,
        ..state
    }
}

/// The search from `state` on: nothing at a limit; a full board counts, if
/// no false piece is demanded or one was used; otherwise the cell that the
/// scan picks is filled with each candidate in turn.
pub open spec fn explore(quest: Quest, state: Progress, used_false: bool) -> Progress
    decreases open_cells(state.assignments), 1int, 0int,
{
    if state.nodes >= quest.node_cap || state.found >= quest.solution_limit {
        state
    } else {
        proof {
            lemma_scan_keeps(quest, state, 0, None);
        }
        let (scanned, pick) = scan_cells(quest, state, 0, None);
        match pick {
            None => if quest.require_false && !used_false {
                scanned
            } else {
                Progress { found: scanned.found + 1, ..scanned }
            },
            Some((idx, _)) => {
                let (asked, candidates) = candidates_of(quest, scanned, idx);
                lay_from(quest, asked, idx, candidates, 0, used_false)
            },
        }
    }
}

/// The part of a search that lays `candidates[i]` and those after it on cell
/// `idx` in turn, until a limit is reached.
pub open spec fn lay_from(
    quest: Quest,
    state: Progress,
    idx: int,
    candidates: Seq<PlacementRef>,
    i: int,
    used_false: bool,
) -> Progress
    decreases open_cells(state.assignments), 0int, candidates.len() - i,
{
    if i < 0 || i >= candidates.len() || idx < 0 || idx >= state.assignments.len()
        || state.assignments[idx] is Some || state.nodes >= quest.node_cap || state.found
        >= quest.solution_limit {
        state
    } else {
        let p = candidates[i];
        proof {
            lemma_open_cells_update(state.assignments, idx, p);
        }
        let below = explore(
            quest,
            laid(state, idx, p),
            used_false || is_false_piece(quest.pieces, p.pid as int),
        );
        lay_from(
            quest,
            Progress { assignments: state.assignments, available: state.available, ..below },
            idx,
            candidates,
            i + 1,
            used_false,
        )
    }
}

proof fn lemma_lay_keeps(
    quest: Quest,
    state: Progress,
    idx: int,
    candidates: Seq<PlacementRef>,
    i: int,
    used_false: bool,
)
    ensures
        lay_from(quest, state, idx, candidates, i, used_false).assignments == state.assignments,
        lay_from(quest, state, idx, candidates, i, used_false).available == state.available,
    decreases candidates.len() - i,
{
    if i < 0 || i >= candidates.len() || idx < 0 || idx >= state.assignments.len()
        || state.assignments[idx] is Some || state.nodes >= quest.node_cap || state.found
        >= quest.solution_limit {
    } else {
        let p = candidates[i];
        let below = explore(
            quest,
            laid(state, idx, p),
            used_false || is_false_piece(quest.pieces, p.pid as int),
        );
        let next = Progress { assignments: state.assignments, available: state.available, ..below };
        lemma_lay_keeps(quest, next, idx, candidates, i + 1, used_false);
    }
}

/// A search takes back every placement that it made.
pub proof fn lemma_explore_keeps(quest: Quest, state: Progress, used_false: bool)
    ensures
        explore(quest, state, used_false).assignments == state.assignments,
        explore(quest, state, used_false).available == state.available,
{
    if state.nodes < quest.node_cap && state.found < quest.solution_limit {
        lemma_scan_keeps(quest, state, 0, None);
        let (scanned, pick) = scan_cells(quest, state, 0, None);
        if let Some((idx, _)) = pick {
            let (asked, candidates) = candidates_of(quest, scanned, idx);
            lemma_lay_keeps(quest, asked, idx, candidates, 0, used_false);
        }
    }
}

/// The state before anything has been tried.
pub open spec fn fresh(quest: Quest) -> Progress {
    Progress {
        assignments: Seq::new(quest.links.len(), |i: int| None::<PlacementRef>),
        available: Seq::new(quest.pieces.len(), |i: int| true),
        cache: Seq::new(
            quest.links.len(),
            |i: int| Remembered { key: Seq::new(6, |d: int| FREE), candidates: Seq::empty() },
        ),
        nodes: 0,
        found: 0,
    }
}

/// Sieving placements for a further property.
pub proof fn lemma_placements_filter(
    n: int,
    keep: spec_fn(PlacementRef) -> bool,
    more: spec_fn(PlacementRef) -> bool,
)
    ensures
        placements_below(n, keep).filter(more) == placements_below(
            n,
            |p: PlacementRef| keep(p) && more(p),
        ),
    decreases n,
{
    reveal(Seq::filter);
    let both = |p: PlacementRef| keep(p) && more(p);
    let list = placements_below(n, keep);
    if n > 0 {
        lemma_placements_filter(n - 1, keep, more);
        let rest = placements_below(n - 1, keep);
        let p = nth_placement(n - 1);
        assert(both(p) == (keep(p) && more(p)));
        if keep(p) {
            assert(list.drop_last() =~= rest);
            assert(list.last() == p);
            assert(list.filter(more) == (if more(p) {
                rest.filter(more).push(p)
            } else {
                rest.filter(more)
            }));
        }
    } else {
        assert(list.filter(more) =~= placements_below(n, both));
    }
}

/// The placements depend only on which of them are kept.
pub proof fn lemma_placements_ext(n: int, p: spec_fn(PlacementRef) -> bool, q: spec_fn(PlacementRef) -> bool)
    requires
        forall|k: int| 0 <= k < n ==> p(#[trigger] nth_placement(k)) == q(nth_placement(k)),
    ensures
        placements_below(n, p) == placements_below(n, q),
    decreases n,
{
    if n > 0 {
        lemma_placements_ext(n - 1, p, q);
        assert(p(nth_placement(n - 1)) == q(nth_placement(n - 1)));
    }
}

/// What the placements below a bound are: kept, of an existing piece, and
/// each there once.
pub proof fn lemma_placements_below(n: int, keep: spec_fn(PlacementRef) -> bool)
    requires
        n <= 6 * usize::MAX,
    ensures
        forall|i: int| #![trigger placements_below(n, keep)[i]]
            0 <= i < placements_below(n, keep).len() ==> {
                let p = placements_below(n, keep)[i];
                keep(p) && 6 * p.pid + p.rot < n && p.rot < 6
            },
        forall|i: int, j: int| #![trigger placements_below(n, keep)[i], placements_below(n, keep)[j]]
            0 <= i < j < placements_below(n, keep).len() ==> {
                let p = placements_below(n, keep)[i];
                let q = placements_below(n, keep)[j];
                6 * p.pid + p.rot < 6 * q.pid + q.rot
            },
    decreases n,
{
    if n > 0 {
        lemma_placements_below(n - 1, keep);
        let last = nth_placement(n - 1);
        let rest = placements_below(n - 1, keep);
        let list = placements_below(n, keep);
        assert(6 * last.pid + last.rot == n - 1 && last.rot < 6);
        assert forall|i: int| 0 <= i < list.len() implies keep(#[trigger] list[i]) && 6 * list[i].pid + list[i].rot
            < n && list[i].rot < 6 by {
            if i < rest.len() {
                assert(list[i] == rest[i]);
            } else {
                assert(list[i] == last);
            }
        }
        assert forall|i: int, j: int| 0 <= i < j < list.len() implies 6 * (#[trigger] list[i]).pid + list[i].rot < 6
            * (#[trigger] list[j]).pid + list[j].rot by {
            assert(list[i] == rest[i]);
            if j < rest.len() {
                assert(list[j] == rest[j]);
            } else {
                assert(list[j] == last);
            }
        }
    }
}

/// Every kept placement of an existing piece is listed.
pub proof fn lemma_placements_complete(n: int, keep: spec_fn(PlacementRef) -> bool, p: PlacementRef)
    requires
        keep(p),
        p.rot < 6,
        6 * p.pid + p.rot < n,
    ensures
        placements_below(n, keep).contains(p),
    decreases n,
{
    let k = 6 * p.pid + p.rot;
    let list = placements_below(n, keep);
    if k == n - 1 {
        assert(nth_placement(k) == p);
        assert(list[list.len() - 1] == p);
    } else {
        lemma_placements_complete(n - 1, keep, p);
        let rest = placements_below(n - 1, keep);
        let i = choose|i: int| 0 <= i < rest.len() && rest[i] == p;
        assert(list[i] == p);
    }
}

} // verus!
