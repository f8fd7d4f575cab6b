//! What the limits of a trial search and the test for false pieces on the rim
//! mean.

use crate::trial::{anchors, fits_rim, has_false_anchor, turned};
use crate::trial_laws::{agrees, solves};
use crate::trial_search::{
    candidates_of, demands, explore, is_false_piece, laid, lay_from, lemma_open_cells_update, lemma_placements_ext,
    lemma_scan_keeps, meeting, meets, nth_placement, open_cells, scan_cells, shown, PlacementRef, Progress, Quest,
};
use vstd::prelude::*;

verus! {

/// Whether two searches differ in how many nodes they may visit alone.
pub open spec fn same_but_cap(quest: Quest, other: Quest) -> bool {
    &&& quest.links == other.links
    &&& quest.pieces == other.pieces
    &&& quest.solution_limit == other.solution_limit
    &&& quest.require_false == other.require_false
}

proof fn lemma_same_candidates(quest: Quest, other: Quest, state: Progress, idx: int)
    requires
        same_but_cap(quest, other),
    ensures
        candidates_of(quest, state, idx) == candidates_of(other, state, idx),
{
    assert(demands(quest, state.assignments, idx) =~= demands(other, state.assignments, idx));
    let key = demands(quest, state.assignments, idx);
    let n = 6 * quest.pieces.len() as int;
    let p = |p: PlacementRef| state.available[p.pid as int] && meets(quest.pieces, key, p);
    let q = |p: PlacementRef| state.available[p.pid as int] && meets(other.pieces, key, p);
    assert forall|k: int| 0 <= k < n implies p(#[trigger] nth_placement(k)) == q(nth_placement(k)) by {
    }
    lemma_placements_ext(n, p, q);
    assert(meeting(quest, state.available, key) == meeting(other, state.available, key));
}

proof fn lemma_same_scan(quest: Quest, other: Quest, state: Progress, idx: int, best: Option<(int, int)>)
    requires
        same_but_cap(quest, other),
    ensures
        scan_cells(quest, state, idx, best) == scan_cells(other, state, idx, best),
    decreases state.assignments.len() - idx,
{
    if idx < state.assignments.len() {
        if state.assignments[idx] is Some {
            lemma_same_scan(quest, other, state, idx + 1, best);
        } else {
            lemma_same_candidates(quest, other, state, idx);
            let (after, candidates) = candidates_of(quest, state, idx);
            let count = candidates.len() as int;
            let next = match best {
                Some((_, fewest)) => if count < fewest {
                    Some((idx, count))
                } else {
                    best
                },
                None => Some((idx, count)),
            };
            if count > 1 {
                lemma_same_scan(quest, other, after, idx + 1, next);
            }
        }
    }
}

/// Whether `below` was reached without the limit, so that a search with more
/// nodes comes to the same.
spec fn uncut(quest: Quest, below: Progress) -> bool {
    below.nodes < quest.node_cap
}

proof fn lemma_explore_same(quest: Quest, other: Quest, state: Progress, used_false: bool)
    requires
        same_but_cap(quest, other),
        quest.node_cap <= other.node_cap,
    ensures
        explore(quest, state, used_false).nodes >= state.nodes,
        uncut(quest, explore(quest, state, used_false)) ==> explore(other, state, used_false) == explore(
            quest,
            state,
            used_false,
        ),
    decreases open_cells(state.assignments), 1int, 0int,
{
    if !(state.nodes >= quest.node_cap || state.found >= quest.solution_limit) {
        lemma_scan_keeps(quest, state, 0, None);
        lemma_same_scan(quest, other, state, 0, None);
        let (scanned, pick) = scan_cells(quest, state, 0, None);
        if let Some((idx, _)) = pick {
            lemma_same_candidates(quest, other, scanned, idx);
            let (asked, candidates) = candidates_of(quest, scanned, idx);
            lemma_lay_same(quest, other, asked, idx, candidates, 0, used_false);
        }
    }
}

proof fn lemma_lay_same(
    quest: Quest,
    other: Quest,
    state: Progress,
    idx: int,
    candidates: Seq<PlacementRef>,
    i: int,
    used_false: bool,
)
    requires
        same_but_cap(quest, other),
        quest.node_cap <= other.node_cap,
    ensures
        lay_from(quest, state, idx, candidates, i, used_false).nodes >= state.nodes,
        uncut(quest, lay_from(quest, state, idx, candidates, i, used_false)) ==> lay_from(
            other,
            state,
            idx,
            candidates,
            i,
            used_false,
        ) == lay_from(quest, state, idx, candidates, i, used_false),
    decreases open_cells(state.assignments), 0int, candidates.len() - i,
{
    if i < 0 || i >= candidates.len() || idx < 0 || idx >= state.assignments.len() || state.assignments[idx] is Some
        || state.nodes >= quest.node_cap || state.found >= quest.solution_limit {
    } else {
        let p = candidates[i];
        lemma_open_cells_update(state.assignments, idx, p);
        let used = used_false || is_false_piece(quest.pieces, p.pid as int);
        lemma_explore_same(quest, other, laid(state, idx, p), used);
        let below = explore(quest, laid(state, idx, p), used);
        let next = Progress { assignments: state.assignments, available: state.available, ..below };
        lemma_lay_same(quest, other, next, idx, candidates, i + 1, used_false);
    }
}

/// A search that visits fewer nodes than it may comes to the same if it may
/// visit more.
pub proof fn law_more_nodes(quest: Quest, other: Quest, state: Progress, used_false: bool)
    requires
        same_but_cap(quest, other),
        quest.node_cap <= other.node_cap,
        explore(quest, state, used_false).nodes < quest.node_cap,
    ensures
        explore(other, state, used_false) == explore(quest, state, used_false),
{
    lemma_explore_same(quest, other, state, used_false);
}

/// The number of candidates of a cell.
pub open spec fn choices_at(quest: Quest, state: Progress, c: int) -> int {
    candidates_of(quest, state, c).1.len() as int
}

/// Asking for the candidates of one cell leaves those of another alone.
proof fn lemma_choices_apart(quest: Quest, state: Progress, c: int, other: int)
    requires
        0 <= c < state.cache.len(),
        0 <= other < state.cache.len(),
        c != other,
    ensures
        choices_at(quest, candidates_of(quest, state, c).0, other) == choices_at(quest, state, other),
        candidates_of(quest, state, c).0.cache.len() == state.cache.len(),
        candidates_of(quest, state, c).0.assignments == state.assignments,
        candidates_of(quest, state, c).0.available == state.available,
{
    let after = candidates_of(quest, state, c).0;
    assert(after.cache[other] == state.cache[other]);
    assert(after.assignments == state.assignments && after.available == state.available);
    let keep = |p: PlacementRef| state.available[p.pid as int];
    let kept = |p: PlacementRef| after.available[p.pid as int];
    assert(keep =~= kept);
}

proof fn lemma_scan_picks(quest: Quest, origin: Progress, state: Progress, idx: int, best: Option<(int, int)>)
    requires
        0 <= idx <= state.assignments.len(),
        state.assignments == origin.assignments,
        state.available == origin.available,
        state.cache.len() == state.assignments.len(),
        forall|c: int| idx <= c < state.cache.len() ==> #[trigger] choices_at(quest, state, c) == choices_at(
            quest,
            origin,
            c,
        ),
        match best {
            Some((b, count)) => {
                &&& 0 <= b < idx
                &&& origin.assignments[b] is None
                &&& count == choices_at(quest, origin, b)
                &&& count > 1
                &&& forall|c: int|
                    0 <= c < b && (#[trigger] origin.assignments[c]) is None ==> choices_at(quest, origin, c) > count
                &&& forall|c: int|
                    b <= c < idx && (#[trigger] origin.assignments[c]) is None ==> choices_at(quest, origin, c)
                        >= count
            },
            None => forall|c: int| 0 <= c < idx ==> (#[trigger] origin.assignments[c]) is Some,
        },
    ensures
        picks_tightest(quest, origin, scan_cells(quest, state, idx, best).1),
    decreases state.assignments.len() - idx,
{
    if idx < state.assignments.len() {
        if state.assignments[idx] is Some {
            lemma_scan_picks(quest, origin, state, idx + 1, best);
        } else {
            let (after, candidates) = candidates_of(quest, state, idx);
            let count = candidates.len() as int;
            assert(count == choices_at(quest, state, idx));
            let next = match best {
                Some((_, fewest)) => if count < fewest {
                    Some((idx, count))
                } else {
                    best
                },
                None => Some((idx, count)),
            };
            assert(after.assignments == state.assignments && after.available == state.available);
            assert forall|c: int| idx + 1 <= c < after.cache.len() implies #[trigger] choices_at(quest, after, c)
                == choices_at(quest, origin, c) by {
                lemma_choices_apart(quest, state, idx, c);
                assert(choices_at(quest, state, c) == choices_at(quest, origin, c));
            }
            if count > 1 {
                lemma_scan_picks(quest, origin, after, idx + 1, next);
            }
        }
    }
}

/// Whether a pick is a free cell with its number of candidates such that every
/// free cell before it has more, and unless it has at most one, every free
/// cell behind it at least as many. There is no pick if no cell is free.
pub open spec fn picks_tightest(quest: Quest, state: Progress, pick: Option<(int, int)>) -> bool {
    match pick {
        Some((idx, count)) => {
            &&& 0 <= idx < state.assignments.len()
            &&& state.assignments[idx] is None
            &&& count == choices_at(quest, state, idx)
            &&& forall|c: int|
                0 <= c < idx && (#[trigger] state.assignments[c]) is None ==> choices_at(quest, state, c) > count
            &&& count > 1 ==> forall|c: int|
                idx <= c < state.assignments.len() && (#[trigger] state.assignments[c]) is None ==> choices_at(
                    quest,
                    state,
                    c,
                ) >= count
        },
        None => forall|c: int| 0 <= c < state.assignments.len() ==> (#[trigger] state.assignments[c]) is Some,
    }
}

/// A search goes on with the first of the free cells that have the fewest
/// candidates, or with the first that has at most one.
pub proof fn law_tightest_cell(quest: Quest, state: Progress)
    requires
        state.cache.len() == state.assignments.len(),
    ensures
        picks_tightest(quest, state, scan_cells(quest, state, 0, None).1),
{
    lemma_scan_picks(quest, state, state, 0, None);
}

/// A solution with a false piece on the rim is possible only if some false
/// piece could lie on the rim.
pub proof fn law_false_piece_on_rim(quest: Quest, a: Seq<Option<PlacementRef>>, c: int, dir: int)
    requires
        solves(quest, a),
        0 <= c < a.len(),
        is_false_piece(quest.pieces, a[c]->0.pid as int),
        0 <= dir < 6,
        quest.links[c]@[dir] is None,
    ensures
        has_false_anchor(quest.links, quest.pieces),
{
    assert(a[c] is Some);
    let p = a[c]->0;
    let edges = turned(quest.pieces[p.pid as int].edges@, p.rot as int);
    assert forall|d: int| 0 <= d < 6 && (#[trigger] quest.links[c]@[d]) is None implies edges[d] == 0 by {
        assert(agrees(quest, a, c, d));
        assert(shown(quest.pieces, p, d) == 0);
    }
    assert(fits_rim(quest.links, c, edges));
    assert(anchors(quest.links, quest.pieces, c, p.pid as int, p.rot as int));
}

} // verus!
