//! What the counts of the trial solver mean: the limits hold, and every
//! solution counted is one, none of them counted twice.

use crate::edges::{is_forward, joins, lemma_edge_back, Edge};
use crate::grid::{leads_back, links_in_range, links_mutual, opposite};
use crate::trial::Piece;
use crate::trial_pieces::{made_true_pieces, numbered_pieces, shows_edge, EdgeChoice, Numbering};
use crate::trial_search::{
    candidates_of, demands, exists_in, explore, fresh, is_false_piece, laid, lay_from, lemma_open_cells_update,
    lemma_placements_below, lemma_scan_keeps, meets, open_cells, placements_below, scan_cells, shown, PlacementRef,
    Progress, Quest, Remembered,
};
use crate::trial_solver::{offset_of, within_alphabet};
use vstd::prelude::*;

verus! {

/// Whether the placement on cell `c`, if there is one, agrees in direction
/// `dir` with the rim or with what lies on the neighbour.
pub open spec fn agrees(quest: Quest, a: Seq<Option<PlacementRef>>, c: int, dir: int) -> bool {
    a[c] is Some ==> match quest.links[c]@[dir] {
        Some(nb) => a[nb as int] is Some ==> shown(quest.pieces, a[c]->0, dir) + shown(
            quest.pieces,
            a[nb as int]->0,
            opposite(dir),
        ) == 0,
        None => shown(quest.pieces, a[c]->0, dir) == 0,
    }
}

/// Whether what lies on the board so far is free of contradictions.
pub open spec fn lies_well(quest: Quest, a: Seq<Option<PlacementRef>>) -> bool {
    &&& a.len() == quest.links.len()
    &&& forall|c: int| 0 <= c < a.len() && (#[trigger] a[c]) is Some ==> exists_in(quest.pieces, a[c]->0)
    &&& forall|c: int, e: int|
        0 <= c < a.len() && 0 <= e < a.len() && c != e && (#[trigger] a[c]) is Some && (#[trigger] a[e]) is Some
            ==> a[c]->0.pid != a[e]->0.pid
    &&& forall|c: int, dir: int| 0 <= c < a.len() && 0 <= dir < 6 ==> #[trigger] agrees(quest, a, c, dir)
}

pub open spec fn uses_false(quest: Quest, a: Seq<Option<PlacementRef>>) -> bool {
    exists|c: int|
        0 <= c < a.len() && (#[trigger] a[c]) is Some && is_false_piece(quest.pieces, a[c]->0.pid as int)
}

/// Whether `a` is a solution: every cell is filled, nothing contradicts, and
/// a false piece is used where one is demanded.
pub open spec fn solves(quest: Quest, a: Seq<Option<PlacementRef>>) -> bool {
    &&& lies_well(quest, a)
    &&& forall|c: int| 0 <= c < a.len() ==> (#[trigger] a[c]) is Some
    &&& quest.require_false ==> uses_false(quest, a)
}

/// Whether `a` has everything that lies on the board.
pub open spec fn continues(board: Seq<Option<PlacementRef>>, a: Seq<Option<PlacementRef>>) -> bool {
    forall|c: int| 0 <= c < board.len() && (#[trigger] board[c]) is Some ==> a[c] == board[c]
}

/// Whether what is remembered of a cell meets the demands it was made for.
pub open spec fn remembered_well(quest: Quest, entry: Remembered) -> bool {
    &&& forall|k: int|
        0 <= k < entry.candidates.len() ==> exists_in(quest.pieces, #[trigger] entry.candidates[k]) && meets(
            quest.pieces,
            entry.key,
            entry.candidates[k],
        )
    &&& entry.candidates.no_duplicates()
}

/// What holds of every state of a search.
pub open spec fn sound(quest: Quest, state: Progress) -> bool {
    &&& lies_well(quest, state.assignments)
    &&& state.cache.len() == quest.links.len()
    &&& state.available.len() == quest.pieces.len()
    &&& forall|c: int|
        0 <= c < state.assignments.len() && (#[trigger] state.assignments[c]) is Some
            ==> !state.available[state.assignments[c]->0.pid as int]
    &&& forall|c: int| 0 <= c < state.cache.len() ==> remembered_well(quest, #[trigger] state.cache[c])
}

/// What a search is about.
pub open spec fn quest_wf(quest: Quest, alphabet_max: i32) -> bool {
    &&& links_in_range(quest.links)
    &&& links_mutual(quest.links)
    &&& within_alphabet(quest.pieces, alphabet_max)
    &&& quest.pieces.len() <= usize::MAX
    &&& quest.links.len() <= usize::MAX
}

proof fn lemma_shown_bounds(quest: Quest, alphabet_max: i32, p: PlacementRef, dir: int)
    requires
        quest_wf(quest, alphabet_max),
        exists_in(quest.pieces, p),
        0 <= dir < 6,
    ensures
        -i32::MAX / 2 <= shown(quest.pieces, p, dir) <= i32::MAX / 2,
{
    let k = (dir - p.rot) % 6;
    assert(-offset_of(alphabet_max) <= quest.pieces[p.pid as int].edges@[k] <= offset_of(alphabet_max));
}

/// A placement that meets the demands of a free cell can be laid there.
proof fn lemma_lies_well_step(quest: Quest, alphabet_max: i32, a: Seq<Option<PlacementRef>>, idx: int, p: PlacementRef)
    requires
        quest_wf(quest, alphabet_max),
        lies_well(quest, a),
        0 <= idx < a.len(),
        a[idx] is None,
        exists_in(quest.pieces, p),
        forall|c: int| 0 <= c < a.len() && (#[trigger] a[c]) is Some ==> a[c]->0.pid != p.pid,
        meets(quest.pieces, demands(quest, a, idx), p),
    ensures
        lies_well(quest, a.update(idx, Some(p))),
{
    let after = a.update(idx, Some(p));
    let key = demands(quest, a, idx);
    assert forall|c: int, dir: int| 0 <= c < after.len() && 0 <= dir < 6 implies #[trigger] agrees(
        quest,
        after,
        c,
        dir,
    ) by {
        assert(agrees(quest, a, c, dir));
        assert(leads_back(quest.links, c, dir));
        if let Some(nb) = quest.links[c]@[dir] {
            assert(nb < a.len());
            if c == idx && a[nb as int] is Some {
                lemma_shown_bounds(quest, alphabet_max, a[nb as int]->0, opposite(dir));
                assert(key[dir] == -shown(quest.pieces, a[nb as int]->0, opposite(dir)));
            } else if nb == idx && a[c] is Some {
                let back = opposite(dir);
                lemma_shown_bounds(quest, alphabet_max, a[c]->0, dir);
                assert(opposite(back) == dir);
                assert(quest.links[idx]@[back] == Some(c as usize));
                assert(key[back] == -shown(quest.pieces, a[c]->0, dir));
            }
        } else if c == idx {
            assert(key[dir] == 0);
        }
    }
}

proof fn lemma_filter_keeps<A>(list: Seq<A>, keep: spec_fn(A) -> bool)
    ensures
        forall|k: int|
            0 <= k < list.filter(keep).len() ==> keep(#[trigger] list.filter(keep)[k]) && list.contains(
                list.filter(keep)[k],
            ),
        list.no_duplicates() ==> list.filter(keep).no_duplicates(),
    decreases list.len(),
{
    reveal(Seq::filter);
    if list.len() > 0 {
        let front = list.drop_last();
        lemma_filter_keeps(front, keep);
        let sieved = list.filter(keep);
        let rest = front.filter(keep);
        assert forall|k: int| 0 <= k < sieved.len() implies keep(#[trigger] sieved[k]) && list.contains(sieved[k]) by {
            if k < rest.len() {
                assert(sieved[k] == rest[k]);
                let i = choose|i: int| 0 <= i < front.len() && front[i] == rest[k];
                assert(list[i] == sieved[k]);
            } else {
                assert(list[list.len() - 1] == sieved[k]);
            }
        }
        if list.no_duplicates() {
            assert(front.no_duplicates());
            assert forall|i: int, j: int| 0 <= i < j < sieved.len() implies sieved[i] != sieved[j] by {
                assert(sieved[i] == rest[i]);
                if j == rest.len() {
                    let k = choose|k: int| 0 <= k < front.len() && front[k] == rest[i];
                    assert(list[k] == sieved[i]);
                }
            }
        }
    }
}

/// Asking for candidates keeps the state sound, and each of them can be laid.
proof fn lemma_candidates_sound(quest: Quest, alphabet_max: i32, state: Progress, idx: int)
    requires
        quest_wf(quest, alphabet_max),
        sound(quest, state),
        0 <= idx < quest.links.len(),
    ensures
        ({
            let (after, candidates) = candidates_of(quest, state, idx);
            &&& sound(quest, after)
            &&& candidates.no_duplicates()
            &&& forall|k: int|
                0 <= k < candidates.len() ==> {
                    &&& exists_in(quest.pieces, #[trigger] candidates[k])
                    &&& meets(quest.pieces, demands(quest, state.assignments, idx), candidates[k])
                    &&& state.available[candidates[k].pid as int]
                }
        }),
{
    let key = demands(quest, state.assignments, idx);
    let (after, candidates) = candidates_of(quest, state, idx);
    if state.cache[idx].key == key {
        let list = state.cache[idx].candidates;
        assert(remembered_well(quest, state.cache[idx]));
        lemma_filter_keeps(list, |p: PlacementRef| state.available[p.pid as int]);
        assert forall|k: int| 0 <= k < candidates.len() implies exists_in(quest.pieces, #[trigger] candidates[k])
            && meets(quest.pieces, key, candidates[k]) && state.available[candidates[k].pid as int] by {
            let i = choose|i: int| 0 <= i < list.len() && list[i] == candidates[k];
            assert(exists_in(quest.pieces, list[i]));
        }
    } else {
        let keep = |p: PlacementRef| state.available[p.pid as int] && meets(quest.pieces, key, p);
        let n = 6 * quest.pieces.len() as int;
        assert(candidates == placements_below(n, keep));
        lemma_placements_below(n, keep);
        assert forall|i: int, j: int| 0 <= i < j < candidates.len() implies candidates[i] != candidates[j] by {
            let p = placements_below(n, keep)[i];
            let q = placements_below(n, keep)[j];
            assert(6 * p.pid + p.rot < 6 * q.pid + q.rot);
        }
        assert forall|k: int| 0 <= k < candidates.len() implies exists_in(quest.pieces, #[trigger] candidates[k])
            && meets(quest.pieces, key, candidates[k]) && state.available[candidates[k].pid as int] by {
            assert(keep(placements_below(n, keep)[k]));
        }
        assert(remembered_well(quest, Remembered { key, candidates }));
    }
}

/// Whether `candidates` are candidates of a cell: available, with the demands
/// met, none twice. Whether `after` differs from `state` in what is remembered
/// alone, and gives the same list again.
pub open spec fn lists_candidates(
    quest: Quest,
    state: Progress,
    idx: int,
    after: Progress,
    candidates: Seq<PlacementRef>,
) -> bool {
    &&& sound(quest, after)
    &&& candidates.no_duplicates()
    &&& forall|k: int|
        0 <= k < candidates.len() ==> {
            &&& exists_in(quest.pieces, #[trigger] candidates[k])
            &&& meets(quest.pieces, demands(quest, state.assignments, idx), candidates[k])
            &&& state.available[candidates[k].pid as int]
        }
    &&& after.assignments == state.assignments
    &&& after.available == state.available
    &&& after.nodes == state.nodes
    &&& after.found == state.found
    &&& candidates_of(quest, after, idx) == (after, candidates)
}

/// The candidates of a cell in any state of a search are available and meet
/// its demands, none of them is listed twice, and asking for them changes
/// nothing but what is remembered. Asking again gives the same list.
pub proof fn law_candidates(quest: Quest, alphabet_max: i32, state: Progress, idx: int)
    requires
        quest_wf(quest, alphabet_max),
        sound(quest, state),
        0 <= idx < quest.links.len(),
    ensures
        lists_candidates(quest, state, idx, candidates_of(quest, state, idx).0, candidates_of(quest, state, idx).1),
{
    lemma_candidates_sound(quest, alphabet_max, state, idx);
    let (after, candidates) = candidates_of(quest, state, idx);
    if state.cache[idx].key != demands(quest, state.assignments, idx) {
        lemma_filter_all(candidates, |p: PlacementRef| state.available[p.pid as int]);
        assert(after.cache[idx].key == demands(quest, after.assignments, idx));
        assert(after.cache[idx].candidates == candidates);
    }
}

/// Every search starts from a sound state.
pub proof fn law_fresh_sound(quest: Quest, alphabet_max: i32)
    requires
        quest_wf(quest, alphabet_max),
    ensures
        sound(quest, fresh(quest)),
{
}

proof fn lemma_filter_all<A>(list: Seq<A>, keep: spec_fn(A) -> bool)
    requires
        forall|i: int| 0 <= i < list.len() ==> keep(#[trigger] list[i]),
    ensures
        list.filter(keep) == list,
    decreases list.len(),
{
    reveal(Seq::filter);
    if list.len() > 0 {
        let front = list.drop_last();
        assert forall|i: int| 0 <= i < front.len() implies keep(#[trigger] front[i]) by {
            assert(front[i] == list[i]);
        }
        lemma_filter_all(front, keep);
        assert(keep(list[list.len() - 1]));
        assert(front.push(list.last()) =~= list);
    }
}

/// The scan keeps the state sound; it picks a free cell, and none only if
/// none is free.
proof fn lemma_scan_sound(quest: Quest, alphabet_max: i32, state: Progress, idx: int, best: Option<(int, int)>)
    requires
        quest_wf(quest, alphabet_max),
        sound(quest, state),
        0 <= idx,
        match best {
            Some((cell, _)) => 0 <= cell < state.assignments.len() && state.assignments[cell] is None,
            None => forall|c: int| 0 <= c < idx && c < state.assignments.len() ==> (#[trigger] state.assignments[c]) is Some,
        },
    ensures
        ({
            let (after, pick) = scan_cells(quest, state, idx, best);
            &&& sound(quest, after)
            &&& match pick {
                Some((cell, _)) => 0 <= cell < state.assignments.len() && state.assignments[cell] is None,
                None => forall|c: int| 0 <= c < state.assignments.len() ==> (#[trigger] state.assignments[c]) is Some,
            }
        }),
    decreases state.assignments.len() - idx,
{
    if idx < state.assignments.len() {
        if state.assignments[idx] is Some {
            lemma_scan_sound(quest, alphabet_max, state, idx + 1, best);
        } else {
            lemma_candidates_sound(quest, alphabet_max, state, idx);
            let (after, candidates) = candidates_of(quest, state, idx);
            let count = candidates.len() as int;
            let next = match best {
                Some((_, fewest)) => if count < fewest {
                    Some((idx, count))
                } else {
                    best
                },
                None => Some((idx, count)),
            };
            if count > 1 {
                lemma_scan_sound(quest, alphabet_max, after, idx + 1, next);
            }
        }
    }
}

/// Whether `found` accounts for the solutions counted between two states.
spec fn accounts(quest: Quest, board: Seq<Option<PlacementRef>>, found: Seq<Seq<Option<PlacementRef>>>, before: int, after: int) -> bool {
    &&& after == before + found.len()
    &&& found.no_duplicates()
    &&& forall|i: int| 0 <= i < found.len() ==> solves(quest, #[trigger] found[i]) && continues(board, found[i])
}

proof fn lemma_explore_sound(quest: Quest, alphabet_max: i32, state: Progress, used_false: bool) -> (found: Seq<
    Seq<Option<PlacementRef>>,
>)
    requires
        quest_wf(quest, alphabet_max),
        sound(quest, state),
        used_false ==> uses_false(quest, state.assignments),
        0 <= state.nodes <= quest.node_cap,
        0 <= state.found <= quest.solution_limit,
    ensures
        ({
            let after = explore(quest, state, used_false);
            &&& sound(quest, after)
            &&& state.nodes <= after.nodes <= quest.node_cap
            &&& after.found <= quest.solution_limit
            &&& accounts(quest, state.assignments, found, state.found, after.found)
        }),
    decreases open_cells(state.assignments), 1int, 0int,
{
    if state.nodes >= quest.node_cap || state.found >= quest.solution_limit {
        Seq::empty()
    } else {
        lemma_scan_keeps(quest, state, 0, None);
        lemma_scan_sound(quest, alphabet_max, state, 0, None);
        let (scanned, pick) = scan_cells(quest, state, 0, None);
        match pick {
            None => if quest.require_false && !used_false {
                Seq::empty()
            } else {
                assert(solves(quest, state.assignments));
                seq![state.assignments]
            },
            Some((idx, _)) => {
                lemma_candidates_sound(quest, alphabet_max, scanned, idx);
                let (asked, candidates) = candidates_of(quest, scanned, idx);
                lemma_lay_sound(quest, alphabet_max, asked, idx, candidates, 0, used_false)
            },
        }
    }
}

proof fn lemma_lay_sound(
    quest: Quest,
    alphabet_max: i32,
    state: Progress,
    idx: int,
    candidates: Seq<PlacementRef>,
    i: int,
    used_false: bool,
) -> (found: Seq<Seq<Option<PlacementRef>>>)
    requires
        quest_wf(quest, alphabet_max),
        sound(quest, state),
        used_false ==> uses_false(quest, state.assignments),
        0 <= state.nodes <= quest.node_cap,
        0 <= state.found <= quest.solution_limit,
        0 <= idx < state.assignments.len(),
        state.assignments[idx] is None,
        0 <= i <= candidates.len(),
        candidates.no_duplicates(),
        forall|k: int|
            0 <= k < candidates.len() ==> {
                &&& exists_in(quest.pieces, #[trigger] candidates[k])
                &&& meets(quest.pieces, demands(quest, state.assignments, idx), candidates[k])
                &&& state.available[candidates[k].pid as int]
            },
    ensures
        ({
            let after = lay_from(quest, state, idx, candidates, i, used_false);
            &&& sound(quest, after)
            &&& state.nodes <= after.nodes <= quest.node_cap
            &&& after.found <= quest.solution_limit
            &&& accounts(quest, state.assignments, found, state.found, after.found)
            &&& forall|k: int|
                0 <= k < found.len() ==> exists|j: int|
                    i <= j < candidates.len() && (#[trigger] found[k])[idx] == Some(#[trigger] candidates[j])
        }),
    decreases open_cells(state.assignments), 0int, candidates.len() - i,
{
    if i >= candidates.len() || state.nodes >= quest.node_cap || state.found >= quest.solution_limit {
        Seq::empty()
    } else {
        let p = candidates[i];
        let under = laid(state, idx, p);
        let next_used = used_false || is_false_piece(quest.pieces, p.pid as int);
        lemma_open_cells_update(state.assignments, idx, p);
        lemma_lies_well_step(quest, alphabet_max, state.assignments, idx, p);
        assert(sound(quest, under)) by {
            assert forall|c: int|
                0 <= c < under.assignments.len() && (#[trigger] under.assignments[c]) is Some implies !under.available[under.assignments[c]->0.pid as int] by {
                if c != idx {
                    assert(state.assignments[c] is Some);
                }
            }
        }
        if next_used {
            assert(uses_false(quest, under.assignments)) by {
                if used_false {
                    let c = choose|c: int|
                        0 <= c < state.assignments.len() && (#[trigger] state.assignments[c]) is Some && is_false_piece(
                            quest.pieces,
                            state.assignments[c]->0.pid as int,
                        );
                    assert(under.assignments[c] is Some);
                } else {
                    assert(under.assignments[idx] is Some);
                }
            }
        }
        let first = lemma_explore_sound(quest, alphabet_max, under, next_used);
        let below = explore(quest, under, next_used);
        let next = Progress { assignments: state.assignments, available: state.available, ..below };
        let rest = lemma_lay_sound(quest, alphabet_max, next, idx, candidates, i + 1, used_false);
        let found = first + rest;
        lemma_accounts_joined(quest, state, idx, p, candidates, i, first, rest);
        assert forall|k: int| 0 <= k < found.len() implies exists|j: int|
            i <= j < candidates.len() && (#[trigger] found[k])[idx] == Some(#[trigger] candidates[j]) by {
            if k < first.len() {
                assert(found[k] == first[k]);
                assert(under.assignments[idx] == Some(p));
                assert(found[k][idx] == Some(candidates[i]));
            } else {
                assert(found[k] == rest[k - first.len()]);
            }
        }
        found
    }
}

/// Solutions with `p` on a cell and solutions with something else there are
/// different.
proof fn lemma_accounts_joined(
    quest: Quest,
    state: Progress,
    idx: int,
    p: PlacementRef,
    candidates: Seq<PlacementRef>,
    i: int,
    first: Seq<Seq<Option<PlacementRef>>>,
    rest: Seq<Seq<Option<PlacementRef>>>,
)
    requires
        0 <= idx < state.assignments.len(),
        state.assignments[idx] is None,
        0 <= i < candidates.len(),
        candidates[i] == p,
        candidates.no_duplicates(),
        first.no_duplicates(),
        rest.no_duplicates(),
        forall|k: int|
            0 <= k < first.len() ==> solves(quest, #[trigger] first[k]) && continues(
                laid(state, idx, p).assignments,
                first[k],
            ),
        forall|k: int|
            0 <= k < rest.len() ==> solves(quest, #[trigger] rest[k]) && continues(state.assignments, rest[k]),
        forall|k: int|
            0 <= k < rest.len() ==> exists|j: int|
                i + 1 <= j < candidates.len() && (#[trigger] rest[k])[idx] == Some(#[trigger] candidates[j]),
    ensures
        (first + rest).no_duplicates(),
        forall|k: int|
            0 <= k < (first + rest).len() ==> solves(quest, #[trigger] (first + rest)[k]) && continues(
                state.assignments,
                (first + rest)[k],
            ),
{
    let found = first + rest;
    let under = laid(state, idx, p).assignments;
    assert forall|k: int| 0 <= k < first.len() implies (#[trigger] first[k])[idx] == Some(p) by {
        assert(under[idx] == Some(p));
    }
    assert forall|k: int| 0 <= k < rest.len() implies (#[trigger] rest[k])[idx] != Some(p) by {
        let j = choose|j: int|
            i + 1 <= j < candidates.len() && rest[k][idx] == Some(#[trigger] candidates[j]);
        assert(candidates[j] != candidates[i]);
    }
    assert forall|k: int| 0 <= k < found.len() implies solves(quest, #[trigger] found[k]) && continues(
        state.assignments,
        found[k],
    ) by {
        if k < first.len() {
            assert(found[k] == first[k]);
            assert forall|c: int|
                0 <= c < state.assignments.len() && (#[trigger] state.assignments[c]) is Some implies found[k][c] == state.assignments[c] by {
                assert(under[c] == state.assignments[c]);
            }
        } else {
            assert(found[k] == rest[k - first.len()]);
        }
    }
    assert forall|k: int, m: int| 0 <= k < m < found.len() implies found[k] != found[m] by {
        if m < first.len() {
            assert(found[k] == first[k] && found[m] == first[m]);
        } else if k < first.len() {
            assert(found[k] == first[k] && found[m] == rest[m - first.len()]);
            assert(first[k][idx] == Some(p));
            assert(rest[m - first.len()][idx] != Some(p));
        } else {
            assert(found[k] == rest[k - first.len()] && found[m] == rest[m - first.len()]);
        }
    }
}

/// A search that starts afresh stays within its limits, and there are at
/// least as many different solutions as it counts.
pub proof fn law_trial_search(quest: Quest, alphabet_max: i32)
    requires
        links_in_range(quest.links),
        links_mutual(quest.links),
        within_alphabet(quest.pieces, alphabet_max),
        quest.pieces.len() <= usize::MAX,
        quest.links.len() <= usize::MAX,
        0 <= quest.node_cap,
        0 <= quest.solution_limit,
    ensures
        ({
            let after = explore(quest, fresh(quest), false);
            &&& 0 <= after.nodes <= quest.node_cap
            &&& 0 <= after.found <= quest.solution_limit
            &&& exists|found: Seq<Seq<Option<PlacementRef>>>| #[trigger]
                found.no_duplicates() && found.len() == after.found && (forall|i: int|
                    0 <= i < found.len() ==> solves(quest, #[trigger] found[i]))
        }),
{
    let start = fresh(quest);
    assert(sound(quest, start));
    let found = lemma_explore_sound(quest, alphabet_max, start, false);
    assert(found.no_duplicates());
}

/// Every true piece on its own cell, unturned.
pub open spec fn identity(n: nat) -> Seq<Option<PlacementRef>> {
    Seq::new(n, |c: int| Some(PlacementRef { pid: c as usize, rot: 0 }))
}

/// The true pieces solve their board: each lies unturned on its own cell.
pub proof fn law_true_pieces_solve(quest: Quest, plan: Numbering, pieces: Seq<Piece>, used: int)
    requires
        quest.links.len() <= usize::MAX,
        links_in_range(quest.links),
        links_mutual(quest.links),
        made_true_pieces(quest.links, plan, pieces, used),
        pieces.len() <= quest.pieces.len(),
        forall|i: int| 0 <= i < pieces.len() ==> pieces[i] == #[trigger] quest.pieces[i],
        !quest.require_false,
    ensures
        pieces.len() == quest.links.len(),
        solves(quest, identity(quest.links.len())),
{
    let links = quest.links;
    let a = identity(links.len());
    let (edges, tree, is_tree, choices, ids, rows) = choose|
        edges: Seq<Edge>,
        tree: Seq<Edge>,
        is_tree: Seq<bool>,
        choices: Seq<EdgeChoice>,
        ids: Seq<i32>,
        rows: Seq<[i32; 6]>,
    | #[trigger]
        numbered_pieces(links, plan, pieces, used, edges, tree, is_tree, choices, ids, rows);
    assert forall|c: int, dir: int| 0 <= c < links.len() && 0 <= dir < 6 implies #[trigger] shown(
        quest.pieces,
        a[c]->0,
        dir,
    ) == rows[c]@[dir] by {
        assert(quest.pieces[c] == pieces[c]);
        assert(pieces[c].edges == rows[c]);
        assert((dir - 0) % 6 == dir);
    }
    assert forall|c: int, dir: int| 0 <= c < a.len() && 0 <= dir < 6 implies #[trigger] agrees(quest, a, c, dir) by {
        assert(shown(quest.pieces, a[c]->0, dir) == rows[c]@[dir]);
        if let Some(nb) = links[c]@[dir] {
            let back = opposite(dir);
            lemma_edge_back(links, (c as usize, nb, dir as usize));
            assert(shown(quest.pieces, a[nb as int]->0, back) == rows[nb as int]@[back]);
            let e = if c < nb {
                (c as usize, nb, dir as usize)
            } else {
                (nb, c as usize, back as usize)
            };
            assert(opposite(back) == dir);
            assert(joins(links, e) && is_forward(e));
            let k = choose|k: int| 0 <= k < edges.len() && edges[k] == e;
            assert(shows_edge(rows, edges[k], ids[k]));
        }
    }
    assert(solves(quest, a));
}

} // verus!
