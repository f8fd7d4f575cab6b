//! The placement solver: does a set of pieces fill a board, and in how many
//! ways?

use crate::ascending::{lemma_select_below, lemma_select_below_ext, lemma_sieved, lists_ascending, select_below, sieved};
use crate::generator::Piece;
use crate::grid::{leads_back, opposite, opposite_dir, rotate_edges, rotated, Board};
use crate::search::{
    anchored_search, blank, complete, decoy_used, demand, describe, existence_config, existence_outcome, fits,
    free_cells, has_decoy, is_decoy, is_tightest, lemma_free_cells_update, lemma_tightest_unique, open_at,
    open_candidates, ordered, placement_count, placement_edge, rim_fits, search, structural, try_from,
    uniqueness_outcome, used, SearchConfig, Tally, MAX_ANCHOR_ATTEMPTS,
};
use vstd::prelude::*;

verus! {

/// A placed piece of a found solution.
#[derive(Clone, Debug)]
pub struct WitnessEntry {
    pub q: i32,
    pub r: i32,
    pub piece_id: usize,
    pub rot: usize,
}

/// What a solver run found.
#[derive(Clone, Debug)]
pub struct SolverResult {
    pub nodes: u64,
    pub aborted: bool,
    pub solutions: usize,
    pub witness: Option<Vec<WitnessEntry>>,
}

struct Solver<'a> {
    board: &'a Board,
    total_alphabet: i32,
    placement_edges: Vec<[i32; 6]>,
    placement_piece: Vec<usize>,
    placement_is_decoy: Vec<bool>,
    placement_rot: Vec<usize>,
    postings: Vec<Vec<Vec<usize>>>,
    all_placements: Vec<usize>,
    has_decoys: bool,
}

struct SolverState {
    assigned: Vec<Option<usize>>,
    used_piece: Vec<bool>,
    dirty: Vec<bool>,
    cache: Vec<Vec<usize>>,
    decoy_used: bool,
}

/// The pieces and the alphabet are ones that the solver can index.
pub open spec fn solvable_input(pieces: Seq<Piece>, total_alphabet: i32) -> bool {
    &&& 0 <= total_alphabet
    &&& 2 * total_alphabet + 1 <= i32::MAX
    &&& forall|p: int, dir: int|
        0 <= p < pieces.len() && 0 <= dir < 6 ==> (#[trigger] pieces[p].edges@[dir]) > i32::MIN
}

/// Whether `value` has postings: it lies within the alphabet.
spec fn posted(value: int, total_alphabet: i32) -> bool {
    -total_alphabet <= value <= total_alphabet
}

impl<'a> Solver<'a> {
    /// The placement tables list what `pieces` shows.
    spec fn tables_wf(&self, pieces: Seq<Piece>) -> bool {
        &&& self.placement_edges.len() == placement_count(pieces)
        &&& self.placement_piece.len() == placement_count(pieces)
        &&& self.placement_is_decoy.len() == placement_count(pieces)
        &&& self.placement_rot.len() == placement_count(pieces)
        &&& forall|pl: int, dir: int|
            0 <= pl < placement_count(pieces) && 0 <= dir < 6 ==> #[trigger] self.placement_edges@[pl]@[dir]
                == placement_edge(pieces, pl, dir)
        &&& forall|pl: int, dir: int|
            0 <= pl < placement_count(pieces) && 0 <= dir < 6 ==> #[trigger] placement_edge(pieces, pl, dir)
                > i32::MIN
        &&& forall|pl: int| 0 <= pl < placement_count(pieces) ==> #[trigger] self.placement_piece@[pl] == pl / 6
        &&& forall|pl: int|
            0 <= pl < placement_count(pieces) ==> #[trigger] self.placement_is_decoy@[pl] == is_decoy(pieces, pl)
        &&& forall|pl: int| 0 <= pl < placement_count(pieces) ==> #[trigger] self.placement_rot@[pl] == pl % 6
    }

    spec fn wf(&self, pieces: Seq<Piece>) -> bool {
        &&& self.board.wf()
        &&& solvable_input(pieces, self.total_alphabet)
        &&& self.tables_wf(pieces)
        &&& postings_wf(self.postings@, pieces, self.total_alphabet, placement_count(pieces) as int)
        &&& lists_ascending(self.all_placements@, placement_count(pieces) as int, |pl: int| true)
        &&& self.has_decoys == has_decoy(pieces)
    }
}

/// `postings[dir][v]` lists those of the first `n` placements that show the
/// value `v - total_alphabet` in direction `dir`.
spec fn postings_wf(postings: Seq<Vec<Vec<usize>>>, pieces: Seq<Piece>, total_alphabet: i32, n: int) -> bool {
    &&& postings.len() == 6
    &&& forall|dir: int| 0 <= dir < 6 ==> (#[trigger] postings[dir])@.len() == 2 * total_alphabet + 1
    &&& forall|dir: int, v: int|
        0 <= dir < 6 && 0 <= v < 2 * total_alphabet + 1 ==> lists_ascending(
            (#[trigger] postings[dir]@[v])@,
            n,
            |pl: int| placement_edge(pieces, pl, dir) == v - total_alphabet,
        )
}

fn value_index(value: i32, total_alphabet: i32) -> (index: usize)
    requires
        0 <= total_alphabet,
        2 * total_alphabet + 1 <= i32::MAX,
        posted(value as int, total_alphabet),
    ensures
        index == value + total_alphabet,
{
    (value + total_alphabet) as usize
}

impl<'a> Solver<'a> {
    fn new(board: &'a Board, pieces: &[Piece], total_alphabet: i32) -> (solver: Self)
        requires
            board.wf(),
            solvable_input(pieces@, total_alphabet),
        ensures
            solver.wf(pieces@),
            solver.board == board,
    {
        let mut placement_edges: Vec<[i32; 6]> = Vec::new();
        let mut placement_piece: Vec<usize> = Vec::new();
        let mut placement_is_decoy: Vec<bool> = Vec::new();
        let mut placement_rot: Vec<usize> = Vec::new();
        let mut has_decoys: bool = false;
        for piece_idx in 0..pieces.len()
            invariant
                solvable_input(pieces@, total_alphabet),
                placement_edges.len() == 6 * piece_idx,
                placement_piece.len() == 6 * piece_idx,
                placement_is_decoy.len() == 6 * piece_idx,
                placement_rot.len() == 6 * piece_idx,
                has_decoys == exists|p: int| 0 <= p < piece_idx && !(#[trigger] pieces@[p]).is_true,
                forall|pl: int|
                    #![trigger placement_edges@[pl]]
                    0 <= pl < 6 * piece_idx ==> placement_edges@[pl]@ == rotated(
                        pieces@[pl / 6].edges@,
                        pl % 6,
                    ),
                forall|pl: int| 0 <= pl < 6 * piece_idx ==> #[trigger] placement_piece@[pl] == pl / 6,
                forall|pl: int|
                    0 <= pl < 6 * piece_idx ==> #[trigger] placement_is_decoy@[pl] == is_decoy(pieces@, pl),
                forall|pl: int| 0 <= pl < 6 * piece_idx ==> #[trigger] placement_rot@[pl] == pl % 6,
        {
            let piece: &Piece = &pieces[piece_idx];
            if !piece.is_true {
                has_decoys = true;
                assert(!pieces@[piece_idx as int].is_true);
            }
            for rot in 0..6usize
                invariant
                    piece_idx < pieces.len(),
                    *piece == pieces@[piece_idx as int],
                    placement_edges.len() == 6 * piece_idx + rot,
                    placement_piece.len() == 6 * piece_idx + rot,
                    placement_is_decoy.len() == 6 * piece_idx + rot,
                    placement_rot.len() == 6 * piece_idx + rot,
                    forall|pl: int|
                        #![trigger placement_edges@[pl]]
                        0 <= pl < 6 * piece_idx + rot ==> placement_edges@[pl]@ == rotated(
                            pieces@[pl / 6].edges@,
                            pl % 6,
                        ),
                    forall|pl: int| 0 <= pl < 6 * piece_idx + rot ==> #[trigger] placement_piece@[pl] == pl / 6,
                    forall|pl: int|
                        0 <= pl < 6 * piece_idx + rot ==> #[trigger] placement_is_decoy@[pl] == is_decoy(
                            pieces@,
                            pl,
                        ),
                    forall|pl: int| 0 <= pl < 6 * piece_idx + rot ==> #[trigger] placement_rot@[pl] == pl % 6,
            {
                placement_edges.push(rotate_edges(&piece.edges, rot));
                placement_piece.push(piece_idx);
                placement_is_decoy.push(!piece.is_true);
                placement_rot.push(rot);
            }
        }
        proof {
            lemma_placement_edges_in_range(pieces@, total_alphabet);
        }
        let ghost count = placement_count(pieces@) as int;
        let range: usize = (2 * total_alphabet + 1) as usize;
        let mut postings: Vec<Vec<Vec<usize>>> = empty_postings(range);
        proof {
            lemma_postings_start(postings@, pieces@, total_alphabet);
        }
        for idx in 0..placement_edges.len()
            invariant
                solvable_input(pieces@, total_alphabet),
                placement_edges.len() == placement_count(pieces@),
                forall|pl: int, dir: int|
                    0 <= pl < placement_count(pieces@) && 0 <= dir < 6 ==> #[trigger] placement_edges@[pl]@[dir]
                        == placement_edge(pieces@, pl, dir),
                forall|pl: int, dir: int|
                    0 <= pl < placement_count(pieces@) && 0 <= dir < 6 ==> #[trigger] placement_edge(
                        pieces@,
                        pl,
                        dir,
                    ) > i32::MIN,
                postings_wf(postings@, pieces@, total_alphabet, idx as int),
        {
            let edges: [i32; 6] = placement_edges[idx];
            for dir in 0..6usize
                invariant
                    solvable_input(pieces@, total_alphabet),
                    idx < placement_edges.len(),
                    placement_edges.len() == placement_count(pieces@),
                    forall|d: int| 0 <= d < 6 ==> #[trigger] edges@[d] == placement_edge(pieces@, idx as int, d),
                    forall|d: int| 0 <= d < 6 ==> #[trigger] edges@[d] > i32::MIN,
                    postings.len() == 6,
                    forall|d: int| 0 <= d < 6 ==> (#[trigger] postings@[d])@.len() == 2 * total_alphabet + 1,
                    forall|d: int, v: int|
                        0 <= d < 6 && 0 <= v < 2 * total_alphabet + 1 ==> lists_ascending(
                            (#[trigger] postings@[d]@[v])@,
                            idx + (if d < dir {
                                1int
                            } else {
                                0
                            }),
                            |pl: int| placement_edge(pieces@, pl, d) == v - total_alphabet,
                        ),
            {
                let val: i32 = edges[dir];
                let ghost past = postings@;
                if -total_alphabet <= val && val <= total_alphabet {
                    let v: usize = value_index(val, total_alphabet);
                    postings[dir][v].push(idx);
                    proof {
                        lemma_posting_pushed(past[dir as int]@[v as int]@, pieces@, total_alphabet, idx, dir as int, v as int);
                    }
                }
                assert forall|d: int, v: int|
                    0 <= d < 6 && 0 <= v < 2 * total_alphabet + 1 implies lists_ascending(
                    (#[trigger] postings@[d]@[v])@,
                    idx + (if d < dir + 1 {
                        1int
                    } else {
                        0
                    }),
                    |pl: int| placement_edge(pieces@, pl, d) == v - total_alphabet,
                ) by {
                    if d == dir && v != val + total_alphabet {
                        assert(postings@[d]@[v]@ == past[d]@[v]@);
                        lemma_posting_skipped(past[d]@[v]@, pieces@, total_alphabet, idx, d, v);
                    }
                }
            }
        }
        let mut all_placements: Vec<usize> = Vec::new();
        for pl in 0..placement_edges.len()
            invariant
                all_placements.len() == pl,
                forall|i: int| 0 <= i < pl ==> #[trigger] all_placements@[i] == i,
        {
            all_placements.push(pl);
        }
        assert(lists_ascending(all_placements@, count, |pl: int| true)) by {
            let keep = |pl: int| true;
            assert forall|x: int| 0 <= x < count && #[trigger] keep(x) implies all_placements@.contains(
                x as usize,
            ) by {
                assert(all_placements@[x] == x);
            }
        }
        Self {
            board,
            total_alphabet,
            placement_edges,
            placement_piece,
            placement_is_decoy,
            placement_rot,
            postings,
            all_placements,
            has_decoys,
        }
    }
}

/// Six empty posting lists for each of `range` values.
fn empty_postings(range: usize) -> (postings: Vec<Vec<Vec<usize>>>)
    ensures
        postings.len() == 6,
        forall|dir: int| 0 <= dir < 6 ==> (#[trigger] postings@[dir])@.len() == range,
        forall|dir: int, v: int|
            0 <= dir < 6 && 0 <= v < range ==> (#[trigger] postings@[dir]@[v])@ == Seq::<usize>::empty(),
{
    let mut postings: Vec<Vec<Vec<usize>>> = Vec::new();
    for dir in 0..6usize
        invariant
            postings.len() == dir,
            forall|d: int| 0 <= d < dir ==> (#[trigger] postings@[d])@.len() == range,
            forall|d: int, v: int|
                0 <= d < dir && 0 <= v < range ==> (#[trigger] postings@[d]@[v])@ == Seq::<usize>::empty(),
    {
        let mut lists: Vec<Vec<usize>> = Vec::new();
        for v in 0..range
            invariant
                lists.len() == v,
                forall|w: int| 0 <= w < v ==> (#[trigger] lists@[w])@ == Seq::<usize>::empty(),
        {
            lists.push(Vec::new());
        }
        postings.push(lists);
    }
    postings
}

proof fn lemma_placement_edges_in_range(pieces: Seq<Piece>, total_alphabet: i32)
    requires
        solvable_input(pieces, total_alphabet),
    ensures
        forall|pl: int, dir: int|
            0 <= pl < placement_count(pieces) && 0 <= dir < 6 ==> #[trigger] placement_edge(pieces, pl, dir)
                > i32::MIN,
{
    assert forall|pl: int, dir: int|
        0 <= pl < placement_count(pieces) && 0 <= dir < 6 implies #[trigger] placement_edge(pieces, pl, dir)
        > i32::MIN by {
        assert(pieces[pl / 6].edges@[(dir + pl % 6) % 6] > i32::MIN);
    }
}

proof fn lemma_postings_start(postings: Seq<Vec<Vec<usize>>>, pieces: Seq<Piece>, total_alphabet: i32)
    requires
        postings.len() == 6,
        forall|dir: int| 0 <= dir < 6 ==> (#[trigger] postings[dir])@.len() == 2 * total_alphabet + 1,
        forall|dir: int, v: int|
            0 <= dir < 6 && 0 <= v < 2 * total_alphabet + 1 ==> (#[trigger] postings[dir]@[v])@ == Seq::<
                usize,
            >::empty(),
    ensures
        postings_wf(postings, pieces, total_alphabet, 0),
{
}

proof fn lemma_posting_pushed(
    list: Seq<usize>,
    pieces: Seq<Piece>,
    total_alphabet: i32,
    idx: usize,
    dir: int,
    v: int,
)
    requires
        lists_ascending(list, idx as int, |pl: int| placement_edge(pieces, pl, dir) == v - total_alphabet),
        placement_edge(pieces, idx as int, dir) == v - total_alphabet,
    ensures
        lists_ascending(
            list.push(idx),
            idx + 1,
            |pl: int| placement_edge(pieces, pl, dir) == v - total_alphabet,
        ),
{
    let keep = |pl: int| placement_edge(pieces, pl, dir) == v - total_alphabet;
    let after = list.push(idx);
    assert forall|x: int| 0 <= x < idx + 1 && #[trigger] keep(x) implies after.contains(x as usize) by {
        if x < idx {
            assert(list.contains(x as usize));
            let i = choose|i: int| 0 <= i < list.len() && list[i] == x as usize;
            assert(after[i] == x as usize);
        } else {
            assert(after[list.len() as int] == x as usize);
        }
    }
}

proof fn lemma_posting_skipped(
    list: Seq<usize>,
    pieces: Seq<Piece>,
    total_alphabet: i32,
    idx: usize,
    dir: int,
    v: int,
)
    requires
        lists_ascending(list, idx as int, |pl: int| placement_edge(pieces, pl, dir) == v - total_alphabet),
        placement_edge(pieces, idx as int, dir) != v - total_alphabet,
    ensures
        lists_ascending(list, idx + 1, |pl: int| placement_edge(pieces, pl, dir) == v - total_alphabet),
{
}


/// No piece lies on two cells.
pub open spec fn pieces_distinct(assigned: Seq<Option<usize>>) -> bool {
    forall|c: int, e: int|
        0 <= c < assigned.len() && 0 <= e < assigned.len() && c != e && (#[trigger] assigned[c]) is Some && (
        #[trigger] assigned[e]) is Some ==> assigned[c]->0 / 6 != assigned[e]->0 / 6
}

impl<'a> Solver<'a> {
    /// The state describes the partly filled board, but for the decoy flag;
    /// a cell that is not dirty has its fitting placements cached.
    spec fn board_state_wf(&self, pieces: Seq<Piece>, state: SolverState) -> bool {
        &&& state.assigned.len() == self.board.cells.len()
        &&& state.used_piece.len() == pieces.len()
        &&& state.dirty.len() == self.board.cells.len()
        &&& state.cache.len() == self.board.cells.len()
        &&& forall|c: int|
            0 <= c < state.assigned.len() && (#[trigger] state.assigned@[c]) is Some ==> state.assigned@[c]->0
                < placement_count(pieces)
        &&& pieces_distinct(state.assigned@)
        &&& forall|p: int| 0 <= p < pieces.len() ==> #[trigger] state.used_piece@[p] == used(state.assigned@, p)
        &&& forall|c: int|
            0 <= c < state.cache.len() && !(#[trigger] state.dirty@[c]) ==> state.cache@[c]@ == structural(
                *self.board,
                pieces,
                state.assigned@,
                c,
            )
    }

    spec fn state_wf(&self, pieces: Seq<Piece>, state: SolverState) -> bool {
        &&& self.board_state_wf(pieces, state)
        &&& state.decoy_used == decoy_used(pieces, state.assigned@)
    }

    fn initial_state(&self, Ghost(pieces): Ghost<Seq<Piece>>, piece_count: usize) -> (state: SolverState)
        requires
            piece_count == pieces.len(),
        ensures
            self.state_wf(pieces, state),
            state.assigned@ == blank(*self.board),
    {
        let n: usize = self.board.cell_count();
        let mut assigned: Vec<Option<usize>> = Vec::new();
        let mut dirty: Vec<bool> = Vec::new();
        let mut cache: Vec<Vec<usize>> = Vec::new();
        for c in 0..n
            invariant
                assigned.len() == c,
                dirty.len() == c,
                cache.len() == c,
                forall|i: int| 0 <= i < c ==> (#[trigger] assigned@[i]) is None,
                forall|i: int| 0 <= i < c ==> #[trigger] dirty@[i],
        {
            assigned.push(None);
            dirty.push(true);
            cache.push(Vec::new());
        }
        let mut used_piece: Vec<bool> = Vec::new();
        for p in 0..piece_count
            invariant
                used_piece.len() == p,
                forall|i: int| 0 <= i < p ==> !#[trigger] used_piece@[i],
        {
            used_piece.push(false);
        }
        assert(assigned@ =~= blank(*self.board));
        SolverState { assigned, used_piece, dirty, cache, decoy_used: false }
    }

    /// Marks a cell and its neighbours for recomputation.
    fn mark_dirty(&self, state: &mut SolverState, cell: usize)
        requires
            self.board.wf(),
            cell < self.board.cells.len(),
            old(state).dirty.len() == self.board.cells.len(),
        ensures
            final(state).assigned == old(state).assigned,
            final(state).used_piece == old(state).used_piece,
            final(state).cache == old(state).cache,
            final(state).decoy_used == old(state).decoy_used,
            final(state).dirty.len() == old(state).dirty.len(),
            forall|c: int|
                0 <= c < final(state).dirty.len() ==> #[trigger] final(state).dirty@[c] == (old(state).dirty@[c]
                    || c == cell || exists|dir: int|
                    0 <= dir < 6 && #[trigger] self.board.neighbors@[cell as int]@[dir] == Some(c as usize)),
    {
        let ghost start = *state;
        state.dirty[cell] = true;
        for dir in 0..6usize
            invariant
                self.board.wf(),
                cell < self.board.cells.len(),
                state.assigned == start.assigned,
                state.used_piece == start.used_piece,
                state.cache == start.cache,
                state.decoy_used == start.decoy_used,
                state.dirty.len() == start.dirty.len(),
                start.dirty.len() == self.board.cells.len(),
                forall|c: int|
                    0 <= c < state.dirty.len() ==> #[trigger] state.dirty@[c] == (start.dirty@[c] || c == cell
                        || exists|d: int|
                        0 <= d < dir && #[trigger] self.board.neighbors@[cell as int]@[d] == Some(c as usize)),
        {
            let ghost past = *state;
            if let Some(nb) = self.board.neighbors[cell][dir] {
                state.dirty[nb] = true;
                assert(self.board.neighbors@[cell as int]@[dir as int] == Some(nb));
            }
            assert forall|c: int| 0 <= c < state.dirty.len() implies #[trigger] state.dirty@[c] == (
            start.dirty@[c] || c == cell || exists|d: int|
                0 <= d < dir + 1 && #[trigger] self.board.neighbors@[cell as int]@[d] == Some(c as usize)) by {
                if exists|d: int|
                    0 <= d < dir && #[trigger] self.board.neighbors@[cell as int]@[d] == Some(c as usize) {
                    assert(past.dirty@[c]);
                    assert(state.dirty@[c]);
                }
            }
        }
    }

    fn place(&self, Ghost(pieces): Ghost<Seq<Piece>>, state: &mut SolverState, cell: usize, placement: usize)
        requires
            self.wf(pieces),
            self.board_state_wf(pieces, *old(state)),
            cell < self.board.cells.len(),
            old(state).assigned@[cell as int] is None,
            placement < placement_count(pieces),
            !used(old(state).assigned@, placement as int / 6),
        ensures
            self.board_state_wf(pieces, *final(state)),
            final(state).assigned@ == old(state).assigned@.update(cell as int, Some(placement)),
            final(state).decoy_used == old(state).decoy_used,
    {
        let ghost start = *state;
        state.assigned[cell] = Some(placement);
        let piece_idx: usize = self.placement_piece[placement];
        state.used_piece[piece_idx] = true;
        self.mark_dirty(state, cell);
        proof {
            self.lemma_reassigned(pieces, start, *state, cell as int);
            assert(state.assigned@[cell as int] == Some(placement));
            assert forall|p: int| 0 <= p < pieces.len() implies #[trigger] state.used_piece@[p] == used(
                state.assigned@,
                p,
            ) by {
                assert(start.used_piece@[p] == used(start.assigned@, p));
                if used(start.assigned@, p) {
                    let c = choose|c: int|
                        0 <= c < start.assigned.len() && (#[trigger] start.assigned@[c]) is Some
                            && start.assigned@[c]->0 / 6 == p;
                    assert(state.assigned@[c] == start.assigned@[c]);
                }
                if used(state.assigned@, p) && p != piece_idx {
                    let c = choose|c: int|
                        0 <= c < state.assigned.len() && (#[trigger] state.assigned@[c]) is Some
                            && state.assigned@[c]->0 / 6 == p;
                    assert(state.assigned@[c] == start.assigned@[c]);
                }
            }
            assert forall|c: int, e: int|
                0 <= c < state.assigned.len() && 0 <= e < state.assigned.len() && c != e && (
                #[trigger] state.assigned@[c]) is Some && (#[trigger] state.assigned@[e]) is Some implies
                state.assigned@[c]->0 / 6 != state.assigned@[e]->0 / 6 by {
                if c == cell {
                    assert(start.assigned@[e] == state.assigned@[e]);
                } else if e == cell {
                    assert(start.assigned@[c] == state.assigned@[c]);
                } else {
                    assert(start.assigned@[c] == state.assigned@[c]);
                    assert(start.assigned@[e] == state.assigned@[e]);
                }
            }
        }
    }

    fn unplace(&self, Ghost(pieces): Ghost<Seq<Piece>>, state: &mut SolverState, cell: usize, placement: usize)
        requires
            self.wf(pieces),
            self.board_state_wf(pieces, *old(state)),
            cell < self.board.cells.len(),
            old(state).assigned@[cell as int] == Some(placement),
        ensures
            self.board_state_wf(pieces, *final(state)),
            final(state).assigned@ == old(state).assigned@.update(cell as int, None),
            final(state).decoy_used == old(state).decoy_used,
    {
        let ghost start = *state;
        state.assigned[cell] = None;
        let piece_idx: usize = self.placement_piece[placement];
        state.used_piece[piece_idx] = false;
        self.mark_dirty(state, cell);
        proof {
            self.lemma_reassigned(pieces, start, *state, cell as int);
            assert(start.assigned@[cell as int] is Some);
            assert forall|p: int| 0 <= p < pieces.len() implies #[trigger] state.used_piece@[p] == used(
                state.assigned@,
                p,
            ) by {
                assert(start.used_piece@[p] == used(start.assigned@, p));
                if used(start.assigned@, p) && p != piece_idx {
                    let c = choose|c: int|
                        0 <= c < start.assigned.len() && (#[trigger] start.assigned@[c]) is Some
                            && start.assigned@[c]->0 / 6 == p;
                    assert(state.assigned@[c] == start.assigned@[c]);
                }
                if used(state.assigned@, p) {
                    let c = choose|c: int|
                        0 <= c < state.assigned.len() && (#[trigger] state.assigned@[c]) is Some
                            && state.assigned@[c]->0 / 6 == p;
                    assert(state.assigned@[c] == start.assigned@[c]);
                    assert(c != cell);
                }
            }
            assert forall|c: int, e: int|
                0 <= c < state.assigned.len() && 0 <= e < state.assigned.len() && c != e && (
                #[trigger] state.assigned@[c]) is Some && (#[trigger] state.assigned@[e]) is Some implies
                state.assigned@[c]->0 / 6 != state.assigned@[e]->0 / 6 by {
                assert(start.assigned@[c] == state.assigned@[c]);
                assert(start.assigned@[e] == state.assigned@[e]);
            }
        }
    }

    /// A cell that stays clean when `cell` is filled or cleared keeps its
    /// fitting placements.
    proof fn lemma_reassigned(&self, pieces: Seq<Piece>, start: SolverState, end: SolverState, cell: int)
        requires
            self.board.wf(),
            0 <= cell < self.board.cells.len(),
            start.assigned.len() == self.board.cells.len(),
            end.assigned.len() == start.assigned.len(),
            start.dirty.len() == self.board.cells.len(),
            end.dirty.len() == self.board.cells.len(),
            forall|c: int| 0 <= c < end.assigned.len() && c != cell ==> #[trigger] end.assigned@[c] == start.assigned@[c],
            end.cache == start.cache,
            start.cache.len() == self.board.cells.len(),
            forall|c: int|
                0 <= c < start.cache.len() && !(#[trigger] start.dirty@[c]) ==> start.cache@[c]@ == structural(
                    *self.board,
                    pieces,
                    start.assigned@,
                    c,
                ),
            forall|c: int|
                0 <= c < end.dirty.len() ==> #[trigger] end.dirty@[c] == (start.dirty@[c] || c == cell || exists|
                    dir: int,
                |
                    0 <= dir < 6 && #[trigger] self.board.neighbors@[cell]@[dir] == Some(c as usize)),
        ensures
            forall|c: int|
                0 <= c < end.cache.len() && !(#[trigger] end.dirty@[c]) ==> end.cache@[c]@ == structural(
                    *self.board,
                    pieces,
                    end.assigned@,
                    c,
                ),
    {
        assert forall|c: int| 0 <= c < end.cache.len() && !(#[trigger] end.dirty@[c]) implies end.cache@[c]@
            == structural(*self.board, pieces, end.assigned@, c) by {
            assert(!start.dirty@[c]);
            let board = *self.board;
            assert forall|dir: int| 0 <= dir < 6 implies #[trigger] demand(
                board,
                pieces,
                end.assigned@,
                c,
                dir,
            ) == demand(board, pieces, start.assigned@, c, dir) by {
                let link = board.neighbors@[c]@[dir];
                if link is Some {
                    if link->0 == cell {
                        assert(leads_back(board.neighbors@, c, dir));
                    }
                }
            }
            let p = |pl: int| fits(board, pieces, start.assigned@, c, pl);
            let q = |pl: int| fits(board, pieces, end.assigned@, c, pl);
            assert forall|pl: int| 0 <= pl < placement_count(pieces) implies #[trigger] p(pl) == q(pl) by {
                if p(pl) {
                    assert forall|dir: int|
                        0 <= dir < 6 && (#[trigger] demand(board, pieces, end.assigned@, c, dir)) is Some implies
                        placement_edge(pieces, pl, dir) == demand(board, pieces, end.assigned@, c, dir)->0 by {
                        assert(demand(board, pieces, start.assigned@, c, dir) is Some);
                    }
                }
                if q(pl) {
                    assert forall|dir: int|
                        0 <= dir < 6 && (#[trigger] demand(board, pieces, start.assigned@, c, dir)) is Some
                        implies placement_edge(pieces, pl, dir) == demand(
                        board,
                        pieces,
                        start.assigned@,
                        c,
                        dir,
                    )->0 by {
                        assert(demand(board, pieces, end.assigned@, c, dir) is Some);
                    }
                }
            }
            lemma_select_below_ext(placement_count(pieces), p, q);
        }
    }
}

impl<'a> Solver<'a> {
    /// What is demanded at a cell in each direction.
    fn demands(&self, Ghost(pieces): Ghost<Seq<Piece>>, cell: usize, assigned: &Vec<Option<usize>>) -> (req: [Option<
        i32,
    >; 6])
        requires
            self.wf(pieces),
            cell < self.board.cells.len(),
            assigned.len() == self.board.cells.len(),
            forall|c: int|
                0 <= c < assigned.len() && (#[trigger] assigned@[c]) is Some ==> assigned@[c]->0
                    < placement_count(pieces),
        ensures
            forall|dir: int| #![trigger req@[dir]] #![trigger demand(*self.board, pieces, assigned@, cell as int, dir)]
                0 <= dir < 6 ==> match demand(*self.board, pieces, assigned@, cell as int, dir) {
                    Some(v) => req@[dir] is Some && req@[dir]->0 == v,
                    None => req@[dir] is None,
                },
    {
        let mut req: [Option<i32>; 6] = [None; 6];
        for dir in 0..6usize
            invariant
                self.wf(pieces),
                cell < self.board.cells.len(),
                assigned.len() == self.board.cells.len(),
                forall|c: int|
                    0 <= c < assigned.len() && (#[trigger] assigned@[c]) is Some ==> assigned@[c]->0
                        < placement_count(pieces),
                forall|d: int| #![trigger req@[d]]
                    0 <= d < dir ==> match demand(*self.board, pieces, assigned@, cell as int, d) {
                        Some(v) => req@[d] is Some && req@[d]->0 == v,
                        None => req@[d] is None,
                    },
                forall|d: int| dir <= d < 6 ==> (#[trigger] req@[d]) is None,
        {
            let ghost before = req@;
            if self.board.boundary[cell][dir] {
                req[dir] = Some(0);
            }
            if let Some(nb) = self.board.neighbors[cell][dir] {
                if let Some(pl) = assigned[nb] {
                    let nb_edge: i32 = self.placement_edges[pl][opposite_dir(dir)];
                    assert(nb_edge == placement_edge(pieces, pl as int, opposite(dir as int)));
                    req[dir] = Some(-nb_edge);
                }
            }
            assert(forall|d: int| 0 <= d < 6 && d != dir ==> #[trigger] req@[d] == before[d]);
        }
        req
    }

    fn compute_structural_candidates(
        &self,
        Ghost(pieces): Ghost<Seq<Piece>>,
        cell: usize,
        assigned: &Vec<Option<usize>>,
    ) -> (out: Vec<usize>)
        requires
            self.wf(pieces),
            cell < self.board.cells.len(),
            assigned.len() == self.board.cells.len(),
            forall|c: int|
                0 <= c < assigned.len() && (#[trigger] assigned@[c]) is Some ==> assigned@[c]->0
                    < placement_count(pieces),
        ensures
            out@ == structural(*self.board, pieces, assigned@, cell as int),
    {
        let ghost board = *self.board;
        let ghost n = placement_count(pieces);
        let ghost keep = |pl: int| fits(board, pieces, assigned@, cell as int, pl);
        let req: [Option<i32>; 6] = self.demands(Ghost(pieces), cell, assigned);

        let mut best: Option<(usize, usize, usize)> = None;
        for dir in 0..6usize
            invariant
                self.wf(pieces),
                best matches Some((d, idx, len)) ==> {
                    &&& d < 6
                    &&& req@[d as int] is Some
                    &&& posted(req@[d as int]->0 as int, self.total_alphabet)
                    &&& idx == req@[d as int]->0 + self.total_alphabet
                    &&& len == self.postings@[d as int]@[idx as int].len()
                },
        {
            if let Some(val) = req[dir] {
                if -self.total_alphabet <= val && val <= self.total_alphabet {
                    let idx: usize = value_index(val, self.total_alphabet);
                    let len: usize = self.postings[dir][idx].len();
                    let shorter: bool = match best {
                        Some((_, _, best_len)) => len < best_len,
                        None => true,
                    };
                    if shorter {
                        best = Some((dir, idx, len));
                    }
                }
            }
        }

        let ghost first: spec_fn(int) -> bool = match best {
            Some((d, idx, _)) => |pl: int| placement_edge(pieces, pl, d as int) == idx - self.total_alphabet,
            None => |pl: int| true,
        };
        let base_list: &Vec<usize> = match best {
            Some((dir, idx, _)) => &self.postings[dir][idx],
            None => &self.all_placements,
        };
        assert(lists_ascending(base_list@, n as int, first));
        assert forall|pl: int| 0 <= pl < n && keep(pl) implies #[trigger] first(pl) by {
            if best is Some {
                let (d, _, _) = best->0;
                assert(demand(board, pieces, assigned@, cell as int, d as int) is Some);
            }
        }

        let mut out: Vec<usize> = Vec::new();
        for i in 0..base_list.len()
            invariant
                self.wf(pieces),
                n == placement_count(pieces),
                lists_ascending(base_list@, n as int, first),
                forall|dir: int| #![trigger req@[dir]] #![trigger demand(board, pieces, assigned@, cell as int, dir)]
                    0 <= dir < 6 ==> match demand(board, pieces, assigned@, cell as int, dir) {
                        Some(v) => req@[dir] is Some && req@[dir]->0 == v,
                        None => req@[dir] is None,
                    },
                keep == (|pl: int| fits(board, pieces, assigned@, cell as int, pl)),
                out@ == sieved(base_list@, i as int, keep),
        {
            let pl: usize = base_list[i];
            let mut ok: bool = true;
            for dir in 0..6usize
                invariant
                    self.wf(pieces),
                    pl < placement_count(pieces),
                    ok == forall|d: int|
                        0 <= d < dir && (#[trigger] req@[d]) is Some ==> placement_edge(pieces, pl as int, d)
                            == req@[d]->0,
            {
                if let Some(val) = req[dir] {
                    if self.placement_edges[pl][dir] != val {
                        ok = false;
                    }
                }
            }
            assert(ok == keep(pl as int)) by {
                if ok {
                    assert forall|d: int|
                        0 <= d < 6 && (#[trigger] demand(board, pieces, assigned@, cell as int, d)) is Some
                        implies placement_edge(pieces, pl as int, d) == demand(
                        board,
                        pieces,
                        assigned@,
                        cell as int,
                        d,
                    )->0 by {
                        assert(req@[d] is Some);
                    }
                } else {
                    let d = choose|d: int|
                        0 <= d < 6 && (#[trigger] req@[d]) is Some && placement_edge(pieces, pl as int, d)
                            != req@[d]->0;
                    assert(demand(board, pieces, assigned@, cell as int, d) is Some);
                }
            }
            if ok {
                out.push(pl);
            }
        }
        proof {
            lemma_sieved(base_list@, n, first, keep);
            let both = |x: int| first(x) && keep(x);
            assert forall|x: int| 0 <= x < n implies #[trigger] both(x) == keep(x) by {
                if keep(x) {
                    assert(first(x));
                }
            }
            lemma_select_below_ext(n, both, keep);
        }
        out
    }

    fn get_structural_candidates(&self, Ghost(pieces): Ghost<Seq<Piece>>, state: &mut SolverState, cell: usize) -> (list:
        Vec<usize>)
        requires
            self.wf(pieces),
            self.state_wf(pieces, *old(state)),
            cell < self.board.cells.len(),
        ensures
            self.state_wf(pieces, *final(state)),
            final(state).assigned@ == old(state).assigned@,
            list@ == structural(*self.board, pieces, old(state).assigned@, cell as int),
    {
        if state.dirty[cell] {
            let candidates: Vec<usize> = self.compute_structural_candidates(Ghost(pieces), cell, &state.assigned);
            state.cache[cell] = candidates;
            state.dirty[cell] = false;
        }
        let list: Vec<usize> = state.cache[cell].clone();
        assert(list@ =~= state.cache@[cell as int]@);
        list
    }

    fn available_count(&self, Ghost(pieces): Ghost<Seq<Piece>>, state: &mut SolverState, cell: usize) -> (count: usize)
        requires
            self.wf(pieces),
            self.state_wf(pieces, *old(state)),
            cell < self.board.cells.len(),
        ensures
            self.state_wf(pieces, *final(state)),
            final(state).assigned@ == old(state).assigned@,
            count == open_candidates(*self.board, pieces, old(state).assigned@, cell as int).len(),
    {
        let candidates: Vec<usize> = self.get_structural_candidates(Ghost(pieces), state, cell);
        let ghost assigned = state.assigned@;
        let ghost keep = |pl: int| !used(assigned, pl / 6);
        proof {
            self.lemma_open_is_sieved(pieces, assigned, cell as int, candidates@);
            lemma_select_below(
                placement_count(pieces),
                |pl: int| fits(*self.board, pieces, assigned, cell as int, pl),
            );
        }
        let mut count: usize = 0;
        for i in 0..candidates.len()
            invariant
                self.wf(pieces),
                self.state_wf(pieces, *state),
                state.assigned@ == assigned,
                forall|k: int| 0 <= k < candidates.len() ==> (#[trigger] candidates@[k]) < placement_count(pieces),
                keep == (|pl: int| !used(assigned, pl / 6)),
                count <= i,
                count == sieved(candidates@, i as int, keep).len(),
        {
            let pl: usize = candidates[i];
            let piece_idx: usize = self.placement_piece[pl];
            if !state.used_piece[piece_idx] {
                count = count + 1;
            }
        }
        count
    }

    /// Sieving the fitting placements for free pieces gives the open ones.
    proof fn lemma_open_is_sieved(
        &self,
        pieces: Seq<Piece>,
        assigned: Seq<Option<usize>>,
        cell: int,
        candidates: Seq<usize>,
    )
        requires
            self.wf(pieces),
            candidates == structural(*self.board, pieces, assigned, cell),
        ensures
            sieved(candidates, candidates.len() as int, |pl: int| !used(assigned, pl / 6)) == open_candidates(
                *self.board,
                pieces,
                assigned,
                cell,
            ),
    {
        let n = placement_count(pieces);
        let first = |pl: int| fits(*self.board, pieces, assigned, cell, pl);
        let keep = |pl: int| !used(assigned, pl / 6);
        lemma_select_below(n, first);
        lemma_sieved(candidates, n, first, keep);
        lemma_select_below_ext(
            n,
            |pl: int| first(pl) && keep(pl),
            |pl: int| open_at(*self.board, pieces, assigned, cell, pl),
        );
    }
}

/// What has been counted, as the model sees it.
pub open spec fn tally_of(nodes: u64, solutions: usize, witness: Option<Vec<WitnessEntry>>) -> Tally {
    Tally {
        nodes: nodes as int,
        solutions: solutions as int,
        witness: match witness {
            Some(entries) => Some(entries@),
            None => None,
        },
    }
}

impl<'a> Solver<'a> {
    fn ordered_candidates(
        &self,
        Ghost(pieces): Ghost<Seq<Piece>>,
        state: &mut SolverState,
        cell: usize,
        prefer_decoy: bool,
    ) -> (out: Vec<usize>)
        requires
            self.wf(pieces),
            self.state_wf(pieces, *old(state)),
            cell < self.board.cells.len(),
        ensures
            self.state_wf(pieces, *final(state)),
            final(state).assigned@ == old(state).assigned@,
            out@ == ordered(*self.board, pieces, old(state).assigned@, cell as int, prefer_decoy),
    {
        let candidates: Vec<usize> = self.get_structural_candidates(Ghost(pieces), state, cell);
        if prefer_decoy {
            let mut out: Vec<usize> = self.free_of_kind(Ghost(pieces), state, cell, &candidates, true);
            let mut rest: Vec<usize> = self.free_of_kind(Ghost(pieces), state, cell, &candidates, false);
            let ghost assigned = state.assigned@;
            proof {
                lemma_select_below_ext(
                    placement_count(pieces),
                    |pl: int|
                        open_at(*self.board, pieces, assigned, cell as int, pl) && is_decoy(pieces, pl) == true,
                    |pl: int| open_at(*self.board, pieces, assigned, cell as int, pl) && is_decoy(pieces, pl),
                );
                lemma_select_below_ext(
                    placement_count(pieces),
                    |pl: int|
                        open_at(*self.board, pieces, assigned, cell as int, pl) && is_decoy(pieces, pl) == false,
                    |pl: int| open_at(*self.board, pieces, assigned, cell as int, pl) && !is_decoy(pieces, pl),
                );
            }
            out.append(&mut rest);
            out
        } else {
            self.free_of_any_kind(Ghost(pieces), state, cell, &candidates)
        }
    }

    /// The fitting placements whose piece is free.
    fn free_of_any_kind(
        &self,
        Ghost(pieces): Ghost<Seq<Piece>>,
        state: &SolverState,
        cell: usize,
        candidates: &Vec<usize>,
    ) -> (out: Vec<usize>)
        requires
            self.wf(pieces),
            self.state_wf(pieces, *state),
            candidates@ == structural(*self.board, pieces, state.assigned@, cell as int),
        ensures
            out@ == open_candidates(*self.board, pieces, state.assigned@, cell as int),
    {
        let ghost assigned = state.assigned@;
        let ghost keep = |pl: int| !used(assigned, pl / 6);
        proof {
            self.lemma_open_is_sieved(pieces, assigned, cell as int, candidates@);
            lemma_select_below(
                placement_count(pieces),
                |pl: int| fits(*self.board, pieces, assigned, cell as int, pl),
            );
        }
        let mut out: Vec<usize> = Vec::new();
        for i in 0..candidates.len()
            invariant
                self.wf(pieces),
                self.state_wf(pieces, *state),
                state.assigned@ == assigned,
                forall|k: int|
                    0 <= k < candidates.len() ==> (#[trigger] candidates@[k]) < placement_count(pieces),
                keep == (|pl: int| !used(assigned, pl / 6)),
                out@ == sieved(candidates@, i as int, keep),
        {
            let pl: usize = candidates[i];
            let piece_idx: usize = self.placement_piece[pl];
            if !state.used_piece[piece_idx] {
                out.push(pl);
            }
        }
        out
    }

    /// The fitting placements whose piece is free and is, or is not, a decoy.
    fn free_of_kind(
        &self,
        Ghost(pieces): Ghost<Seq<Piece>>,
        state: &SolverState,
        cell: usize,
        candidates: &Vec<usize>,
        decoy: bool,
    ) -> (out: Vec<usize>)
        requires
            self.wf(pieces),
            self.state_wf(pieces, *state),
            candidates@ == structural(*self.board, pieces, state.assigned@, cell as int),
        ensures
            out@ == select_below(
                placement_count(pieces),
                |pl: int|
                    open_at(*self.board, pieces, state.assigned@, cell as int, pl) && is_decoy(pieces, pl) == decoy,
            ),
    {
        let ghost assigned = state.assigned@;
        let ghost n = placement_count(pieces);
        let ghost first = |pl: int| fits(*self.board, pieces, assigned, cell as int, pl);
        let ghost keep = |pl: int| !used(assigned, pl / 6) && is_decoy(pieces, pl) == decoy;
        proof {
            lemma_select_below(n, first);
        }
        let mut out: Vec<usize> = Vec::new();
        for i in 0..candidates.len()
            invariant
                self.wf(pieces),
                self.state_wf(pieces, *state),
                state.assigned@ == assigned,
                forall|k: int| 0 <= k < candidates.len() ==> (#[trigger] candidates@[k]) < placement_count(pieces),
                keep == (|pl: int| !used(assigned, pl / 6) && is_decoy(pieces, pl) == decoy),
                out@ == sieved(candidates@, i as int, keep),
        {
            let pl: usize = candidates[i];
            let piece_idx: usize = self.placement_piece[pl];
            if !state.used_piece[piece_idx] && self.placement_is_decoy[pl] == decoy {
                out.push(pl);
            }
        }
        proof {
            lemma_sieved(candidates@, n, first, keep);
            lemma_select_below_ext(
                n,
                |pl: int| first(pl) && keep(pl),
                |pl: int|
                    open_at(*self.board, pieces, state.assigned@, cell as int, pl) && is_decoy(pieces, pl) == decoy,
            );
        }
        out
    }

    fn choose_cell(&self, Ghost(pieces): Ghost<Seq<Piece>>, state: &mut SolverState) -> (choice: Option<(usize, usize)>)
        requires
            self.wf(pieces),
            self.state_wf(pieces, *old(state)),
        ensures
            self.state_wf(pieces, *final(state)),
            final(state).assigned@ == old(state).assigned@,
            match choice {
                Some((cell, count)) => {
                    &&& is_tightest(*self.board, pieces, old(state).assigned@, cell as int)
                    &&& count == open_candidates(*self.board, pieces, old(state).assigned@, cell as int).len()
                },
                None => complete(old(state).assigned@),
            },
    {
        let ghost assigned = state.assigned@;
        let ghost board = *self.board;
        let mut best: Option<(usize, usize)> = None;
        for cell in 0..self.board.cells.len()
            invariant
                self.wf(pieces),
                self.state_wf(pieces, *state),
                state.assigned@ == assigned,
                assigned == old(state).assigned@,
                board == *self.board,
                match best {
                    Some((b, count)) => {
                        &&& b < cell
                        &&& assigned[b as int] is None
                        &&& count == open_candidates(board, pieces, assigned, b as int).len()
                        &&& forall|c: int|
                            0 <= c < cell && (#[trigger] assigned[c]) is None ==> count <= open_candidates(
                                board,
                                pieces,
                                assigned,
                                c,
                            ).len()
                        &&& forall|c: int|
                            0 <= c < b && (#[trigger] assigned[c]) is None ==> count < open_candidates(
                                board,
                                pieces,
                                assigned,
                                c,
                            ).len()
                        &&& count > 0
                    },
                    None => forall|c: int| 0 <= c < cell ==> (#[trigger] assigned[c]) is Some,
                },
        {
            if state.assigned[cell].is_none() {
                let count: usize = self.available_count(Ghost(pieces), state, cell);
                if count == 0 {
                    return Some((cell, 0));
                }
                let fewer: bool = match best {
                    Some((_, best_count)) => count < best_count,
                    None => true,
                };
                if fewer {
                    best = Some((cell, count));
                }
            }
        }
        best
    }

    fn extract_witness(&self, Ghost(pieces): Ghost<Seq<Piece>>, state: &SolverState) -> (entries: Vec<WitnessEntry>)
        requires
            self.wf(pieces),
            self.state_wf(pieces, *state),
            complete(state.assigned@),
        ensures
            entries@ == describe(*self.board, state.assigned@),
    {
        let mut entries: Vec<WitnessEntry> = Vec::with_capacity(self.board.cell_count());
        for idx in 0..self.board.cells.len()
            invariant
                self.wf(pieces),
                self.state_wf(pieces, *state),
                complete(state.assigned@),
                entries.len() == idx,
                forall|c: int| 0 <= c < idx ==> #[trigger] entries@[c] == describe(*self.board, state.assigned@)[c],
        {
            assert(state.assigned@[idx as int] is Some);
            let placement: usize = state.assigned[idx].unwrap();
            let piece_idx: usize = self.placement_piece[placement];
            entries.push(
                WitnessEntry {
                    q: self.board.cells[idx].q,
                    r: self.board.cells[idx].r,
                    piece_id: piece_idx,
                    rot: self.placement_rot[placement],
                },
            );
        }
        assert(entries@ =~= describe(*self.board, state.assigned@));
        entries
    }

    fn fits_boundary(&self, Ghost(pieces): Ghost<Seq<Piece>>, cell: usize, placement: usize) -> (ok: bool)
        requires
            self.wf(pieces),
            cell < self.board.cells.len(),
            placement < placement_count(pieces),
        ensures
            ok == rim_fits(*self.board, pieces, cell as int, placement as int),
    {
        for dir in 0..6usize
            invariant
                self.wf(pieces),
                cell < self.board.cells.len(),
                placement < placement_count(pieces),
                forall|d: int|
                    0 <= d < dir && #[trigger] self.board.boundary@[cell as int]@[d] ==> placement_edge(
                        pieces,
                        placement as int,
                        d,
                    ) == 0,
        {
            if self.board.boundary[cell][dir] {
                if self.placement_edges[placement][dir] != 0 {
                    assert(placement_edge(pieces, placement as int, dir as int) != 0);
                    return false;
                }
            }
        }
        true
    }

    fn finished(&self, Ghost(pieces): Ghost<Seq<Piece>>, state: &SolverState) -> (done: bool)
        requires
            self.state_wf(pieces, *state),
        ensures
            done == complete(state.assigned@),
    {
        for cell in 0..self.board.cells.len()
            invariant
                self.state_wf(pieces, *state),
                forall|c: int| 0 <= c < cell ==> (#[trigger] state.assigned@[c]) is Some,
        {
            if state.assigned[cell].is_none() {
                return false;
            }
        }
        true
    }

    fn dfs(
        &self,
        Ghost(pieces): Ghost<Seq<Piece>>,
        state: &mut SolverState,
        cfg: &SearchConfig,
        nodes: &mut u64,
        solutions: &mut usize,
        witness: &mut Option<Vec<WitnessEntry>>,
    ) -> (aborted: bool)
        requires
            self.wf(pieces),
            self.state_wf(pieces, *old(state)),
            *old(solutions) < cfg.max_solutions,
        ensures
            self.state_wf(pieces, *final(state)),
            final(state).assigned@ == old(state).assigned@,
            (tally_of(*final(nodes), *final(solutions), *final(witness)), aborted) == search(
                *self.board,
                pieces,
                *cfg,
                old(state).assigned@,
                tally_of(*old(nodes), *old(solutions), *old(witness)),
            ),
        decreases free_cells(old(state).assigned@),
    {
        let ghost board = *self.board;
        let ghost assigned = state.assigned@;
        let ghost outcome = search(
            board,
            pieces,
            *cfg,
            assigned,
            tally_of(*nodes, *solutions, *witness),
        );
        if *nodes >= cfg.max_nodes {
            return true;
        }
        if self.finished(Ghost(pieces), state) {
            if !cfg.require_decoy || state.decoy_used {
                *solutions = *solutions + 1;
                if witness.is_none() {
                    *witness = Some(self.extract_witness(Ghost(pieces), state));
                }
            }
            return false;
        }
        let cell: usize = match self.choose_cell(Ghost(pieces), state) {
            Some((cell, _)) => cell,
            None => {
                return false;
            },
        };
        proof {
            lemma_tightest_unique(board, pieces, assigned, cell as int);
        }
        let candidates: Vec<usize> = self.ordered_candidates(Ghost(pieces), state, cell, cfg.prefer_decoy);
        proof {
            lemma_ordered_open(board, pieces, assigned, cell as int, cfg.prefer_decoy);
        }
        for i in 0..candidates.len()
            invariant
                self.wf(pieces),
                self.state_wf(pieces, *state),
                board == *self.board,
                state.assigned@ == assigned,
                assigned == old(state).assigned@,
                outcome == search(
                    board,
                    pieces,
                    *cfg,
                    assigned,
                    tally_of(*old(nodes), *old(solutions), *old(witness)),
                ),
                cell < assigned.len(),
                assigned[cell as int] is None,
                *solutions < cfg.max_solutions,
                forall|k: int| 0 <= k < candidates.len() ==> {
                    &&& (#[trigger] candidates@[k]) < placement_count(pieces)
                    &&& !used(assigned, candidates@[k] as int / 6)
                },
                outcome == try_from(
                    board,
                    pieces,
                    *cfg,
                    assigned,
                    cell as int,
                    candidates@,
                    i as int,
                    tally_of(*nodes, *solutions, *witness),
                ),
        {
            if *nodes >= cfg.max_nodes {
                return true;
            }
            *nodes = *nodes + 1;
            let placement: usize = candidates[i];
            let prev_decoy: bool = state.decoy_used;
            self.place(Ghost(pieces), state, cell, placement);
            state.decoy_used = prev_decoy || self.placement_is_decoy[placement];
            proof {
                lemma_free_cells_update(assigned, cell as int, placement);
                lemma_decoy_used_update(pieces, assigned, cell as int, placement);
            }
            let aborted: bool = self.dfs(Ghost(pieces), state, cfg, nodes, solutions, witness);
            self.unplace(Ghost(pieces), state, cell, placement);
            state.decoy_used = prev_decoy;
            assert(state.assigned@ =~= assigned);
            if aborted {
                return true;
            }
            if *solutions >= cfg.max_solutions {
                return false;
            }
        }
        false
    }
}

/// Filling a free cell makes a decoy used if one was, or the new one is.
proof fn lemma_decoy_used_update(pieces: Seq<Piece>, assigned: Seq<Option<usize>>, cell: int, pl: usize)
    requires
        0 <= cell < assigned.len(),
        assigned[cell] is None,
    ensures
        decoy_used(pieces, assigned.update(cell, Some(pl))) == (decoy_used(pieces, assigned) || is_decoy(
            pieces,
            pl as int,
        )),
{
    let after = assigned.update(cell, Some(pl));
    assert(after[cell] == Some(pl));
    if decoy_used(pieces, assigned) {
        let c = choose|c: int|
            0 <= c < assigned.len() && (#[trigger] assigned[c]) is Some && is_decoy(
                pieces,
                assigned[c]->0 as int,
            );
        assert(after[c] == assigned[c]);
    }
    if decoy_used(pieces, after) && !is_decoy(pieces, pl as int) {
        let c = choose|c: int|
            0 <= c < after.len() && (#[trigger] after[c]) is Some && is_decoy(pieces, after[c]->0 as int);
        assert(after[c] == assigned[c]);
    }
}

/// The placements that are tried are open, and there are no others.
pub proof fn lemma_ordered_open(
    board: Board,
    pieces: Seq<Piece>,
    assigned: Seq<Option<usize>>,
    cell: int,
    prefer_decoy: bool,
)
    requires
        placement_count(pieces) <= usize::MAX,
    ensures
        forall|k: int| #![trigger ordered(board, pieces, assigned, cell, prefer_decoy)[k]]
            0 <= k < ordered(board, pieces, assigned, cell, prefer_decoy).len() ==> {
                let pl = ordered(board, pieces, assigned, cell, prefer_decoy)[k];
                pl < placement_count(pieces) && open_at(board, pieces, assigned, cell, pl as int)
            },
        forall|pl: int|
            0 <= pl < placement_count(pieces) && #[trigger] open_at(board, pieces, assigned, cell, pl)
                ==> ordered(board, pieces, assigned, cell, prefer_decoy).contains(pl as usize),
        forall|j: int, k: int|
            0 <= j < k < ordered(board, pieces, assigned, cell, prefer_decoy).len() ==> #[trigger] ordered(
                board,
                pieces,
                assigned,
                cell,
                prefer_decoy,
            )[j] != #[trigger] ordered(board, pieces, assigned, cell, prefer_decoy)[k],
{
    let n = placement_count(pieces);
    let all = |pl: int| open_at(board, pieces, assigned, cell, pl);
    let list = ordered(board, pieces, assigned, cell, prefer_decoy);
    if prefer_decoy {
        let p = |pl: int| open_at(board, pieces, assigned, cell, pl) && is_decoy(pieces, pl);
        let q = |pl: int| open_at(board, pieces, assigned, cell, pl) && !is_decoy(pieces, pl);
        let front = select_below(n, p);
        let back = select_below(n, q);
        lemma_select_below(n, p);
        lemma_select_below(n, q);
        assert(list == front + back);
        assert forall|pl: int|
            0 <= pl < n && #[trigger] open_at(board, pieces, assigned, cell, pl) implies list.contains(
            pl as usize,
        ) by {
            if is_decoy(pieces, pl) {
                assert(p(pl));
                let i = choose|i: int| 0 <= i < front.len() && front[i] == pl as usize;
                assert(list[i] == pl as usize);
            } else {
                assert(q(pl));
                let i = choose|i: int| 0 <= i < back.len() && back[i] == pl as usize;
                assert(list[front.len() + i] == pl as usize);
            }
        }
        assert forall|j: int, k: int| 0 <= j < k < list.len() implies #[trigger] list[j] != #[trigger] list[k] by {
            if k < front.len() {
                assert(front[j] < front[k]);
            } else if j >= front.len() {
                assert(back[j - front.len()] < back[k - front.len()]);
            } else {
                assert(p(front[j] as int));
                assert(q(back[k - front.len()] as int));
            }
        }
        assert forall|k: int| 0 <= k < list.len() implies (#[trigger] list[k]) < n && open_at(
            board,
            pieces,
            assigned,
            cell,
            list[k] as int,
        ) by {
            if k < front.len() {
                assert(p(front[k] as int));
            } else {
                assert(q(back[k - front.len()] as int));
            }
        }
    } else {
        lemma_select_below(n, all);
        assert forall|pl: int|
            0 <= pl < n && #[trigger] open_at(board, pieces, assigned, cell, pl) implies list.contains(
            pl as usize,
        ) by {
            assert(all(pl));
        }
        assert forall|k: int| 0 <= k < list.len() implies (#[trigger] list[k]) < n && open_at(
            board,
            pieces,
            assigned,
            cell,
            list[k] as int,
        ) by {
            assert(all(list[k] as int));
        }
    }
}

/// Counts the ways to fill the board with the pieces, up to two.
pub fn uniqueness_solver(board: &Board, pieces: &[Piece], total_alphabet: i32, max_nodes: u64) -> (result: SolverResult)
    requires
        board.wf(),
        solvable_input(pieces@, total_alphabet),
    ensures
        (tally_of(result.nodes, result.solutions, result.witness), result.aborted) == uniqueness_outcome(
            *board,
            pieces@,
            max_nodes,
        ),
{
    let solver: Solver = Solver::new(board, pieces, total_alphabet);
    let mut state: SolverState = solver.initial_state(Ghost(pieces@), pieces.len());
    let cfg: SearchConfig = SearchConfig { max_nodes, max_solutions: 2, prefer_decoy: false, require_decoy: false };
    let mut nodes: u64 = 0;
    let mut solutions: usize = 0;
    let mut witness: Option<Vec<WitnessEntry>> = None;
    let aborted: bool = solver.dfs(
        Ghost(pieces@),
        &mut state,
        &cfg,
        &mut nodes,
        &mut solutions,
        &mut witness,
    );
    SolverResult { nodes, aborted, solutions, witness }
}

/// Looks for a way to fill the board that uses a decoy.
pub fn existence_solver(board: &Board, pieces: &[Piece], total_alphabet: i32, max_nodes: u64) -> (result: SolverResult)
    requires
        board.wf(),
        solvable_input(pieces@, total_alphabet),
    ensures
        (tally_of(result.nodes, result.solutions, result.witness), result.aborted) == existence_outcome(
            *board,
            pieces@,
            max_nodes,
        ),
{
    let solver: Solver = Solver::new(board, pieces, total_alphabet);
    if !solver.has_decoys {
        return SolverResult { nodes: 0, aborted: false, solutions: 0, witness: None };
    }
    let cfg: SearchConfig = SearchConfig { max_nodes, max_solutions: 1, prefer_decoy: true, require_decoy: true };
    let mut nodes: u64 = 0;
    let mut solutions: usize = 0;
    let mut witness: Option<Vec<WitnessEntry>> = None;
    let mut state: SolverState = solver.initial_state(Ghost(pieces@), pieces.len());
    let ghost outcome = existence_outcome(*board, pieces@, max_nodes);
    let mut attempts: usize = 0;
    let mut placement: usize = 0;
    let mut cell: usize = 0;
    while placement < solver.placement_is_decoy.len() && attempts < MAX_ANCHOR_ATTEMPTS
        invariant
            solver.wf(pieces@),
            solver.board == board,
            solver.state_wf(pieces@, state),
            state.assigned@ == blank(*board),
            cfg == existence_config(max_nodes),
            solutions == 0,
            outcome == existence_outcome(*board, pieces@, max_nodes),
            placement <= placement_count(pieces@),
            cell <= board.cells.len(),
            outcome == anchored_search(
                *board,
                pieces@,
                cfg,
                placement as int,
                cell as int,
                attempts as int,
                tally_of(nodes, solutions, witness),
            ),
        decreases placement_count(pieces@) - placement, board.cells.len() - cell,
    {
        if cell >= board.cell_count() || !solver.placement_is_decoy[placement] {
            placement = placement + 1;
            cell = 0;
        } else if !solver.fits_boundary(Ghost(pieces@), cell, placement) {
            cell = cell + 1;
        } else {
            proof {
                lemma_decoy_used_update(pieces@, state.assigned@, cell as int, placement);
            }
            attempts = attempts + 1;
            solver.place(Ghost(pieces@), &mut state, cell, placement);
            state.decoy_used = true;
            let aborted: bool = solver.dfs(
                Ghost(pieces@),
                &mut state,
                &cfg,
                &mut nodes,
                &mut solutions,
                &mut witness,
            );
            solver.unplace(Ghost(pieces@), &mut state, cell, placement);
            state.decoy_used = false;
            assert(state.assigned@ =~= blank(*board));
            if solutions > 0 {
                return SolverResult { nodes, aborted, solutions, witness };
            }
            if aborted {
                return SolverResult { nodes, aborted: true, solutions, witness };
            }
            cell = cell + 1;
        }
    }
    let aborted: bool = solver.dfs(
        Ghost(pieces@),
        &mut state,
        &cfg,
        &mut nodes,
        &mut solutions,
        &mut witness,
    );
    SolverResult { nodes, aborted, solutions, witness }
}

} // verus!
