//! The trial solver: counts nodes and solutions of a bounded search.

use crate::grid::{links_in_range, opposite, opposite_dir};
use crate::trial::{lemma_turned_again, rotate_edges, turned, Piece, PieceKind};
use crate::trial_laws::{law_candidates, lists_candidates, quest_wf, sound};
use crate::trial_search::{
    candidates_of, demands, exists_in, explore, fresh, is_false_piece, laid, lay_from, lemma_explore_keeps,
    lemma_open_cells_update,
    lemma_placements_below, lemma_placements_ext, lemma_placements_filter, lemma_scan_keeps, meeting, meets,
    nth_placement, open_cells, placements_below, scan_cells, shown, PlacementRef, Progress, Quest, Remembered,
    FREE,
};
use vstd::prelude::*;

verus! {

struct CellCache {
    key: [i32; 6],
    candidates: Vec<PlacementRef>,
}

/// The nodes visited and the solutions found.
#[derive(Clone, Copy, Debug)]
pub struct SolveResult {
    pub nodes: u64,
    pub solutions_found: u64,
}

pub struct Solver {
    neighbors: Vec<[Option<usize>; 6]>,
    piece_rots: Vec<[[i32; 6]; 6]>,
    postings: Vec<Vec<Vec<PlacementRef>>>,
    value_offset: i32,
    assignments: Vec<Option<PlacementRef>>,
    available: Vec<bool>,
    cache: Vec<CellCache>,
    nodes: u64,
    node_cap: u64,
    solution_limit: u64,
    solutions_found: u64,
    require_false: bool,
    false_piece: Vec<bool>,
    pieces: Ghost<Seq<Piece>>,
}

/// The greatest value that the postings are laid out for.
pub open spec fn offset_of(alphabet_max: i32) -> int {
    if alphabet_max > 1 {
        alphabet_max as int
    } else {
        1
    }
}

/// Every edge value lies within the alphabet, and the alphabet can be
/// indexed.
pub open spec fn within_alphabet(pieces: Seq<Piece>, alphabet_max: i32) -> bool {
    &&& 2 * offset_of(alphabet_max) + 1 <= i32::MAX
    &&& forall|p: int, dir: int|
        0 <= p < pieces.len() && 0 <= dir < 6 ==> -offset_of(alphabet_max) <= #[trigger] pieces[p].edges@[dir]
            <= offset_of(alphabet_max)
}

/// `postings[dir][v]` lists those of the first `n` placements that show the
/// value `v - offset` in direction `dir`.
spec fn postings_wf(postings: Seq<Vec<Vec<PlacementRef>>>, pieces: Seq<Piece>, offset: i32, n: int) -> bool {
    &&& postings.len() == 6
    &&& forall|dir: int| 0 <= dir < 6 ==> (#[trigger] postings[dir])@.len() == 2 * offset + 1
    &&& forall|dir: int, v: int|
        0 <= dir < 6 && 0 <= v < 2 * offset + 1 ==> (#[trigger] postings[dir]@[v])@ == placements_below(
            n,
            |p: PlacementRef| shown(pieces, p, dir) == v - offset,
        )
}

impl Solver {
    /// The tables that never change.
    spec fn tables_wf(&self) -> bool {
        &&& links_in_range(self.neighbors@)
        &&& 1 <= self.value_offset
        &&& 2 * self.value_offset + 1 <= i32::MAX
        &&& self.piece_rots.len() == self.pieces@.len()
        &&& self.false_piece.len() == self.pieces@.len()
        &&& forall|pid: int, rot: int|
            0 <= pid < self.pieces@.len() && 0 <= rot < 6 ==> (#[trigger] self.piece_rots@[pid]@[rot])@ == turned(
                self.pieces@[pid].edges@,
                rot,
            )
        &&& forall|p: PlacementRef, dir: int|
            exists_in(self.pieces@, p) && 0 <= dir < 6 ==> -self.value_offset <= #[trigger] shown(
                self.pieces@,
                p,
                dir,
            ) <= self.value_offset
        &&& forall|pid: int|
            0 <= pid < self.pieces@.len() ==> #[trigger] self.false_piece@[pid] == is_false_piece(
                self.pieces@,
                pid,
            )
        &&& postings_wf(self.postings@, self.pieces@, self.value_offset, 6 * self.pieces@.len() as int)
    }

    /// The solver describes a search that can go on.
    pub closed spec fn wf(&self) -> bool {
        &&& self.tables_wf()
        &&& self.assignments.len() == self.neighbors.len()
        &&& self.cache.len() == self.neighbors.len()
        &&& self.available.len() == self.pieces@.len()
        &&& forall|i: int|
            0 <= i < self.assignments.len() && (#[trigger] self.assignments@[i]) is Some ==> exists_in(
                self.pieces@,
                self.assignments@[i]->0,
            )
        &&& forall|i: int, k: int|
            0 <= i < self.cache.len() && 0 <= k < self.cache@[i].candidates.len() ==> exists_in(
                self.pieces@,
                #[trigger] self.cache@[i].candidates@[k],
            )
    }

    /// What the solver searches.
    pub closed spec fn quest(&self) -> Quest {
        Quest {
            links: self.neighbors@,
            pieces: self.pieces@,
            node_cap: self.node_cap as int,
            solution_limit: self.solution_limit as int,
            require_false: self.require_false,
        }
    }

    /// How far the search has come.
    pub closed spec fn progress(&self) -> Progress {
        Progress {
            assignments: self.assignments@,
            available: self.available@,
            cache: Seq::new(
                self.cache@.len(),
                |i: int| Remembered { key: self.cache@[i].key@, candidates: self.cache@[i].candidates@ },
            ),
            nodes: self.nodes as int,
            found: self.solutions_found as int,
        }
    }

    pub fn new(
        neighbors: &Vec<[Option<usize>; 6]>,
        pieces: &Vec<Piece>,
        alphabet_max: i32,
        node_cap: u64,
        solution_limit: u64,
        require_false: bool,
    ) -> (solver: Self)
        requires
            links_in_range(neighbors@),
            within_alphabet(pieces@, alphabet_max),
        ensures
            solver.wf(),
            solver.quest() == (Quest {
                links: neighbors@,
                pieces: pieces@,
                node_cap: node_cap as int,
                solution_limit: solution_limit as int,
                require_false,
            }),
            solver.progress() == fresh(solver.quest()),
    {
        let value_offset: i32 = if alphabet_max > 1 { alphabet_max } else { 1 };
        let mut piece_rots: Vec<[[i32; 6]; 6]> = Vec::with_capacity(pieces.len());
        let mut false_piece: Vec<bool> = Vec::with_capacity(pieces.len());
        let mut available: Vec<bool> = Vec::with_capacity(pieces.len());
        for pid in 0..pieces.len()
            invariant
                piece_rots.len() == pid,
                false_piece.len() == pid,
                available.len() == pid,
                forall|p: int, rot: int|
                    0 <= p < pid && 0 <= rot < 6 ==> (#[trigger] piece_rots@[p]@[rot])@ == turned(
                        pieces@[p].edges@,
                        rot,
                    ),
                forall|p: int| 0 <= p < pid ==> #[trigger] false_piece@[p] == is_false_piece(pieces@, p),
                forall|p: int| 0 <= p < pid ==> #[trigger] available@[p],
        {
            piece_rots.push(all_rotations(&pieces[pid].edges));
            false_piece.push(pieces[pid].kind == PieceKind::False);
            available.push(true);
        }
        proof {
            lemma_shown_in_range(pieces@, alphabet_max);
        }
        let postings: Vec<Vec<Vec<PlacementRef>>> = build_postings(Ghost(pieces@), &piece_rots, value_offset);
        let mut links: Vec<[Option<usize>; 6]> = Vec::with_capacity(neighbors.len());
        let mut assignments: Vec<Option<PlacementRef>> = Vec::with_capacity(neighbors.len());
        let mut cache: Vec<CellCache> = Vec::with_capacity(neighbors.len());
        for i in 0..neighbors.len()
            invariant
                links.len() == i,
                assignments.len() == i,
                cache.len() == i,
                links@ == neighbors@.take(i as int),
                forall|k: int| 0 <= k < i ==> (#[trigger] assignments@[k]) is None,
                forall|k: int|
                    0 <= k < i ==> (#[trigger] cache@[k]).key@ == Seq::new(6, |d: int| FREE)
                        && cache@[k].candidates@ == Seq::<PlacementRef>::empty(),
        {
            links.push(neighbors[i]);
            assert(links@ =~= neighbors@.take(i + 1));
            assignments.push(None);
            let key: [i32; 6] = [FREE; 6];
            assert(key@ =~= Seq::new(6, |d: int| FREE));
            cache.push(CellCache { key, candidates: Vec::new() });
        }
        assert(links@ =~= neighbors@);
        let solver: Solver = Solver {
            neighbors: links,
            piece_rots,
            postings,
            value_offset,
            assignments,
            available,
            cache,
            nodes: 0,
            node_cap,
            solution_limit,
            solutions_found: 0,
            require_false,
            false_piece,
            pieces: Ghost(pieces@),
        };
        proof {
            let start = fresh(solver.quest());
            assert(solver.progress().assignments =~= start.assignments);
            assert(solver.progress().available =~= start.available);
            assert(solver.progress().cache =~= start.cache);
        }
        solver
    }
}

proof fn lemma_shown_in_range(pieces: Seq<Piece>, alphabet_max: i32)
    requires
        within_alphabet(pieces, alphabet_max),
    ensures
        forall|p: PlacementRef, dir: int|
            exists_in(pieces, p) && 0 <= dir < 6 ==> -offset_of(alphabet_max) <= #[trigger] shown(pieces, p, dir)
                <= offset_of(alphabet_max),
{
    assert forall|p: PlacementRef, dir: int| exists_in(pieces, p) && 0 <= dir < 6 implies -offset_of(alphabet_max)
        <= #[trigger] shown(pieces, p, dir) <= offset_of(alphabet_max) by {
        assert(-offset_of(alphabet_max) <= pieces[p.pid as int].edges@[(dir - p.rot) % 6] <= offset_of(
            alphabet_max,
        ));
    }
}

fn all_rotations(edges: &[i32; 6]) -> (rots: [[i32; 6]; 6])
    ensures
        forall|rot: int| 0 <= rot < 6 ==> (#[trigger] rots@[rot])@ == turned(edges@, rot),
{
    let mut rots: [[i32; 6]; 6] = [[0; 6]; 6];
    rots[0] = *edges;
    assert(edges@ =~= turned(edges@, 0));
    for rot in 1..6usize
        invariant
            forall|k: int| 0 <= k < rot ==> (#[trigger] rots@[k])@ == turned(edges@, k),
    {
        let next: [i32; 6] = rotate_edges(&rots[rot - 1], 1);
        proof {
            assert(rots@[rot - 1]@ == turned(edges@, rot - 1));
            lemma_turned_again(edges@, rot - 1);
        }
        rots[rot] = next;
    }
    rots
}

fn build_postings(Ghost(pieces): Ghost<Seq<Piece>>, piece_rots: &Vec<[[i32; 6]; 6]>, offset: i32) -> (postings: Vec<
    Vec<Vec<PlacementRef>>,
>)
    requires
        1 <= offset,
        2 * offset + 1 <= i32::MAX,
        piece_rots.len() == pieces.len(),
        forall|pid: int, rot: int|
            0 <= pid < pieces.len() && 0 <= rot < 6 ==> (#[trigger] piece_rots@[pid]@[rot])@ == turned(
                pieces[pid].edges@,
                rot,
            ),
        forall|p: PlacementRef, dir: int|
            exists_in(pieces, p) && 0 <= dir < 6 ==> -offset <= #[trigger] shown(pieces, p, dir) <= offset,
    ensures
        postings_wf(postings@, pieces, offset, 6 * pieces.len() as int),
{
    let range: usize = (offset * 2 + 1) as usize;
    let mut postings: Vec<Vec<Vec<PlacementRef>>> = empty_postings(range);
    for pid in 0..piece_rots.len()
        invariant
            1 <= offset,
            2 * offset + 1 <= i32::MAX,
            piece_rots.len() == pieces.len(),
            forall|p: int, rot: int|
                0 <= p < pieces.len() && 0 <= rot < 6 ==> (#[trigger] piece_rots@[p]@[rot])@ == turned(
                    pieces[p].edges@,
                    rot,
                ),
            forall|p: PlacementRef, dir: int|
                exists_in(pieces, p) && 0 <= dir < 6 ==> -offset <= #[trigger] shown(pieces, p, dir) <= offset,
            postings_wf(postings@, pieces, offset, 6 * pid as int),
    {
        for rot in 0..6u8
            invariant
                1 <= offset,
                2 * offset + 1 <= i32::MAX,
                pid < piece_rots.len(),
                piece_rots.len() == pieces.len(),
                forall|p: int, r: int|
                    0 <= p < pieces.len() && 0 <= r < 6 ==> (#[trigger] piece_rots@[p]@[r])@ == turned(
                        pieces[p].edges@,
                        r,
                    ),
                forall|p: PlacementRef, dir: int|
                    exists_in(pieces, p) && 0 <= dir < 6 ==> -offset <= #[trigger] shown(pieces, p, dir)
                        <= offset,
                postings_wf(postings@, pieces, offset, 6 * pid + rot),
        {
            let placement: PlacementRef = PlacementRef { pid, rot };
            let ghost n = 6 * pid + rot;
            assert(nth_placement(n) == placement);
            for dir in 0..6usize
                invariant
                    1 <= offset,
                    2 * offset + 1 <= i32::MAX,
                    pid < piece_rots.len(),
                    piece_rots.len() == pieces.len(),
                    rot < 6,
                    piece_rots@[pid as int]@[rot as int]@ == turned(pieces[pid as int].edges@, rot as int),
                    placement == (PlacementRef { pid, rot }),
                    nth_placement(n) == placement,
                    n == 6 * pid + rot,
                    forall|d: int|
                        0 <= d < 6 ==> -offset <= #[trigger] shown(pieces, placement, d) <= offset,
                    postings.len() == 6,
                    forall|d: int| 0 <= d < 6 ==> (#[trigger] postings@[d])@.len() == 2 * offset + 1,
                    forall|d: int, v: int|
                        0 <= d < 6 && 0 <= v < 2 * offset + 1 ==> (#[trigger] postings@[d]@[v])@
                            == placements_below(
                            n + (if d < dir {
                                1int
                            } else {
                                0
                            }),
                            |p: PlacementRef| shown(pieces, p, d) == v - offset,
                        ),
            {
                let val: i32 = piece_rots[pid][rot as usize][dir];
                assert(val == shown(pieces, placement, dir as int));
                let idx: usize = (val + offset) as usize;
                postings[dir][idx].push(placement);
            }
        }
    }
    postings
}

fn empty_postings(range: usize) -> (postings: Vec<Vec<Vec<PlacementRef>>>)
    ensures
        postings.len() == 6,
        forall|dir: int| 0 <= dir < 6 ==> (#[trigger] postings@[dir])@.len() == range,
        forall|dir: int, v: int|
            0 <= dir < 6 && 0 <= v < range ==> (#[trigger] postings@[dir]@[v])@ == Seq::<PlacementRef>::empty(),
{
    let mut postings: Vec<Vec<Vec<PlacementRef>>> = Vec::new();
    for dir in 0..6usize
        invariant
            postings.len() == dir,
            forall|d: int| 0 <= d < dir ==> (#[trigger] postings@[d])@.len() == range,
            forall|d: int, v: int|
                0 <= d < dir && 0 <= v < range ==> (#[trigger] postings@[d]@[v])@ == Seq::<PlacementRef>::empty(),
    {
        let mut lists: Vec<Vec<PlacementRef>> = Vec::new();
        for v in 0..range
            invariant
                lists.len() == v,
                forall|w: int| 0 <= w < v ==> (#[trigger] lists@[w])@ == Seq::<PlacementRef>::empty(),
        {
            lists.push(Vec::new());
        }
        postings.push(lists);
    }
    postings
}

fn same_key(a: &[i32; 6], b: &[i32; 6]) -> (same: bool)
    ensures
        same == (a@ == b@),
{
    for dir in 0..6usize
        invariant
            forall|d: int| 0 <= d < dir ==> a@[d] == #[trigger] b@[d],
    {
        if a[dir] != b[dir] {
            return false;
        }
    }
    assert(a@ =~= b@);
    true
}

impl Solver {
    /// What a cell must show in each direction.
    fn cell_key(&self, idx: usize) -> (key: [i32; 6])
        requires
            self.wf(),
            idx < self.quest().links.len(),
        ensures
            key@ == demands(self.quest(), self.progress().assignments, idx as int),
            forall|dir: int|
                0 <= dir < 6 && (#[trigger] key@[dir]) != FREE ==> -self.value_offset <= key@[dir]
                    <= self.value_offset,
    {
        let mut key: [i32; 6] = [FREE; 6];
        let ghost expected = demands(self.quest(), self.progress().assignments, idx as int);
        for dir in 0..6usize
            invariant
                self.wf(),
                idx < self.neighbors.len(),
                expected == demands(self.quest(), self.progress().assignments, idx as int),
                forall|d: int| 0 <= d < dir ==> #[trigger] key@[d] == expected[d],
                forall|d: int| dir <= d < 6 ==> #[trigger] key@[d] == FREE,
                forall|d: int|
                    0 <= d < 6 && (#[trigger] key@[d]) != FREE ==> -self.value_offset <= key@[d]
                        <= self.value_offset,
        {
            if let Some(n_idx) = self.neighbors[idx][dir] {
                if let Some(placement) = self.assignments[n_idx] {
                    let opp: usize = opposite_dir(dir);
                    let edge: i32 = self.piece_rots[placement.pid][placement.rot as usize][opp];
                    assert(edge == shown(self.pieces@, placement, opposite(dir as int)));
                    key[dir] = -edge;
                }
            } else {
                key[dir] = 0;
            }
        }
        assert(key@ =~= expected);
        key
    }

    /// The placements that a cell can take as things stand. In a sound state
    /// they can all be laid there, none is listed twice, and asking changes
    /// nothing but what is remembered: asking again gives the same list.
    pub fn candidates_for_cell(&mut self, idx: usize) -> (out: Vec<PlacementRef>)
        requires
            old(self).wf(),
            idx < old(self).quest().links.len(),
        ensures
            final(self).wf(),
            final(self).quest() == old(self).quest(),
            (final(self).progress(), out@) == candidates_of(old(self).quest(), old(self).progress(), idx as int),
            forall|k: int| 0 <= k < out.len() ==> exists_in(old(self).quest().pieces, #[trigger] out@[k]),
            forall|k: int|
                0 <= k < out.len() ==> old(self).progress().available[(#[trigger] out@[k]).pid as int],
            forall|alphabet_max: i32| #[trigger]
                quest_wf(old(self).quest(), alphabet_max) && sound(old(self).quest(), old(self).progress())
                    ==> lists_candidates(
                    old(self).quest(),
                    old(self).progress(),
                    idx as int,
                    final(self).progress(),
                    out@,
                ),
    {
        proof {
            let quest = self.quest();
            let state = self.progress();
            assert forall|alphabet_max: i32| #[trigger]
                quest_wf(quest, alphabet_max) && sound(quest, state) implies lists_candidates(
                quest,
                state,
                idx as int,
                candidates_of(quest, state, idx as int).0,
                candidates_of(quest, state, idx as int).1,
            ) by {
                law_candidates(quest, alphabet_max, state, idx as int);
            }
        }
        let key: [i32; 6] = self.cell_key(idx);
        assert(self.progress().cache[idx as int].key == self.cache@[idx as int].key@);
        if same_key(&self.cache[idx].key, &key) {
            return self.still_available(idx);
        }
        let candidates: Vec<PlacementRef> = self.meeting_key(&key);
        let out: Vec<PlacementRef> = copied(&candidates);
        let ghost start = *self;
        self.cache[idx] = CellCache { key, candidates };
        proof {
            let (after, list) = candidates_of(start.quest(), start.progress(), idx as int);
            assert(self.progress().cache =~= after.cache);
            assert forall|i: int, k: int|
                0 <= i < self.cache.len() && 0 <= k < self.cache@[i].candidates.len() implies exists_in(
                self.pieces@,
                #[trigger] self.cache@[i].candidates@[k],
            ) by {
                if i != idx {
                    assert(self.cache@[i] == start.cache@[i]);
                }
            }
        }
        out
    }

    /// The remembered candidates of a cell whose piece is available.
    fn still_available(&self, idx: usize) -> (out: Vec<PlacementRef>)
        requires
            self.wf(),
            idx < self.quest().links.len(),
        ensures
            out@ == self.progress().cache[idx as int].candidates.filter(
                |p: PlacementRef| self.progress().available[p.pid as int],
            ),
            forall|k: int| 0 <= k < out.len() ==> exists_in(self.quest().pieces, #[trigger] out@[k]),
            forall|k: int| 0 <= k < out.len() ==> self.progress().available[(#[trigger] out@[k]).pid as int],
    {
        reveal(Seq::filter);
        let ghost keep = |p: PlacementRef| self.progress().available[p.pid as int];
        let list: &Vec<PlacementRef> = &self.cache[idx].candidates;
        let mut out: Vec<PlacementRef> = Vec::new();
        for i in 0..list.len()
            invariant
                self.wf(),
                idx < self.cache.len(),
                list == self.cache@[idx as int].candidates,
                keep == (|p: PlacementRef| self.progress().available[p.pid as int]),
                out@ == list@.take(i as int).filter(keep),
                forall|k: int|
                    0 <= k < out.len() ==> exists_in(self.pieces@, #[trigger] out@[k])
                        && self.available@[out@[k].pid as int],
        {
            let p: PlacementRef = list[i];
            assert(exists_in(self.pieces@, self.cache@[idx as int].candidates@[i as int]));
            assert(list@.take(i + 1).drop_last() =~= list@.take(i as int));
            assert(list@.take(i + 1).last() == p);
            reveal(Seq::filter);
            if self.available[p.pid] {
                out.push(p);
            }
        }
        assert(list@.take(list@.len() as int) =~= list@);
        out
    }

    /// The available placements that meet `key`.
    fn meeting_key(&self, key: &[i32; 6]) -> (out: Vec<PlacementRef>)
        requires
            self.wf(),
            forall|dir: int|
                0 <= dir < 6 && (#[trigger] key@[dir]) != FREE ==> -self.value_offset <= key@[dir]
                    <= self.value_offset,
        ensures
            out@ == meeting(self.quest(), self.progress().available, key@),
            forall|k: int| 0 <= k < out.len() ==> exists_in(self.quest().pieces, #[trigger] out@[k]),
            forall|k: int| 0 <= k < out.len() ==> self.progress().available[(#[trigger] out@[k]).pid as int],
    {
        let ghost n = 6 * self.pieces@.len() as int;
        let ghost keep = |p: PlacementRef|
            self.progress().available[p.pid as int] && meets(self.quest().pieces, key@, p);
        let mut best: Option<(usize, usize, usize)> = None;
        for dir in 0..6usize
            invariant
                self.wf(),
                forall|d: int|
                    0 <= d < 6 && (#[trigger] key@[d]) != FREE ==> -self.value_offset <= key@[d]
                        <= self.value_offset,
                match best {
                    Some((d, idx, len)) => {
                        &&& d < 6
                        &&& key@[d as int] != FREE
                        &&& idx == key@[d as int] + self.value_offset
                        &&& idx < 2 * self.value_offset + 1
                        &&& len == self.postings@[d as int]@[idx as int].len()
                    },
                    None => forall|d: int| 0 <= d < dir ==> #[trigger] key@[d] == FREE,
                },
        {
            let val: i32 = key[dir];
            if val != FREE {
                let idx: usize = (val + self.value_offset) as usize;
                let len: usize = self.postings[dir][idx].len();
                let shorter: bool = match best {
                    Some((_, _, best_len)) => len < best_len,
                    None => true,
                };
                if shorter {
                    best = Some((dir, idx, len));
                }
            }
        }
        let out: Vec<PlacementRef> = match best {
            Some((dir, idx, _)) => {
                let ghost first = |p: PlacementRef| shown(self.pieces@, p, dir as int) == idx - self.value_offset;
                let list: &Vec<PlacementRef> = &self.postings[dir][idx];
                assert(list@ == placements_below(n, first));
                proof {
                    lemma_placements_below(n, first);
                }
                let out: Vec<PlacementRef> = self.sieve(list, key);
                proof {
                    lemma_placements_filter(n, first, keep);
                    lemma_placements_ext(n, |p: PlacementRef| first(p) && keep(p), keep);
                }
                out
            },
            None => self.all_available(key),
        };
        proof {
            lemma_placements_below(n, keep);
        }
        out
    }

    /// Those of `list` that are available and meet `key`.
    fn sieve(&self, list: &Vec<PlacementRef>, key: &[i32; 6]) -> (out: Vec<PlacementRef>)
        requires
            self.wf(),
            forall|k: int| 0 <= k < list.len() ==> exists_in(self.pieces@, #[trigger] list@[k]),
        ensures
            out@ == list@.filter(
                |p: PlacementRef|
                    self.progress().available[p.pid as int] && meets(self.quest().pieces, key@, p),
            ),
    {
        reveal(Seq::filter);
        let ghost keep = |p: PlacementRef|
            self.progress().available[p.pid as int] && meets(self.quest().pieces, key@, p);
        let mut out: Vec<PlacementRef> = Vec::new();
        for i in 0..list.len()
            invariant
                self.wf(),
                forall|k: int| 0 <= k < list.len() ==> exists_in(self.pieces@, #[trigger] list@[k]),
                keep == (|p: PlacementRef|
                    self.progress().available[p.pid as int] && meets(self.quest().pieces, key@, p)),
                out@ == list@.take(i as int).filter(keep),
        {
            let p: PlacementRef = list[i];
            assert(list@.take(i + 1).drop_last() =~= list@.take(i as int));
            assert(list@.take(i + 1).last() == p);
            reveal(Seq::filter);
            if self.available[p.pid] && self.meets_key(&p, key) {
                out.push(p);
            }
        }
        assert(list@.take(list@.len() as int) =~= list@);
        out
    }

    fn meets_key(&self, p: &PlacementRef, key: &[i32; 6]) -> (ok: bool)
        requires
            self.wf(),
            exists_in(self.pieces@, *p),
        ensures
            ok == meets(self.quest().pieces, key@, *p),
    {
        for dir in 0..6usize
            invariant
                self.wf(),
                exists_in(self.pieces@, *p),
                forall|d: int|
                    0 <= d < dir && (#[trigger] key@[d]) != FREE ==> shown(self.pieces@, *p, d) == key@[d],
        {
            let edge: i32 = self.piece_rots[p.pid][p.rot as usize][dir];
            assert(edge == shown(self.pieces@, *p, dir as int));
            if key[dir] != FREE && edge != key[dir] {
                return false;
            }
        }
        true
    }

    /// Every rotation of every available piece; `key` demands nothing.
    fn all_available(&self, key: &[i32; 6]) -> (out: Vec<PlacementRef>)
        requires
            self.wf(),
            forall|d: int| 0 <= d < 6 ==> #[trigger] key@[d] == FREE,
        ensures
            out@ == meeting(self.quest(), self.progress().available, key@),
    {
        let ghost keep = |p: PlacementRef|
            self.progress().available[p.pid as int] && meets(self.quest().pieces, key@, p);
        let mut out: Vec<PlacementRef> = Vec::new();
        for pid in 0..self.available.len()
            invariant
                self.wf(),
                forall|d: int| 0 <= d < 6 ==> #[trigger] key@[d] == FREE,
                keep == (|p: PlacementRef|
                    self.progress().available[p.pid as int] && meets(self.quest().pieces, key@, p)),
                out@ == placements_below(6 * pid as int, keep),
        {
            if self.available[pid] {
                for rot in 0..6u8
                    invariant
                        self.wf(),
                        pid < self.available.len(),
                        self.available@[pid as int],
                        forall|d: int| 0 <= d < 6 ==> #[trigger] key@[d] == FREE,
                        keep == (|p: PlacementRef|
                            self.progress().available[p.pid as int] && meets(self.quest().pieces, key@, p)),
                        out@ == placements_below(6 * pid + rot, keep),
                {
                    assert(nth_placement(6 * pid + rot) == (PlacementRef { pid, rot }));
                    out.push(PlacementRef { pid, rot });
                }
            } else {
                proof {
                    lemma_unavailable_skipped(pid as int, keep, 6);
                }
            }
        }
        out
    }
}

fn copied(list: &Vec<PlacementRef>) -> (out: Vec<PlacementRef>)
    ensures
        out@ == list@,
{
    let mut out: Vec<PlacementRef> = Vec::with_capacity(list.len());
    for i in 0..list.len()
        invariant
            out@ == list@.take(i as int),
    {
        out.push(list[i]);
        assert(list@.take(i + 1) =~= list@.take(i as int).push(list@[i as int]));
    }
    assert(list@.take(list@.len() as int) =~= list@);
    out
}

/// The rotations of a piece that is not kept add nothing.
proof fn lemma_unavailable_skipped(pid: int, keep: spec_fn(PlacementRef) -> bool, rot: int)
    requires
        0 <= pid <= usize::MAX,
        0 <= rot <= 6,
        forall|p: PlacementRef| p.pid == pid ==> !#[trigger] keep(p),
    ensures
        placements_below(6 * pid + rot, keep) == placements_below(6 * pid, keep),
    decreases rot,
{
    if rot > 0 {
        lemma_unavailable_skipped(pid, keep, rot - 1);
        assert(nth_placement(6 * pid + rot - 1).pid == pid);
    }
}

impl Solver {
    /// The free cell to fill next, if there is one.
    fn pick_next_cell(&mut self) -> (pick: Option<usize>)
        requires
            old(self).wf(),
        ensures
            final(self).wf(),
            final(self).quest() == old(self).quest(),
            final(self).progress().assignments == old(self).progress().assignments,
            final(self).progress().available == old(self).progress().available,
            final(self).progress().nodes == old(self).progress().nodes,
            final(self).progress().found == old(self).progress().found,
            ({
                let (scanned, best) = scan_cells(old(self).quest(), old(self).progress(), 0, None);
                &&& final(self).progress() == scanned
                &&& match pick {
                    Some(idx) => best is Some && {
                        let (cell, _) = best->0;
                        cell == idx
                    },
                    None => best is None,
                }
            }),
            pick is Some ==> pick->0 < old(self).quest().links.len()
                && old(self).progress().assignments[pick->0 as int] is None,
    {
        let mut best: Option<(usize, usize)> = None;
        let mut idx: usize = 0;
        let ghost quest = self.quest();
        let ghost start = self.progress();
        let ghost outcome = scan_cells(quest, start, 0, None);
        proof {
            lemma_scan_keeps(quest, start, 0, None);
        }
        while idx < self.assignments.len()
            invariant
                self.wf(),
                quest == self.quest(),
                quest == old(self).quest(),
                start == old(self).progress(),
                outcome == scan_cells(quest, start, 0, None),
                idx <= self.assignments.len(),
                self.progress().assignments == start.assignments,
                self.progress().available == start.available,
                self.progress().nodes == start.nodes,
                self.progress().found == start.found,
                match best {
                    Some((cell, _)) => cell < self.assignments.len() && start.assignments[cell as int] is None,
                    None => true,
                },
                scan_cells(quest, self.progress(), idx as int, counted_pick(best)) == outcome,
            decreases self.assignments.len() - idx,
        {
            if self.assignments[idx].is_none() {
                let ghost before = self.progress();
                let count: usize = self.candidates_for_cell(idx).len();
                best = match best {
                    Some((_, fewest)) if count >= fewest => best,
                    _ => Some((idx, count)),
                };
                if count <= 1 {
                    assert((self.progress(), counted_pick(best)) == outcome);
                    return match best {
                        Some((cell, _)) => Some(cell),
                        None => None,
                    };
                }
            }
            idx = idx + 1;
        }
        match best {
            Some((cell, _)) => Some(cell),
            None => None,
        }
    }

    /// Searches on from here, and takes back every placement it made.
    fn search(&mut self, used_false: bool)
        requires
            old(self).wf(),
        ensures
            final(self).wf(),
            final(self).quest() == old(self).quest(),
            final(self).progress() == explore(old(self).quest(), old(self).progress(), used_false),
        decreases open_cells(old(self).progress().assignments), 1int,
    {
        if self.nodes >= self.node_cap || self.solutions_found >= self.solution_limit {
            return;
        }
        match self.pick_next_cell() {
            None => {
                if !self.require_false || used_false {
                    let ghost before = self.progress();
                    self.solutions_found = self.solutions_found + 1;
                    assert(self.progress().cache =~= before.cache);
                }
            },
            Some(cell_idx) => {
                let candidates: Vec<PlacementRef> = self.candidates_for_cell(cell_idx);
                self.lay_all(cell_idx, &candidates, used_false);
            },
        }
    }

    /// Lays each of `candidates` on the cell in turn and searches on.
    fn lay_all(&mut self, cell_idx: usize, candidates: &Vec<PlacementRef>, used_false: bool)
        requires
            old(self).wf(),
            cell_idx < old(self).quest().links.len(),
            old(self).progress().assignments[cell_idx as int] is None,
            forall|k: int| 0 <= k < candidates.len() ==> exists_in(old(self).quest().pieces, #[trigger] candidates@[k]),
            forall|k: int|
                0 <= k < candidates.len() ==> old(self).progress().available[(#[trigger] candidates@[k]).pid as int],
        ensures
            final(self).wf(),
            final(self).quest() == old(self).quest(),
            final(self).progress() == lay_from(
                old(self).quest(),
                old(self).progress(),
                cell_idx as int,
                candidates@,
                0,
                used_false,
            ),
        decreases open_cells(old(self).progress().assignments), 0int,
    {
        let ghost quest = self.quest();
        let ghost start = self.progress();
        let ghost outcome = lay_from(quest, start, cell_idx as int, candidates@, 0, used_false);
        let mut i: usize = 0;
        while i < candidates.len() && self.nodes < self.node_cap && self.solutions_found < self.solution_limit
            invariant
                self.wf(),
                quest == self.quest(),
                quest == old(self).quest(),
                start == old(self).progress(),
                cell_idx < self.assignments.len(),
                i <= candidates.len(),
                start.assignments[cell_idx as int] is None,
                self.progress().assignments == start.assignments,
                self.progress().available == start.available,
                forall|k: int| 0 <= k < candidates.len() ==> exists_in(quest.pieces, #[trigger] candidates@[k]),
                forall|k: int| 0 <= k < candidates.len() ==> start.available[(#[trigger] candidates@[k]).pid as int],
                lay_from(quest, self.progress(), cell_idx as int, candidates@, i as int, used_false) == outcome,
            decreases candidates.len() - i,
        {
            let placement: PlacementRef = candidates[i];
            assert(exists_in(quest.pieces, candidates@[i as int]));
            let ghost before = self.progress();
            let next_used_false: bool = used_false || self.false_piece[placement.pid];
            self.nodes = self.nodes + 1;
            self.assignments[cell_idx] = Some(placement);
            self.available[placement.pid] = false;
            let ghost under = laid(before, cell_idx as int, placement);
            proof {
                assert(self.progress().cache =~= under.cache);
                assert(self.progress() == under);
                lemma_open_cells_update(before.assignments, cell_idx as int, placement);
                lemma_explore_keeps(quest, under, next_used_false);
            }
            self.search(next_used_false);
            let ghost below = self.progress();
            self.assignments[cell_idx] = None;
            self.available[placement.pid] = true;
            proof {
                assert(self.progress().assignments =~= before.assignments);
                assert(self.progress().available =~= before.available);
                assert(self.progress().cache =~= below.cache);
            }
            i = i + 1;
        }
    }

    /// Runs the search to its end.
    pub fn solve(self) -> (result: SolveResult)
        requires
            self.wf(),
        ensures
            result.nodes == explore(self.quest(), self.progress(), false).nodes,
            result.solutions_found == explore(self.quest(), self.progress(), false).found,
    {
        let mut solver: Solver = self;
        solver.search(false);
        SolveResult { nodes: solver.nodes, solutions_found: solver.solutions_found }
    }
}

spec fn counted_pick(best: Option<(usize, usize)>) -> Option<(int, int)> {
    match best {
        Some((idx, count)) => Some((idx as int, count as int)),
        None => None,
    }
}

} // verus!
