//! One trial of the puzzle generator: pieces, shapes and the finished
//! candidate.

use crate::edge_map::{is_less, lemma_lex_total, lemma_lex_transitive, lex_less, EdgeMap};
use crate::geometry::is_canonical;
use crate::grid::{magnitude, rotated, Links};
use vstd::prelude::*;

verus! {

#[derive(Clone, Copy, Debug, PartialEq, Eq, Structural)]
pub enum PieceKind {
    True,
    False,
}

/// A piece of a trial puzzle.
#[derive(Clone, Copy, Debug)]
pub struct Piece {
    pub id: usize,
    pub kind: PieceKind,
    pub cluster_id: Option<usize>,
    pub edges: [i32; 6],
}

/// The edge values `edges` after `rot` sixth-turns: the value at position `i`
/// moves to position `i + rot`.
pub open spec fn turned(edges: Seq<i32>, rot: int) -> Seq<i32> {
    Seq::new(6, |i: int| edges[(i - rot) % 6])
}

pub fn rotate_edges(edges: &[i32; 6], rot: usize) -> (out: [i32; 6])
    requires
        rot <= usize::MAX - 5,
    ensures
        out@ == turned(edges@, rot as int),
{
    let mut out: [i32; 6] = [0; 6];
    for i in 0..6usize
        invariant
            rot <= usize::MAX - 5,
            forall|j: int| #![trigger edges@[j]] 0 <= j < i ==> out@[(j + rot) % 6] == edges@[j],
    {
        out[(i + rot) % 6] = edges[i];
    }
    assert forall|k: int| 0 <= k < 6 implies out@[k] == turned(edges@, rot as int)[k] by {
        let j = (k - rot) % 6;
        assert((j + rot) % 6 == k);
        assert(out@[(j + rot) % 6] == edges@[j]);
    }
    assert(out@ =~= turned(edges@, rot as int));
    out
}

/// One turn more.
pub proof fn lemma_turned_again(edges: Seq<i32>, rot: int)
    ensures
        turned(turned(edges, rot), 1) == turned(edges, rot + 1),
{
    assert forall|i: int| 0 <= i < 6 implies turned(turned(edges, rot), 1)[i] == turned(edges, rot + 1)[i] by {
        assert(((i - 1) % 6 - rot) % 6 == (i - (rot + 1)) % 6);
    }
    assert(turned(turned(edges, rot), 1) =~= turned(edges, rot + 1));
}

/// Turning one way is turning the other way for the rest of a full turn.
pub proof fn law_turned_rotated(edges: Seq<i32>, rot: int)
    requires
        edges.len() == 6,
        0 <= rot < 6,
    ensures
        turned(edges, rot) == rotated(edges, (6 - rot) % 6),
{
    let back = (6 - rot) % 6;
    assert forall|i: int| 0 <= i < 6 implies #[trigger] turned(edges, rot)[i] == rotated(edges, back)[i] by {
        assert((i - rot) % 6 == (i + back) % 6);
    }
    assert(turned(edges, rot) =~= rotated(edges, back));
}

/// The least of the rotations of `edges`.
pub fn canonical_edges(edges: &[i32; 6]) -> (best: [i32; 6])
    ensures
        is_canonical(edges@, best@),
{
    let mut best: [i32; 6] = *edges;
    let ghost mut best_rot: int = 0;
    assert(edges@ =~= rotated(edges@, 0));
    proof {
        lemma_lex_total(edges@, edges@);
    }
    for rot in 1..6usize
        invariant
            0 <= best_rot < 6,
            best@ == rotated(edges@, best_rot),
            !lex_less(rotated(edges@, 0), best@),
            forall|r: int| 6 - rot < r < 6 ==> !lex_less(#[trigger] rotated(edges@, r), best@),
    {
        let cand: [i32; 6] = rotate_edges(edges, rot);
        let ghost past = best@;
        assert(cand@ == rotated(edges@, 6 - rot)) by {
            law_turned_rotated(edges@, rot as int);
        }
        if is_less(&cand, &best) {
            best = cand;
            proof {
                best_rot = 6 - rot;
                lemma_lex_total(best@, best@);
                if lex_less(rotated(edges@, 0), best@) {
                    lemma_lex_transitive(rotated(edges@, 0), best@, past);
                }
                assert forall|r: int| 6 - rot - 1 < r < 6 implies !lex_less(#[trigger] rotated(edges@, r), best@) by {
                    if lex_less(rotated(edges@, r), best@) {
                        lemma_lex_transitive(rotated(edges@, r), best@, past);
                    }
                }
            }
        }
    }
    proof {
        let least = best@;
        assert forall|r: int| 0 <= r < 6 implies !lex_less(#[trigger] rotated(edges@, r), least) by {
        }
        assert(least == rotated(edges@, best_rot));
    }
    best
}

/// Whether pieces have valid outlines, by canonical rotation.
pub struct GeometryCache {
    pub cache: EdgeMap<bool>,
}

impl GeometryCache {
    pub open spec fn wf(&self) -> bool {
        self.cache.wf()
    }

    pub fn new() -> (cache: Self)
        ensures
            cache.wf(),
            cache.cache@ == Map::<Seq<i32>, bool>::empty(),
    {
        GeometryCache { cache: EdgeMap::new() }
    }

    /// Whether a piece has a valid outline. `crosses` tells of a piece
    /// whether its outline crosses itself, and is asked once for all
    /// rotations of it.
    pub fn is_valid<C: Fn(&[i32; 6]) -> bool>(&mut self, edges: &[i32; 6], crosses: C) -> (valid: bool)
        requires
            old(self).wf(),
            crosses.requires((edges,)),
        ensures
            final(self).wf(),
            exists|key: Seq<i32>| #[trigger]
                is_canonical(edges@, key) && final(self).cache@.contains_key(key) && valid == final(self).cache@[key]
                    && if old(self).cache@.contains_key(key) {
                    final(self).cache@ == old(self).cache@
                } else {
                    crosses.ensures((edges,), !valid) && final(self).cache@ == old(self).cache@.insert(key, valid)
                },
    {
        let key: [i32; 6] = canonical_edges(edges);
        assert(is_canonical(edges@, key@));
        if let Some(value) = self.cache.get(&key) {
            return *value;
        }
        let ok: bool = !crosses(edges);
        self.cache.insert(key, ok);
        ok
    }
}

/// Whether `id` is the greatest magnitude on the pieces, or zero if there
/// are none.
pub open spec fn is_max_id(pieces: Seq<Piece>, id: int) -> bool {
    &&& forall|i: int, dir: int|
        0 <= i < pieces.len() && 0 <= dir < 6 ==> magnitude(#[trigger] pieces[i].edges@[dir]) <= id
    &&& id == 0 || exists|i: int, dir: int|
        0 <= i < pieces.len() && 0 <= dir < 6 && magnitude(#[trigger] pieces[i].edges@[dir]) == id
}

pub fn max_edge_id(pieces: &Vec<Piece>) -> (max_id: i32)
    requires
        forall|i: int, dir: int|
            0 <= i < pieces.len() && 0 <= dir < 6 ==> (#[trigger] pieces@[i].edges@[dir]) > i32::MIN,
    ensures
        is_max_id(pieces@, max_id as int),
        0 <= max_id,
{
    let mut max_id: i32 = 0;
    for i in 0..pieces.len()
        invariant
            forall|p: int, dir: int|
                0 <= p < pieces.len() && 0 <= dir < 6 ==> (#[trigger] pieces@[p].edges@[dir]) > i32::MIN,
            0 <= max_id,
            forall|p: int, dir: int|
                0 <= p < i && 0 <= dir < 6 ==> magnitude(#[trigger] pieces@[p].edges@[dir]) <= max_id,
            max_id == 0 || exists|p: int, dir: int|
                0 <= p < pieces.len() && 0 <= dir < 6 && magnitude(#[trigger] pieces@[p].edges@[dir]) == max_id,
    {
        for dir in 0..6usize
            invariant
                i < pieces.len(),
                forall|p: int, d: int|
                    0 <= p < pieces.len() && 0 <= d < 6 ==> (#[trigger] pieces@[p].edges@[d]) > i32::MIN,
                0 <= max_id,
                forall|p: int, d: int|
                    0 <= p < i && 0 <= d < 6 ==> magnitude(#[trigger] pieces@[p].edges@[d]) <= max_id,
                forall|d: int| 0 <= d < dir ==> magnitude(#[trigger] pieces@[i as int].edges@[d]) <= max_id,
                max_id == 0 || exists|p: int, d: int|
                    0 <= p < pieces.len() && 0 <= d < 6 && magnitude(#[trigger] pieces@[p].edges@[d]) == max_id,
        {
            let edge: i32 = pieces[i].edges[dir];
            assert(pieces@[i as int].edges@[dir as int] > i32::MIN);
            let id: i32 = if edge < 0 { -edge } else { edge };
            if id > max_id {
                max_id = id;
                assert(magnitude(pieces@[i as int].edges@[dir as int]) == max_id);
            }
        }
    }
    max_id
}

/// Whether a piece with these edge values could lie on cell `c`, which is on
/// the rim, as far as the rim is concerned.
pub open spec fn fits_rim(links: Seq<[Option<usize>; 6]>, c: int, edges: Seq<i32>) -> bool {
    &&& exists|dir: int| 0 <= dir < 6 && (#[trigger] links[c]@[dir]) is None
    &&& forall|dir: int| 0 <= dir < 6 && (#[trigger] links[c]@[dir]) is None ==> edges[dir] == 0
}

fn lies_on_rim(links: &Links, c: usize, edges: &[i32; 6]) -> (fits: bool)
    requires
        c < links.len(),
    ensures
        fits == fits_rim(links@, c as int, edges@),
{
    let mut on_rim: bool = false;
    for dir in 0..6usize
        invariant
            c < links.len(),
            on_rim == (exists|d: int| 0 <= d < dir && (#[trigger] links@[c as int]@[d]) is None),
            forall|d: int| 0 <= d < dir && (#[trigger] links@[c as int]@[d]) is None ==> edges@[d] == 0,
    {
        if links[c][dir].is_none() {
            if edges[dir] != 0 {
                assert(links@[c as int]@[dir as int] is None);
                return false;
            }
            on_rim = true;
        }
    }
    on_rim
}

/// Whether some false piece could lie on the rim.
pub open spec fn has_false_anchor(links: Seq<[Option<usize>; 6]>, pieces: Seq<Piece>) -> bool {
    exists|c: int, p: int, rot: int| #[trigger] anchors(links, pieces, c, p, rot)
}

/// Whether false piece `p`, turned by `rot`, could lie on cell `c` of the
/// rim.
pub open spec fn anchors(links: Seq<[Option<usize>; 6]>, pieces: Seq<Piece>, c: int, p: int, rot: int) -> bool {
    &&& 0 <= c < links.len()
    &&& 0 <= p < pieces.len()
    &&& 0 <= rot < 6
    &&& pieces[p].kind == PieceKind::False
    &&& fits_rim(links, c, turned(pieces[p].edges@, rot))
}

pub fn false_anchor_exists(neighbors: &Links, pieces: &Vec<Piece>) -> (found: bool)
    ensures
        found == has_false_anchor(neighbors@, pieces@),
{
    for c in 0..neighbors.len()
        invariant
            forall|k: int, p: int, rot: int| k < c ==> !#[trigger] anchors(neighbors@, pieces@, k, p, rot),
    {
        for p in 0..pieces.len()
            invariant
                c < neighbors.len(),
                forall|k: int, q: int, rot: int| k < c ==> !#[trigger] anchors(neighbors@, pieces@, k, q, rot),
                forall|q: int, rot: int| q < p ==> !#[trigger] anchors(neighbors@, pieces@, c as int, q, rot),
        {
            if pieces[p].kind == PieceKind::False {
                for rot in 0..6usize
                    invariant
                        c < neighbors.len(),
                        p < pieces.len(),
                        pieces@[p as int].kind == PieceKind::False,
                        forall|k: int, q: int, r: int|
                            k < c ==> !#[trigger] anchors(neighbors@, pieces@, k, q, r),
                        forall|q: int, r: int|
                            q < p ==> !#[trigger] anchors(neighbors@, pieces@, c as int, q, r),
                        forall|r: int|
                            r < rot ==> !#[trigger] anchors(neighbors@, pieces@, c as int, p as int, r),
                {
                    let edges: [i32; 6] = rotate_edges(&pieces[p].edges, rot);
                    if lies_on_rim(neighbors, c, &edges) {
                        assert(anchors(neighbors@, pieces@, c as int, p as int, rot as int));
                        return true;
                    }
                }
            }
        }
    }
    false
}

} // verus!
