//! The outlines of pieces as far as whole numbers go: canonical rotations,
//! the decoding of edge ids into shapes measured in tenths of an edge, the
//! memo of outlines, and the decisions on crossing segments. Points and
//! distances are the caller's.

use crate::edge_map::{is_less, lemma_lex_total, lemma_lex_transitive, lex_less, EdgeMap};
use crate::grid::{law_rotations_add, magnitude, rotate_edges, rotated};
use vstd::prelude::*;

verus! {

/// Whether `best` is the least of the rotations of `edges`.
pub open spec fn is_canonical(edges: Seq<i32>, best: Seq<i32>) -> bool {
    &&& exists|rot: int| 0 <= rot < 6 && best == #[trigger] rotated(edges, rot)
    &&& forall|rot: int| 0 <= rot < 6 ==> !lex_less(#[trigger] rotated(edges, rot), best)
}

/// The least rotation of `edges`, and the first number of turns that gives
/// it.
pub fn canonical_shape(edges: &[i32; 6]) -> (canonical: ([i32; 6], usize))
    ensures
        ({
            let (best, rot) = canonical;
            &&& is_canonical(edges@, best@)
            &&& rot < 6
            &&& best@ == rotated(edges@, rot as int)
            &&& forall|r: int| 0 <= r < rot ==> #[trigger] rotated(edges@, r) != best@
        }),
{
    let mut best: [i32; 6] = *edges;
    let mut best_rot: usize = 0;
    assert(edges@ =~= rotated(edges@, 0));
    proof {
        lemma_lex_total(edges@, edges@);
    }
    for rot in 1..6usize
        invariant
            best_rot < rot,
            best@ == rotated(edges@, best_rot as int),
            forall|r: int| 0 <= r < rot ==> !lex_less(#[trigger] rotated(edges@, r), best@),
            forall|r: int| 0 <= r < best_rot ==> #[trigger] rotated(edges@, r) != best@,
    {
        let cand: [i32; 6] = rotate_edges(edges, rot);
        let ghost past = best@;
        if is_less(&cand, &best) {
            best = cand;
            best_rot = rot;
            proof {
                assert forall|r: int| 0 <= r < rot + 1 implies !lex_less(#[trigger] rotated(edges@, r), best@) by {
                    lemma_lex_total(best@, best@);
                    if r < rot && lex_less(rotated(edges@, r), best@) {
                        lemma_lex_transitive(rotated(edges@, r), best@, past);
                    }
                }
                assert forall|r: int| 0 <= r < best_rot implies #[trigger] rotated(edges@, r) != best@ by {
                    assert(!lex_less(rotated(edges@, r), past));
                }
            }
        }
    }
    (best, best_rot)
}

/// There is one least rotation only.
pub proof fn law_canonical_unique(edges: Seq<i32>, a: Seq<i32>, b: Seq<i32>)
    requires
        edges.len() == 6,
        is_canonical(edges, a),
        is_canonical(edges, b),
    ensures
        a == b,
{
    let ra = choose|rot: int| 0 <= rot < 6 && a == #[trigger] rotated(edges, rot);
    let rb = choose|rot: int| 0 <= rot < 6 && b == #[trigger] rotated(edges, rot);
    assert(!lex_less(rotated(edges, ra), b));
    assert(!lex_less(rotated(edges, rb), a));
    lemma_lex_total(a, b);
}

/// However a piece is turned, its least rotation is the same.
#[verifier::spinoff_prover]
#[verifier::rlimit(40)]
pub proof fn law_canonical_turned(edges: Seq<i32>, rot: int, best: Seq<i32>)
    requires
        edges.len() == 6,
        0 <= rot < 6,
        is_canonical(edges, best),
    ensures
        is_canonical(rotated(edges, rot), best),
{
    let turned = rotated(edges, rot);
    let at = choose|r: int| 0 <= r < 6 && best == #[trigger] rotated(edges, r);
    let back = if at >= rot {
        at - rot
    } else {
        at - rot + 6
    };
    assert(best == rotated(turned, back)) by {
        lemma_rotation_sum(edges, rot, back);
        assert((rot + back) % 6 == at);
    }
    assert forall|r: int| 0 <= r < 6 implies !lex_less(#[trigger] rotated(turned, r), best) by {
        lemma_rotation_sum(edges, rot, r);
        let sum = (rot + r) % 6;
        assert(0 <= sum < 6);
        assert(!lex_less(rotated(edges, sum), best));
    }
}

proof fn lemma_rotation_sum(edges: Seq<i32>, first: int, second: int)
    requires
        edges.len() == 6,
    ensures
        rotated(rotated(edges, first), second) == rotated(edges, (first + second) % 6),
{
    law_rotations_add(edges, first, second);
    let sum = rotated(edges, first + second);
    let less = rotated(edges, (first + second) % 6);
    assert forall|i: int| 0 <= i < 6 implies #[trigger] sum[i] == less[i] by {
        assert((i + (first + second)) % 6 == (i + (first + second) % 6) % 6);
    }
    assert(sum =~= less);
}

/// The outline of an edge, in tenths of its length: the span from `t0` of
/// the given length is raised, to the heights at both ends or to one apex.
#[derive(Clone, Copy, Debug, PartialEq, Eq, Structural)]
pub enum ShapeKind {
    Trapezoid { t0: u32, length: u32, h0: u32, h1: u32 },
    Triangle { t0: u32, length: u32, apex_offset: u32, height: u32 },
}

#[derive(Clone, Copy, Debug, PartialEq, Eq, Structural)]
pub struct EdgeShape {
    pub kind: ShapeKind,
}

/// The greatest id that has a shape.
pub const MAX_SHAPE_ID: i32 = 295;

/// Where the raised span of position pattern `index` begins.
pub open spec fn span_start(index: int) -> int {
    if index < 3 {
        index + 2
    } else {
        index - 1
    }
}

/// How long the raised span of position pattern `index` is.
pub open spec fn span_length(index: int) -> int {
    if index < 3 {
        4
    } else {
        3
    }
}

/// The span of a position pattern: its start and its length, in tenths.
pub fn position_pattern(index: usize) -> (span: Option<(u32, u32)>)
    ensures
        match span {
            Some((t0, length)) => index < 7 && t0 == span_start(index as int) && length == span_length(index as int),
            None => index >= 7,
        },
{
    match index {
        0 => Some((2, 4)),
        1 => Some((3, 4)),
        2 => Some((4, 4)),
        3 => Some((2, 3)),
        4 => Some((3, 3)),
        5 => Some((4, 3)),
        6 => Some((5, 3)),
        _ => None,
    }
}

/// Whether `id` stands for the trapezoid at position pattern `pos` with these
/// height steps, from 0 to 4.
pub open spec fn is_trapezoid(id: int, shape: EdgeShape, pos: int, h0: int, h1: int) -> bool {
    &&& 0 <= pos < 7 && 0 <= h0 < 5 && 0 <= h1 < 5
    &&& id == 1 + 25 * pos + 5 * h0 + h1
    &&& shape.kind == (ShapeKind::Trapezoid {
        t0: span_start(pos) as u32,
        length: span_length(pos) as u32,
        h0: (2 + h0) as u32,
        h1: (2 + h1) as u32,
    })
}

/// The id of the first triangle at position pattern `pos`.
pub open spec fn first_triangle(pos: int) -> int {
    if pos < 3 {
        176 + 20 * pos
    } else {
        236 + 15 * (pos - 3)
    }
}

/// Whether `id` stands for the triangle at position pattern `pos` with these
/// apex and height steps.
pub open spec fn is_triangle(id: int, shape: EdgeShape, pos: int, apex: int, height: int) -> bool {
    &&& 0 <= pos < 7 && 0 <= apex < span_length(pos) && 0 <= height < 5
    &&& id == first_triangle(pos) + 5 * apex + height
    &&& shape.kind == (ShapeKind::Triangle {
        t0: span_start(pos) as u32,
        length: span_length(pos) as u32,
        apex_offset: (1 + apex) as u32,
        height: (2 + height) as u32,
    })
}

/// Whether `id` stands for `shape`: the first 175 ids are the trapezoids, by
/// position, first height and second height; the rest are the triangles, by
/// position, apex and height.
pub open spec fn stands_for(id: int, shape: EdgeShape) -> bool {
    ||| exists|pos: int, h0: int, h1: int| is_trapezoid(id, shape, pos, h0, h1)
    ||| exists|pos: int, apex: int, height: int| is_triangle(id, shape, pos, apex, height)
}

/// The shape of an edge id.
pub fn edge_shape_from_id(id: i32) -> (shape: Option<EdgeShape>)
    ensures
        match shape {
            Some(s) => 1 <= id <= MAX_SHAPE_ID && stands_for(id as int, s),
            None => !(1 <= id <= MAX_SHAPE_ID),
        },
{
    if id < 1 || id > MAX_SHAPE_ID {
        return None;
    }
    if id <= 175 {
        let idx: usize = (id - 1) as usize;
        let pos_index: usize = idx / 25;
        let rem: usize = idx % 25;
        let h0: u32 = (rem / 5) as u32;
        let h1: u32 = (rem % 5) as u32;
        let (t0, length) = position_pattern(pos_index)?;
        let shape: EdgeShape = EdgeShape { kind: ShapeKind::Trapezoid { t0, length, h0: 2 + h0, h1: 2 + h1 } };
        assert(is_trapezoid(id as int, shape, pos_index as int, h0 as int, h1 as int));
        return Some(shape);
    }
    let idx: usize = (id - 176) as usize;
    let pos_index: usize = if idx < 60 { idx / 20 } else { (idx - 60) / 15 + 3 };
    let rem: usize = if idx < 60 { idx % 20 } else { (idx - 60) % 15 };
    let apex: u32 = (rem / 5) as u32;
    let height: u32 = (rem % 5) as u32;
    let (t0, length) = position_pattern(pos_index)?;
    let shape: EdgeShape = EdgeShape {
        kind: ShapeKind::Triangle { t0, length, apex_offset: 1 + apex, height: 2 + height },
    };
    assert(is_triangle(id as int, shape, pos_index as int, apex as int, height as int));
    Some(shape)
}

/// An id stands for one shape, and no two ids stand for the same.
pub proof fn law_shapes_differ(a: int, b: int, s: EdgeShape, t: EdgeShape)
    requires
        stands_for(a, s),
        stands_for(b, t),
    ensures
        a == b <==> s == t,
        1 <= a <= MAX_SHAPE_ID,
{
    if exists|pos: int, h0: int, h1: int| is_trapezoid(a, s, pos, h0, h1) {
        let (p, h, k) = choose|pos: int, h0: int, h1: int| is_trapezoid(a, s, pos, h0, h1);
        if exists|pos: int, h0: int, h1: int| is_trapezoid(b, t, pos, h0, h1) {
            let (q, i, j) = choose|pos: int, h0: int, h1: int| is_trapezoid(b, t, pos, h0, h1);
            assert(p == q && h == i && k == j <==> a == b);
        } else {
            let (q, i, j) = choose|pos: int, apex: int, height: int| is_triangle(b, t, pos, apex, height);
        }
    } else {
        let (p, h, k) = choose|pos: int, apex: int, height: int| is_triangle(a, s, pos, apex, height);
        if exists|pos: int, h0: int, h1: int| is_trapezoid(b, t, pos, h0, h1) {
            let (q, i, j) = choose|pos: int, h0: int, h1: int| is_trapezoid(b, t, pos, h0, h1);
        } else {
            let (q, i, j) = choose|pos: int, apex: int, height: int| is_triangle(b, t, pos, apex, height);
            assert(p == q && h == i && k == j <==> a == b);
        }
    }
}

impl EdgeShape {
    /// The greatest height of the outline.
    pub open spec fn top(self) -> u32 {
        match self.kind {
            ShapeKind::Trapezoid { t0: _, length: _, h0, h1 } => if h0 > h1 {
                h0
            } else {
                h1
            },
            ShapeKind::Triangle { t0: _, length: _, apex_offset: _, height } => height,
        }
    }

    pub fn max_height(&self) -> (height: u32)
        ensures
            height == self.top(),
    {
        match self.kind {
            ShapeKind::Trapezoid { t0: _, length: _, h0, h1 } => if h0 > h1 {
                h0
            } else {
                h1
            },
            ShapeKind::Triangle { t0: _, length: _, apex_offset: _, height } => height,
        }
    }
}

/// What is known of an edge id: the greatest height of its outline, in
/// tenths, or zero if it has no shape.
#[derive(Clone, Copy, Debug, PartialEq, Eq, Structural)]
pub struct EdgeMeta {
    pub max_height: u32,
}

/// Whether `meta` is what is known of `id`.
pub open spec fn describes(id: int, meta: EdgeMeta) -> bool {
    if 1 <= id <= MAX_SHAPE_ID {
        exists|shape: EdgeShape| #[trigger] stands_for(id, shape) && meta.max_height == shape.top()
    } else {
        meta.max_height == 0
    }
}

/// Whether `meta` tells what is known of every id up to `total_alphabet`.
pub open spec fn describes_ids(meta: Seq<EdgeMeta>, total_alphabet: int) -> bool {
    &&& meta.len() == total_alphabet + 1
    &&& forall|id: int| 0 <= id <= total_alphabet ==> describes(id, #[trigger] meta[id])
}

/// The outlines found so far, by canonical rotation: `None` where the piece
/// has no valid one. What an outline is made of is the caller's.
pub struct GeomMemo<G> {
    pub cache: EdgeMap<Option<G>>,
    pub edge_meta: Vec<EdgeMeta>,
}

impl<G> GeomMemo<G> {
    pub open spec fn wf(&self) -> bool {
        self.cache.wf()
    }

    /// An empty memo for the ids up to `total_alphabet`.
    pub fn new(total_alphabet: i32) -> (memo: Self)
        requires
            -1 <= total_alphabet < i32::MAX,
        ensures
            memo.wf(),
            memo.cache@ == Map::<Seq<i32>, Option<G>>::empty(),
            describes_ids(memo.edge_meta@, total_alphabet as int),
    {
        let mut edge_meta: Vec<EdgeMeta> = Vec::new();
        let mut id: i32 = 0;
        while id <= total_alphabet
            invariant
                -1 <= total_alphabet < i32::MAX,
                0 <= id <= total_alphabet + 1,
                edge_meta.len() == id,
                forall|k: int| 0 <= k < id ==> describes(k, #[trigger] edge_meta@[k]),
            decreases total_alphabet + 1 - id,
        {
            let max_height: u32 = match edge_shape_from_id(id) {
                Some(shape) => shape.max_height(),
                None => 0,
            };
            edge_meta.push(EdgeMeta { max_height });
            id = id + 1;
        }
        GeomMemo { cache: EdgeMap::new(), edge_meta }
    }
}

/// The outline of a piece, or none if it has no valid one. `build` makes the
/// outline of a canonical rotation, and is asked once for each; `turn` turns
/// an outline.
pub fn build_piece_geom_if_valid<G, B: Fn(&[i32; 6]) -> Option<G>, R: Fn(&G, usize) -> G>(
    edges: &[i32; 6],
    memo: &mut GeomMemo<G>,
    build: B,
    turn: R,
) -> (outline: Option<G>)
    requires
        old(memo).wf(),
        forall|canon: &[i32; 6]| #[trigger] build.requires((canon,)),
        forall|geom: &G, rot: usize| rot < 6 ==> #[trigger] turn.requires((geom, rot)),
    ensures
        final(memo).wf(),
        final(memo).edge_meta == old(memo).edge_meta,
        exists|canon: [i32; 6], rot: usize| #[trigger]
            outline_of(edges@, canon, rot, old(memo).cache@, final(memo).cache@, build, turn, outline),
{
    let (canon, rot) = canonical_shape(edges);
    let ghost before = memo.cache@;
    let back: usize = (6 - rot) % 6;
    if let Some(cached) = memo.cache.get(&canon) {
        let outline: Option<G> = match cached {
            Some(geom) => Some(turn(geom, back)),
            None => None,
        };
        assert(outline_of(edges@, canon, rot, before, memo.cache@, build, turn, outline));
        return outline;
    }
    let built: Option<G> = build(&canon);
    let outline: Option<G> = match &built {
        Some(geom) => Some(turn(geom, back)),
        None => None,
    };
    memo.cache.insert(canon, built);
    assert(outline_of(edges@, canon, rot, before, memo.cache@, build, turn, outline));
    outline
}

/// Whether `outline` is the outline of a piece: the one that the memo holds
/// for its least rotation `canon`, which `rot` turns give, turned back. If
/// the memo held none before, it now holds the one that was built.
pub open spec fn outline_of<G, B: Fn(&[i32; 6]) -> Option<G>, R: Fn(&G, usize) -> G>(
    edges: Seq<i32>,
    canon: [i32; 6],
    rot: usize,
    before: Map<Seq<i32>, Option<G>>,
    after: Map<Seq<i32>, Option<G>>,
    build: B,
    turn: R,
    outline: Option<G>,
) -> bool {
    &&& is_canonical(edges, canon@)
    &&& rot < 6
    &&& canon@ == rotated(edges, rot as int)
    &&& forall|r: int| 0 <= r < rot ==> #[trigger] rotated(edges, r) != canon@
    &&& after.contains_key(canon@)
    &&& if before.contains_key(canon@) {
        after == before
    } else {
        &&& build.ensures((&canon,), after[canon@])
        &&& after == before.insert(canon@, after[canon@])
    }
    &&& match after[canon@] {
        Some(geom) => outline is Some && turn.ensures((&geom, ((6 - rot) % 6) as usize), outline->0),
        None => outline is None,
    }
}

/// The least rotation of a piece.
pub open spec fn canonical_of(edges: Seq<i32>) -> Seq<i32> {
    choose|best: Seq<i32>| is_canonical(edges, best)
}

/// The first `n` rotations have a least one.
proof fn lemma_least_rotation(edges: Seq<i32>, n: int) -> (rot: int)
    requires
        edges.len() == 6,
        1 <= n <= 6,
    ensures
        0 <= rot < n,
        forall|r: int| 0 <= r < n ==> !lex_less(#[trigger] rotated(edges, r), rotated(edges, rot)),
    decreases n,
{
    let last = rotated(edges, n - 1);
    if n == 1 {
        lemma_lex_total(last, last);
        0
    } else {
        let rest = lemma_least_rotation(edges, n - 1);
        let best = rotated(edges, rest);
        if lex_less(last, best) {
            assert forall|r: int| 0 <= r < n implies !lex_less(#[trigger] rotated(edges, r), last) by {
                lemma_lex_total(last, last);
                if r < n - 1 && lex_less(rotated(edges, r), last) {
                    lemma_lex_transitive(rotated(edges, r), last, best);
                }
            }
            n - 1
        } else {
            rest
        }
    }
}

/// Every piece has a least rotation.
pub proof fn lemma_canonical_exists(edges: Seq<i32>)
    requires
        edges.len() == 6,
    ensures
        is_canonical(edges, canonical_of(edges)),
{
    let rot = lemma_least_rotation(edges, 6);
    assert(is_canonical(edges, rotated(edges, rot)));
}

pub proof fn lemma_canonical_of(edges: Seq<i32>, best: Seq<i32>)
    requires
        edges.len() == 6,
        is_canonical(edges, best),
    ensures
        canonical_of(edges) == best,
{
    law_canonical_unique(edges, best, canonical_of(edges));
}

/// Whether the memo tells of a piece whether it has a valid outline.
pub open spec fn judged<G>(memo: Map<Seq<i32>, Option<G>>, edges: Seq<i32>) -> bool {
    memo.contains_key(canonical_of(edges))
}

/// Whether a piece has a valid outline, as the memo tells.
pub open spec fn valid_in<G>(memo: Map<Seq<i32>, Option<G>>, edges: Seq<i32>) -> bool {
    judged(memo, edges) && memo[canonical_of(edges)] is Some
}

/// Whether what was added to a memo was built by `build`.
pub open spec fn memo_grew<G, B: Fn(&[i32; 6]) -> Option<G>>(
    before: Map<Seq<i32>, Option<G>>,
    after: Map<Seq<i32>, Option<G>>,
    build: B,
) -> bool {
    &&& forall|key: Seq<i32>| #[trigger] before.contains_key(key) ==> after.contains_key(key) && after[key] == before[key]
    &&& forall|key: Seq<i32>| #[trigger] after.contains_key(key) && !before.contains_key(key) ==> built_by(
        build,
        key,
        after[key],
    )
}

/// Whether `build` can have built an outline for `key`.
pub open spec fn built_by<G, B: Fn(&[i32; 6]) -> Option<G>>(build: B, key: Seq<i32>, outline: Option<G>) -> bool {
    exists|canon: [i32; 6]| canon@ == key && #[trigger] build.ensures((&canon,), outline)
}

pub proof fn lemma_memo_grew<G, B: Fn(&[i32; 6]) -> Option<G>>(
    first: Map<Seq<i32>, Option<G>>,
    second: Map<Seq<i32>, Option<G>>,
    third: Map<Seq<i32>, Option<G>>,
    build: B,
)
    requires
        memo_grew(first, second, build),
        memo_grew(second, third, build),
    ensures
        memo_grew(first, third, build),
{
    assert forall|key: Seq<i32>| #[trigger] third.contains_key(key) && !first.contains_key(key) implies built_by(
        build,
        key,
        third[key],
    ) by {
        if second.contains_key(key) {
            assert(built_by(build, key, second[key]));
        }
    }
}

/// Whether every piece has a valid outline, as far as the memo and `build`
/// tell.
pub open spec fn never_refuses<G, B: Fn(&[i32; 6]) -> Option<G>>(memo: Map<Seq<i32>, Option<G>>, build: B) -> bool {
    &&& forall|key: Seq<i32>| #[trigger] memo.contains_key(key) ==> memo[key] is Some
    &&& forall|canon: [i32; 6], outline: Option<G>| #[trigger] build.ensures((&canon,), outline) ==> outline is Some
}

pub proof fn lemma_never_refuses<G, B: Fn(&[i32; 6]) -> Option<G>>(
    before: Map<Seq<i32>, Option<G>>,
    after: Map<Seq<i32>, Option<G>>,
    build: B,
)
    requires
        memo_grew(before, after, build),
        never_refuses(before, build),
    ensures
        never_refuses(after, build),
        forall|edges: Seq<i32>| #[trigger] judged(after, edges) ==> valid_in(after, edges),
{
    assert forall|key: Seq<i32>| #[trigger] after.contains_key(key) implies after[key] is Some by {
        if !before.contains_key(key) {
            assert(built_by(build, key, after[key]));
        }
    }
}

/// A turned piece is as valid as before.
pub proof fn law_turned_valid<G>(memo: Map<Seq<i32>, Option<G>>, edges: Seq<i32>, rot: int)
    requires
        edges.len() == 6,
        0 <= rot < 6,
    ensures
        judged(memo, rotated(edges, rot)) == judged(memo, edges),
        valid_in(memo, rotated(edges, rot)) == valid_in(memo, edges),
{
    let best = canonical_of(edges);
    lemma_canonical_exists(edges);
    law_canonical_turned(edges, rot, best);
    lemma_canonical_of(rotated(edges, rot), best);
}

/// Whether a piece has a valid outline. An outline that the memo does not
/// hold is built.
pub fn is_piece_valid<G, B: Fn(&[i32; 6]) -> Option<G>>(edges: &[i32; 6], memo: &mut GeomMemo<G>, build: &B) -> (valid: bool)
    requires
        old(memo).wf(),
        forall|canon: &[i32; 6]| #[trigger] build.requires((canon,)),
    ensures
        final(memo).wf(),
        final(memo).edge_meta == old(memo).edge_meta,
        memo_grew(old(memo).cache@, final(memo).cache@, *build),
        judged(final(memo).cache@, edges@),
        valid == valid_in(final(memo).cache@, edges@),
{
    let (canon, _) = canonical_shape(edges);
    proof {
        lemma_canonical_of(edges@, canon@);
    }
    if let Some(cached) = memo.cache.get(&canon) {
        return cached.is_some();
    }
    let built: Option<G> = build(&canon);
    let valid: bool = built.is_some();
    assert(build.ensures((&canon,), built));
    memo.cache.insert(canon, built);
    valid
}

/// One side of a piece: flat, or raised outward or inward.
#[derive(Clone, Copy, Debug, PartialEq, Eq, Structural)]
pub enum Side {
    Flat,
    Raised { shape: EdgeShape, concave: bool },
}

/// Whether an edge value has a shape.
pub open spec fn has_shape(edge: i32) -> bool {
    edge != 0 && magnitude(edge) <= MAX_SHAPE_ID
}

/// Whether `side` is what an edge value stands for.
pub open spec fn is_side(edge: i32, side: Side) -> bool {
    match side {
        Side::Flat => !has_shape(edge),
        Side::Raised { shape, concave } => has_shape(edge) && stands_for(magnitude(edge), shape) && concave == (edge
            < 0),
    }
}

/// The side that an edge value stands for.
pub fn side_of(edge: i32) -> (side: Side)
    requires
        edge > i32::MIN,
    ensures
        is_side(edge, side),
{
    let id: i32 = if edge < 0 { -edge } else { edge };
    match edge_shape_from_id(id) {
        Some(shape) => Side::Raised { shape, concave: edge < 0 },
        None => Side::Flat,
    }
}

/// The ids of the sides from `from` on that are raised inward, in order.
pub open spec fn concave_from(edges: Seq<i32>, from: int) -> Seq<i32>
    decreases 6 - from,
{
    if from >= 6 {
        Seq::empty()
    } else if has_shape(edges[from]) && edges[from] < 0 {
        seq![magnitude(edges[from]) as i32] + concave_from(edges, from + 1)
    } else {
        concave_from(edges, from + 1)
    }
}

/// The six sides of a piece, and the ids of those raised inward, in order.
pub fn outline_sides(edges: &[i32; 6]) -> (outline: (Vec<Side>, Vec<i32>))
    requires
        forall|i: int| 0 <= i < 6 ==> (#[trigger] edges@[i]) > i32::MIN,
    ensures
        ({
            let (sides, concave) = outline;
            &&& sides.len() == 6
            &&& forall|i: int| 0 <= i < 6 ==> is_side(edges@[i], #[trigger] sides@[i])
            &&& concave@ == concave_from(edges@, 0)
        }),
{
    let mut sides: Vec<Side> = Vec::new();
    let mut concave: Vec<i32> = Vec::new();
    for i in 0..6usize
        invariant
            forall|k: int| 0 <= k < 6 ==> (#[trigger] edges@[k]) > i32::MIN,
            sides.len() == i,
            forall|k: int| 0 <= k < i ==> is_side(edges@[k], #[trigger] sides@[k]),
            concave@ + concave_from(edges@, i as int) == concave_from(edges@, 0),
    {
        assert(edges@[i as int] > i32::MIN);
        let side: Side = side_of(edges[i]);
        sides.push(side);
        let ghost before = concave@;
        if edges[i] < 0 {
            if let Side::Raised { shape: _, concave: _ } = side {
                concave.push(-edges[i]);
                assert(concave@ + concave_from(edges@, i + 1) =~= before + concave_from(edges@, i as int));
            }
        }
    }
    assert(concave_from(edges@, 6) =~= Seq::<i32>::empty());
    assert(concave@ =~= concave_from(edges@, 0));
    (sides, concave)
}

/// Whether `order` lists the places of `heights`, the highest first, and of
/// equal ones the first first.
pub open spec fn highest_first(heights: Seq<u32>, order: Seq<usize>) -> bool {
    &&& order.len() == heights.len()
    &&& forall|i: int| 0 <= i < order.len() ==> (#[trigger] order[i]) < heights.len()
    &&& forall|i: int, j: int|
        0 <= i < j < order.len() ==> goes_before(heights, #[trigger] order[i] as int, #[trigger] order[j] as int)
}

pub open spec fn goes_before(heights: Seq<u32>, a: int, b: int) -> bool {
    heights[a] > heights[b] || (heights[a] == heights[b] && a < b)
}

/// The places of `heights`, the highest first, and of equal ones the first
/// first.
pub fn concave_order(heights: &Vec<u32>) -> (order: Vec<usize>)
    ensures
        highest_first(heights@, order@),
{
    let mut order: Vec<usize> = Vec::new();
    for k in 0..heights.len()
        invariant
            order.len() == k,
            forall|i: int| 0 <= i < k ==> (#[trigger] order@[i]) < k,
            forall|i: int, j: int|
                0 <= i < j < k ==> goes_before(heights@, #[trigger] order@[i] as int, #[trigger] order@[j] as int),
    {
        let mut at: usize = 0;
        while at < order.len() && heights[order[at]] >= heights[k]
            invariant
                k < heights.len(),
                at <= order.len(),
                order.len() == k,
                forall|i: int| 0 <= i < k ==> (#[trigger] order@[i]) < k,
                forall|i: int| 0 <= i < at ==> heights@[#[trigger] order@[i] as int] >= heights@[k as int],
            decreases order.len() - at,
        {
            at = at + 1;
        }
        let ghost before = order@;
        order.insert(at, k);
        assert forall|i: int, j: int| 0 <= i < j < k + 1 implies goes_before(
            heights@,
            #[trigger] order@[i] as int,
            #[trigger] order@[j] as int,
        ) by {
            let a = if i < at {
                i
            } else {
                i - 1
            };
            let b = if j < at {
                j
            } else {
                j - 1
            };
            if i == at {
                assert(order@[j] == before[b]);
                if at < b {
                    assert(goes_before(heights@, before[at as int] as int, before[b] as int));
                }
            } else if j == at {
                assert(order@[i] == before[a]);
            } else {
                assert(order@[i] == before[a] && order@[j] == before[b]);
                assert(goes_before(heights@, before[a] as int, before[b] as int));
            }
        }
        assert forall|i: int| 0 <= i < k + 1 implies (#[trigger] order@[i]) < k + 1 by {
            if i < at {
                assert(order@[i] == before[i]);
            } else if i > at {
                assert(order@[i] == before[i - 1]);
            }
        }
    }
    order
}

/// Whether no two of the listed notches are too close, as `close` tells.
pub fn concaves_apart<C: Fn(usize, usize) -> bool>(order: &Vec<usize>, close: C) -> (apart: bool)
    requires
        forall|i: int, j: int|
            0 <= i < j < order.len() ==> close.requires((#[trigger] order@[i], #[trigger] order@[j])),
    ensures
        apart ==> forall|i: int, j: int|
            0 <= i < j < order.len() ==> close.ensures((#[trigger] order@[i], #[trigger] order@[j]), false),
        !apart ==> exists|i: int, j: int|
            0 <= i < j < order.len() && close.ensures((#[trigger] order@[i], #[trigger] order@[j]), true),
{
    for i in 0..order.len()
        invariant
            forall|a: int, b: int|
                0 <= a < b < order.len() ==> close.requires((#[trigger] order@[a], #[trigger] order@[b])),
            forall|a: int, b: int|
                0 <= a < i && a < b < order.len() ==> close.ensures((#[trigger] order@[a], #[trigger] order@[b]), false),
    {
        for j in (i + 1)..order.len()
            invariant
                i < order.len(),
                forall|a: int, b: int|
                    0 <= a < b < order.len() ==> close.requires((#[trigger] order@[a], #[trigger] order@[b])),
                forall|a: int, b: int|
                    0 <= a < i && a < b < order.len() ==> close.ensures(
                        (#[trigger] order@[a], #[trigger] order@[b]),
                        false,
                    ),
                forall|b: int| i < b < j ==> close.ensures((order@[i as int], #[trigger] order@[b]), false),
        {
            assert(close.requires((order@[i as int], order@[j as int])));
            if close(order[i], order[j]) {
                assert(close.ensures((order@[i as int], order@[j as int]), true));
                return false;
            }
        }
    }
    true
}

/// Whether sides `i` and `j` of a polygon with `n` corners are different and
/// share no corner.
pub open spec fn sides_apart(n: int, i: int, j: int) -> bool {
    0 <= i < j < n && (i + 1) % n != j && (j + 1) % n != i
}

/// Whether some two sides of a polygon that share no corner cross, as
/// `crosses` tells of the sides that begin at two corners.
fn finds_crossing<C: Fn(usize, usize) -> bool>(n: usize, crosses: &C) -> (found: bool)
    requires
        forall|i: usize, j: usize| sides_apart(n as int, i as int, j as int) ==> #[trigger] crosses.requires((i, j)),
    ensures
        found ==> exists|i: usize, j: usize|
            sides_apart(n as int, i as int, j as int) && #[trigger] crosses.ensures((i, j), true),
        !found ==> forall|i: usize, j: usize|
            sides_apart(n as int, i as int, j as int) ==> #[trigger] crosses.ensures((i, j), false),
{
    for i in 0..n
        invariant
            forall|a: usize, b: usize|
                sides_apart(n as int, a as int, b as int) ==> #[trigger] crosses.requires((a, b)),
            forall|a: usize, b: usize|
                a < i && sides_apart(n as int, a as int, b as int) ==> #[trigger] crosses.ensures((a, b), false),
    {
        for j in (i + 1)..n
            invariant
                i < n,
                forall|a: usize, b: usize|
                    sides_apart(n as int, a as int, b as int) ==> #[trigger] crosses.requires((a, b)),
                forall|a: usize, b: usize|
                    a < i && sides_apart(n as int, a as int, b as int) ==> #[trigger] crosses.ensures((a, b), false),
                forall|b: usize|
                    b < j && sides_apart(n as int, i as int, b as int) ==> #[trigger] crosses.ensures((i, b), false),
        {
            if (i + 1) % n != j && (j + 1) % n != i {
                if crosses(i, j) {
                    return true;
                }
            }
        }
    }
    false
}

/// Whether a closed polygon with `n` corners is simple: it has at least three
/// corners, and no two sides that share no corner cross.
pub fn is_simple_polygon<C: Fn(usize, usize) -> bool>(n: usize, crosses: C) -> (simple: bool)
    requires
        forall|i: usize, j: usize| sides_apart(n as int, i as int, j as int) ==> #[trigger] crosses.requires((i, j)),
    ensures
        n < 3 ==> !simple,
        simple ==> forall|i: usize, j: usize|
            sides_apart(n as int, i as int, j as int) ==> #[trigger] crosses.ensures((i, j), false),
        !simple && n >= 3 ==> exists|i: usize, j: usize|
            sides_apart(n as int, i as int, j as int) && #[trigger] crosses.ensures((i, j), true),
{
    n >= 3 && !finds_crossing(n, &crosses)
}

/// Whether a closed polygon with `n` corners crosses itself. One with less
/// than four corners does not.
pub fn polygon_self_intersects<C: Fn(usize, usize) -> bool>(n: usize, crosses: C) -> (found: bool)
    requires
        forall|i: usize, j: usize| sides_apart(n as int, i as int, j as int) ==> #[trigger] crosses.requires((i, j)),
    ensures
        n < 4 ==> !found,
        found ==> exists|i: usize, j: usize|
            sides_apart(n as int, i as int, j as int) && #[trigger] crosses.ensures((i, j), true),
        !found && n >= 4 ==> forall|i: usize, j: usize|
            sides_apart(n as int, i as int, j as int) ==> #[trigger] crosses.ensures((i, j), false),
{
    n >= 4 && finds_crossing(n, &crosses)
}

/// On which sides of two segments the ends of the other lie: the sign of the
/// turn toward each end, and whether the end lies within reach of the
/// segment.
#[derive(Clone, Copy, Debug)]
pub struct Crossing {
    pub turns: [i32; 4],
    pub within: [bool; 4],
}

/// Whether some end lies on the other segment.
pub open spec fn touches(crossing: Crossing) -> bool {
    exists|i: int| 0 <= i < 4 && #[trigger] crossing.turns@[i] == 0 && crossing.within@[i]
}

fn ends_touch(crossing: &Crossing) -> (found: bool)
    ensures
        found == touches(*crossing),
{
    for i in 0..4usize
        invariant
            forall|k: int| 0 <= k < i ==> !(#[trigger] crossing.turns@[k] == 0 && crossing.within@[k]),
    {
        if crossing.turns[i] == 0 && crossing.within[i] {
            return true;
        }
    }
    false
}

/// Whether two segments intersect: an end of one lies on the other, or the
/// ends of each lie strictly on different sides of the other.
pub fn segments_intersect(crossing: &Crossing) -> (found: bool)
    ensures
        found == (touches(*crossing) || (strictly_apart(crossing.turns@[0], crossing.turns@[1]) && strictly_apart(
            crossing.turns@[2],
            crossing.turns@[3],
        ))),
{
    let o1: i32 = crossing.turns[0];
    let o2: i32 = crossing.turns[1];
    let o3: i32 = crossing.turns[2];
    let o4: i32 = crossing.turns[3];
    ends_touch(crossing) || ((o1 > 0 && o2 < 0 || o1 < 0 && o2 > 0) && (o3 > 0 && o4 < 0 || o3 < 0 && o4 > 0))
}

pub open spec fn strictly_apart(a: i32, b: i32) -> bool {
    (a > 0 && b < 0) || (a < 0 && b > 0)
}

/// Whether two segments intersect, where an end on the line of the other
/// segment counts with those on its right.
pub fn segments_intersect_or_meet(crossing: &Crossing) -> (found: bool)
    ensures
        found == (touches(*crossing) || ((crossing.turns@[0] > 0) != (crossing.turns@[1] > 0) && (crossing.turns@[2]
            > 0) != (crossing.turns@[3] > 0))),
{
    let o1: i32 = crossing.turns[0];
    let o2: i32 = crossing.turns[1];
    let o3: i32 = crossing.turns[2];
    let o4: i32 = crossing.turns[3];
    ends_touch(crossing) || ((o1 > 0) != (o2 > 0) && (o3 > 0) != (o4 > 0))
}

} // verus!
