//! What the ids of edges and the outlines of pieces come to.

use crate::geometry::{
    first_triangle, is_trapezoid, is_triangle, outline_of, span_length, span_start, stands_for, EdgeShape, ShapeKind,
};
use crate::grid::{law_rotation_undone, rotated};
use vstd::prelude::*;

verus! {

/// Whether a span can be raised: four tenths from the second to the fourth
/// tenth on, or three from the second to the fifth on.
pub open spec fn is_span(t0: int, length: int) -> bool {
    (length == 4 && 2 <= t0 <= 4) || (length == 3 && 2 <= t0 <= 5)
}

/// Whether a height is one of the five.
pub open spec fn is_height(height: int) -> bool {
    2 <= height <= 6
}

/// A shape with an id has a span that can be raised, heights of two to six
/// tenths, and an apex inside the span or at its far end.
pub proof fn law_shape_measures(id: int, shape: EdgeShape)
    requires
        stands_for(id, shape),
    ensures
        match shape.kind {
            ShapeKind::Trapezoid { t0, length, h0, h1 } => id <= 175 && is_span(t0 as int, length as int) && is_height(
                h0 as int,
            ) && is_height(h1 as int),
            ShapeKind::Triangle { t0, length, apex_offset, height } => id > 175 && is_span(t0 as int, length as int)
                && 1 <= apex_offset <= length && is_height(height as int),
        },
{
    if exists|pos: int, h0: int, h1: int| is_trapezoid(id, shape, pos, h0, h1) {
        let (pos, h0, h1) = choose|pos: int, h0: int, h1: int| is_trapezoid(id, shape, pos, h0, h1);
        assert(is_trapezoid(id, shape, pos, h0, h1));
    } else {
        let (pos, apex, height) = choose|pos: int, apex: int, height: int| is_triangle(id, shape, pos, apex, height);
        assert(is_triangle(id, shape, pos, apex, height));
    }
}

/// Every shape with such measures has an id.
pub proof fn law_shape_has_id(shape: EdgeShape) -> (id: int)
    requires
        match shape.kind {
            ShapeKind::Trapezoid { t0, length, h0, h1 } => is_span(t0 as int, length as int) && is_height(h0 as int)
                && is_height(h1 as int),
            ShapeKind::Triangle { t0, length, apex_offset, height } => is_span(t0 as int, length as int) && 1
                <= apex_offset <= length && is_height(height as int),
        },
    ensures
        1 <= id <= 295,
        stands_for(id, shape),
{
    match shape.kind {
        ShapeKind::Trapezoid { t0, length, h0, h1 } => {
            let pos = if length == 4 {
                t0 - 2
            } else {
                t0 + 1
            };
            let id = 1 + 25 * pos + 5 * (h0 - 2) + (h1 - 2);
            assert(span_start(pos) == t0 && span_length(pos) == length);
            assert(is_trapezoid(id, shape, pos, h0 - 2, h1 - 2));
            id
        },
        ShapeKind::Triangle { t0, length, apex_offset, height } => {
            let pos = if length == 4 {
                t0 - 2
            } else {
                t0 + 1
            };
            let id = first_triangle(pos) + 5 * (apex_offset - 1) + (height - 2);
            assert(span_start(pos) == t0 && span_length(pos) == length);
            assert(is_triangle(id, shape, pos, apex_offset - 1, height - 2));
            id
        },
    }
}

/// On the same span, trapezoids are numbered by their first height and then
/// by their second, and triangles by their apex and then by their height. The
/// longer spans come first, and of spans of one length those that begin
/// earlier.
pub proof fn law_shape_order(a: int, b: int, s: EdgeShape, t: EdgeShape)
    requires
        stands_for(a, s),
        stands_for(b, t),
    ensures
        match (s.kind, t.kind) {
            (
                ShapeKind::Trapezoid { t0, length, h0, h1 },
                ShapeKind::Trapezoid { t0: u0, length: span, h0: k0, h1: k1 },
            ) => {
                &&& length > span ==> a < b
                &&& length == span && t0 < u0 ==> a < b
                &&& length == span && t0 == u0 && h0 < k0 ==> a < b
                &&& length == span && t0 == u0 && h0 == k0 && h1 < k1 ==> a < b
            },
            (
                ShapeKind::Triangle { t0, length, apex_offset, height },
                ShapeKind::Triangle { t0: u0, length: span, apex_offset: other, height: top },
            ) => {
                &&& length > span ==> a < b
                &&& length == span && t0 < u0 ==> a < b
                &&& length == span && t0 == u0 && apex_offset < other ==> a < b
                &&& length == span && t0 == u0 && apex_offset == other && height < top ==> a < b
            },
            (ShapeKind::Trapezoid { t0: _, length: _, h0: _, h1: _ }, _) => a < b,
            (_, ShapeKind::Trapezoid { t0: _, length: _, h0: _, h1: _ }) => a > b,
        },
{
    law_shape_measures(a, s);
    law_shape_measures(b, t);
    if exists|pos: int, h0: int, h1: int| is_trapezoid(a, s, pos, h0, h1) {
        let (p, h, k) = choose|pos: int, h0: int, h1: int| is_trapezoid(a, s, pos, h0, h1);
        if exists|pos: int, h0: int, h1: int| is_trapezoid(b, t, pos, h0, h1) {
            let (q, i, j) = choose|pos: int, h0: int, h1: int| is_trapezoid(b, t, pos, h0, h1);
            assert(is_trapezoid(a, s, p, h, k) && is_trapezoid(b, t, q, i, j));
        } else {
            let (q, i, j) = choose|pos: int, apex: int, height: int| is_triangle(b, t, pos, apex, height);
            assert(is_triangle(b, t, q, i, j));
        }
    } else {
        let (p, h, k) = choose|pos: int, apex: int, height: int| is_triangle(a, s, pos, apex, height);
        assert(is_triangle(a, s, p, h, k));
        if exists|pos: int, apex: int, height: int| is_triangle(b, t, pos, apex, height) {
            let (q, i, j) = choose|pos: int, apex: int, height: int| is_triangle(b, t, pos, apex, height);
            assert(is_triangle(b, t, q, i, j));
        }
    }
}

/// The outline of a piece is the one kept for its least rotation, turned as
/// far as turns that rotation into the piece.
pub proof fn law_outline_turned<G, B: Fn(&[i32; 6]) -> Option<G>, R: Fn(&G, usize) -> G>(
    edges: Seq<i32>,
    canon: [i32; 6],
    rot: usize,
    before: Map<Seq<i32>, Option<G>>,
    after: Map<Seq<i32>, Option<G>>,
    build: B,
    turn: R,
    outline: Option<G>,
)
    requires
        edges.len() == 6,
        outline_of(edges, canon, rot, before, after, build, turn, outline),
        outline is Some,
    ensures
        after[canon@] is Some,
        exists|back: usize|
            back < 6 && rotated(canon@, back as int) == edges && #[trigger] turn.ensures(
                (&(after[canon@]->0), back),
                outline->0,
            ),
{
    let back = ((6 - rot) % 6) as usize;
    law_rotation_undone(edges, rot as int);
    assert(turn.ensures((&(after[canon@]->0), back), outline->0));
}

} // verus!
