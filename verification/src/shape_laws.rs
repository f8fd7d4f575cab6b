//! What keys and mirror images say of the points of a shape.

use crate::shapes::{deep_points, key_of, mirrored, symmetric, Shape};
use vstd::prelude::*;

verus! {

/// Whether the points stand in ascending order on the edge.
pub open spec fn ascends(shape: Shape) -> bool {
    shape.q@[0] < shape.q@[1] < shape.q@[2] <= 10
}

/// Whether a shape has a point with this position and depth.
pub open spec fn has_point(shape: Shape, q: int, p: int) -> bool {
    exists|j: int| 0 <= j < 3 && #[trigger] shape.q@[j] == q && shape.p@[j] == p
}

/// A shape is its own mirror image if each point that has a depth has
/// another one of that depth, or itself, as far from the other end.
pub proof fn law_symmetric(shape: Shape)
    requires
        ascends(shape),
    ensures
        symmetric(shape) <==> forall|i: int|
            0 <= i < 3 && shape.p@[i] > 0 ==> has_point(shape, 10 - #[trigger] shape.q@[i], shape.p@[i] as int),
{
    reveal_with_fuel(deep_points, 4);
    let other = mirrored(shape);
    let key = key_of(shape);
    let back = key_of(other);
    if symmetric(shape) {
        assert forall|i: int| 0 <= i < 3 && shape.p@[i] > 0 implies has_point(
            shape,
            10 - #[trigger] shape.q@[i],
            shape.p@[i] as int,
        ) by {
            assert(back.len() == key.len());
            lemma_listed(shape, i);
            let k = choose|k: int| 0 <= k < key.len() && key[k] == (shape.q@[i], shape.p@[i]);
            assert(back[k] == key[k]);
            let j = lemma_listed_point(other, k);
            assert(other.q@[j] == 10 - shape.q@[2 - j] && other.p@[j] == shape.p@[2 - j]);
            assert(shape.q@[2 - j] == 10 - shape.q@[i]);
        }
    } else {
        if forall|i: int|
            0 <= i < 3 && shape.p@[i] > 0 ==> has_point(shape, 10 - #[trigger] shape.q@[i], shape.p@[i] as int) {
            lemma_mirrors(shape);
        }
    }
}

/// A point with a depth is part of the key.
proof fn lemma_listed(shape: Shape, i: int)
    requires
        0 <= i < 3,
        shape.p@[i] > 0,
    ensures
        exists|k: int| 0 <= k < key_of(shape).len() && #[trigger] key_of(shape)[k] == (shape.q@[i], shape.p@[i]),
{
    reveal_with_fuel(deep_points, 4);
    let key = key_of(shape);
    let first = if shape.p@[0] == 0 {
        0int
    } else {
        1
    };
    let second = first + if shape.p@[1] == 0 {
        0int
    } else {
        1
    };
    if i == 0 {
        assert(key[0] == (shape.q@[i], shape.p@[i]));
    } else if i == 1 {
        assert(key[first] == (shape.q@[i], shape.p@[i]));
    } else {
        assert(key[second] == (shape.q@[i], shape.p@[i]));
    }
}

/// What is part of the key of a shape with a point that has a depth is such a
/// point.
proof fn lemma_listed_point(shape: Shape, k: int) -> (i: int)
    requires
        0 <= k < key_of(shape).len(),
        shape.p@[0] > 0 || shape.p@[1] > 0 || shape.p@[2] > 0,
    ensures
        0 <= i < 3,
        key_of(shape)[k] == (shape.q@[i], shape.p@[i]),
        shape.p@[i] > 0,
{
    reveal_with_fuel(deep_points, 4);
    let key = key_of(shape);
    if shape.p@[0] > 0 && key[k] == (shape.q@[0], shape.p@[0]) {
        0
    } else if shape.p@[1] > 0 && key[k] == (shape.q@[1], shape.p@[1]) {
        1
    } else {
        2
    }
}

proof fn lemma_mirrors(shape: Shape)
    requires
        ascends(shape),
        forall|i: int|
            0 <= i < 3 && shape.p@[i] > 0 ==> has_point(shape, 10 - #[trigger] shape.q@[i], shape.p@[i] as int),
    ensures
        symmetric(shape),
{
    reveal_with_fuel(deep_points, 4);
    let q = shape.q@;
    let p = shape.p@;
    assert(p[0] > 0 ==> has_point(shape, 10 - q[0], p[0] as int));
    assert(p[1] > 0 ==> has_point(shape, 10 - q[1], p[1] as int));
    assert(p[2] > 0 ==> has_point(shape, 10 - q[2], p[2] as int));
    assert(key_of(shape) =~= key_of(mirrored(shape)));
}

/// Two shapes have the same key if they have the same points with a depth.
pub proof fn law_same_key(a: Shape, b: Shape)
    requires
        ascends(a),
        ascends(b),
    ensures
        key_of(a) == key_of(b) <==> (forall|i: int|
            0 <= i < 3 && a.p@[i] > 0 ==> has_point(b, #[trigger] a.q@[i] as int, a.p@[i] as int)) && (forall|i: int|
            0 <= i < 3 && b.p@[i] > 0 ==> has_point(a, #[trigger] b.q@[i] as int, b.p@[i] as int)),
{
    if key_of(a) == key_of(b) {
        lemma_key_tells(a, b);
        lemma_key_tells(b, a);
    } else if (forall|i: int| 0 <= i < 3 && a.p@[i] > 0 ==> has_point(b, #[trigger] a.q@[i] as int, a.p@[i] as int)) && (
    forall|i: int| 0 <= i < 3 && b.p@[i] > 0 ==> has_point(a, #[trigger] b.q@[i] as int, b.p@[i] as int)) {
        lemma_points_tell(a, b);
    }
}

proof fn lemma_key_tells(a: Shape, b: Shape)
    requires
        key_of(a) == key_of(b),
    ensures
        forall|i: int| 0 <= i < 3 && a.p@[i] > 0 ==> has_point(b, #[trigger] a.q@[i] as int, a.p@[i] as int),
{
    assert forall|i: int| 0 <= i < 3 && a.p@[i] > 0 implies has_point(b, #[trigger] a.q@[i] as int, a.p@[i] as int) by {
        lemma_listed(a, i);
        let k = choose|k: int| 0 <= k < key_of(a).len() && #[trigger] key_of(a)[k] == (a.q@[i], a.p@[i]);
        if b.p@[0] == 0 && b.p@[1] == 0 && b.p@[2] == 0 {
            reveal_with_fuel(deep_points, 4);
            assert(key_of(b)[k] == (0u8, 0u8));
        } else {
            let j = lemma_listed_point(b, k);
            assert(b.q@[j] == a.q@[i]);
        }
    }
}

#[verifier::spinoff_prover]
#[verifier::rlimit(60)]
proof fn lemma_points_tell(a: Shape, b: Shape)
    requires
        ascends(a),
        ascends(b),
        forall|i: int| 0 <= i < 3 && a.p@[i] > 0 ==> has_point(b, #[trigger] a.q@[i] as int, a.p@[i] as int),
        forall|i: int| 0 <= i < 3 && b.p@[i] > 0 ==> has_point(a, #[trigger] b.q@[i] as int, b.p@[i] as int),
    ensures
        key_of(a) == key_of(b),
{
    reveal_with_fuel(deep_points, 4);
    assert(a.p@[0] > 0 ==> has_point(b, a.q@[0] as int, a.p@[0] as int));
    assert(a.p@[1] > 0 ==> has_point(b, a.q@[1] as int, a.p@[1] as int));
    assert(a.p@[2] > 0 ==> has_point(b, a.q@[2] as int, a.p@[2] as int));
    assert(b.p@[0] > 0 ==> has_point(a, b.q@[0] as int, b.p@[0] as int));
    assert(b.p@[1] > 0 ==> has_point(a, b.q@[1] as int, b.p@[1] as int));
    assert(b.p@[2] > 0 ==> has_point(a, b.q@[2] as int, b.p@[2] as int));
    assert(key_of(a) =~= key_of(b));
}

} // verus!
