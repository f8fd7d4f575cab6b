//! The edge shapes of a trial puzzle: three points along an edge, each with a
//! position and a depth in tenths of the edge.

use crate::rng::{gave_order, gave_u8, lemma_shuffled, next_u8, reordered};
use rand::rngs::StdRng;
use vstd::prelude::*;

verus! {

/// Three points along an edge: positions `q` and depths `p`, in tenths.
#[derive(Clone, Copy, Debug)]
pub struct Shape {
    pub q: [u8; 3],
    pub p: [u8; 3],
}

/// How many draws a search for a shape or a position may take before a fixed
/// choice is made. It is large enough never to be reached.
pub const DRAW_LIMIT: usize = usize::MAX;

/// The number of replacements tried for a shape that is its own mirror image.
pub const MIRROR_TRIES: usize = 200;

/// The greatest depth at position `q`: 1.6 times the distance to the nearer
/// end of the edge.
pub open spec fn depth_bound(q: int) -> int {
    (16 * (if q <= 10 - q { q } else { 10 - q })) / 10
}

pub fn max_depth_tenths(q_tenths: u8) -> (depth: u8)
    requires
        q_tenths <= 10,
    ensures
        depth == depth_bound(q_tenths as int),
{
    let rest: u8 = 10 - q_tenths;
    let min_q: u8 = if q_tenths <= rest { q_tenths } else { rest };
    (16 * min_q) / 10
}

/// Only next to an end of the edge may a point have no depth.
pub open spec fn least_depth(q: int) -> int {
    if q == 1 || q == 9 {
        0
    } else {
        1
    }
}

/// Whether a point at position `q` can be given depth `p`.
pub open spec fn depth_possible(q: int, p: int) -> bool {
    least_depth(q) <= p && (p <= depth_bound(q) || p == least_depth(q))
}

/// Whether a depth for a point at position `q` is what generator `before`
/// gives, and the generator is `after` then. Nothing is drawn where there is
/// no choice.
pub open spec fn depth_drawn(before: StdRng, after: StdRng, q: u8, depth: u8) -> bool {
    let low: u8 = if q == 1 || q == 9 {
        0
    } else {
        1
    };
    &&& forall|high: u8|
        10 * high <= 16 * q && 10 * high <= 16 * (10 - q) && (10 * (high + 1) > 16 * q || 10 * (high + 1) > 16 * (10
            - q)) ==> if low <= high {
            #[trigger] gave_u8(before, after, low, high, depth)
        } else {
            depth == low && after == before
        }
}

/// A depth for a point at position `q_tenths`.
pub fn random_depth_for_q(rng: &mut StdRng, q_tenths: u8) -> (depth: u8)
    requires
        q_tenths <= 10,
    ensures
        depth_possible(q_tenths as int, depth as int),
        depth_drawn(*old(rng), *final(rng), q_tenths, depth),
{
    let max_p: u8 = max_depth_tenths(q_tenths);
    let min_p: u8 = if q_tenths == 1 || q_tenths == 9 { 0 } else { 1 };
    if max_p < min_p {
        return min_p;
    }
    next_u8(rng, min_p, max_p)
}

/// Whether points with these positions and depths make a shape: no flat point
/// away from the ends, and not all three depths equal.
pub open spec fn makes_shape(q: Seq<u8>, p: Seq<u8>) -> bool {
    &&& forall|i: int| 0 <= i < 3 && (#[trigger] p[i]) == 0 ==> q[i] == 1 || q[i] == 9
    &&& !(p[0] == p[1] && p[1] == p[2])
}

/// The shape with these points, if they make one.
pub fn shape_of(q: [u8; 3], p: [u8; 3]) -> (shape: Option<Shape>)
    ensures
        match shape {
            Some(s) => makes_shape(q@, p@) && s.q == q && s.p == p,
            None => !makes_shape(q@, p@),
        },
{
    for i in 0..3usize
        invariant
            forall|j: int| 0 <= j < i && (#[trigger] p@[j]) == 0 ==> q@[j] == 1 || q@[j] == 9,
    {
        if p[i] == 0 && q[i] != 1 && q[i] != 9 {
            return None;
        }
    }
    if p[0] == p[1] && p[1] == p[2] {
        return None;
    }
    Some(Shape { q, p })
}

/// Whether a shape can be drawn: ascending positions from 1 to 9, possible
/// depths, and the points make a shape.
pub open spec fn drawable(shape: Shape) -> bool {
    &&& 1 <= shape.q@[0] < shape.q@[1] < shape.q@[2] <= 9
    &&& forall|i: int| 0 <= i < 3 ==> depth_possible(#[trigger] shape.q@[i] as int, shape.p@[i] as int)
    &&& makes_shape(shape.q@, shape.p@)
}

/// Whether positions and depths are what the generator gives in turn, as it
/// goes through `states`.
pub open spec fn points_given(states: Seq<StdRng>, q: Seq<u8>, p: Seq<u8>) -> bool {
    &&& states.len() == 7
    &&& q.len() == 3
    &&& p.len() == 3
    &&& gave_u8(states[0], states[1], 1, 7, q[0])
    &&& gave_u8(states[1], states[2], (q[0] + 1) as u8, 8, q[1])
    &&& gave_u8(states[2], states[3], (q[1] + 1) as u8, 9, q[2])
    &&& depth_drawn(states[3], states[4], q[0], p[0])
    &&& depth_drawn(states[4], states[5], q[1], p[1])
    &&& depth_drawn(states[5], states[6], q[2], p[2])
}

/// Whether positions and depths are what generator `before` gives, and the
/// generator is `after` then.
pub open spec fn points_drawn(before: StdRng, after: StdRng, q: Seq<u8>, p: Seq<u8>) -> bool {
    exists|states: Seq<StdRng>| #[trigger] points_given(states, q, p) && states[0] == before && states[6] == after
}

/// Whether generator `before` gives points `n` times that make no shape, and
/// is `after` then.
pub open spec fn shapeless(before: StdRng, after: StdRng, n: int) -> bool
    decreases n,
{
    if n <= 0 {
        before == after
    } else {
        exists|mid: StdRng, q: Seq<u8>, p: Seq<u8>| #[trigger]
            points_drawn(mid, after, q, p) && !makes_shape(q, p) && shapeless(before, mid, n - 1)
    }
}

/// Whether `shape` has the first points that make a shape of those that
/// generator `before` gives, and the generator is `after` then. No more is
/// said should there be no shape among as many draws as can be counted.
pub open spec fn shape_drawn(before: StdRng, after: StdRng, shape: Shape) -> bool {
    exists|n: int, mid: StdRng| #[trigger]
        shapeless(before, mid, n) && 0 <= n <= usize::MAX && (n < usize::MAX ==> makes_shape(shape.q@, shape.p@)
            && points_drawn(mid, after, shape.q@, shape.p@))
}

/// Whether the shapes are what generator `before` gives in turn, and the
/// generator is `after` then.
pub open spec fn shapes_drawn(before: StdRng, after: StdRng, shapes: Seq<Shape>) -> bool
    decreases shapes.len(),
{
    if shapes.len() == 0 {
        before == after
    } else {
        exists|mid: StdRng| #[trigger]
            shape_drawn(mid, after, shapes.last()) && shapes_drawn(before, mid, shapes.drop_last())
    }
}

/// Draws points until they make a shape. Should the draws run out, it is a
/// fixed one.
pub fn random_shape(rng: &mut StdRng) -> (shape: Shape)
    ensures
        drawable(shape),
        shape_drawn(*old(rng), *final(rng), shape),
{
    let ghost start = *rng;
    for draw in 0..DRAW_LIMIT
        invariant
            shapeless(start, *rng, draw as int),
            start == *old(rng),
    {
        let ghost mid = *rng;
        let q1: u8 = next_u8(rng, 1, 7);
        let ghost first = *rng;
        let q2: u8 = next_u8(rng, q1 + 1, 8);
        let ghost second = *rng;
        let q3: u8 = next_u8(rng, q2 + 1, 9);
        let ghost third = *rng;
        let p1: u8 = random_depth_for_q(rng, q1);
        let ghost fourth = *rng;
        let p2: u8 = random_depth_for_q(rng, q2);
        let ghost fifth = *rng;
        let p3: u8 = random_depth_for_q(rng, q3);
        let q: [u8; 3] = [q1, q2, q3];
        let p: [u8; 3] = [p1, p2, p3];
        proof {
            let states = seq![mid, first, second, third, fourth, fifth, *rng];
            assert(points_given(states, q@, p@));
            assert(points_drawn(mid, *rng, q@, p@));
        }
        if let Some(shape) = shape_of(q, p) {
            assert(shapeless(start, mid, draw as int));
            return shape;
        }
    }
    assert(shapeless(start, *rng, usize::MAX as int));
    Shape { q: [2, 5, 8], p: [1, 2, 1] }
}

/// The points that have a depth, in order.
pub open spec fn deep_points(shape: Shape, n: int) -> Seq<(u8, u8)>
    decreases n,
{
    if n <= 0 {
        Seq::empty()
    } else if shape.p@[n - 1] == 0 {
        deep_points(shape, n - 1)
    } else {
        deep_points(shape, n - 1).push((shape.q@[n - 1], shape.p@[n - 1]))
    }
}

/// What tells shapes apart: the points that have a depth; the flat shape has
/// a key of its own.
pub open spec fn key_of(shape: Shape) -> Seq<(u8, u8)> {
    let points = deep_points(shape, 3);
    if points.len() == 0 {
        seq![(0u8, 0u8)]
    } else {
        points
    }
}

pub fn shape_key(shape: &Shape) -> (key: Vec<(u8, u8)>)
    ensures
        key@ == key_of(*shape),
{
    let mut key: Vec<(u8, u8)> = Vec::new();
    for idx in 0..3usize
        invariant
            key@ == deep_points(*shape, idx as int),
    {
        if shape.p[idx] != 0 {
            key.push((shape.q[idx], shape.p[idx]));
        }
    }
    if key.len() == 0 {
        key.push((0, 0));
    }
    key
}

/// The mirror image of a shape.
pub open spec fn mirrored(shape: Shape) -> Shape {
    Shape {
        q: [(10 - shape.q@[2]) as u8, (10 - shape.q@[1]) as u8, (10 - shape.q@[0]) as u8],
        p: [shape.p@[2], shape.p@[1], shape.p@[0]],
    }
}

/// Whether a shape is its own mirror image.
pub open spec fn symmetric(shape: Shape) -> bool {
    key_of(shape) == key_of(mirrored(shape))
}

fn same_points(a: &Vec<(u8, u8)>, b: &Vec<(u8, u8)>) -> (same: bool)
    ensures
        same == (a@ == b@),
{
    if a.len() != b.len() {
        return false;
    }
    for i in 0..a.len()
        invariant
            a.len() == b.len(),
            forall|j: int| 0 <= j < i ==> a@[j] == #[trigger] b@[j],
    {
        let (aq, ap) = a[i];
        let (bq, bp) = b[i];
        if aq != bq || ap != bp {
            return false;
        }
    }
    assert(a@ =~= b@);
    true
}

pub fn is_mirror_symmetric(shape: &Shape) -> (same: bool)
    requires
        forall|i: int| 0 <= i < 3 ==> #[trigger] shape.q@[i] <= 10,
    ensures
        same == symmetric(*shape),
{
    let turned: Shape = Shape {
        q: [10 - shape.q[2], 10 - shape.q[1], 10 - shape.q[0]],
        p: [shape.p[2], shape.p[1], shape.p[0]],
    };
    assert(key_of(turned) == key_of(mirrored(*shape))) by {
        let m = mirrored(*shape);
        assert(turned.q@ =~= m.q@);
        assert(turned.p@ =~= m.p@);
        lemma_key_by_points(turned, m);
    }
    same_points(&shape_key(shape), &shape_key(&turned))
}

proof fn lemma_key_by_points(a: Shape, b: Shape)
    requires
        a.q@ == b.q@,
        a.p@ == b.p@,
    ensures
        key_of(a) == key_of(b),
{
    reveal_with_fuel(deep_points, 4);
}

/// The mirror image of the mirror image has the key of the shape.
pub proof fn law_mirror_twice(shape: Shape)
    requires
        forall|i: int| 0 <= i < 3 ==> #[trigger] shape.q@[i] <= 10,
    ensures
        key_of(mirrored(mirrored(shape))) == key_of(shape),
        symmetric(mirrored(shape)) == symmetric(shape),
{
    let once = mirrored(shape);
    let twice = mirrored(once);
    assert(shape.q@[0] <= 10 && shape.q@[1] <= 10 && shape.q@[2] <= 10);
    assert(twice.q@ =~= shape.q@);
    assert(twice.p@ =~= shape.p@);
    lemma_key_by_points(twice, shape);
}

/// The shape of an edge that is flat.
pub open spec fn flat_shape() -> Shape {
    Shape { q: [0, 0, 0], p: [0, 0, 0] }
}

/// Whether no shape of the table but the flat one has the key of `shape`.
pub open spec fn is_new(table: Seq<Shape>, shape: Shape) -> bool {
    forall|i: int| 1 <= i < table.len() ==> key_of(#[trigger] table[i]) != key_of(shape)
}

/// The table after `draws`: the flat shape, and then each drawn shape whose
/// key had not been drawn before.
pub open spec fn table_of(draws: Seq<Shape>) -> Seq<Shape>
    decreases draws.len(),
{
    if draws.len() == 0 {
        seq![flat_shape()]
    } else {
        let table = table_of(draws.drop_last());
        if is_new(table, draws.last()) {
            table.push(draws.last())
        } else {
            table
        }
    }
}

/// Whether the table comes of draws that stopped as soon as there were
/// `total` shapes besides the flat one, with `collisions` draws in vain.
pub open spec fn drawn_table(draws: Seq<Shape>, table: Seq<Shape>, total: int, collisions: int) -> bool {
    &&& forall|i: int| 0 <= i < draws.len() ==> drawable(#[trigger] draws[i])
    &&& table == table_of(draws)
    &&& table.len() == total + 1
    &&& collisions == draws.len() - total
    &&& draws.len() > 0 ==> is_new(table_of(draws.drop_last()), draws.last())
}

/// Whether every shape that can be drawn has the key of one of the list.
pub open spec fn holds_keys(list: Seq<Shape>) -> bool {
    forall|s: Shape| #[trigger] drawable(s) ==> lists_key(list, s)
}

/// Whether a shape of the list has the key of `s`.
pub open spec fn lists_key(list: Seq<Shape>, s: Shape) -> bool {
    exists|i: int| 0 <= i < list.len() && key_of(#[trigger] list[i]) == key_of(s)
}

/// Whether the shapes that can be drawn have fewer than `total` different
/// keys.
pub open spec fn lacks_keys(total: int) -> bool {
    exists|list: Seq<Shape>| list.len() < total && #[trigger] holds_keys(list)
}

/// Shapes with different keys that can be drawn are no more than the shapes
/// of a list that has every key.
proof fn lemma_keys_counted(shapes: Seq<Shape>, list: Seq<Shape>)
    requires
        forall|i: int| 0 <= i < shapes.len() ==> drawable(#[trigger] shapes[i]),
        forall|i: int, j: int|
            0 <= i < j < shapes.len() ==> key_of(#[trigger] shapes[i]) != key_of(#[trigger] shapes[j]),
        holds_keys(list),
    ensures
        shapes.len() <= list.len(),
{
    let ours = Seq::new(shapes.len(), |i: int| key_of(shapes[i]));
    let theirs = Seq::new(list.len(), |i: int| key_of(list[i]));
    assert(ours.no_duplicates()) by {
        assert forall|i: int, j: int| 0 <= i < ours.len() && 0 <= j < ours.len() && i != j implies ours[i] != ours[j] by {
            if i < j {
                assert(key_of(shapes[i]) != key_of(shapes[j]));
            } else {
                assert(key_of(shapes[j]) != key_of(shapes[i]));
            }
        }
    }
    ours.unique_seq_to_set();
    theirs.lemma_cardinality_of_set();
    assert(ours.to_set().subset_of(theirs.to_set())) by {
        assert forall|k: Seq<(u8, u8)>| ours.to_set().contains(k) implies theirs.to_set().contains(k) by {
            let i = choose|i: int| 0 <= i < ours.len() && ours[i] == k;
            assert(drawable(shapes[i]));
            assert(lists_key(list, shapes[i]));
            let j = choose|j: int| 0 <= j < list.len() && key_of(#[trigger] list[j]) == key_of(shapes[i]);
            assert(theirs[j] == k);
        }
    }
    vstd::set_lib::lemma_len_subset(ours.to_set(), theirs.to_set());
}

/// A point for an outer third of an edge, by number: a position from 2 to 4
/// and a depth that is possible there.
spec fn outer_point(i: int) -> (int, int) {
    if i < 3 {
        (2, 1 + i)
    } else if i < 7 {
        (3, i - 2)
    } else {
        (4, i - 6)
    }
}

/// Shapes by number, with different keys: a deep point in the middle between
/// two others.
spec fn sample_shape(n: int) -> Shape {
    let (a, p1) = outer_point(n / 26);
    let (b, p3) = outer_point((n % 26) / 2);
    Shape { q: [a as u8, 5, (10 - b) as u8], p: [p1 as u8, (7 + n % 2) as u8, p3 as u8] }
}

/// There are different shapes enough for an alphabet of 338 ids.
pub proof fn law_shapes_abound(total: int)
    requires
        total <= 338,
    ensures
        !lacks_keys(total),
{
    let samples = Seq::new(338, |n: int| sample_shape(n));
    assert forall|n: int| 0 <= n < 338 implies drawable(#[trigger] samples[n]) by {
        let s = samples[n];
        assert(0 <= n / 26 < 13 && 0 <= (n % 26) / 2 < 13);
        assert(s.q@[0] == s.q[0] && s.q@[1] == s.q[1] && s.q@[2] == s.q[2]);
        assert(s.p@[0] == s.p[0] && s.p@[1] == s.p[1] && s.p@[2] == s.p[2]);
    }
    assert forall|m: int, n: int| 0 <= m < n < 338 implies key_of(#[trigger] samples[m]) != key_of(
        #[trigger] samples[n],
    ) by {
        reveal_with_fuel(deep_points, 4);
        let s = samples[m];
        let t = samples[n];
        assert(drawable(s) && drawable(t));
        assert(0 <= m / 26 < 13 && 0 <= (m % 26) / 2 < 13);
        assert(0 <= n / 26 < 13 && 0 <= (n % 26) / 2 < 13);
        assert(deep_points(s, 3) =~= seq![(s.q@[0], s.p@[0]), (s.q@[1], s.p@[1]), (s.q@[2], s.p@[2])]);
        assert(deep_points(t, 3) =~= seq![(t.q@[0], t.p@[0]), (t.q@[1], t.p@[1]), (t.q@[2], t.p@[2])]);
        if key_of(s) == key_of(t) {
            assert(key_of(s)[0] == key_of(t)[0]);
            assert(key_of(s)[1] == key_of(t)[1]);
            assert(key_of(s)[2] == key_of(t)[2]);
            assert(m / 26 == n / 26);
            assert((m % 26) / 2 == (n % 26) / 2);
            assert(m % 2 == n % 2);
        }
    }
    if lacks_keys(total) {
        let list = choose|list: Seq<Shape>| list.len() < total && #[trigger] holds_keys(list);
        lemma_keys_counted(samples, list);
    }
}

fn is_drawable(shape: &Shape) -> (can: bool)
    ensures
        can == drawable(*shape),
{
    if shape.q[0] < 1 || shape.q[0] >= shape.q[1] || shape.q[1] >= shape.q[2] || shape.q[2] > 9 {
        return false;
    }
    for i in 0..3usize
        invariant
            shape.q@[0] < shape.q@[1] < shape.q@[2] <= 9,
            forall|j: int| 0 <= j < i ==> depth_possible(#[trigger] shape.q@[j] as int, shape.p@[j] as int),
    {
        let q: u8 = shape.q[i];
        let p: u8 = shape.p[i];
        assert(q <= 9);
        let least: u8 = if q == 1 || q == 9 { 0 } else { 1 };
        if p < least || (p > max_depth_tenths(q) && p != least) {
            assert(!depth_possible(shape.q@[i as int] as int, shape.p@[i as int] as int));
            return false;
        }
    }
    shape_of(shape.q, shape.p).is_some()
}

/// The points with number `n`: three positions from 1 to 9 and three depths
/// below 9.
spec fn points_numbered(n: int) -> Shape {
    let n1 = n / 9;
    let n2 = n1 / 9;
    let n3 = n2 / 9;
    let n4 = n3 / 9;
    let n5 = n4 / 9;
    Shape {
        q: [(1 + n5) as u8, (1 + n4 % 9) as u8, (1 + n3 % 9) as u8],
        p: [(n2 % 9) as u8, (n1 % 9) as u8, (n % 9) as u8],
    }
}

fn number_points(n: u32) -> (shape: Shape)
    requires
        n < 531441,
    ensures
        shape.q@ == points_numbered(n as int).q@,
        shape.p@ == points_numbered(n as int).p@,
{
    let n1: u32 = n / 9;
    let n2: u32 = n1 / 9;
    let n3: u32 = n2 / 9;
    let n4: u32 = n3 / 9;
    let n5: u32 = n4 / 9;
    let shape: Shape = Shape {
        q: [(1 + n5) as u8, (1 + n4 % 9) as u8, (1 + n3 % 9) as u8],
        p: [(n2 % 9) as u8, (n1 % 9) as u8, (n % 9) as u8],
    };
    assert(shape.q@ =~= points_numbered(n as int).q@);
    assert(shape.p@ =~= points_numbered(n as int).p@);
    shape
}

/// Every shape that can be drawn has a number.
proof fn lemma_numbered(s: Shape)
    requires
        drawable(s),
    ensures
        exists|n: int|
            0 <= n < 531441 && (#[trigger] points_numbered(n)).q@ == s.q@ && points_numbered(n).p@ == s.p@,
{
    assert(depth_possible(s.q@[0] as int, s.p@[0] as int));
    assert(depth_possible(s.q@[1] as int, s.p@[1] as int));
    assert(depth_possible(s.q@[2] as int, s.p@[2] as int));
    let q = s.q@;
    let p = s.p@;
    assert(p[0] < 9 && p[1] < 9 && p[2] < 9);
    let n5 = q[0] - 1;
    let n4 = 9 * n5 + (q[1] - 1);
    let n3 = 9 * n4 + (q[2] - 1);
    let n2 = 9 * n3 + p[0];
    let n1 = 9 * n2 + p[1];
    let n = 9 * n1 + p[2];
    assert(0 <= n < 531441);
    lemma_last_digit(n4, n5, q[1] - 1);
    lemma_last_digit(n3, n4, q[2] - 1);
    lemma_last_digit(n2, n3, p[0] as int);
    lemma_last_digit(n1, n2, p[1] as int);
    lemma_last_digit(n, n1, p[2] as int);
    let t = points_numbered(n);
    assert(t.q@ =~= q);
    assert(t.p@ =~= p);
}

proof fn lemma_last_digit(n: int, rest: int, digit: int)
    requires
        n == 9 * rest + digit,
        0 <= digit < 9,
    ensures
        n / 9 == rest,
        n % 9 == digit,
{
}

/// The shapes of a trial so far: the flat one, and those drawn whose key had
/// not been drawn before, with their keys and the number of draws in vain.
pub struct ShapeTable {
    pub shapes: Vec<Shape>,
    pub keys: Vec<Vec<(u8, u8)>>,
    pub collisions: usize,
}

impl ShapeTable {
    pub open spec fn wf(&self) -> bool {
        &&& self.shapes.len() >= 1
        &&& self.keys.len() == self.shapes.len() - 1
        &&& forall|i: int| 0 <= i < self.keys.len() ==> (#[trigger] self.keys@[i])@ == key_of(self.shapes@[i + 1])
    }

    pub fn new() -> (table: Self)
        ensures
            table.wf(),
            table.shapes@ == seq![flat_shape()],
            table.collisions == 0,
    {
        let mut shapes: Vec<Shape> = Vec::new();
        shapes.push(Shape { q: [0, 0, 0], p: [0, 0, 0] });
        assert(shapes@ =~= seq![flat_shape()]);
        ShapeTable { shapes, keys: Vec::new(), collisions: 0 }
    }

    /// Takes a drawn shape: it is added if its key is new, and otherwise was
    /// drawn in vain.
    pub fn take(&mut self, shape: Shape)
        requires
            old(self).wf(),
            !is_new(old(self).shapes@, shape) ==> old(self).collisions < usize::MAX,
        ensures
            final(self).wf(),
            if is_new(old(self).shapes@, shape) {
                final(self).shapes@ == old(self).shapes@.push(shape) && final(self).collisions == old(self).collisions
            } else {
                final(self).shapes@ == old(self).shapes@ && final(self).collisions == old(self).collisions + 1
            },
    {
        let key: Vec<(u8, u8)> = shape_key(&shape);
        if self.holds(&shape) {
            self.collisions = self.collisions + 1;
        } else {
            self.shapes.push(shape);
            self.keys.push(key);
        }
    }

    fn holds(&self, shape: &Shape) -> (held: bool)
        requires
            self.wf(),
        ensures
            held == !is_new(self.shapes@, *shape),
    {
        let key: Vec<(u8, u8)> = shape_key(shape);
        let held: bool = holds_key(&self.keys, &key);
        proof {
            assert forall|i: int| 1 <= i < self.shapes@.len() implies key_of(#[trigger] self.shapes@[i])
                == self.keys@[i - 1]@ by {
            }
            if held {
                let i = choose|i: int| 0 <= i < self.keys.len() && (#[trigger] self.keys@[i])@ == key@;
                assert(key_of(self.shapes@[i + 1]) == key_of(*shape));
            }
        }
        held
    }

    /// A shape that can be drawn and has a new key, if there is one.
    fn find_new(&self) -> (found: Option<Shape>)
        requires
            self.wf(),
        ensures
            match found {
                Some(shape) => drawable(shape) && is_new(self.shapes@, shape),
                None => holds_keys(self.shapes@.drop_first()),
            },
    {
        for n in 0..531441u32
            invariant
                self.wf(),
                forall|m: int|
                    0 <= m < n && drawable(#[trigger] points_numbered(m)) ==> !is_new(
                        self.shapes@,
                        points_numbered(m),
                    ),
        {
            let shape: Shape = number_points(n);
            proof {
                lemma_same_points(shape, points_numbered(n as int));
            }
            if is_drawable(&shape) && !self.holds(&shape) {
                return Some(shape);
            }
        }
        proof {
            lemma_all_numbered(self.shapes@);
        }
        None
    }
}

/// A table without a new key among the numbered points has every key.
proof fn lemma_all_numbered(shapes: Seq<Shape>)
    requires
        shapes.len() >= 1,
        forall|m: int|
            0 <= m < 531441 && drawable(#[trigger] points_numbered(m)) ==> !is_new(shapes, points_numbered(m)),
    ensures
        holds_keys(shapes.drop_first()),
{
    let rest = shapes.drop_first();
    assert forall|s: Shape| #[trigger] drawable(s) implies lists_key(rest, s) by {
        lemma_numbered(s);
        let n = choose|n: int|
            0 <= n < 531441 && (#[trigger] points_numbered(n)).q@ == s.q@ && points_numbered(n).p@ == s.p@;
        lemma_same_points(points_numbered(n), s);
        assert(!is_new(shapes, points_numbered(n)));
        let i = choose|i: int| 1 <= i < shapes.len() && key_of(#[trigger] shapes[i]) == key_of(points_numbered(n));
        assert(rest[i - 1] == shapes[i]);
    }
}

/// Whether the shapes behind the flat one can be drawn and differ in their
/// keys.
spec fn different(shapes: Seq<Shape>) -> bool {
    &&& forall|i: int| 1 <= i < shapes.len() ==> drawable(#[trigger] shapes[i])
    &&& forall|i: int, j: int|
        1 <= i < j < shapes.len() ==> key_of(#[trigger] shapes[i]) != key_of(#[trigger] shapes[j])
}

proof fn lemma_different_counted(shapes: Seq<Shape>, total: int)
    requires
        shapes.len() >= 1,
        different(shapes),
        shapes.len() - 1 >= total,
    ensures
        !lacks_keys(total),
{
    if lacks_keys(total) {
        let list = choose|list: Seq<Shape>| list.len() < total && #[trigger] holds_keys(list);
        let rest = shapes.drop_first();
        assert forall|i: int| 0 <= i < rest.len() implies drawable(#[trigger] rest[i]) by {
            assert(rest[i] == shapes[i + 1]);
        }
        assert forall|i: int, j: int| 0 <= i < j < rest.len() implies key_of(#[trigger] rest[i]) != key_of(
            #[trigger] rest[j],
        ) by {
            assert(rest[i] == shapes[i + 1] && rest[j] == shapes[j + 1]);
        }
        lemma_keys_counted(rest, list);
    }
}

/// Whether there are `total` shapes with different keys that can be drawn.
pub fn shapes_suffice(total: usize) -> (suffice: bool)
    ensures
        suffice == !lacks_keys(total as int),
{
    if total <= 338 {
        proof {
            law_shapes_abound(total as int);
        }
        return true;
    }
    let mut table: ShapeTable = ShapeTable::new();
    for n in 0..531441u32
        invariant
            table.wf(),
            different(table.shapes@),
            forall|m: int|
                0 <= m < n && drawable(#[trigger] points_numbered(m)) ==> !is_new(table.shapes@, points_numbered(m)),
    {
        let shape: Shape = number_points(n);
        proof {
            lemma_same_points(shape, points_numbered(n as int));
        }
        if is_drawable(&shape) && !table.holds(&shape) {
            let ghost before = table.shapes@;
            table.take(shape);
            proof {
                let after = table.shapes@;
                assert(after == before.push(shape));
                assert forall|i: int, j: int| 1 <= i < j < after.len() implies key_of(#[trigger] after[i]) != key_of(
                    #[trigger] after[j],
                ) by {
                    assert(after[i] == before[i]);
                    if j < before.len() {
                        assert(after[j] == before[j]);
                    }
                }
                assert forall|i: int| 1 <= i < after.len() implies drawable(#[trigger] after[i]) by {
                    if i < before.len() {
                        assert(after[i] == before[i]);
                    }
                }
                assert forall|m: int|
                    0 <= m < n + 1 && drawable(#[trigger] points_numbered(m)) implies !is_new(
                    after,
                    points_numbered(m),
                ) by {
                    if m < n {
                        let i = choose|i: int|
                            1 <= i < before.len() && key_of(#[trigger] before[i]) == key_of(points_numbered(m));
                        assert(after[i] == before[i]);
                    } else {
                        assert(after[before.len() as int] == shape);
                    }
                }
            }
        }
    }
    let found: usize = table.shapes.len() - 1;
    proof {
        lemma_all_numbered(table.shapes@);
        if found >= total {
            lemma_different_counted(table.shapes@, total as int);
        } else {
            assert(holds_keys(table.shapes@.drop_first()));
        }
    }
    found >= total
}

/// Shapes with the same points are drawn alike and have the same key.
proof fn lemma_same_points(a: Shape, b: Shape)
    requires
        a.q@ == b.q@,
        a.p@ == b.p@,
    ensures
        drawable(a) == drawable(b),
        key_of(a) == key_of(b),
{
    lemma_key_by_points(a, b);
}

/// A table of `total` different shapes behind the flat one, and the number
/// of draws in vain. Should the draws run out, the first shape that is left
/// is taken.
pub fn draw_shapes(total: usize, rng: &mut StdRng) -> (drawn: (Vec<Shape>, usize))
    requires
        total < usize::MAX,
        !lacks_keys(total as int),
    ensures
        exists|draws: Seq<Shape>| #[trigger]
            drawn_table(draws, drawn.0@, total as int, drawn.1 as int) && (drawn.1 < usize::MAX ==> shapes_drawn(
                *old(rng),
                *final(rng),
                draws,
            )),
{
    let mut table: ShapeTable = ShapeTable::new();
    let ghost mut draws: Seq<Shape> = Seq::empty();
    assert(table.shapes@ =~= table_of(draws));
    while table.shapes.len() <= total
        invariant
            total < usize::MAX,
            !lacks_keys(total as int),
            table.wf(),
            1 <= table.shapes.len() <= total + 1,
            table.shapes@ == table_of(draws),
            draws.len() == table.collisions + table.shapes.len() - 1,
            table.collisions < usize::MAX ==> shapes_drawn(*old(rng), *rng, draws),
            forall|i: int| 0 <= i < draws.len() ==> drawable(#[trigger] draws[i]),
            table.shapes.len() == total + 1 && draws.len() > 0 ==> is_new(
                table_of(draws.drop_last()),
                draws.last(),
            ),
        decreases total + 1 - table.shapes.len(), DRAW_LIMIT - table.collisions,
    {
        let ghost mid = *rng;
        let shape: Shape = if table.collisions < DRAW_LIMIT {
            random_shape(rng)
        } else {
            match table.find_new() {
                Some(shape) => shape,
                None => {
                    assert(holds_keys(table.shapes@.drop_first()));
                    assert(false);
                    random_shape(rng)
                },
            }
        };
        let ghost before = draws;
        proof {
            draws = draws.push(shape);
            assert(draws.drop_last() =~= before);
            if table.collisions < usize::MAX {
                assert(shape_drawn(mid, *rng, draws.last()));
            }
        }
        table.take(shape);
    }
    let drawn: (Vec<Shape>, usize) = (table.shapes, table.collisions);
    assert(drawn_table(draws, drawn.0@, total as int, drawn.1 as int));
    drawn
}

fn holds_key(keys: &Vec<Vec<(u8, u8)>>, key: &Vec<(u8, u8)>) -> (held: bool)
    ensures
        held == (exists|i: int| 0 <= i < keys.len() && (#[trigger] keys@[i])@ == key@),
{
    for i in 0..keys.len()
        invariant
            forall|j: int| 0 <= j < i ==> (#[trigger] keys@[j])@ != key@,
    {
        if same_points(&keys[i], key) {
            return true;
        }
    }
    false
}

/// The shapes of a drawn table behind the flat one can all be drawn, and
/// differ in their keys.
pub proof fn law_table_distinct(draws: Seq<Shape>)
    requires
        forall|i: int| 0 <= i < draws.len() ==> drawable(#[trigger] draws[i]),
    ensures
        table_of(draws).len() >= 1,
        table_of(draws)[0] == flat_shape(),
        forall|i: int| 1 <= i < table_of(draws).len() ==> drawable(#[trigger] table_of(draws)[i]),
        forall|i: int, j: int|
            1 <= i < j < table_of(draws).len() ==> key_of(#[trigger] table_of(draws)[i]) != key_of(
                #[trigger] table_of(draws)[j],
            ),
    decreases draws.len(),
{
    if draws.len() > 0 {
        let front = draws.drop_last();
        law_table_distinct(front);
        let before = table_of(front);
        let table = table_of(draws);
        assert(drawable(draws[draws.len() - 1]));
        assert forall|i: int| 1 <= i < table.len() implies drawable(#[trigger] table[i]) by {
            if i < before.len() {
                assert(table[i] == before[i]);
            }
        }
        assert forall|i: int, j: int| 1 <= i < j < table.len() implies key_of(#[trigger] table[i]) != key_of(
            #[trigger] table[j],
        ) by {
            assert(table[i] == before[i]);
            if j < before.len() {
                assert(table[j] == before[j]);
            }
        }
    }
}

/// Whether some shape behind the flat one differs from its mirror image.
pub open spec fn has_asymmetric(table: Seq<Shape>) -> bool {
    exists|i: int| 1 <= i < table.len() && !symmetric(#[trigger] table[i])
}

/// Whether the shapes can be drawn and are their own mirror images.
pub open spec fn in_vain(draws: Seq<Shape>) -> bool {
    forall|i: int| 0 <= i < draws.len() ==> drawable(#[trigger] draws[i]) && symmetric(draws[i])
}

/// Whether `after` is `before` with shape `i` replaced by one that differs
/// from its mirror image, once `draws` were in vain: all tries for the shapes
/// before it, and some of those for shape `i`.
pub open spec fn replaced_after(before: Seq<Shape>, after: Seq<Shape>, i: int, shape: Shape, draws: Seq<Shape>) -> bool {
    &&& 1 <= i < before.len()
    &&& drawable(shape)
    &&& !symmetric(shape)
    &&& after == before.update(i, shape)
    &&& in_vain(draws)
    &&& MIRROR_TRIES * (i - 1) <= draws.len() < MIRROR_TRIES * i
}

/// Whether `before` was seen to so that some shape differs from its mirror
/// image, and `killed` tells whether one does: a table that has one is left
/// alone; otherwise one shape is replaced, or all tries for all shapes were
/// in vain.
pub open spec fn reflection_settled(before: Seq<Shape>, after: Seq<Shape>, killed: bool) -> bool {
    &&& killed == has_asymmetric(after)
    &&& if has_asymmetric(before) {
        after == before
    } else if killed {
        exists|i: int, shape: Shape, draws: Seq<Shape>| #[trigger] replaced_after(before, after, i, shape, draws)
    } else {
        &&& after == before
        &&& exists|draws: Seq<Shape>| #[trigger] in_vain(draws) && draws.len() == MIRROR_TRIES * (before.len() - 1)
    }
}

/// Whether the draws that settle a table are what generator `before` gives
/// in turn, and the generator is `after` then: an order of the shapes behind
/// the flat one, and shapes until one of them differs from its mirror image.
pub open spec fn reflection_drawn(
    before: StdRng,
    after: StdRng,
    table: Seq<Shape>,
    settled: Seq<Shape>,
    killed: bool,
) -> bool {
    exists|mid: StdRng, order: Seq<usize>| #[trigger]
        gave_order(before, mid, numbers_below(table.len() as int), order) && if has_asymmetric(table) {
            after == mid
        } else {
            exists|draws: Seq<Shape>, last: StdRng| #[trigger]
                shapes_drawn(mid, last, draws) && in_vain(draws) && if killed {
                    exists|i: int, shape: Shape| #[trigger]
                        replaced_after(table, settled, i, shape, draws) && 200 * (i - 1) <= draws.len() < 200 * i
                            && shape_drawn(last, after, shape)
                } else {
                    last == after && draws.len() == 200 * (table.len() - 1)
                }
        }
}

/// The numbers from 1 on that are less than `n`.
pub open spec fn numbers_below(n: int) -> Seq<usize> {
    Seq::new((n - 1) as nat, |i: int| (i + 1) as usize)
}

/// Puts `candidate` in place of a shape if it differs from its mirror image,
/// and tells whether it does.
pub fn replace_shape(table: &mut Vec<Shape>, idx: usize, candidate: Shape) -> (done: bool)
    requires
        idx < old(table).len(),
        forall|i: int| 0 <= i < 3 ==> #[trigger] candidate.q@[i] <= 10,
    ensures
        done == !symmetric(candidate),
        final(table)@ == if done {
            old(table)@.update(idx as int, candidate)
        } else {
            old(table)@
        },
{
    if is_mirror_symmetric(&candidate) {
        return false;
    }
    table[idx] = candidate;
    true
}

/// Sees to it that some shape differs from its mirror image, and tells
/// whether one does. A table that has one is left alone; otherwise each
/// shape in turn is tried a number of times until a replacement is found.
pub fn kill_reflection(table: &mut Vec<Shape>, rng: &mut StdRng) -> (killed: bool)
    requires
        old(table).len() >= 1,
        forall|i: int, k: int| 0 <= i < old(table).len() && 0 <= k < 3 ==> (#[trigger] old(table)@[i].q@[k]) <= 10,
    ensures
        final(table).len() == old(table).len(),
        reflection_settled(old(table)@, final(table)@, killed),
        reflection_drawn(*old(rng), *final(rng), old(table)@, final(table)@, killed),
{
    let mut idxs: Vec<usize> = Vec::new();
    let len: usize = table.len();
    for idx in 1..len
        invariant
            idxs.len() == idx - 1,
            forall|i: int| 0 <= i < idxs.len() ==> #[trigger] idxs@[i] == i + 1,
    {
        idxs.push(idx);
    }
    let ghost listed = idxs@;
    let idxs: Vec<usize> = reordered(idxs, rng);
    let ghost mid = *rng;
    proof {
        lemma_shuffled(listed, idxs@);
        assert(listed =~= numbers_below(table.len() as int));
        assert(gave_order(*old(rng), mid, numbers_below(table.len() as int), idxs@));
    }
    let ghost before = table@;
    for i in 0..idxs.len()
        invariant
            table@ == before,
            before == old(table)@,
            *rng == mid,
            gave_order(*old(rng), mid, numbers_below(before.len() as int), idxs@),
            listed.len() == before.len() - 1,
            forall|k: int| 0 <= k < listed.len() ==> #[trigger] listed[k] == k + 1,
            forall|x: usize| listed.contains(x) <==> idxs@.contains(x),
            forall|j: int, k: int| 0 <= j < before.len() && 0 <= k < 3 ==> (#[trigger] before[j].q@[k]) <= 10,
            forall|j: int| 0 <= j < i ==> symmetric(before[#[trigger] idxs@[j] as int]),
    {
        let idx: usize = idxs[i];
        assert(idxs@.contains(idx));
        assert(listed.contains(idx));
        assert forall|k: int| 0 <= k < 3 implies #[trigger] before[idx as int].q@[k] <= 10 by {
        }
        if !is_mirror_symmetric(&table[idx]) {
            assert(!symmetric(before[idx as int]));
            return true;
        }
    }
    assert(!has_asymmetric(before)) by {
        assert forall|i: int| 1 <= i < before.len() implies symmetric(#[trigger] before[i]) by {
            assert(listed[i - 1] == i);
            assert(idxs@.contains(i as usize));
            let j = choose|j: int| 0 <= j < idxs.len() && idxs@[j] == i;
            assert(symmetric(before[idxs@[j] as int]));
        }
    }
    let ghost mut draws: Seq<Shape> = Seq::empty();
    for idx in 1..len
        invariant
            table@ == before,
            before == old(table)@,
            len == before.len(),
            !has_asymmetric(before),
            in_vain(draws),
            shapes_drawn(mid, *rng, draws),
            gave_order(*old(rng), mid, numbers_below(before.len() as int), idxs@),
            len > 0 ==> draws.len() == MIRROR_TRIES * (idx - 1),
    {
        for tries in 0..MIRROR_TRIES
            invariant
                in_vain(draws),
                shapes_drawn(mid, *rng, draws),
                gave_order(*old(rng), mid, numbers_below(before.len() as int), idxs@),
                draws.len() == MIRROR_TRIES * (idx - 1) + tries,
                table@ == before,
                before == old(table)@,
                1 <= idx < before.len(),
                !has_asymmetric(before),
        {
            let ghost last = *rng;
            let candidate: Shape = random_shape(rng);
            assert forall|k: int| 0 <= k < 3 implies #[trigger] candidate.q@[k] <= 10 by {
                assert(candidate.q@[0] <= 10 && candidate.q@[1] <= 10 && candidate.q@[2] <= 10);
            }
            if replace_shape(table, idx, candidate) {
                assert(table@ == before.update(idx as int, candidate));
                assert(!symmetric(table@[idx as int]));
                assert(replaced_after(before, table@, idx as int, candidate, draws));
                assert(shapes_drawn(mid, last, draws));
                return true;
            }
            proof {
                let past = draws;
                draws = draws.push(candidate);
                assert(draws.drop_last() =~= past);
                assert(shape_drawn(last, *rng, draws.last()));
                assert forall|i: int| 0 <= i < draws.len() implies drawable(#[trigger] draws[i]) && symmetric(draws[i]) by {
                    if i < past.len() {
                        assert(draws[i] == past[i]);
                    }
                }
            }
        }
    }
    assert(in_vain(draws) && draws.len() == MIRROR_TRIES * (before.len() - 1));
    false
}

} // verus!
