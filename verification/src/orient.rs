//! Which side of each inner edge is raised inward: the sides are chosen so
//! that notches are spread over the pieces.

use crate::edges::{enumerate_edges, is_forward, joins, lemma_edge_back, lemma_listed_apart, lists_edges, Edge};
use crate::grid::{links_in_range, links_mutual, opposite, opposite_dir, Links};
use crate::id_plan::{lemma_other_edge, lemma_rim_kept, rim_zero};
use crate::rng::{gave_coin, gave_order, lemma_shuffled, next_coin, reordered};
use crate::trial_pieces::blank_rows;
use rand::rngs::StdRng;
use vstd::prelude::*;

verus! {

/// The number of neighbours among the first `n` directions.
pub open spec fn degree(row: Seq<Option<usize>>, n: int) -> int
    decreases n,
{
    if n <= 0 {
        0
    } else {
        degree(row, n - 1) + (if row[n - 1] is Some {
            1int
        } else {
            0
        })
    }
}

/// Whether `targets` holds for each cell half the number of its neighbours.
pub open spec fn half_degrees(links: Seq<[Option<usize>; 6]>, targets: Seq<usize>) -> bool {
    &&& targets.len() == links.len()
    &&& forall|c: int| 0 <= c < links.len() ==> #[trigger] targets[c] == degree(links[c]@, 6) / 2
    &&& forall|c: int| 0 <= c < links.len() ==> #[trigger] targets[c] <= 3
}

/// How many notches each cell should have: half the number of its
/// neighbours.
pub fn target_concaves(links: &Links) -> (targets: Vec<usize>)
    ensures
        half_degrees(links@, targets@),
{
    let mut targets: Vec<usize> = Vec::with_capacity(links.len());
    for c in 0..links.len()
        invariant
            targets.len() == c,
            forall|k: int| 0 <= k < c ==> #[trigger] targets@[k] == degree(links@[k]@, 6) / 2,
            forall|k: int| 0 <= k < c ==> #[trigger] targets@[k] <= 3,
    {
        let mut count: usize = 0;
        for dir in 0..6usize
            invariant
                c < links.len(),
                count == degree(links@[c as int]@, dir as int),
                count <= dir,
        {
            if links[c][dir].is_some() {
                count = count + 1;
            }
        }
        targets.push(count / 2);
    }
    targets
}

/// How the notches of a piece lie: how many pairs of them are neighbours, by
/// how many their number misses the target, and the id of each, by
/// direction, with zero where there is none.
#[derive(Clone, Copy, Debug)]
pub struct Profile {
    pub adjacent: usize,
    pub count_diff: i32,
    pub concave: [i32; 6],
}

/// The number of notches among the first `n` sides.
pub open spec fn notches(edges: Seq<i32>, n: int) -> int
    decreases n,
{
    if n <= 0 {
        0
    } else {
        notches(edges, n - 1) + (if edges[n - 1] < 0 {
            1int
        } else {
            0
        })
    }
}

/// The number of the first `n` sides that are notches like the next side.
pub open spec fn notch_pairs(edges: Seq<i32>, n: int) -> int
    decreases n,
{
    if n <= 0 {
        0
    } else {
        notch_pairs(edges, n - 1) + (if edges[n - 1] < 0 && edges[n % 6] < 0 {
            1int
        } else {
            0
        })
    }
}

/// Whether `profile` is that of a piece.
pub open spec fn is_profile(edges: Seq<i32>, target: int, profile: Profile) -> bool {
    &&& profile.adjacent == notch_pairs(edges, 6)
    &&& profile.count_diff == (if notches(edges, 6) > target {
        notches(edges, 6) - target
    } else {
        target - notches(edges, 6)
    })
    &&& forall|dir: int|
        0 <= dir < 6 ==> #[trigger] profile.concave@[dir] == (if edges[dir] < 0 {
            -edges[dir]
        } else {
            0
        })
}

pub fn concave_profile(edges: &[i32; 6], target: usize) -> (profile: Profile)
    requires
        forall|dir: int| 0 <= dir < 6 ==> (#[trigger] edges@[dir]) > i32::MIN,
        target <= 6,
    ensures
        is_profile(edges@, target as int, profile),
{
    let mut concave: [i32; 6] = [0; 6];
    let mut count: i32 = 0;
    let mut adjacent: usize = 0;
    for dir in 0..6usize
        invariant
            forall|d: int| 0 <= d < 6 ==> (#[trigger] edges@[d]) > i32::MIN,
            count == notches(edges@, dir as int),
            0 <= count <= dir,
            adjacent == notch_pairs(edges@, dir as int),
            adjacent <= dir,
            forall|d: int|
                0 <= d < 6 ==> #[trigger] concave@[d] == (if d < dir && edges@[d] < 0 {
                    -edges@[d]
                } else {
                    0
                }),
    {
        assert(edges@[dir as int] > i32::MIN);
        if edges[dir] < 0 {
            concave[dir] = -edges[dir];
            count = count + 1;
            if edges[(dir + 1) % 6] < 0 {
                adjacent = adjacent + 1;
            }
        }
    }
    let goal: i32 = target as i32;
    let count_diff: i32 = if count > goal { count - goal } else { goal - count };
    Profile { adjacent, count_diff, concave }
}

/// Whether one side of an edge shows `value` and the other side the
/// opposite.
pub open spec fn shows(rows: Seq<[i32; 6]>, edge: Edge, value: int) -> bool {
    let (a, b, dir) = edge;
    rows[a as int]@[dir as int] == value && rows[b as int]@[opposite(dir as int)] == -value
}

/// Gives the two sides of an edge a value and its opposite.
pub fn set_edge(rows: &mut Vec<[i32; 6]>, a: usize, b: usize, dir: usize, value: i32)
    requires
        a < old(rows).len(),
        b < old(rows).len(),
        a != b,
        dir < 6,
        value > i32::MIN,
    ensures
        final(rows).len() == old(rows).len(),
        shows(final(rows)@, (a, b, dir), value as int),
        forall|c: int, d: int|
            0 <= c < old(rows).len() && 0 <= d < 6 && !(c == a && d == dir) && !(c == b && d == opposite(dir as int))
                ==> (#[trigger] final(rows)@[c]@[d]) == old(rows)@[c]@[d],
{
    rows[a][dir] = value;
    let opp: usize = opposite_dir(dir);
    rows[b][opp] = -value;
}

/// Whether every inner edge is raised inward on one side and outward on the
/// other, with its planned id.
pub open spec fn oriented(links: Seq<[Option<usize>; 6]>, ids: Seq<[i32; 6]>, rows: Seq<[i32; 6]>) -> bool {
    &&& rows.len() == links.len()
    &&& forall|e: Edge| #[trigger] joins(links, e) && is_forward(e) ==> is_oriented(ids, rows, e)
    &&& rim_zero(links, rows)
}

pub open spec fn is_oriented(ids: Seq<[i32; 6]>, rows: Seq<[i32; 6]>, e: Edge) -> bool {
    let id = ids[e.0 as int]@[e.2 as int] as int;
    shows(rows, e, id) || shows(rows, e, -id)
}

/// Whether two pieces with these edge values can be rated `key`.
pub open spec fn rated<P: Fn(i64, &Profile, &Profile) -> u64>(
    rate: P,
    bonus: i64,
    a: Seq<i32>,
    target_a: int,
    b: Seq<i32>,
    target_b: int,
    key: u64,
) -> bool {
    exists|pa: Profile, pb: Profile|
        is_profile(a, target_a, pa) && is_profile(b, target_b, pb) && #[trigger] rate.ensures((bonus, &pa, &pb), key)
}

/// Rates two pieces.
pub(crate) fn rate_pair<P: Fn(i64, &Profile, &Profile) -> u64>(
    a: &[i32; 6],
    target_a: usize,
    b: &[i32; 6],
    target_b: usize,
    bonus: i64,
    rate: &P,
) -> (key: u64)
    requires
        forall|n: i64, pa: &Profile, pb: &Profile| #[trigger] rate.requires((n, pa, pb)),
        target_a <= 6,
        target_b <= 6,
        forall|d: int| 0 <= d < 6 ==> (#[trigger] a@[d]) > i32::MIN,
        forall|d: int| 0 <= d < 6 ==> (#[trigger] b@[d]) > i32::MIN,
    ensures
        rated(*rate, bonus, a@, target_a as int, b@, target_b as int, key),
{
    let pa: Profile = concave_profile(a, target_a);
    let pb: Profile = concave_profile(b, target_b);
    rate(bonus, &pa, &pb)
}

/// Whether the notch goes on the lesser cell, when the way with the notch
/// there is rated `first` and the other way `second`: the higher rated way is
/// taken, and of equal ones the coin decides.
pub fn notch_on_first(first: u64, second: u64, coin: bool) -> (notch_first: bool)
    ensures
        notch_first == (first > second || (first == second && coin)),
{
    if first > second {
        true
    } else if second > first {
        false
    } else {
        coin
    }
}

/// Whether an edge is given the value that ratings of both ways call for:
/// `first` is that with the notch on the cell whose piece is `a`, and
/// `second` the other.
pub open spec fn chosen_by_rating<P: Fn(i64, &Profile, &Profile) -> u64>(
    rate: P,
    a: Seq<i32>,
    target_a: int,
    b: Seq<i32>,
    target_b: int,
    dir: int,
    id: i32,
    first: u64,
    second: u64,
    value: i32,
) -> bool {
    let opp = opposite(dir);
    let negative = (-id) as i32;
    &&& rated(rate, 0, a.update(dir, negative), target_a, b.update(opp, id), target_b, first)
    &&& rated(rate, 0, a.update(dir, id), target_a, b.update(opp, negative), target_b, second)
    &&& value == id || value == negative
    &&& first > second ==> value == negative
    &&& second > first ==> value == id
}

/// Whether the coin that generator `before` tosses settles the value of an
/// edge of which both ways have the same rating, and the generator is `after`
/// then. No coin is tossed if the ratings differ.
pub open spec fn coin_settles(before: StdRng, after: StdRng, first: u64, second: u64, id: i32, value: i32) -> bool {
    if first == second {
        exists|coin: bool| #[trigger] gave_coin(before, after, coin) && value == (if coin {
            -id
        } else {
            id as int
        })
    } else {
        after == before
    }
}

/// The value of an edge: the way with the higher rating, or by chance if both
/// have the same.
pub fn orient_edge<P: Fn(i64, &Profile, &Profile) -> u64>(
    a: &[i32; 6],
    target_a: usize,
    b: &[i32; 6],
    target_b: usize,
    dir: usize,
    id: i32,
    rate: &P,
    rng: &mut StdRng,
) -> (value: i32)
    requires
        forall|n: i64, pa: &Profile, pb: &Profile| #[trigger] rate.requires((n, pa, pb)),
        target_a <= 6,
        target_b <= 6,
        dir < 6,
        id > i32::MIN,
        forall|d: int| 0 <= d < 6 ==> (#[trigger] a@[d]) > i32::MIN,
        forall|d: int| 0 <= d < 6 ==> (#[trigger] b@[d]) > i32::MIN,
    ensures
        exists|first: u64, second: u64| #[trigger]
            chosen_by_rating(
                *rate,
                a@,
                target_a as int,
                b@,
                target_b as int,
                dir as int,
                id,
                first,
                second,
                value,
            ) && coin_settles(*old(rng), *final(rng), first, second, id, value),
{
    let opp: usize = opposite_dir(dir);
    let mut row_a: [i32; 6] = *a;
    let mut row_b: [i32; 6] = *b;
    row_a[dir] = -id;
    row_b[opp] = id;
    let first: u64 = rate_pair(&row_a, target_a, &row_b, target_b, 0, rate);
    assert(row_a@ =~= a@.update(dir as int, (-id) as i32));
    assert(row_b@ =~= b@.update(opp as int, id));
    row_a[dir] = id;
    row_b[opp] = -id;
    let second: u64 = rate_pair(&row_a, target_a, &row_b, target_b, 0, rate);
    assert(row_a@ =~= a@.update(dir as int, id));
    assert(row_b@ =~= b@.update(opp as int, (-id) as i32));
    let mut coin: bool = false;
    if first == second {
        coin = next_coin(rng);
        assert(gave_coin(*old(rng), *rng, coin));
    }
    let value: i32 = if notch_on_first(first, second, coin) { -id } else { id };
    assert(chosen_by_rating(
        *rate,
        a@,
        target_a as int,
        b@,
        target_b as int,
        dir as int,
        id,
        first,
        second,
        value,
    ));
    value
}

/// Whether `after` is `before` with an edge given the value that the ratings
/// of both ways call for.
pub open spec fn orient_step<P: Fn(i64, &Profile, &Profile) -> u64>(
    rate: P,
    ids: Seq<[i32; 6]>,
    targets: Seq<usize>,
    before: Seq<[i32; 6]>,
    edge: Edge,
    after: Seq<[i32; 6]>,
) -> bool {
    let (a, b, dir) = edge;
    &&& after.len() == before.len()
    &&& forall|c: int, d: int|
        0 <= c < before.len() && 0 <= d < 6 && !(c == a && d == dir) && !(c == b && d == opposite(dir as int))
            ==> (#[trigger] after[c]@[d]) == before[c]@[d]
    &&& shows(after, edge, after[a as int]@[dir as int] as int)
    &&& exists|first: u64, second: u64| #[trigger]
        chosen_by_rating(
            rate,
            before[a as int]@,
            targets[a as int] as int,
            before[b as int]@,
            targets[b as int] as int,
            dir as int,
            ids[a as int]@[dir as int],
            first,
            second,
            after[a as int]@[dir as int],
        )
}

/// Whether `order` holds every inner edge once, and `tables` are the edge
/// values before and after each of them was set in turn, beginning with none.
pub open spec fn oriented_in_turn<P: Fn(i64, &Profile, &Profile) -> u64>(
    rate: P,
    links: Seq<[Option<usize>; 6]>,
    ids: Seq<[i32; 6]>,
    targets: Seq<usize>,
    order: Seq<Edge>,
    tables: Seq<Seq<[i32; 6]>>,
) -> bool {
    &&& order.no_duplicates()
    &&& forall|e: Edge| #[trigger] order.contains(e) <==> joins(links, e) && is_forward(e)
    &&& tables.len() == order.len() + 1
    &&& tables[0].len() == links.len()
    &&& forall|c: int, d: int| 0 <= c < links.len() && 0 <= d < 6 ==> (#[trigger] tables[0][c]@[d]) == 0
    &&& forall|k: int|
        0 <= k < order.len() ==> orient_step(rate, ids, targets, tables[k], #[trigger] order[k], tables[k + 1])
}

/// Whether `rows` comes of setting the inner edges in some order, each by the
/// ratings of both ways.
pub open spec fn oriented_by_rating<P: Fn(i64, &Profile, &Profile) -> u64>(
    rate: P,
    links: Seq<[Option<usize>; 6]>,
    ids: Seq<[i32; 6]>,
    targets: Seq<usize>,
    rows: Seq<[i32; 6]>,
) -> bool {
    exists|order: Seq<Edge>, tables: Seq<Seq<[i32; 6]>>| #[trigger]
        oriented_in_turn(rate, links, ids, targets, order, tables) && rows == tables.last()
}

/// Whether an edge is set by the ratings of both ways, and a coin of generator
/// `before` if it takes one, and the generator is `after` then.
pub open spec fn edge_settled<P: Fn(i64, &Profile, &Profile) -> u64>(
    before: StdRng,
    after: StdRng,
    rate: P,
    ids: Seq<[i32; 6]>,
    targets: Seq<usize>,
    edge: Edge,
    from: Seq<[i32; 6]>,
    to: Seq<[i32; 6]>,
) -> bool {
    let (a, b, dir) = edge;
    exists|first: u64, second: u64| #[trigger]
        chosen_by_rating(
            rate,
            from[a as int]@,
            targets[a as int] as int,
            from[b as int]@,
            targets[b as int] as int,
            dir as int,
            ids[a as int]@[dir as int],
            first,
            second,
            to[a as int]@[dir as int],
        ) && coin_settles(before, after, first, second, ids[a as int]@[dir as int], to[a as int]@[dir as int])
}

/// The same for the first `k` edges in turn.
pub open spec fn edges_settled<P: Fn(i64, &Profile, &Profile) -> u64>(
    before: StdRng,
    after: StdRng,
    rate: P,
    ids: Seq<[i32; 6]>,
    targets: Seq<usize>,
    order: Seq<Edge>,
    tables: Seq<Seq<[i32; 6]>>,
    k: int,
) -> bool
    decreases k,
{
    if k <= 0 {
        before == after
    } else {
        exists|mid: StdRng, edge: Edge, from: Seq<[i32; 6]>, to: Seq<[i32; 6]>| #[trigger]
            edge_settled(mid, after, rate, ids, targets, edge, from, to) && edge == order[k - 1] && from == tables[k
                - 1] && to == tables[k] && edges_settled(before, mid, rate, ids, targets, order, tables, k - 1)
    }
}

proof fn lemma_settled_prefix<P: Fn(i64, &Profile, &Profile) -> u64>(
    before: StdRng,
    after: StdRng,
    rate: P,
    ids: Seq<[i32; 6]>,
    targets: Seq<usize>,
    order: Seq<Edge>,
    tables: Seq<Seq<[i32; 6]>>,
    more: Seq<Seq<[i32; 6]>>,
    k: int,
)
    requires
        k < tables.len() <= more.len(),
        forall|i: int| 0 <= i < tables.len() ==> tables[i] == #[trigger] more[i],
        edges_settled(before, after, rate, ids, targets, order, tables, k),
    ensures
        edges_settled(before, after, rate, ids, targets, order, more, k),
    decreases k,
{
    if k > 0 {
        let (mid, edge, from, to) = choose|mid: StdRng, edge: Edge, from: Seq<[i32; 6]>, to: Seq<[i32; 6]>| #[trigger]
            edge_settled(mid, after, rate, ids, targets, edge, from, to) && edge == order[k - 1] && from == tables[k
                - 1] && to == tables[k] && edges_settled(before, mid, rate, ids, targets, order, tables, k - 1);
        lemma_settled_prefix(before, mid, rate, ids, targets, order, tables, more, k - 1);
        assert(tables[k - 1] == more[k - 1] && tables[k] == more[k]);
        assert(edge_settled(mid, after, rate, ids, targets, edge, from, to));
    }
}

/// Whether `rows` comes of setting the inner edges in the order into which
/// generator `before` brings them, each by the ratings of both ways and the
/// coins of the generator, and the generator is `after` then.
pub open spec fn orientation_drawn<P: Fn(i64, &Profile, &Profile) -> u64>(
    before: StdRng,
    after: StdRng,
    rate: P,
    links: Seq<[Option<usize>; 6]>,
    ids: Seq<[i32; 6]>,
    targets: Seq<usize>,
    rows: Seq<[i32; 6]>,
) -> bool {
    exists|mid: StdRng, listed: Seq<Edge>, order: Seq<Edge>, tables: Seq<Seq<[i32; 6]>>|
        #![trigger gave_order(before, mid, listed, order), oriented_in_turn(rate, links, ids, targets, order, tables)]
        gave_order(before, mid, listed, order) && lists_edges(links, listed) && oriented_in_turn(
            rate,
            links,
            ids,
            targets,
            order,
            tables,
        ) && rows == tables.last() && edges_settled(
            mid,
            after,
            rate,
            ids,
            targets,
            order,
            tables,
            order.len() as int,
        )
}

/// Chooses which side of each inner edge is raised inward, an edge at a time
/// in random order.
pub fn orient_edges<P: Fn(i64, &Profile, &Profile) -> u64>(
    links: &Links,
    ids: &Vec<[i32; 6]>,
    targets: &Vec<usize>,
    rate: &P,
    rng: &mut StdRng,
) -> (rows: Vec<[i32; 6]>)
    requires
        forall|n: i64, pa: &Profile, pb: &Profile| #[trigger] rate.requires((n, pa, pb)),
        links_in_range(links@),
        links_mutual(links@),
        ids.len() == links.len(),
        targets.len() == links.len(),
        forall|c: int| 0 <= c < targets.len() ==> #[trigger] targets@[c] <= 3,
        forall|c: int, d: int| 0 <= c < ids.len() && 0 <= d < 6 ==> (#[trigger] ids@[c]@[d]) > i32::MIN,
    ensures
        oriented(links@, ids@, rows@),
        oriented_by_rating(*rate, links@, ids@, targets@, rows@),
        orientation_drawn(*old(rng), *final(rng), *rate, links@, ids@, targets@, rows@),
        forall|c: int, d: int| 0 <= c < rows.len() && 0 <= d < 6 ==> (#[trigger] rows@[c]@[d]) > i32::MIN,
{
    let edges: Vec<Edge> = enumerate_edges(links);
    let ghost listed = edges@;
    let edges: Vec<Edge> = reordered(edges, rng);
    let ghost mid = *rng;
    proof {
        assert(links@.len() == links.len());
        lemma_shuffled(listed, edges@);
        lemma_listed_distinct(links@, listed);
        assert forall|k: int| 0 <= k < edges.len() implies joins(links@, #[trigger] edges@[k]) && is_forward(edges@[k]) by {
            assert(edges@.contains(edges@[k]));
            let m = choose|m: int| 0 <= m < listed.len() && listed[m] == edges@[k];
            assert(joins(links@, listed[m]) && is_forward(listed[m]));
        }
    }
    let mut rows: Vec<[i32; 6]> = blank_rows(links.len());
    let ghost mut tables: Seq<Seq<[i32; 6]>> = seq![rows@];
    for k in 0..edges.len()
        invariant
            tables.len() == k + 1,
            edges_settled(mid, *rng, *rate, ids@, targets@, edges@, tables, k as int),
            tables[k as int] == rows@,
            tables[0].len() == links.len(),
            forall|c: int, d: int| 0 <= c < links.len() && 0 <= d < 6 ==> (#[trigger] tables[0][c]@[d]) == 0,
            forall|j: int|
                0 <= j < k ==> orient_step(*rate, ids@, targets@, tables[j], #[trigger] edges@[j], tables[j + 1]),
            forall|n: i64, pa: &Profile, pb: &Profile| #[trigger] rate.requires((n, pa, pb)),
            links@.len() <= usize::MAX,
            links_in_range(links@),
            links_mutual(links@),
            ids.len() == links.len(),
            rows.len() == links.len(),
            targets.len() == links.len(),
            forall|c: int| 0 <= c < targets.len() ==> #[trigger] targets@[c] <= 3,
            forall|c: int, d: int| 0 <= c < ids.len() && 0 <= d < 6 ==> (#[trigger] ids@[c]@[d]) > i32::MIN,
            forall|c: int, d: int| 0 <= c < rows.len() && 0 <= d < 6 ==> (#[trigger] rows@[c]@[d]) > i32::MIN,
            edges@.no_duplicates(),
            forall|j: int| 0 <= j < edges.len() ==> joins(links@, #[trigger] edges@[j]) && is_forward(edges@[j]),
            forall|j: int| 0 <= j < k ==> is_oriented(ids@, rows@, #[trigger] edges@[j]),
            rim_zero(links@, rows@),
    {
        let edge: Edge = edges[k];
        let (a, b, dir) = edge;
        proof {
            assert(joins(links@, edges@[k as int]));
            lemma_edge_back(links@, edge);
            assert(ids@[a as int]@[dir as int] > i32::MIN);
        }
        let ghost before = rows@;
        let id: i32 = ids[a][dir];
        assert(targets@[a as int] <= 3 && targets@[b as int] <= 3);
        let ghost source = *rng;
        let value: i32 = orient_edge(&rows[a], targets[a], &rows[b], targets[b], dir, id, rate, rng);
        set_edge(&mut rows, a, b, dir, value);
        proof {
            assert(shows(rows@, edge, id as int) || shows(rows@, edge, -id));
            let past = tables;
            tables = tables.push(rows@);
            assert(orient_step(*rate, ids@, targets@, before, edge, rows@));
            assert(edge_settled(source, *rng, *rate, ids@, targets@, edge, before, rows@));
            lemma_settled_prefix(mid, source, *rate, ids@, targets@, edges@, past, tables, k as int);
            assert forall|j: int| 0 <= j < k + 1 implies orient_step(
                *rate,
                ids@,
                targets@,
                tables[j],
                #[trigger] edges@[j],
                tables[j + 1],
            ) by {
                if j < k {
                    assert(tables[j] == past[j] && tables[j + 1] == past[j + 1]);
                }
            }
            lemma_rim_kept(links@, before, rows@, edge);
            assert forall|j: int| 0 <= j < k + 1 implies is_oriented(ids@, rows@, #[trigger] edges@[j]) by {
                if j < k {
                    assert(is_oriented(ids@, before, edges@[j]));
                    assert(edges@[j] != edges@[k as int]);
                    assert(joins(links@, edges@[j]) && is_forward(edges@[j]));
                    lemma_other_edge(links@, before, rows@, edge, edges@[j]);
                }
            }
            assert forall|c: int, d: int| 0 <= c < rows.len() && 0 <= d < 6 implies (#[trigger] rows@[c]@[d]) > i32::MIN by {
                if !(c == a && d == dir) && !(c == b && d == opposite(dir as int)) {
                    assert(rows@[c]@[d] == before[c]@[d]);
                }
            }
        }
    }
    assert forall|e: Edge| #[trigger] joins(links@, e) && is_forward(e) implies is_oriented(ids@, rows@, e) by {
        assert(listed.contains(e));
        assert(edges@.contains(e));
        let j = choose|j: int| 0 <= j < edges@.len() && edges@[j] == e;
        assert(is_oriented(ids@, rows@, edges@[j]));
    }
    proof {
        assert forall|e: Edge| #[trigger] edges@.contains(e) <==> joins(links@, e) && is_forward(e) by {
            if joins(links@, e) && is_forward(e) {
                assert(listed.contains(e));
            }
        }
        assert(oriented_in_turn(*rate, links@, ids@, targets@, edges@, tables));
        assert(gave_order(*old(rng), mid, listed, edges@));
    }
    rows
}

proof fn lemma_listed_distinct(links: Seq<[Option<usize>; 6]>, edges: Seq<Edge>)
    requires
        lists_edges(links, edges),
    ensures
        edges.no_duplicates(),
{
    assert forall|i: int, j: int| 0 <= i < edges.len() && 0 <= j < edges.len() && i != j implies edges[i] != edges[j] by {
        lemma_listed_apart(links, edges, i, j);
    }
}

} // verus!
