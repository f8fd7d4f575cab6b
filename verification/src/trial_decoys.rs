//! The false pieces of a trial puzzle: clusters that fit together among
//! themselves, with edges turned outward that mislead.

use crate::clusters::{build_cluster_positions, cluster_drawn, is_cluster, near_origin};
use crate::edges::{enumerate_edges, is_forward, joins, lemma_edge_back, lists_edges, Edge};
use crate::grid::{
    build_neighbors, lemma_links_mutual, link_of, links_cells, links_in_range, links_mutual, magnitude, opposite,
    opposite_dir, steps_to, Axial, Links,
};
use crate::id_plan::holds_id;
use crate::rng::{
    gave_coin, gave_i32, gave_index, gave_item, gave_word, next_coin, next_i32, next_index, next_item, next_word,
};
use crate::trial::{Piece, PieceKind};
use crate::trial_pieces::{blank_rows, lemma_show_edge, roll_drawn, roll_of, shows_edge, shows_edges, ROLLS};
use rand::rngs::StdRng;
use vstd::prelude::*;

verus! {

/// The greatest size of a cluster whose size is drawn.
pub const MAX_DRAWN_CLUSTER: usize = 5;

/// The sum of the first `n` sizes.
pub open spec fn size_sum(sizes: Seq<usize>, n: int) -> int
    decreases n,
{
    if n <= 0 {
        0
    } else {
        size_sum(sizes, n - 1) + sizes[n - 1]
    }
}

pub(crate) proof fn lemma_size_sum_grows(sizes: Seq<usize>, m: int, n: int)
    requires
        0 <= m <= n,
    ensures
        size_sum(sizes, m) <= size_sum(sizes, n),
        0 <= size_sum(sizes, m),
    decreases n,
{
    if m < n {
        lemma_size_sum_grows(sizes, m, n - 1);
    } else if m > 0 {
        lemma_size_sum_grows(sizes, m - 1, m - 1);
    }
}

proof fn lemma_size_sum_prefix(sizes: Seq<usize>, more: Seq<usize>, n: int)
    requires
        n <= sizes.len() <= more.len(),
        forall|i: int| 0 <= i < sizes.len() ==> sizes[i] == #[trigger] more[i],
    ensures
        size_sum(sizes, n) == size_sum(more, n),
    decreases n,
{
    if n > 0 {
        lemma_size_sum_prefix(sizes, more, n - 1);
        assert(sizes[n - 1] == more[n - 1]);
    }
}

/// Whether `size` is what generator `before` gives when `left` pieces are left
/// to put into clusters, and the generator is `after` then.
pub open spec fn size_drawn(before: StdRng, after: StdRng, left: int, size: usize) -> bool {
    gave_index(
        before,
        after,
        1,
        (if left < 5 {
            left + 1
        } else {
            6
        }) as usize,
        size,
    )
}

/// Whether the sizes are what generator `before` gives in turn for `count`
/// pieces, and the generator is `after` then.
pub open spec fn sizes_drawn(before: StdRng, after: StdRng, count: int, sizes: Seq<usize>) -> bool
    decreases sizes.len(),
{
    if sizes.len() == 0 {
        before == after
    } else {
        let past = sizes.drop_last();
        exists|mid: StdRng, left: int| #[trigger]
            size_drawn(mid, after, left, sizes.last()) && left == count - size_sum(past, past.len() as int)
                && sizes_drawn(before, mid, count, past)
    }
}

/// Random cluster sizes that add up to `false_count`.
pub fn draw_cluster_sizes(false_count: usize, rng: &mut StdRng) -> (sizes: Vec<usize>)
    ensures
        forall|i: int| 0 <= i < sizes.len() ==> 1 <= #[trigger] sizes@[i] <= MAX_DRAWN_CLUSTER,
        size_sum(sizes@, sizes.len() as int) == false_count,
        sizes_drawn(*old(rng), *final(rng), false_count as int, sizes@),
{
    let mut remaining: usize = false_count;
    let mut sizes: Vec<usize> = Vec::new();
    while remaining > 0
        invariant
            remaining <= false_count,
            forall|i: int| 0 <= i < sizes.len() ==> 1 <= #[trigger] sizes@[i] <= MAX_DRAWN_CLUSTER,
            size_sum(sizes@, sizes.len() as int) == false_count - remaining,
            sizes_drawn(*old(rng), *rng, false_count as int, sizes@),
        decreases remaining,
    {
        let max: usize = if remaining < MAX_DRAWN_CLUSTER { remaining } else { MAX_DRAWN_CLUSTER };
        let ghost mid = *rng;
        let size: usize = next_index(rng, 1, max + 1);
        let ghost before = sizes@;
        sizes.push(size);
        proof {
            assert(sizes@.drop_last() =~= before);
            assert(size_drawn(mid, *rng, remaining as int, sizes@.last()));
            lemma_size_sum_prefix(before, sizes@, before.len() as int);
        }
        remaining = remaining - size;
    }
    sizes
}

/// The different ids on the first `n` edges, six to a piece, in the order in
/// which they first occur.
pub open spec fn ids_seen(pieces: Seq<Piece>, n: int) -> Seq<i32>
    decreases n,
{
    if n <= 0 {
        Seq::empty()
    } else {
        let seen = ids_seen(pieces, n - 1);
        let value = pieces[(n - 1) / 6].edges@[(n - 1) % 6];
        let id = magnitude(value) as i32;
        if value == 0 || seen.contains(id) {
            seen
        } else {
            seen.push(id)
        }
    }
}

/// The ids that false pieces attach with: those on the pieces, or 1 if there
/// are none.
pub open spec fn attach_ids(pieces: Seq<Piece>) -> Seq<i32> {
    let seen = ids_seen(pieces, 6 * pieces.len() as int);
    if seen.len() == 0 {
        seq![1i32]
    } else {
        seen
    }
}

/// The ids that false pieces attach with.
pub fn collect_ids(pieces: &Vec<Piece>) -> (ids: Vec<i32>)
    requires
        forall|i: int, dir: int|
            0 <= i < pieces.len() && 0 <= dir < 6 ==> (#[trigger] pieces@[i].edges@[dir]) > i32::MIN,
    ensures
        ids@ == attach_ids(pieces@),
        ids.len() > 0,
        forall|i: int| 0 <= i < ids.len() ==> #[trigger] ids@[i] > 0,
{
    let mut ids: Vec<i32> = Vec::new();
    for i in 0..pieces.len()
        invariant
            forall|p: int, dir: int|
                0 <= p < pieces.len() && 0 <= dir < 6 ==> (#[trigger] pieces@[p].edges@[dir]) > i32::MIN,
            ids@ == ids_seen(pieces@, 6 * i as int),
            forall|k: int| 0 <= k < ids.len() ==> #[trigger] ids@[k] > 0,
    {
        for dir in 0..6usize
            invariant
                i < pieces.len(),
                forall|p: int, d: int|
                    0 <= p < pieces.len() && 0 <= d < 6 ==> (#[trigger] pieces@[p].edges@[d]) > i32::MIN,
                ids@ == ids_seen(pieces@, 6 * i + dir),
                forall|k: int| 0 <= k < ids.len() ==> #[trigger] ids@[k] > 0,
        {
            let edge: i32 = pieces[i].edges[dir];
            assert(pieces@[i as int].edges@[dir as int] > i32::MIN);
            assert((6 * i + dir) / 6 == i && (6 * i + dir) % 6 == dir);
            if edge != 0 {
                let id: i32 = if edge < 0 { -edge } else { edge };
                if !holds_id(&ids, id) {
                    ids.push(id);
                }
            }
        }
    }
    if ids.len() == 0 {
        ids.push(1);
    }
    ids
}

/// The least id of false pieces: above the true alphabet if the whole
/// alphabet is larger.
pub open spec fn least_false_id(true_alphabet: int, total_alphabet: int) -> int {
    if total_alphabet > true_alphabet {
        true_alphabet + 1
    } else {
        1
    }
}

/// The greatest id of false pieces.
pub open spec fn greatest_false_id(true_alphabet: int, total_alphabet: int) -> int {
    if total_alphabet > true_alphabet {
        total_alphabet
    } else if true_alphabet > 1 {
        true_alphabet
    } else {
        1
    }
}

/// Whether `id` is an id of false pieces.
pub open spec fn is_false_id(id: int, true_alphabet: int, total_alphabet: int) -> bool {
    least_false_id(true_alphabet, total_alphabet) <= id <= greatest_false_id(true_alphabet, total_alphabet)
}

/// Whether `id` is the id of false pieces that generator `before` gives, and
/// the generator is `after` then.
pub open spec fn false_id_drawn(before: StdRng, after: StdRng, true_alphabet: int, total_alphabet: int, id: i32) -> bool {
    if total_alphabet > true_alphabet {
        gave_i32(before, after, (true_alphabet + 1) as i32, total_alphabet as i32, id)
    } else if true_alphabet > 1 {
        gave_i32(before, after, 1, true_alphabet as i32, id)
    } else {
        gave_i32(before, after, 1, 1, id)
    }
}

pub fn random_false_id(rng: &mut StdRng, true_alphabet: i32, total_alphabet: i32) -> (id: i32)
    ensures
        is_false_id(id as int, true_alphabet as int, total_alphabet as int),
        false_id_drawn(*old(rng), *final(rng), true_alphabet as int, total_alphabet as int, id),
{
    if total_alphabet > true_alphabet {
        next_i32(rng, true_alphabet + 1, total_alphabet)
    } else {
        next_i32(rng, 1, if true_alphabet > 1 { true_alphabet } else { 1 })
    }
}

/// What false pieces are made of: the alphabets, the ids to attach with, and
/// the rolls under which an outer edge is flat, and flat or attaching.
pub struct DecoyPlan {
    pub true_alphabet: int,
    pub total_alphabet: int,
    pub attach: Seq<i32>,
    pub flat_cut: u64,
    pub attach_cut: u64,
}

/// Whether an outer edge can have `value` when the roll was `roll`.
pub open spec fn outer_value(plan: DecoyPlan, roll: u64, value: i32) -> bool {
    if roll < plan.flat_cut {
        value == 0
    } else if roll < plan.attach_cut {
        plan.attach.contains(value) || plan.attach.contains((-value) as i32)
    } else {
        is_false_id(magnitude(value), plan.true_alphabet, plan.total_alphabet)
    }
}

/// Whether a false piece can show `value` at all: nothing, an id to attach
/// with, or a false id, with either sign.
pub open spec fn value_possible(plan: DecoyPlan, value: i32) -> bool {
    &&& value > i32::MIN
    &&& value == 0 || plan.attach.contains(magnitude(value) as i32) || is_false_id(
        magnitude(value),
        plan.true_alphabet,
        plan.total_alphabet,
    )
}

/// Whether an outer edge can have `value`.
pub open spec fn outer_possible(plan: DecoyPlan, value: i32) -> bool {
    exists|roll: u64| roll < ROLLS && #[trigger] outer_value(plan, roll, value)
}

/// Whether the inner edges of a cluster cancel, with false ids.
pub open spec fn inner_cancel(links: Seq<[Option<usize>; 6]>, rows: Seq<[i32; 6]>, plan: DecoyPlan) -> bool {
    forall|c: int, dir: int|
        0 <= c < links.len() && 0 <= dir < 6 ==> match #[trigger] links[c]@[dir] {
            Some(nb) => c < nb ==> is_false_id(rows[c]@[dir] as int, plan.true_alphabet, plan.total_alphabet)
                && rows[nb as int]@[opposite(dir)] == -rows[c]@[dir],
            None => true,
        }
}

/// Whether `rows` are edge values of a false cluster with these cells.
pub open spec fn is_decoy_cluster(cells: Seq<Axial>, rows: Seq<[i32; 6]>, plan: DecoyPlan) -> bool {
    exists|links: Seq<[Option<usize>; 6]>| #[trigger]
        links_cells(cells, links) && decoy_rows(links, rows, plan)
}

pub open spec fn decoy_rows(links: Seq<[Option<usize>; 6]>, rows: Seq<[i32; 6]>, plan: DecoyPlan) -> bool {
    &&& rows.len() == links.len()
    &&& inner_cancel(links, rows, plan)
    &&& forall|c: int, dir: int|
        0 <= c < links.len() && 0 <= dir < 6 && links[c]@[dir] is None ==> outer_possible(
            plan,
            #[trigger] rows[c]@[dir],
        )
}

/// Whether an outer edge value is made of what generator `before` gives, and
/// the generator is `after` then: a roll, and unless it is flat an id to
/// attach with or a false id, and its sign.
pub open spec fn outer_drawn(before: StdRng, after: StdRng, plan: DecoyPlan, value: i32) -> bool {
    exists|mid: StdRng, roll: u64| #[trigger]
        roll_drawn(before, mid, roll) && if roll < plan.flat_cut {
            value == 0 && after == mid
        } else {
            exists|last: StdRng, id: i32, heads: bool|
                #![trigger outer_id_drawn(mid, last, plan, roll, id), gave_coin(last, after, heads)]
                outer_id_drawn(mid, last, plan, roll, id) && gave_coin(last, after, heads) && value == (if heads {
                    id as int
                } else {
                    -id
                })
        }
}

/// The same for the id of an outer edge that is not flat.
pub open spec fn outer_id_drawn(before: StdRng, after: StdRng, plan: DecoyPlan, roll: u64, id: i32) -> bool {
    if roll < plan.attach_cut {
        gave_item(before, after, plan.attach, Some(id)) && plan.attach.contains(id)
    } else {
        false_id_drawn(before, after, plan.true_alphabet, plan.total_alphabet, id) && is_false_id(
            id as int,
            plan.true_alphabet,
            plan.total_alphabet,
        )
    }
}

/// Whether the ids are the false ids that generator `before` gives in turn,
/// and the generator is `after` then.
pub open spec fn false_ids_drawn(before: StdRng, after: StdRng, plan: DecoyPlan, ids: Seq<i32>) -> bool
    decreases ids.len(),
{
    if ids.len() == 0 {
        before == after
    } else {
        exists|mid: StdRng| #[trigger]
            false_id_drawn(mid, after, plan.true_alphabet, plan.total_alphabet, ids.last()) && false_ids_drawn(
                before,
                mid,
                plan,
                ids.drop_last(),
            )
    }
}

/// Whether the values of the outer edges among the first `n` edges, six to a
/// cell, are made of what generator `before` gives in turn, and the generator
/// is `after` then.
pub open spec fn outers_drawn(
    before: StdRng,
    after: StdRng,
    plan: DecoyPlan,
    links: Seq<[Option<usize>; 6]>,
    rows: Seq<[i32; 6]>,
    n: int,
) -> bool
    decreases n,
{
    if n <= 0 {
        before == after
    } else if links[(n - 1) / 6]@[(n - 1) % 6] is Some {
        outers_drawn(before, after, plan, links, rows, n - 1)
    } else {
        exists|mid: StdRng, value: i32| #[trigger]
            outer_drawn(mid, after, plan, value) && value == rows[(n - 1) / 6]@[(n - 1) % 6] && outers_drawn(
                before,
                mid,
                plan,
                links,
                rows,
                n - 1,
            )
    }
}

proof fn lemma_outers_kept(
    before: StdRng,
    after: StdRng,
    plan: DecoyPlan,
    links: Seq<[Option<usize>; 6]>,
    rows: Seq<[i32; 6]>,
    other: Seq<[i32; 6]>,
    n: int,
)
    requires
        outers_drawn(before, after, plan, links, rows, n),
        n <= 6 * links.len(),
        rows.len() == links.len(),
        other.len() == links.len(),
        forall|c: int, d: int| 0 <= c < rows.len() && 0 <= d < 6 && 6 * c + d < n ==> (#[trigger] other[c]@[d]) == rows[c]@[d],
    ensures
        outers_drawn(before, after, plan, links, other, n),
    decreases n,
{
    if n > 0 {
        let c = (n - 1) / 6;
        let d = (n - 1) % 6;
        if links[c]@[d] is Some {
            lemma_outers_kept(before, after, plan, links, rows, other, n - 1);
        } else {
            let (mid, value) = choose|mid: StdRng, value: i32| #[trigger]
                outer_drawn(mid, after, plan, value) && value == rows[c]@[d] && outers_drawn(
                    before,
                    mid,
                    plan,
                    links,
                    rows,
                    n - 1,
                );
            lemma_outers_kept(before, mid, plan, links, rows, other, n - 1);
            assert(6 * c + d == n - 1);
            assert(other[c]@[d] == rows[c]@[d]);
            assert(outer_drawn(mid, after, plan, value));
        }
    }
}

/// Whether the edge values of a false cluster are made of what generator
/// `before` gives, and the generator is `after` then: first an id for every
/// inner edge, then the outer edges.
pub open spec fn rows_drawn(
    before: StdRng,
    after: StdRng,
    plan: DecoyPlan,
    cells: Seq<Axial>,
    rows: Seq<[i32; 6]>,
) -> bool {
    exists|mid: StdRng, links: Seq<[Option<usize>; 6]>, edges: Seq<Edge>, ids: Seq<i32>|
        #![trigger false_ids_drawn(before, mid, plan, ids), links_cells(cells, links), lists_edges(links, edges)]
        false_ids_drawn(before, mid, plan, ids) && links_cells(cells, links) && lists_edges(links, edges)
            && rows.len() == links.len() && shows_ids(rows, edges, ids) && outers_drawn(
            mid,
            after,
            plan,
            links,
            rows,
            6 * links.len() as int,
        )
}

/// Whether each edge shows its id.
pub open spec fn shows_ids(rows: Seq<[i32; 6]>, edges: Seq<Edge>, ids: Seq<i32>) -> bool {
    &&& ids.len() == edges.len()
    &&& forall|k: int| 0 <= k < edges.len() ==> shows_edge(rows, #[trigger] edges[k], ids[k])
}

/// An outer edge value for a roll, with the choice of id and sign drawn.
fn outer_edge(
    rng: &mut StdRng,
    true_alphabet: i32,
    total_alphabet: i32,
    true_ids: &Vec<i32>,
    flat_cut: u64,
    attach_cut: u64,
) -> (value: i32)
    requires
        0 <= true_alphabet,
        true_ids.len() > 0,
        forall|i: int| 0 <= i < true_ids.len() ==> #[trigger] true_ids@[i] > 0,
    ensures
        outer_possible(
            DecoyPlan {
                true_alphabet: true_alphabet as int,
                total_alphabet: total_alphabet as int,
                attach: true_ids@,
                flat_cut,
                attach_cut,
            },
            value,
        ),
        value_possible(
            DecoyPlan {
                true_alphabet: true_alphabet as int,
                total_alphabet: total_alphabet as int,
                attach: true_ids@,
                flat_cut,
                attach_cut,
            },
            value,
        ),
        outer_drawn(
            *old(rng),
            *final(rng),
            DecoyPlan {
                true_alphabet: true_alphabet as int,
                total_alphabet: total_alphabet as int,
                attach: true_ids@,
                flat_cut,
                attach_cut,
            },
            value,
        ),
{
    let ghost plan = DecoyPlan {
        true_alphabet: true_alphabet as int,
        total_alphabet: total_alphabet as int,
        attach: true_ids@,
        flat_cut,
        attach_cut,
    };
    let word: u64 = next_word(rng);
    let roll: u64 = roll_of(word);
    let ghost mid = *rng;
    assert(roll_drawn(*old(rng), mid, roll)) by {
        assert(gave_word(*old(rng), mid, word));
    }
    let mut id: i32 = 0;
    if roll >= flat_cut {
        if roll < attach_cut {
            id = match next_item(true_ids.as_slice(), rng) {
                Some(chosen) => chosen,
                None => 1,
            };
            assert(exists|i: int| 0 <= i < true_ids.len() && #[trigger] true_ids@[i] == id);
        } else {
            id = random_false_id(rng, true_alphabet, total_alphabet);
        }
        assert(id > 0);
        let ghost last = *rng;
        let ghost drawn = id;
        assert(outer_id_drawn(mid, last, plan, roll, id));
        let heads: bool = next_coin(rng);
        if !heads {
            id = -id;
        }
        assert(outer_id_drawn(mid, last, plan, roll, drawn) && gave_coin(last, *rng, heads));
    }
    assert(outer_value(plan, roll, id));
    id
}

/// Edge values for a cluster of false pieces.
fn draw_decoy_rows(
    cells: &Vec<Axial>,
    rng: &mut StdRng,
    true_alphabet: i32,
    total_alphabet: i32,
    true_ids: &Vec<i32>,
    flat_cut: u64,
    attach_cut: u64,
) -> (rows: Vec<[i32; 6]>)
    requires
        is_cluster(cells@),
        near_origin(cells@),
        cells.len() < i32::MAX,
        true_ids.len() > 0,
        0 <= true_alphabet,
        forall|i: int| 0 <= i < true_ids.len() ==> #[trigger] true_ids@[i] > 0,
    ensures
        rows.len() == cells.len(),
        is_decoy_cluster(
            cells@,
            rows@,
            DecoyPlan {
                true_alphabet: true_alphabet as int,
                total_alphabet: total_alphabet as int,
                attach: true_ids@,
                flat_cut,
                attach_cut,
            },
        ),
        forall|c: int, dir: int|
            0 <= c < rows.len() && 0 <= dir < 6 ==> value_possible(
                DecoyPlan {
                    true_alphabet: true_alphabet as int,
                    total_alphabet: total_alphabet as int,
                    attach: true_ids@,
                    flat_cut,
                    attach_cut,
                },
                #[trigger] rows@[c]@[dir],
            ),
        rows_drawn(
            *old(rng),
            *final(rng),
            DecoyPlan {
                true_alphabet: true_alphabet as int,
                total_alphabet: total_alphabet as int,
                attach: true_ids@,
                flat_cut,
                attach_cut,
            },
            cells@,
            rows@,
        ),
{
    let ghost plan = DecoyPlan {
        true_alphabet: true_alphabet as int,
        total_alphabet: total_alphabet as int,
        attach: true_ids@,
        flat_cut,
        attach_cut,
    };
    let links: Links = build_neighbors(cells);
    proof {
        lemma_links_mutual(cells@, links@);
    }
    let edges: Vec<Edge> = enumerate_edges(&links);
    let mut rows: Vec<[i32; 6]> = blank_rows(links.len());
    assert(links@.len() == links.len());
    let ghost mut ids: Seq<i32> = Seq::empty();
    for k in 0..edges.len()
        invariant
            links_in_range(links@),
            links_mutual(links@),
            0 <= true_alphabet,
            links@.len() <= usize::MAX,
            plan.true_alphabet == true_alphabet,
            plan.total_alphabet == total_alphabet,
            lists_edges(links@, edges@),
            ids.len() == k,
            false_ids_drawn(*old(rng), *rng, plan, ids),
            forall|j: int|
                0 <= j < k ==> is_false_id(#[trigger] ids[j] as int, true_alphabet as int, total_alphabet as int),
            shows_edges(links@, edges@, ids, k as int, rows@),
            forall|c: int, dir: int|
                0 <= c < rows.len() && 0 <= dir < 6 ==> value_possible(plan, #[trigger] rows@[c]@[dir]),
    {
        let (a, b, dir) = edges[k];
        proof {
            assert(joins(links@, edges@[k as int]) && is_forward(edges@[k as int]));
            lemma_edge_back(links@, edges@[k as int]);
        }
        let ghost source = *rng;
        let id: i32 = random_false_id(rng, true_alphabet, total_alphabet);
        let ghost before = rows@;
        let ghost past = ids;
        proof {
            ids = ids.push(id);
            assert(ids.drop_last() =~= past);
            assert(false_id_drawn(source, *rng, plan.true_alphabet, plan.total_alphabet, ids.last()));
            assert forall|j: int| 0 <= j < k implies shows_edge(before, #[trigger] edges@[j], ids[j]) by {
                assert(shows_edge(before, edges@[j], past[j]));
            }
        }
        rows[a][dir] = id;
        let opp: usize = opposite_dir(dir);
        rows[b][opp] = -id;
        proof {
            lemma_show_edge(links@, edges@, ids, k as int, before, rows@);
        }
    }
    assert(inner_cancel(links@, rows@, plan)) by {
        assert forall|c: int, dir: int| 0 <= c < links@.len() && 0 <= dir < 6 implies match #[trigger] links@[c]@[dir] {
            Some(nb) => c < nb ==> is_false_id(rows@[c]@[dir] as int, plan.true_alphabet, plan.total_alphabet)
                && rows@[nb as int]@[opposite(dir)] == -rows@[c]@[dir],
            None => true,
        } by {
            if let Some(nb) = links@[c]@[dir] {
                if c < nb {
                    let e = (c as usize, nb, dir as usize);
                    assert(joins(links@, e) && is_forward(e));
                    let k = choose|k: int| 0 <= k < edges@.len() && edges@[k] == e;
                    assert(shows_edge(rows@, edges@[k], ids[k]));
                }
            }
        }
    }
    let ghost mid = *rng;
    assert(shows_ids(rows@, edges@, ids));
    for idx in 0..links.len()
        invariant
            links@.len() <= usize::MAX,
            lists_edges(links@, edges@),
            shows_ids(rows@, edges@, ids),
            outers_drawn(mid, *rng, plan, links@, rows@, 6 * idx as int),
            plan == (DecoyPlan {
                true_alphabet: true_alphabet as int,
                total_alphabet: total_alphabet as int,
                attach: true_ids@,
                flat_cut,
                attach_cut,
            }),
            0 <= true_alphabet,
            true_ids.len() > 0,
            forall|i: int| 0 <= i < true_ids.len() ==> #[trigger] true_ids@[i] > 0,
            rows.len() == links.len(),
            links_in_range(links@),
            links_mutual(links@),
            inner_cancel(links@, rows@, plan),
            forall|c: int, dir: int|
                0 <= c < rows.len() && 0 <= dir < 6 ==> value_possible(plan, #[trigger] rows@[c]@[dir]),
            forall|c: int, dir: int|
                0 <= c < idx && 0 <= dir < 6 && links@[c]@[dir] is None ==> outer_possible(
                    plan,
                    #[trigger] rows@[c]@[dir],
                ),
    {
        for dir in 0..6usize
            invariant
                links@.len() <= usize::MAX,
                lists_edges(links@, edges@),
                shows_ids(rows@, edges@, ids),
                outers_drawn(mid, *rng, plan, links@, rows@, 6 * idx + dir),
                plan == (DecoyPlan {
                    true_alphabet: true_alphabet as int,
                    total_alphabet: total_alphabet as int,
                    attach: true_ids@,
                    flat_cut,
                    attach_cut,
                }),
                0 <= true_alphabet,
                true_ids.len() > 0,
                forall|i: int| 0 <= i < true_ids.len() ==> #[trigger] true_ids@[i] > 0,
                idx < links.len(),
                rows.len() == links.len(),
                links_in_range(links@),
                links_mutual(links@),
                inner_cancel(links@, rows@, plan),
                forall|c: int, d: int|
                    0 <= c < rows.len() && 0 <= d < 6 ==> value_possible(plan, #[trigger] rows@[c]@[d]),
                forall|c: int, d: int|
                    0 <= c < links.len() && 0 <= d < 6 && 6 * c + d < 6 * idx + dir && links@[c]@[d] is None
                        ==> outer_possible(plan, #[trigger] rows@[c]@[d]),
        {
            assert((6 * idx + dir) / 6 == idx && (6 * idx + dir) % 6 == dir);
            let ghost source = *rng;
            if links[idx][dir].is_none() {
                let value: i32 = outer_edge(rng, true_alphabet, total_alphabet, true_ids, flat_cut, attach_cut);
                let ghost before = rows@;
                rows[idx][dir] = value;
                proof {
                    lemma_outer_keeps_inner(links@, before, rows@, plan, idx as int, dir as int);
                    lemma_outer_keeps_ids(links@, edges@, ids, before, rows@, idx as int, dir as int);
                    lemma_outers_kept(mid, source, plan, links@, before, rows@, 6 * idx + dir);
                    assert(outer_drawn(source, *rng, plan, value));
                }
            }
        }
    }
    assert(decoy_rows(links@, rows@, plan));
    assert(false_ids_drawn(*old(rng), mid, plan, ids) && links_cells(cells@, links@) && lists_edges(links@, edges@));
    rows
}

/// Changing an outer edge value leaves the ids of the inner edges alone.
proof fn lemma_outer_keeps_ids(
    links: Seq<[Option<usize>; 6]>,
    edges: Seq<Edge>,
    ids: Seq<i32>,
    before: Seq<[i32; 6]>,
    after: Seq<[i32; 6]>,
    idx: int,
    dir: int,
)
    requires
        links.len() <= usize::MAX,
        links_in_range(links),
        links_mutual(links),
        lists_edges(links, edges),
        0 <= idx < links.len(),
        0 <= dir < 6,
        links[idx]@[dir] is None,
        before.len() == links.len(),
        after.len() == links.len(),
        shows_ids(before, edges, ids),
        forall|c: int, d: int|
            0 <= c < links.len() && 0 <= d < 6 && !(c == idx && d == dir) ==> (#[trigger] after[c]@[d]) == before[c]@[d],
    ensures
        shows_ids(after, edges, ids),
{
    assert forall|k: int| 0 <= k < edges.len() implies shows_edge(after, #[trigger] edges[k], ids[k]) by {
        let e = edges[k];
        assert(joins(links, e) && is_forward(e));
        lemma_edge_back(links, e);
        assert(shows_edge(before, e, ids[k]));
        assert(after[e.0 as int]@[e.2 as int] == before[e.0 as int]@[e.2 as int]);
        assert(after[e.1 as int]@[opposite(e.2 as int)] == before[e.1 as int]@[opposite(e.2 as int)]);
    }
}

/// Changing an outer edge value leaves the inner edges alone.
proof fn lemma_outer_keeps_inner(
    links: Seq<[Option<usize>; 6]>,
    before: Seq<[i32; 6]>,
    after: Seq<[i32; 6]>,
    plan: DecoyPlan,
    idx: int,
    dir: int,
)
    requires
        links.len() <= usize::MAX,
        links_in_range(links),
        links_mutual(links),
        0 <= idx < links.len(),
        0 <= dir < 6,
        links[idx]@[dir] is None,
        before.len() == links.len(),
        after.len() == links.len(),
        inner_cancel(links, before, plan),
        forall|c: int, d: int|
            0 <= c < links.len() && 0 <= d < 6 && !(c == idx && d == dir) ==> (#[trigger] after[c]@[d]) == before[c]@[d],
    ensures
        inner_cancel(links, after, plan),
{
    assert forall|c: int, d: int| 0 <= c < links.len() && 0 <= d < 6 implies match #[trigger] links[c]@[d] {
        Some(nb) => c < nb ==> is_false_id(after[c]@[d] as int, plan.true_alphabet, plan.total_alphabet)
            && after[nb as int]@[opposite(d)] == -after[c]@[d],
        None => true,
    } by {
        if let Some(nb) = links[c]@[d] {
            assert(joins(links, (c as usize, nb, d as usize)));
            lemma_edge_back(links, (c as usize, nb, d as usize));
            assert(after[c]@[d] == before[c]@[d]);
            assert(after[nb as int]@[opposite(d)] == before[nb as int]@[opposite(d)]);
        }
    }
}

/// Whether the pieces from `start` on are the false cluster number `cluster`
/// of that size, with ids from `first_id` on.
pub open spec fn holds_cluster(
    pieces: Seq<Piece>,
    start: int,
    size: int,
    first_id: int,
    cluster: int,
    plan: DecoyPlan,
) -> bool {
    exists|cells: Seq<Axial>, rows: Seq<[i32; 6]>| #[trigger]
        is_decoy_cluster(cells, rows, plan) && cluster_pieces(pieces, start, size, first_id, cluster, cells, rows)
}

pub open spec fn cluster_pieces(
    pieces: Seq<Piece>,
    start: int,
    size: int,
    first_id: int,
    cluster: int,
    cells: Seq<Axial>,
    rows: Seq<[i32; 6]>,
) -> bool {
    &&& is_cluster(cells)
    &&& cells.len() == size
    &&& rows.len() == size
    &&& forall|i: int|
        start <= i < start + size ==> {
            &&& (#[trigger] pieces[i]).id == first_id + (i - start)
            &&& pieces[i].kind == PieceKind::False
            &&& pieces[i].cluster_id == Some(cluster as usize)
            &&& pieces[i].edges == rows[i - start]
        }
}

/// Whether `pieces` are the false pieces of clusters of these sizes, with
/// ids from `first_id` on.
pub open spec fn false_pieces_of(pieces: Seq<Piece>, sizes: Seq<usize>, first_id: int, plan: DecoyPlan) -> bool {
    &&& pieces.len() == size_sum(sizes, sizes.len() as int)
    &&& forall|k: int|
        0 <= k < sizes.len() ==> #[trigger] holds_cluster(
            pieces,
            size_sum(sizes, k),
            sizes[k] as int,
            first_id + size_sum(sizes, k),
            k,
            plan,
        )
}

proof fn lemma_cluster_kept(
    before: Seq<Piece>,
    after: Seq<Piece>,
    start: int,
    size: int,
    first_id: int,
    cluster: int,
    plan: DecoyPlan,
)
    requires
        0 <= start,
        start + size <= before.len() <= after.len(),
        forall|i: int| 0 <= i < before.len() ==> before[i] == #[trigger] after[i],
        holds_cluster(before, start, size, first_id, cluster, plan),
    ensures
        holds_cluster(after, start, size, first_id, cluster, plan),
{
    let (cells, rows) = choose|cells: Seq<Axial>, rows: Seq<[i32; 6]>| #[trigger]
        is_decoy_cluster(cells, rows, plan) && cluster_pieces(before, start, size, first_id, cluster, cells, rows);
    assert(cluster_pieces(after, start, size, first_id, cluster, cells, rows)) by {
        assert forall|i: int| start <= i < start + size implies (#[trigger] after[i]) == before[i] by {
        }
    }
}

/// Whether the pieces from `start` on show a cluster of that size whose cells
/// and edge values are made of what generator `before` gives, and the
/// generator is `after` then.
pub open spec fn decoy_drawn(
    before: StdRng,
    after: StdRng,
    plan: DecoyPlan,
    pieces: Seq<Piece>,
    start: int,
    size: int,
) -> bool {
    exists|mid: StdRng, cells: Seq<Axial>, rows: Seq<[i32; 6]>|
        #![trigger cluster_drawn(before, mid, size, cells), rows_drawn(mid, after, plan, cells, rows)]
        cluster_drawn(before, mid, size, cells) && rows_drawn(mid, after, plan, cells, rows) && shows_rows(
            pieces,
            start,
            size,
            cells,
            rows,
        )
}

/// Whether the pieces from `start` on have the edge values of the rows, one
/// for each cell of a cluster.
pub open spec fn shows_rows(pieces: Seq<Piece>, start: int, size: int, cells: Seq<Axial>, rows: Seq<[i32; 6]>) -> bool {
    &&& is_cluster(cells)
    &&& cells.len() == size
    &&& rows.len() == size
    &&& forall|i: int| start <= i < start + size ==> (#[trigger] pieces[i]).edges == rows[i - start]
}

/// Whether the first `k` clusters are made of what generator `before` gives
/// in turn, and the generator is `after` then.
pub open spec fn decoys_drawn(
    before: StdRng,
    after: StdRng,
    plan: DecoyPlan,
    pieces: Seq<Piece>,
    sizes: Seq<usize>,
    k: int,
) -> bool
    decreases k,
{
    if k <= 0 {
        before == after
    } else {
        exists|mid: StdRng, start: int, size: int| #[trigger]
            decoy_drawn(mid, after, plan, pieces, start, size) && start == size_sum(sizes, k - 1) && size == sizes[k
                - 1] && decoys_drawn(before, mid, plan, pieces, sizes, k - 1)
    }
}

proof fn lemma_decoys_kept(
    before: StdRng,
    after: StdRng,
    plan: DecoyPlan,
    pieces: Seq<Piece>,
    more: Seq<Piece>,
    sizes: Seq<usize>,
    k: int,
)
    requires
        0 <= k <= sizes.len(),
        pieces.len() >= size_sum(sizes, k),
        more.len() >= pieces.len(),
        forall|i: int| 0 <= i < pieces.len() ==> pieces[i] == #[trigger] more[i],
        decoys_drawn(before, after, plan, pieces, sizes, k),
    ensures
        decoys_drawn(before, after, plan, more, sizes, k),
    decreases k,
{
    if k > 0 {
        let (mid, start, size) = choose|mid: StdRng, start: int, size: int| #[trigger]
            decoy_drawn(mid, after, plan, pieces, start, size) && start == size_sum(sizes, k - 1) && size == sizes[k
                - 1] && decoys_drawn(before, mid, plan, pieces, sizes, k - 1);
        lemma_size_sum_grows(sizes, k - 1, k);
        lemma_decoys_kept(before, mid, plan, pieces, more, sizes, k - 1);
        let (inner, cells, rows) = choose|inner: StdRng, cells: Seq<Axial>, rows: Seq<[i32; 6]>|
            #![trigger cluster_drawn(mid, inner, size, cells), rows_drawn(inner, after, plan, cells, rows)]
            cluster_drawn(mid, inner, size, cells) && rows_drawn(inner, after, plan, cells, rows) && shows_rows(
                pieces,
                start,
                size,
                cells,
                rows,
            );
        assert forall|i: int| start <= i < start + size implies (#[trigger] more[i]).edges == rows[i - start] by {
            assert(pieces[i] == more[i]);
        }
        assert(shows_rows(more, start, size, cells, rows));
        assert(decoy_drawn(mid, after, plan, more, start, size));
    }
}

/// Whether the false pieces are made of what generator `before` gives, and
/// the generator is `after` then: first the sizes of the clusters, unless
/// they are given, and then one cluster after the other.
pub open spec fn false_pieces_drawn(
    before: StdRng,
    after: StdRng,
    count: int,
    sizes_given: bool,
    plan: DecoyPlan,
    pieces: Seq<Piece>,
    sizes: Seq<usize>,
) -> bool {
    exists|mid: StdRng| #[trigger]
        decoys_drawn(mid, after, plan, pieces, sizes, sizes.len() as int) && if sizes_given {
            mid == before
        } else {
            sizes_drawn(before, mid, count, sizes)
        }
}

/// Whether a value is that of an outer edge whose word came out of a
/// generator: by the roll that the word makes it is flat, or has an id to
/// attach with, or a false id.
pub open spec fn rolled(plan: DecoyPlan, value: i32) -> bool {
    exists|before: StdRng, after: StdRng, word: u64| #[trigger]
        gave_word(before, after, word) && if word / 2048 < plan.flat_cut {
            value == 0
        } else if word / 2048 < plan.attach_cut {
            value != 0 && (plan.attach.contains(value) || plan.attach.contains((-value) as i32))
        } else if plan.total_alphabet > plan.true_alphabet {
            plan.true_alphabet < magnitude(value) <= plan.total_alphabet
        } else {
            1 <= magnitude(value) <= plan.true_alphabet || (plan.true_alphabet <= 1 && magnitude(value) == 1)
        }
}

proof fn lemma_outer_rolled(before: StdRng, after: StdRng, plan: DecoyPlan, value: i32)
    requires
        0 <= plan.true_alphabet,
        forall|i: int| 0 <= i < plan.attach.len() ==> #[trigger] plan.attach[i] > 0,
        outer_drawn(before, after, plan, value),
    ensures
        rolled(plan, value),
{
    let (mid, roll) = choose|mid: StdRng, roll: u64| #[trigger]
        roll_drawn(before, mid, roll) && if roll < plan.flat_cut {
            value == 0 && after == mid
        } else {
            exists|last: StdRng, id: i32, heads: bool|
                #![trigger outer_id_drawn(mid, last, plan, roll, id), gave_coin(last, after, heads)]
                outer_id_drawn(mid, last, plan, roll, id) && gave_coin(last, after, heads) && value == (if heads {
                    id as int
                } else {
                    -id
                })
        };
    let word = choose|word: u64| #[trigger] gave_word(before, mid, word) && 2048 * roll <= word < 2048 * (roll + 1);
    assert(word / 2048 == roll);
    assert(gave_word(before, mid, word));
    if roll >= plan.flat_cut {
        let (last, id, heads) = choose|last: StdRng, id: i32, heads: bool|
            #![trigger outer_id_drawn(mid, last, plan, roll, id), gave_coin(last, after, heads)]
            outer_id_drawn(mid, last, plan, roll, id) && gave_coin(last, after, heads) && value == (if heads {
                id as int
            } else {
                -id
            });
        if roll < plan.attach_cut {
            let i = choose|i: int| 0 <= i < plan.attach.len() && plan.attach[i] == id;
            assert(plan.attach[i] > 0);
            assert(value == id || (-value) as i32 == id);
        }
    }
}

/// Every outer edge of a drawn cluster of false pieces is flat exactly when
/// the word drawn for it makes a roll below the flat share, attaches when the
/// roll lies between the shares, and has a false id otherwise.
pub proof fn law_outer_edges_rolled(
    before: StdRng,
    after: StdRng,
    plan: DecoyPlan,
    cells: Seq<Axial>,
    rows: Seq<[i32; 6]>,
    c: int,
    dir: int,
)
    requires
        0 <= plan.true_alphabet,
        forall|i: int| 0 <= i < plan.attach.len() ==> #[trigger] plan.attach[i] > 0,
        rows_drawn(before, after, plan, cells, rows),
        0 <= c < cells.len(),
        0 <= dir < 6,
        forall|k: int| 0 <= k < cells.len() ==> !steps_to(cells[c], dir, #[trigger] cells[k]),
    ensures
        rolled(plan, rows[c]@[dir]),
{
    let (mid, links, edges, ids) = choose|
        mid: StdRng,
        links: Seq<[Option<usize>; 6]>,
        edges: Seq<Edge>,
        ids: Seq<i32>,
    |
        #![trigger false_ids_drawn(before, mid, plan, ids), links_cells(cells, links), lists_edges(links, edges)]
        false_ids_drawn(before, mid, plan, ids) && links_cells(cells, links) && lists_edges(links, edges)
            && rows.len() == links.len() && shows_ids(rows, edges, ids) && outers_drawn(
            mid,
            after,
            plan,
            links,
            rows,
            6 * links.len() as int,
        );
    assert(link_of(cells, c, dir, links[c]@[dir]));
    lemma_outers_rolled(mid, after, plan, links, rows, 6 * links.len() as int, c, dir);
}

proof fn lemma_outers_rolled(
    before: StdRng,
    after: StdRng,
    plan: DecoyPlan,
    links: Seq<[Option<usize>; 6]>,
    rows: Seq<[i32; 6]>,
    n: int,
    c: int,
    dir: int,
)
    requires
        0 <= plan.true_alphabet,
        forall|i: int| 0 <= i < plan.attach.len() ==> #[trigger] plan.attach[i] > 0,
        outers_drawn(before, after, plan, links, rows, n),
        0 <= c,
        0 <= dir < 6,
        6 * c + dir < n,
        links[c]@[dir] is None,
    ensures
        rolled(plan, rows[c]@[dir]),
    decreases n,
{
    let place = (n - 1) / 6;
    let side = (n - 1) % 6;
    if links[place]@[side] is Some {
        assert(6 * c + dir != n - 1);
        lemma_outers_rolled(before, after, plan, links, rows, n - 1, c, dir);
    } else {
        let (mid, value) = choose|mid: StdRng, value: i32| #[trigger]
            outer_drawn(mid, after, plan, value) && value == rows[place]@[side] && outers_drawn(
                before,
                mid,
                plan,
                links,
                rows,
                n - 1,
            );
        if 6 * c + dir == n - 1 {
            assert(place == c && side == dir);
            lemma_outer_rolled(mid, after, plan, value);
        } else {
            lemma_outers_rolled(before, mid, plan, links, rows, n - 1, c, dir);
        }
    }
}

/// Whether the outer edges of the pieces from `start` on, as cells of a
/// cluster, were rolled.
pub open spec fn outsides_rolled(plan: DecoyPlan, pieces: Seq<Piece>, start: int, cells: Seq<Axial>) -> bool {
    forall|c: int, dir: int|
        0 <= c < cells.len() && 0 <= dir < 6 && (forall|k: int|
            0 <= k < cells.len() ==> !steps_to(cells[c], dir, #[trigger] cells[k])) ==> #[trigger] rolled(
            plan,
            pieces[start + c].edges@[dir],
        )
}

/// Every cluster of the false pieces has cells such that the edges that face
/// no other cell of the cluster were rolled.
pub proof fn law_false_pieces_rolled(
    before: StdRng,
    after: StdRng,
    count: int,
    sizes_given: bool,
    plan: DecoyPlan,
    pieces: Seq<Piece>,
    sizes: Seq<usize>,
    k: int,
)
    requires
        0 <= plan.true_alphabet,
        forall|i: int| 0 <= i < plan.attach.len() ==> #[trigger] plan.attach[i] > 0,
        false_pieces_drawn(before, after, count, sizes_given, plan, pieces, sizes),
        0 <= k < sizes.len(),
    ensures
        exists|cells: Seq<Axial>|
            is_cluster(cells) && cells.len() == sizes[k] && #[trigger] outsides_rolled(
                plan,
                pieces,
                size_sum(sizes, k),
                cells,
            ),
{
    let mid = choose|mid: StdRng| #[trigger]
        decoys_drawn(mid, after, plan, pieces, sizes, sizes.len() as int) && if sizes_given {
            mid == before
        } else {
            sizes_drawn(before, mid, count, sizes)
        };
    lemma_decoys_rolled(mid, after, plan, pieces, sizes, sizes.len() as int, k);
}

proof fn lemma_decoys_rolled(
    before: StdRng,
    after: StdRng,
    plan: DecoyPlan,
    pieces: Seq<Piece>,
    sizes: Seq<usize>,
    n: int,
    k: int,
)
    requires
        0 <= plan.true_alphabet,
        forall|i: int| 0 <= i < plan.attach.len() ==> #[trigger] plan.attach[i] > 0,
        decoys_drawn(before, after, plan, pieces, sizes, n),
        0 <= k < n <= sizes.len(),
    ensures
        exists|cells: Seq<Axial>|
            is_cluster(cells) && cells.len() == sizes[k] && #[trigger] outsides_rolled(
                plan,
                pieces,
                size_sum(sizes, k),
                cells,
            ),
    decreases n,
{
    let (mid, start, size) = choose|mid: StdRng, start: int, size: int| #[trigger]
        decoy_drawn(mid, after, plan, pieces, start, size) && start == size_sum(sizes, n - 1) && size == sizes[n - 1]
            && decoys_drawn(before, mid, plan, pieces, sizes, n - 1);
    if k < n - 1 {
        lemma_decoys_rolled(before, mid, plan, pieces, sizes, n - 1, k);
    } else {
        let (inner, cells, rows) = choose|inner: StdRng, cells: Seq<Axial>, rows: Seq<[i32; 6]>|
            #![trigger cluster_drawn(mid, inner, size, cells), rows_drawn(inner, after, plan, cells, rows)]
            cluster_drawn(mid, inner, size, cells) && rows_drawn(inner, after, plan, cells, rows) && shows_rows(
                pieces,
                start,
                size,
                cells,
                rows,
            );
        assert forall|c: int, dir: int|
            0 <= c < cells.len() && 0 <= dir < 6 && (forall|j: int|
                0 <= j < cells.len() ==> !steps_to(cells[c], dir, #[trigger] cells[j])) implies #[trigger] rolled(
            plan,
            pieces[start + c].edges@[dir],
        ) by {
            assert(pieces[start + c].edges == rows[start + c - start]);
            law_outer_edges_rolled(inner, after, plan, cells, rows, c, dir);
        }
        assert(outsides_rolled(plan, pieces, size_sum(sizes, k), cells));
    }
}

/// The false pieces, and the sizes of their clusters: those given, or drawn
/// ones that add up to `false_count`.
pub fn build_false_pieces(
    false_count: usize,
    true_pieces: &Vec<Piece>,
    rng: &mut StdRng,
    true_alphabet: i32,
    total_alphabet: i32,
    flat_cut: u64,
    attach_cut: u64,
    false_clusters: Option<&Vec<usize>>,
) -> (built: (Vec<Piece>, Vec<usize>))
    requires
        0 <= true_alphabet,
        forall|i: int, dir: int|
            0 <= i < true_pieces.len() && 0 <= dir < 6 ==> (#[trigger] true_pieces@[i].edges@[dir]) > i32::MIN,
        match false_clusters {
            Some(sizes) => {
                &&& forall|i: int| 0 <= i < sizes.len() ==> 1 <= #[trigger] sizes@[i] < i32::MAX
                &&& true_pieces.len() + size_sum(sizes@, sizes.len() as int) <= usize::MAX
            },
            None => true_pieces.len() + false_count <= usize::MAX,
        },
    ensures
        ({
            let (pieces, sizes) = built;
            let plan = DecoyPlan {
                true_alphabet: true_alphabet as int,
                total_alphabet: total_alphabet as int,
                attach: attach_ids(true_pieces@),
                flat_cut,
                attach_cut,
            };
            &&& false_pieces_of(pieces@, sizes@, true_pieces.len() as int, plan)
            &&& match false_clusters {
                Some(given) => sizes@ == given@,
                None => {
                    &&& forall|i: int| 0 <= i < sizes.len() ==> 1 <= #[trigger] sizes@[i] <= MAX_DRAWN_CLUSTER
                    &&& size_sum(sizes@, sizes.len() as int) == false_count
                },
            }
            &&& forall|i: int, dir: int|
                0 <= i < pieces.len() && 0 <= dir < 6 ==> value_possible(plan, #[trigger] pieces@[i].edges@[dir])
            &&& false_pieces_drawn(
                *old(rng),
                *final(rng),
                false_count as int,
                false_clusters is Some,
                plan,
                pieces@,
                sizes@,
            )
        }),
{
    let sizes: Vec<usize> = match false_clusters {
        Some(given) => {
            let sizes: Vec<usize> = given.clone();
            assert(sizes@ =~= given@);
            sizes
        },
        None => draw_cluster_sizes(false_count, rng),
    };
    let ghost mid = *rng;
    let true_ids: Vec<i32> = collect_ids(true_pieces);
    let ghost plan = DecoyPlan {
        true_alphabet: true_alphabet as int,
        total_alphabet: total_alphabet as int,
        attach: attach_ids(true_pieces@),
        flat_cut,
        attach_cut,
    };
    let mut pieces: Vec<Piece> = Vec::new();
    for cluster_id in 0..sizes.len()
        invariant
            0 <= true_alphabet,
            plan == (DecoyPlan {
                true_alphabet: true_alphabet as int,
                total_alphabet: total_alphabet as int,
                attach: true_ids@,
                flat_cut,
                attach_cut,
            }),
            true_ids.len() > 0,
            forall|i: int| 0 <= i < true_ids.len() ==> #[trigger] true_ids@[i] > 0,
            forall|i: int| 0 <= i < sizes.len() ==> 1 <= #[trigger] sizes@[i] < i32::MAX,
            true_pieces.len() + size_sum(sizes@, sizes.len() as int) <= usize::MAX,
            pieces.len() == size_sum(sizes@, cluster_id as int),
            decoys_drawn(mid, *rng, plan, pieces@, sizes@, cluster_id as int),
            forall|k: int|
                0 <= k < cluster_id ==> #[trigger] holds_cluster(
                    pieces@,
                    size_sum(sizes@, k),
                    sizes@[k] as int,
                    true_pieces.len() + size_sum(sizes@, k),
                    k,
                    plan,
                ),
            forall|i: int, dir: int|
                0 <= i < pieces.len() && 0 <= dir < 6 ==> value_possible(plan, #[trigger] pieces@[i].edges@[dir]),
    {
        let size: usize = sizes[cluster_id];
        assert(1 <= sizes@[cluster_id as int] < i32::MAX);
        proof {
            lemma_size_sum_grows(sizes@, cluster_id + 1, sizes.len() as int);
        }
        let ghost source = *rng;
        let cells: Vec<Axial> = build_cluster_positions(size, rng);
        let ghost inner = *rng;
        let rows: Vec<[i32; 6]> = draw_decoy_rows(
            &cells,
            rng,
            true_alphabet,
            total_alphabet,
            &true_ids,
            flat_cut,
            attach_cut,
        );
        let ghost before = pieces@;
        let start: usize = pieces.len();
        for idx in 0..size
            invariant
                size == rows.len(),
                start == before.len(),
                true_pieces.len() + start + size <= usize::MAX,
                pieces.len() == start + idx,
                forall|i: int| 0 <= i < start ==> before[i] == #[trigger] pieces@[i],
                forall|i: int|
                    start <= i < start + idx ==> {
                        &&& (#[trigger] pieces@[i]).id == true_pieces.len() + i
                        &&& pieces@[i].kind == PieceKind::False
                        &&& pieces@[i].cluster_id == Some(cluster_id)
                        &&& pieces@[i].edges == rows@[i - start]
                    },
        {
            pieces.push(
                Piece {
                    id: true_pieces.len() + start + idx,
                    kind: PieceKind::False,
                    cluster_id: Some(cluster_id),
                    edges: rows[idx],
                },
            );
        }
        proof {
            let first_id = true_pieces.len() + size_sum(sizes@, cluster_id as int);
            lemma_decoys_kept(mid, source, plan, before, pieces@, sizes@, cluster_id as int);
            assert(shows_rows(pieces@, start as int, size as int, cells@, rows@));
            assert(cluster_drawn(source, inner, size as int, cells@) && rows_drawn(inner, *rng, plan, cells@, rows@));
            assert(decoy_drawn(source, *rng, plan, pieces@, start as int, size as int));
            assert(is_decoy_cluster(cells@, rows@, plan) && cluster_pieces(
                pieces@,
                start as int,
                size as int,
                first_id,
                cluster_id as int,
                cells@,
                rows@,
            ));
            assert(holds_cluster(pieces@, start as int, size as int, first_id, cluster_id as int, plan));
            assert forall|k: int| 0 <= k < cluster_id + 1 implies #[trigger] holds_cluster(
                pieces@,
                size_sum(sizes@, k),
                sizes@[k] as int,
                true_pieces.len() + size_sum(sizes@, k),
                k,
                plan,
            ) by {
                if k < cluster_id {
                    lemma_size_sum_grows(sizes@, k + 1, cluster_id as int);
                    lemma_size_sum_grows(sizes@, k, k);
                    lemma_cluster_kept(
                        before,
                        pieces@,
                        size_sum(sizes@, k),
                        sizes@[k] as int,
                        true_pieces.len() + size_sum(sizes@, k),
                        k,
                        plan,
                    );
                }
            }
            assert forall|i: int, dir: int| 0 <= i < pieces.len() && 0 <= dir < 6 implies value_possible(
                plan,
                #[trigger] pieces@[i].edges@[dir],
            ) by {
                if i < start {
                    assert(value_possible(plan, before[i].edges@[dir]));
                } else {
                    assert(value_possible(plan, rows@[i - start]@[dir]));
                }
            }
        }
    }
    assert(false_pieces_of(pieces@, sizes@, true_pieces.len() as int, plan));
    (pieces, sizes)
}

} // verus!
