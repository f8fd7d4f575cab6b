//! The false pieces of a generated puzzle: clusters that fit together among
//! themselves, of pieces with valid outlines.

use crate::clusters::{is_cluster, neighbours_drawn, random_cluster};
use crate::edges::{enumerate_edges, is_forward, joins, lemma_edge_back, lists_edges, Edge};
use crate::generator::{lemma_turns_moved, turn_drawn, turns_drawn, GeneratorConfig, GeneratorError, Piece};
use crate::geometry::{
    is_piece_valid, judged, law_turned_valid, lemma_memo_grew, lemma_never_refuses, memo_grew, never_refuses, valid_in,
    GeomMemo,
};
use crate::grid::{
    build_neighbors, lemma_links_mutual, links_cells, links_in_range, links_mutual, opposite, rotate_edges, rotated,
    Axial, Links,
};
use crate::id_plan::lemma_listed_other;
use crate::orient::{set_edge, shows};
use crate::rng::{
    gave_coin, gave_index, gave_item, gave_word, next_coin, next_index, next_item, next_word,
};
use crate::trial_decoys::{lemma_size_sum_grows, size_sum};
use crate::trial_pieces::{blank_rows, roll_drawn, roll_of, ROLLS};
use rand::rngs::StdRng;
use vstd::prelude::*;

verus! {

/// What false clusters are made of: the core ids, the ids to attach with,
/// the ids that no true piece has, and the rolls under which an outer edge
/// is flat, and flat or attaching.
pub struct ClusterPlan {
    pub core: Seq<i32>,
    pub attach: Seq<i32>,
    pub unused: Seq<i32>,
    pub flat_cut: u64,
    pub attach_cut: u64,
}

/// A pool of ids, or another one if it is empty.
pub open spec fn pool_or(pool: Seq<i32>, fallback: Seq<i32>) -> Seq<i32> {
    if pool.len() == 0 {
        fallback
    } else {
        pool
    }
}

/// An id of `pool`, or of `fallback` if the pool is empty.
pub fn pick_id(pool: &Vec<i32>, fallback: &Vec<i32>, rng: &mut StdRng) -> (id: i32)
    requires
        fallback.len() > 0,
    ensures
        pool_or(pool@, fallback@).contains(id),
        gave_item(*old(rng), *final(rng), pool_or(pool@, fallback@), Some(id)),
{
    let chosen: Option<i32> = if pool.len() == 0 {
        next_item(fallback.as_slice(), rng)
    } else {
        next_item(pool.as_slice(), rng)
    };
    match chosen {
        Some(id) => id,
        None => fallback[0],
    }
}

/// Whether an outer edge can have `value` when the roll was `roll`.
pub open spec fn outer_value(plan: ClusterPlan, roll: u64, value: i32) -> bool {
    if roll < plan.flat_cut {
        value == 0
    } else if roll < plan.attach_cut {
        signed_from(pool_or(plan.attach, plan.core), value)
    } else {
        signed_from(pool_or(plan.unused, plan.core), value)
    }
}

/// Whether a value is an id of a pool, with either sign.
pub open spec fn signed_from(pool: Seq<i32>, value: i32) -> bool {
    pool.contains(value) || (value > i32::MIN && pool.contains((-value) as i32))
}

/// Whether an outer edge can have `value`.
pub open spec fn outer_possible(plan: ClusterPlan, value: i32) -> bool {
    exists|roll: u64| roll < ROLLS && #[trigger] outer_value(plan, roll, value)
}

/// Whether an inner edge has a core id that its sides show with opposite
/// signs.
pub open spec fn inner_fits(rows: Seq<[i32; 6]>, e: Edge, core: Seq<i32>) -> bool {
    let value = rows[e.0 as int]@[e.2 as int];
    &&& signed_from(core, value)
    &&& value != 0
    &&& shows(rows, e, value as int)
}

/// Whether `rows` are edge values of a false cluster with these links.
pub open spec fn false_rows(links: Seq<[Option<usize>; 6]>, rows: Seq<[i32; 6]>, plan: ClusterPlan) -> bool {
    &&& rows.len() == links.len()
    &&& forall|e: Edge| #[trigger] joins(links, e) && is_forward(e) ==> inner_fits(rows, e, plan.core)
    &&& forall|c: int, dir: int|
        0 <= c < links.len() && 0 <= dir < 6 && links[c]@[dir] is None ==> outer_possible(
            plan,
            #[trigger] rows[c]@[dir],
        )
}

/// Whether `rows` are edge values of a false cluster with these cells.
pub open spec fn is_false_cluster(cells: Seq<Axial>, rows: Seq<[i32; 6]>, plan: ClusterPlan) -> bool {
    exists|links: Seq<[Option<usize>; 6]>| #[trigger] links_cells(cells, links) && false_rows(links, rows, plan)
}

/// An id as it is or negated.
pub fn signed(id: i32, positive: bool) -> (value: i32)
    requires
        id > i32::MIN,
    ensures
        value == if positive {
            id as int
        } else {
            -id
        },
{
    if positive {
        id
    } else {
        -id
    }
}

/// Whether `value` is `id` with the sign of a coin that generator `before`
/// tosses, and the generator is `after` then.
pub open spec fn sign_drawn(before: StdRng, after: StdRng, id: i32, value: i32) -> bool {
    exists|heads: bool| #[trigger] gave_coin(before, after, heads) && value == (if heads {
        id as int
    } else {
        -id
    })
}

/// A value with a random sign.
fn with_sign(id: i32, rng: &mut StdRng) -> (value: i32)
    requires
        id > 0,
    ensures
        value == id || value == -id,
        sign_drawn(*old(rng), *final(rng), id, value),
{
    let heads: bool = next_coin(rng);
    signed(id, heads)
}

/// Whether `value` is an id of `pool` with a sign, both of which generator
/// `before` gives, and the generator is `after` then.
pub open spec fn signed_drawn(before: StdRng, after: StdRng, pool: Seq<i32>, value: i32) -> bool {
    exists|mid: StdRng, id: i32|
        #![trigger gave_item(before, mid, pool, Some(id)), sign_drawn(mid, after, id, value)]
        gave_item(before, mid, pool, Some(id)) && pool.contains(id) && sign_drawn(mid, after, id, value)
}

/// Whether an outer edge value is made of what generator `before` gives, and
/// the generator is `after` then: a roll, and unless it is flat an id and its
/// sign.
pub open spec fn outer_drawn(before: StdRng, after: StdRng, plan: ClusterPlan, value: i32) -> bool {
    exists|mid: StdRng, roll: u64| #[trigger]
        roll_drawn(before, mid, roll) && if roll < plan.flat_cut {
            value == 0 && after == mid
        } else if roll < plan.attach_cut {
            signed_drawn(mid, after, pool_or(plan.attach, plan.core), value)
        } else {
            signed_drawn(mid, after, pool_or(plan.unused, plan.core), value)
        }
}

/// Whether the values are core ids with signs that generator `before` gives
/// in turn, and the generator is `after` then.
pub open spec fn inners_drawn(before: StdRng, after: StdRng, core: Seq<i32>, values: Seq<i32>) -> bool
    decreases values.len(),
{
    if values.len() == 0 {
        before == after
    } else {
        exists|mid: StdRng| #[trigger]
            signed_drawn(mid, after, core, values.last()) && inners_drawn(before, mid, core, values.drop_last())
    }
}

/// Whether the values of the outer edges among the first `n` edges, six to a
/// cell, are made of what generator `before` gives in turn, and the generator
/// is `after` then.
pub open spec fn outers_drawn(
    before: StdRng,
    after: StdRng,
    plan: ClusterPlan,
    links: Seq<[Option<usize>; 6]>,
    rows: Seq<[i32; 6]>,
    n: int,
) -> bool
    decreases n,
{
    if n <= 0 {
        before == after
    } else if links[(n - 1) / 6]@[(n - 1) % 6] is Some {
        outers_drawn(before, after, plan, links, rows, n - 1)
    } else {
        exists|mid: StdRng, value: i32| #[trigger]
            outer_drawn(mid, after, plan, value) && value == rows[(n - 1) / 6]@[(n - 1) % 6] && outers_drawn(
                before,
                mid,
                plan,
                links,
                rows,
                n - 1,
            )
    }
}

proof fn lemma_outers_kept(
    before: StdRng,
    after: StdRng,
    plan: ClusterPlan,
    links: Seq<[Option<usize>; 6]>,
    rows: Seq<[i32; 6]>,
    other: Seq<[i32; 6]>,
    n: int,
)
    requires
        outers_drawn(before, after, plan, links, rows, n),
        n <= 6 * links.len(),
        rows.len() == links.len(),
        other.len() == links.len(),
        forall|c: int, d: int| 0 <= c < rows.len() && 0 <= d < 6 && 6 * c + d < n ==> (#[trigger] other[c]@[d]) == rows[c]@[d],
    ensures
        outers_drawn(before, after, plan, links, other, n),
    decreases n,
{
    if n > 0 {
        let c = (n - 1) / 6;
        let d = (n - 1) % 6;
        if links[c]@[d] is Some {
            lemma_outers_kept(before, after, plan, links, rows, other, n - 1);
        } else {
            let (mid, value) = choose|mid: StdRng, value: i32| #[trigger]
                outer_drawn(mid, after, plan, value) && value == rows[c]@[d] && outers_drawn(
                    before,
                    mid,
                    plan,
                    links,
                    rows,
                    n - 1,
                );
            lemma_outers_kept(before, mid, plan, links, rows, other, n - 1);
            assert(6 * c + d == n - 1);
            assert(other[c]@[d] == rows[c]@[d]);
            assert(outer_drawn(mid, after, plan, value));
        }
    }
}

/// Whether each edge shows its value.
pub open spec fn shows_values(rows: Seq<[i32; 6]>, edges: Seq<Edge>, values: Seq<i32>) -> bool {
    &&& values.len() == edges.len()
    &&& forall|k: int| 0 <= k < edges.len() ==> shows(rows, #[trigger] edges[k], values[k] as int)
}

/// Whether the edge values of a false cluster are made of what generator
/// `before` gives, and the generator is `after` then: first a value for every
/// inner edge, then the outer edges.
pub open spec fn rows_drawn(
    before: StdRng,
    after: StdRng,
    plan: ClusterPlan,
    cells: Seq<Axial>,
    rows: Seq<[i32; 6]>,
) -> bool {
    exists|mid: StdRng, links: Seq<[Option<usize>; 6]>, edges: Seq<Edge>, values: Seq<i32>|
        #![trigger inners_drawn(before, mid, plan.core, values), links_cells(cells, links), lists_edges(links, edges)]
        inners_drawn(before, mid, plan.core, values) && links_cells(cells, links) && lists_edges(links, edges)
            && rows.len() == links.len() && shows_values(rows, edges, values) && outers_drawn(
            mid,
            after,
            plan,
            links,
            rows,
            6 * links.len() as int,
        )
}

/// The value of an outer edge.
fn outer_edge(
    cfg: &GeneratorConfig,
    rng: &mut StdRng,
    core_ids: &Vec<i32>,
    true_ids: &Vec<i32>,
    unused_ids: &Vec<i32>,
) -> (value: i32)
    requires
        core_ids.len() > 0,
        forall|i: int| 0 <= i < core_ids.len() ==> #[trigger] core_ids@[i] > 0,
        forall|i: int| 0 <= i < true_ids.len() ==> #[trigger] true_ids@[i] > 0,
        forall|i: int| 0 <= i < unused_ids.len() ==> #[trigger] unused_ids@[i] > 0,
    ensures
        outer_possible(
            ClusterPlan {
                core: core_ids@,
                attach: true_ids@,
                unused: unused_ids@,
                flat_cut: cfg.flat_cut,
                attach_cut: cfg.attach_cut,
            },
            value,
        ),
        value > i32::MIN,
        outer_drawn(
            *old(rng),
            *final(rng),
            ClusterPlan {
                core: core_ids@,
                attach: true_ids@,
                unused: unused_ids@,
                flat_cut: cfg.flat_cut,
                attach_cut: cfg.attach_cut,
            },
            value,
        ),
{
    let ghost plan = ClusterPlan {
        core: core_ids@,
        attach: true_ids@,
        unused: unused_ids@,
        flat_cut: cfg.flat_cut,
        attach_cut: cfg.attach_cut,
    };
    let word: u64 = next_word(rng);
    let roll: u64 = roll_of(word);
    let ghost mid = *rng;
    assert(roll_drawn(*old(rng), mid, roll)) by {
        assert(gave_word(*old(rng), mid, word));
    }
    if roll < cfg.flat_cut {
        assert(outer_value(plan, roll, 0));
        return 0;
    }
    let id: i32 = if roll < cfg.attach_cut {
        pick_id(true_ids, core_ids, rng)
    } else {
        pick_id(unused_ids, core_ids, rng)
    };
    assert(id > 0) by {
        let pool = if roll < cfg.attach_cut {
            pool_or(true_ids@, core_ids@)
        } else {
            pool_or(unused_ids@, core_ids@)
        };
        let i = choose|i: int| 0 <= i < pool.len() && pool[i] == id;
        assert(pool[i] > 0);
    }
    let ghost last = *rng;
    let value: i32 = with_sign(id, rng);
    assert(outer_value(plan, roll, value));
    assert(sign_drawn(last, *rng, id, value));
    value
}

/// Edge values for a false cluster.
pub fn assign_decoy_cluster(
    cells: &Vec<Axial>,
    cfg: &GeneratorConfig,
    rng: &mut StdRng,
    core_ids: &Vec<i32>,
    true_ids: &Vec<i32>,
    unused_ids: &Vec<i32>,
) -> (rows: Vec<[i32; 6]>)
    requires
        cells@.no_duplicates(),
        forall|i: int| #![trigger cells@[i]]
            0 <= i < cells.len() ==> i32::MIN < cells@[i].q < i32::MAX && i32::MIN < cells@[i].r < i32::MAX,
        core_ids.len() > 0,
        forall|i: int| 0 <= i < core_ids.len() ==> #[trigger] core_ids@[i] > 0,
        forall|i: int| 0 <= i < true_ids.len() ==> #[trigger] true_ids@[i] > 0,
        forall|i: int| 0 <= i < unused_ids.len() ==> #[trigger] unused_ids@[i] > 0,
    ensures
        rows.len() == cells.len(),
        is_false_cluster(
            cells@,
            rows@,
            ClusterPlan {
                core: core_ids@,
                attach: true_ids@,
                unused: unused_ids@,
                flat_cut: cfg.flat_cut,
                attach_cut: cfg.attach_cut,
            },
        ),
        rows_drawn(
            *old(rng),
            *final(rng),
            ClusterPlan {
                core: core_ids@,
                attach: true_ids@,
                unused: unused_ids@,
                flat_cut: cfg.flat_cut,
                attach_cut: cfg.attach_cut,
            },
            cells@,
            rows@,
        ),
{
    let ghost plan = ClusterPlan {
        core: core_ids@,
        attach: true_ids@,
        unused: unused_ids@,
        flat_cut: cfg.flat_cut,
        attach_cut: cfg.attach_cut,
    };
    let links: Links = build_neighbors(cells);
    proof {
        lemma_links_mutual(cells@, links@);
    }
    let edges: Vec<Edge> = enumerate_edges(&links);
    let mut rows: Vec<[i32; 6]> = blank_rows(links.len());
    assert(links@.len() == links.len());
    let ghost mut values: Seq<i32> = Seq::empty();
    for k in 0..edges.len()
        invariant
            values.len() == k,
            inners_drawn(*old(rng), *rng, core_ids@, values),
            forall|j: int| 0 <= j < k ==> shows(rows@, #[trigger] edges@[j], values[j] as int),
            links@.len() <= usize::MAX,
            links_in_range(links@),
            links_mutual(links@),
            lists_edges(links@, edges@),
            rows.len() == links.len(),
            core_ids.len() > 0,
            forall|i: int| 0 <= i < core_ids.len() ==> #[trigger] core_ids@[i] > 0,
            forall|j: int| 0 <= j < k ==> inner_fits(rows@, #[trigger] edges@[j], core_ids@),
            forall|c: int, d: int|
                0 <= c < links.len() && 0 <= d < 6 && links@[c]@[d] is None ==> (#[trigger] rows@[c]@[d]) == 0,
    {
        let (a, b, dir) = edges[k];
        let ghost edge = edges@[k as int];
        proof {
            assert(joins(links@, edge) && is_forward(edge));
            lemma_edge_back(links@, edge);
        }
        let ghost source = *rng;
        let id: i32 = match next_item(core_ids.as_slice(), rng) {
            Some(id) => id,
            None => core_ids[0],
        };
        assert(core_ids@.contains(id));
        assert(id > 0) by {
            let i = choose|i: int| 0 <= i < core_ids@.len() && core_ids@[i] == id;
            assert(core_ids@[i] > 0);
        }
        let ghost mid = *rng;
        let value: i32 = with_sign(id, rng);
        let ghost before = rows@;
        let ghost past = values;
        proof {
            values = values.push(value);
            assert(values.drop_last() =~= past);
            assert(gave_item(source, mid, core_ids@, Some(id)) && sign_drawn(mid, *rng, id, value));
            assert(signed_drawn(source, *rng, core_ids@, values.last()));
        }
        set_edge(&mut rows, a, b, dir, value);
        proof {
            assert forall|j: int| 0 <= j < k + 1 implies inner_fits(rows@, #[trigger] edges@[j], core_ids@) by {
                if j < k {
                    assert(inner_fits(before, edges@[j], core_ids@));
                    lemma_listed_other(links@, before, rows@, edges@, j, k as int);
                }
            }
            assert forall|j: int| 0 <= j < k + 1 implies shows(rows@, #[trigger] edges@[j], values[j] as int) by {
                if j < k {
                    assert(shows(before, edges@[j], past[j] as int));
                    lemma_listed_other(links@, before, rows@, edges@, j, k as int);
                }
            }
            assert forall|c: int, d: int|
                0 <= c < links.len() && 0 <= d < 6 && links@[c]@[d] is None implies (#[trigger] rows@[c]@[d]) == 0 by {
                assert(rows@[c]@[d] == before[c]@[d]);
            }
        }
    }
    assert forall|e: Edge| #[trigger] joins(links@, e) && is_forward(e) implies inner_fits(rows@, e, core_ids@) by {
        let j = choose|j: int| 0 <= j < edges@.len() && edges@[j] == e;
        assert(inner_fits(rows@, edges@[j], core_ids@));
    }
    let ghost mid = *rng;
    assert(shows_values(rows@, edges@, values));
    for i in 0..links.len()
        invariant
            lists_edges(links@, edges@),
            shows_values(rows@, edges@, values),
            outers_drawn(mid, *rng, plan, links@, rows@, 6 * i as int),
            plan == (ClusterPlan {
                core: core_ids@,
                attach: true_ids@,
                unused: unused_ids@,
                flat_cut: cfg.flat_cut,
                attach_cut: cfg.attach_cut,
            }),
            links@.len() <= usize::MAX,
            links_in_range(links@),
            links_mutual(links@),
            rows.len() == links.len(),
            core_ids.len() > 0,
            forall|k: int| 0 <= k < core_ids.len() ==> #[trigger] core_ids@[k] > 0,
            forall|k: int| 0 <= k < true_ids.len() ==> #[trigger] true_ids@[k] > 0,
            forall|k: int| 0 <= k < unused_ids.len() ==> #[trigger] unused_ids@[k] > 0,
            forall|e: Edge| #[trigger] joins(links@, e) && is_forward(e) ==> inner_fits(rows@, e, core_ids@),
            forall|c: int, d: int|
                i <= c < links.len() && 0 <= d < 6 && links@[c]@[d] is None ==> (#[trigger] rows@[c]@[d]) == 0,
            forall|c: int, d: int|
                0 <= c < i && 0 <= d < 6 && links@[c]@[d] is None ==> outer_possible(plan, #[trigger] rows@[c]@[d]),
    {
        for dir in 0..6usize
            invariant
                lists_edges(links@, edges@),
                shows_values(rows@, edges@, values),
                outers_drawn(mid, *rng, plan, links@, rows@, 6 * i + dir),
                plan == (ClusterPlan {
                    core: core_ids@,
                    attach: true_ids@,
                    unused: unused_ids@,
                    flat_cut: cfg.flat_cut,
                    attach_cut: cfg.attach_cut,
                }),
                i < links.len(),
                links@.len() <= usize::MAX,
                links_in_range(links@),
                links_mutual(links@),
                rows.len() == links.len(),
                core_ids.len() > 0,
                forall|k: int| 0 <= k < core_ids.len() ==> #[trigger] core_ids@[k] > 0,
                forall|k: int| 0 <= k < true_ids.len() ==> #[trigger] true_ids@[k] > 0,
                forall|k: int| 0 <= k < unused_ids.len() ==> #[trigger] unused_ids@[k] > 0,
                forall|e: Edge| #[trigger] joins(links@, e) && is_forward(e) ==> inner_fits(rows@, e, core_ids@),
                forall|c: int, d: int|
                    0 <= c < links.len() && 0 <= d < 6 && 6 * c + d >= 6 * i + dir && links@[c]@[d] is None
                        ==> (#[trigger] rows@[c]@[d]) == 0,
                forall|c: int, d: int|
                    0 <= c < links.len() && 0 <= d < 6 && 6 * c + d < 6 * i + dir && links@[c]@[d] is None
                        ==> outer_possible(plan, #[trigger] rows@[c]@[d]),
        {
            assert((6 * i + dir) / 6 == i && (6 * i + dir) % 6 == dir);
            let ghost source = *rng;
            if rows[i][dir] == 0 {
                let value: i32 = outer_edge(cfg, rng, core_ids, true_ids, unused_ids);
                let ghost before = rows@;
                proof {
                    lemma_zero_is_outer(links@, before, core_ids@, i as int, dir as int);
                }
                rows[i][dir] = value;
                proof {
                    assert forall|e: Edge| #[trigger] joins(links@, e) && is_forward(e) implies inner_fits(
                        rows@,
                        e,
                        core_ids@,
                    ) by {
                        assert(inner_fits(before, e, core_ids@));
                        lemma_edge_back(links@, e);
                    }
                    assert forall|k: int| 0 <= k < edges@.len() implies shows(
                        rows@,
                        #[trigger] edges@[k],
                        values[k] as int,
                    ) by {
                        assert(shows(before, edges@[k], values[k] as int));
                        assert(joins(links@, edges@[k]));
                        lemma_edge_back(links@, edges@[k]);
                    }
                    lemma_outers_kept(mid, source, plan, links@, before, rows@, 6 * i + dir);
                    assert(outer_drawn(source, *rng, plan, value));
                }
            } else {
                assert(links@[i as int]@[dir as int] is Some);
                assert(outers_drawn(mid, *rng, plan, links@, rows@, 6 * i + dir + 1));
            }
        }
    }
    assert(false_rows(links@, rows@, plan));
    assert(inners_drawn(*old(rng), mid, plan.core, values) && links_cells(cells@, links@) && lists_edges(
        links@,
        edges@,
    ));
    rows
}

/// A place without a value is an outer one, as inner edges have ids.
proof fn lemma_zero_is_outer(links: Seq<[Option<usize>; 6]>, rows: Seq<[i32; 6]>, core: Seq<i32>, c: int, dir: int)
    requires
        links.len() <= usize::MAX,
        links_in_range(links),
        links_mutual(links),
        0 <= c < links.len(),
        0 <= dir < 6,
        forall|e: Edge| #[trigger] joins(links, e) && is_forward(e) ==> inner_fits(rows, e, core),
        rows[c]@[dir] == 0,
    ensures
        links[c]@[dir] is None,
{
    if links[c]@[dir] is Some {
        let nb = links[c]@[dir]->0;
        let here = (c as usize, nb, dir as usize);
        assert(joins(links, here));
        lemma_edge_back(links, here);
        if c < nb {
            assert(is_forward(here));
            assert(inner_fits(rows, here, core));
        } else {
            let back = (nb, c as usize, opposite(dir) as usize);
            assert(joins(links, back) && is_forward(back));
            assert(inner_fits(rows, back, core));
            assert(opposite(opposite(dir)) == dir);
        }
    }
}

/// The size of a cluster that is asked for: at least one cell.
pub open spec fn cluster_size(asked: usize) -> usize {
    if asked > 1 {
        asked
    } else {
        1
    }
}

/// The sizes of the clusters that the first `n` entries ask for, in order.
pub open spec fn sizes_of(clusters: Seq<(usize, usize)>, n: int) -> Seq<usize>
    decreases n,
{
    if n <= 0 {
        Seq::empty()
    } else {
        let (size, count) = clusters[n - 1];
        sizes_of(clusters, n - 1) + Seq::new(count as nat, |i: int| cluster_size(size))
    }
}

/// The sizes of the clusters that the settings ask for, in order.
fn list_sizes(clusters: &Vec<(usize, usize)>) -> (sizes: Vec<usize>)
    ensures
        sizes@ == sizes_of(clusters@, clusters.len() as int),
{
    let mut sizes: Vec<usize> = Vec::new();
    for k in 0..clusters.len()
        invariant
            sizes@ == sizes_of(clusters@, k as int),
    {
        let (size, count) = clusters[k];
        let ghost before = sizes@;
        let each: usize = if size > 1 { size } else { 1 };
        for i in 0..count
            invariant
                each == cluster_size(size),
                sizes@ == before + Seq::new(i as nat, |j: int| cluster_size(size)),
        {
            sizes.push(each);
            assert(sizes@ =~= before + Seq::new((i + 1) as nat, |j: int| cluster_size(size)));
        }
    }
    sizes
}

/// Whether the piece is a false one of this cluster, with these edge values
/// turned somehow, and with a back id if `back` calls for one.
pub open spec fn is_false_piece(piece: Piece, id: int, cluster: int, row: Seq<i32>, back: bool) -> bool {
    &&& piece.id == id
    &&& !piece.is_true
    &&& piece.cluster_id == Some(cluster as usize)
    &&& piece.back_id is Some == back
    &&& exists|rot: int| 0 <= rot < 6 && piece.edges@ == #[trigger] rotated(row, rot)
}

/// Whether the pieces from `start` on are the false cluster number `cluster`
/// of that size, with ids from `first_id` on.
pub open spec fn holds_cluster(
    pieces: Seq<Piece>,
    start: int,
    size: int,
    first_id: int,
    cluster: int,
    plan: ClusterPlan,
    back: bool,
) -> bool {
    exists|cells: Seq<Axial>, rows: Seq<[i32; 6]>| #[trigger]
        is_false_cluster(cells, rows, plan) && cluster_pieces(
            pieces,
            start,
            size,
            first_id,
            cluster,
            cells,
            rows,
            back,
        )
}

pub open spec fn cluster_pieces(
    pieces: Seq<Piece>,
    start: int,
    size: int,
    first_id: int,
    cluster: int,
    cells: Seq<Axial>,
    rows: Seq<[i32; 6]>,
    back: bool,
) -> bool {
    &&& is_cluster(cells)
    &&& cells.len() == size
    &&& rows.len() == size
    &&& forall|i: int|
        start <= i < start + size ==> is_false_piece(
            #[trigger] pieces[i],
            first_id + (i - start),
            cluster,
            rows[i - start]@,
            back,
        )
}

/// Whether `pieces` are the false pieces of clusters of these sizes, with
/// ids from `first_id` on.
pub open spec fn false_pieces_of(
    pieces: Seq<Piece>,
    sizes: Seq<usize>,
    n: int,
    first_id: int,
    plan: ClusterPlan,
    back: bool,
) -> bool {
    &&& pieces.len() == size_sum(sizes, n)
    &&& forall|k: int|
        0 <= k < n ==> #[trigger] holds_cluster(
            pieces,
            size_sum(sizes, k),
            sizes[k] as int,
            first_id + size_sum(sizes, k),
            k,
            plan,
            back,
        )
}

/// Whether every piece has a valid outline.
pub open spec fn all_valid<G>(memo: Map<Seq<i32>, Option<G>>, pieces: Seq<Piece>) -> bool {
    forall|i: int| 0 <= i < pieces.len() ==> valid_in(memo, (#[trigger] pieces[i]).edges@)
}

/// Whether `rows` are edge values of a false cluster of that size with a
/// piece that has no valid outline.
pub open spec fn refused_cluster<G>(
    memo: Map<Seq<i32>, Option<G>>,
    size: int,
    plan: ClusterPlan,
    cells: Seq<Axial>,
    rows: Seq<[i32; 6]>,
) -> bool {
    &&& is_cluster(cells)
    &&& cells.len() == size
    &&& rows.len() == size
    &&& is_false_cluster(cells, rows, plan)
    &&& exists|i: int| 0 <= i < rows.len() && judged(memo, rows[i]@) && !valid_in(memo, (#[trigger] rows[i])@)
}

/// Whether `tries` are as many tries at cluster `k` as the settings allow,
/// all of them refused.
pub open spec fn gave_up<G>(
    memo: Map<Seq<i32>, Option<G>>,
    sizes: Seq<usize>,
    plan: ClusterPlan,
    max_retries: int,
    k: int,
    tries: Seq<(Seq<Axial>, Seq<[i32; 6]>)>,
) -> bool {
    &&& 0 <= k < sizes.len()
    &&& tries.len() == max_retries
    &&& forall|t: int|
        0 <= t < tries.len() ==> refused_cluster(memo, sizes[k] as int, plan, (#[trigger] tries[t]).0, tries[t].1)
}

/// Whether the pieces from `start` on are a false cluster of that size that is
/// made of what generator `before` gives, and the generator is `after` then:
/// its cells, its edge values, and how the pieces are turned.
pub open spec fn cluster_drawn(
    before: StdRng,
    after: StdRng,
    plan: ClusterPlan,
    size: int,
    pieces: Seq<Piece>,
    start: int,
    back: bool,
) -> bool {
    exists|mid: StdRng, last: StdRng, cells: Seq<Axial>, rows: Seq<[i32; 6]>|
        #![trigger neighbours_drawn(before, mid, size, cells), rows_drawn(mid, last, plan, cells, rows)]
        neighbours_drawn(before, mid, size, cells) && rows_drawn(mid, last, plan, cells, rows) && rows.len() == size
            && turns_drawn(last, after, rows, pieces, start, size, back)
}

/// Whether a false cluster is made of what generator `before` gives as far as
/// the turn of a piece that is refused, and the generator is `after` then.
pub open spec fn refusal_drawn(
    before: StdRng,
    after: StdRng,
    plan: ClusterPlan,
    size: int,
    back: bool,
    cells: Seq<Axial>,
    rows: Seq<[i32; 6]>,
) -> bool {
    exists|mid: StdRng, last: StdRng, end: StdRng, pieces: Seq<Piece>, k: int, rot: usize|
        #![trigger neighbours_drawn(before, mid, size, cells), rows_drawn(mid, last, plan, cells, rows), turns_drawn(last, end, rows, pieces, 0, k, back), gave_index(end, after, 0, 6, rot)]
        neighbours_drawn(before, mid, size, cells) && rows_drawn(mid, last, plan, cells, rows) && turns_drawn(
            last,
            end,
            rows,
            pieces,
            0,
            k,
            back,
        ) && 0 <= k < size && gave_index(end, after, 0, 6, rot)
}

/// Whether the tries are made of what generator `before` gives in turn, and
/// the generator is `after` then.
pub open spec fn refusals_drawn(
    before: StdRng,
    after: StdRng,
    plan: ClusterPlan,
    size: int,
    back: bool,
    tries: Seq<(Seq<Axial>, Seq<[i32; 6]>)>,
) -> bool
    decreases tries.len(),
{
    if tries.len() == 0 {
        before == after
    } else {
        exists|mid: StdRng| #[trigger]
            refusal_drawn(mid, after, plan, size, back, tries.last().0, tries.last().1) && refusals_drawn(
                before,
                mid,
                plan,
                size,
                back,
                tries.drop_last(),
            )
    }
}

/// Whether the first `k` clusters are made of what generator `before` gives in
/// turn, each after fewer tries than `max_retries` that came to nothing, and
/// the generator is `after` then.
pub open spec fn clusters_drawn(
    before: StdRng,
    after: StdRng,
    plan: ClusterPlan,
    sizes: Seq<usize>,
    pieces: Seq<Piece>,
    k: int,
    max_retries: int,
    back: bool,
) -> bool
    decreases k,
{
    if k <= 0 {
        before == after
    } else {
        exists|mid: StdRng, last: StdRng, tries: Seq<(Seq<Axial>, Seq<[i32; 6]>)>, size: int, start: int|
            #![trigger refusals_drawn(mid, last, plan, size, back, tries), cluster_drawn(last, after, plan, size, pieces, start, back)]
            refusals_drawn(mid, last, plan, size, back, tries) && tries.len() < max_retries && cluster_drawn(
                last,
                after,
                plan,
                size,
                pieces,
                start,
                back,
            ) && size == sizes[k - 1] && start == size_sum(sizes, k - 1) && clusters_drawn(
                before,
                mid,
                plan,
                sizes,
                pieces,
                k - 1,
                max_retries,
                back,
            )
    }
}

proof fn lemma_cluster_drawn_moved(
    before: StdRng,
    after: StdRng,
    plan: ClusterPlan,
    size: int,
    pieces: Seq<Piece>,
    start: int,
    other: Seq<Piece>,
    to: int,
    back: bool,
)
    requires
        cluster_drawn(before, after, plan, size, pieces, start, back),
        forall|i: int| start <= i < start + size ==> #[trigger] pieces[i] == other[i - start + to],
    ensures
        cluster_drawn(before, after, plan, size, other, to, back),
{
    let (mid, last, cells, rows) = choose|mid: StdRng, last: StdRng, cells: Seq<Axial>, rows: Seq<[i32; 6]>|
        #![trigger neighbours_drawn(before, mid, size, cells), rows_drawn(mid, last, plan, cells, rows)]
        neighbours_drawn(before, mid, size, cells) && rows_drawn(mid, last, plan, cells, rows) && rows.len() == size
            && turns_drawn(last, after, rows, pieces, start, size, back);
    lemma_turns_moved(last, after, rows, pieces, start, other, to, size, back);
    assert(neighbours_drawn(before, mid, size, cells) && rows_drawn(mid, last, plan, cells, rows));
}

proof fn lemma_clusters_kept(
    before: StdRng,
    after: StdRng,
    plan: ClusterPlan,
    sizes: Seq<usize>,
    pieces: Seq<Piece>,
    more: Seq<Piece>,
    k: int,
    max_retries: int,
    back: bool,
)
    requires
        clusters_drawn(before, after, plan, sizes, pieces, k, max_retries, back),
        0 <= k <= sizes.len(),
        size_sum(sizes, k) <= pieces.len() <= more.len(),
        forall|i: int| 0 <= i < pieces.len() ==> #[trigger] pieces[i] == more[i],
    ensures
        clusters_drawn(before, after, plan, sizes, more, k, max_retries, back),
    decreases k,
{
    if k > 0 {
        let (mid, last, tries, size, start) = choose|
            mid: StdRng,
            last: StdRng,
            tries: Seq<(Seq<Axial>, Seq<[i32; 6]>)>,
            size: int,
            start: int,
        |
            #![trigger refusals_drawn(mid, last, plan, size, back, tries), cluster_drawn(last, after, plan, size, pieces, start, back)]
            refusals_drawn(mid, last, plan, size, back, tries) && tries.len() < max_retries && cluster_drawn(
                last,
                after,
                plan,
                size,
                pieces,
                start,
                back,
            ) && size == sizes[k - 1] && start == size_sum(sizes, k - 1) && clusters_drawn(
                before,
                mid,
                plan,
                sizes,
                pieces,
                k - 1,
                max_retries,
                back,
            );
        lemma_size_sum_grows(sizes, k - 1, k);
        lemma_clusters_kept(before, mid, plan, sizes, pieces, more, k - 1, max_retries, back);
        lemma_cluster_drawn_moved(last, after, plan, size, pieces, start, more, start, back);
        assert(refusals_drawn(mid, last, plan, size, back, tries) && cluster_drawn(
            last,
            after,
            plan,
            size,
            more,
            start,
            back,
        ));
    }
}

/// One attempt at a false cluster: its pieces, or none if one of them has no
/// valid outline.
fn try_cluster<G, B: Fn(&[i32; 6]) -> Option<G>>(
    size: usize,
    cluster_id: usize,
    first_id: usize,
    cfg: &GeneratorConfig,
    rng: &mut StdRng,
    memo: &mut GeomMemo<G>,
    build: &B,
    core_ids: &Vec<i32>,
    true_ids: &Vec<i32>,
    unused_ids: &Vec<i32>,
) -> (tried: Option<Vec<Piece>>)
    requires
        old(memo).wf(),
        forall|canon: &[i32; 6]| #[trigger] build.requires((canon,)),
        1 <= size < i32::MAX,
        first_id + size <= usize::MAX,
        core_ids.len() > 0,
        forall|i: int| 0 <= i < core_ids.len() ==> #[trigger] core_ids@[i] > 0,
        forall|i: int| 0 <= i < true_ids.len() ==> #[trigger] true_ids@[i] > 0,
        forall|i: int| 0 <= i < unused_ids.len() ==> #[trigger] unused_ids@[i] > 0,
    ensures
        final(memo).wf(),
        final(memo).edge_meta == old(memo).edge_meta,
        memo_grew(old(memo).cache@, final(memo).cache@, *build),
        match tried {
            Some(pieces) => {
                &&& pieces.len() == size
                &&& holds_cluster(
                    pieces@,
                    0,
                    size as int,
                    first_id as int,
                    cluster_id as int,
                    ClusterPlan {
                        core: core_ids@,
                        attach: true_ids@,
                        unused: unused_ids@,
                        flat_cut: cfg.flat_cut,
                        attach_cut: cfg.attach_cut,
                    },
                    cfg.back_id,
                )
                &&& all_valid(final(memo).cache@, pieces@)
                &&& cluster_drawn(
                    *old(rng),
                    *final(rng),
                    ClusterPlan {
                        core: core_ids@,
                        attach: true_ids@,
                        unused: unused_ids@,
                        flat_cut: cfg.flat_cut,
                        attach_cut: cfg.attach_cut,
                    },
                    size as int,
                    pieces@,
                    0,
                    cfg.back_id,
                )
            },
            None => {
                &&& !never_refuses(old(memo).cache@, *build)
                &&& exists|cells: Seq<Axial>, rows: Seq<[i32; 6]>| #[trigger]
                    refused_cluster(
                        final(memo).cache@,
                        size as int,
                        ClusterPlan {
                            core: core_ids@,
                            attach: true_ids@,
                            unused: unused_ids@,
                            flat_cut: cfg.flat_cut,
                            attach_cut: cfg.attach_cut,
                        },
                        cells,
                        rows,
                    ) && refusal_drawn(
                        *old(rng),
                        *final(rng),
                        ClusterPlan {
                            core: core_ids@,
                            attach: true_ids@,
                            unused: unused_ids@,
                            flat_cut: cfg.flat_cut,
                            attach_cut: cfg.attach_cut,
                        },
                        size as int,
                        cfg.back_id,
                        cells,
                        rows,
                    )
            },
        },
{
    let ghost plan = ClusterPlan {
        core: core_ids@,
        attach: true_ids@,
        unused: unused_ids@,
        flat_cut: cfg.flat_cut,
        attach_cut: cfg.attach_cut,
    };
    let cells: Vec<Axial> = random_cluster(size, rng);
    proof {
        assert forall|i: int| #![trigger cells@[i]]
            0 <= i < cells.len() implies i32::MIN < cells@[i].q < i32::MAX && i32::MIN < cells@[i].r < i32::MAX by {
            assert(-i <= cells@[i].q <= i);
        }
    }
    let ghost mid = *rng;
    let rows: Vec<[i32; 6]> = assign_decoy_cluster(&cells, cfg, rng, core_ids, true_ids, unused_ids);
    let ghost last = *rng;
    assert(neighbours_drawn(*old(rng), mid, size as int, cells@) && rows_drawn(mid, last, plan, cells@, rows@));
    let mut pieces: Vec<Piece> = Vec::new();
    let ghost start = memo.cache@;
    for i in 0..rows.len()
        invariant
            memo.wf(),
            memo.edge_meta == old(memo).edge_meta,
            start == old(memo).cache@,
            memo_grew(start, memo.cache@, *build),
            forall|canon: &[i32; 6]| #[trigger] build.requires((canon,)),
            cells.len() == size,
            rows.len() == size,
            is_cluster(cells@),
            is_false_cluster(cells@, rows@, plan),
            plan == (ClusterPlan {
                core: core_ids@,
                attach: true_ids@,
                unused: unused_ids@,
                flat_cut: cfg.flat_cut,
                attach_cut: cfg.attach_cut,
            }),
            first_id + size <= usize::MAX,
            pieces.len() == i,
            forall|k: int|
                0 <= k < i ==> is_false_piece(
                    #[trigger] pieces@[k],
                    first_id + k,
                    cluster_id as int,
                    rows@[k]@,
                    cfg.back_id,
                ),
            all_valid(memo.cache@, pieces@),
            neighbours_drawn(*old(rng), mid, size as int, cells@),
            rows_drawn(mid, last, plan, cells@, rows@),
            turns_drawn(last, *rng, rows@, pieces@, 0, i as int, cfg.back_id),
    {
        let ghost source = *rng;
        let rot: usize = next_index(rng, 0, 6);
        let ghost turned = *rng;
        let edges: [i32; 6] = rotate_edges(&rows[i], rot);
        let ghost before = memo.cache@;
        if !is_piece_valid(&edges, memo, build) {
            proof {
                lemma_memo_grew(start, before, memo.cache@, *build);
                if never_refuses(start, *build) {
                    lemma_never_refuses(start, memo.cache@, *build);
                }
                law_turned_valid(memo.cache@, rows@[i as int]@, rot as int);
                assert(refused_cluster(memo.cache@, size as int, plan, cells@, rows@));
                assert(turns_drawn(last, source, rows@, pieces@, 0, i as int, cfg.back_id) && gave_index(
                    source,
                    *rng,
                    0,
                    6,
                    rot,
                ));
                assert(refusal_drawn(*old(rng), *rng, plan, size as int, cfg.back_id, cells@, rows@));
            }
            return None;
        }
        let mut back_id: Option<u64> = None;
        if cfg.back_id {
            back_id = Some(next_word(rng));
        }
        let piece: Piece = Piece {
            id: first_id + i,
            edges,
            is_true: false,
            cluster_id: Some(cluster_id),
            back_id,
        };
        let ghost past = pieces@;
        assert(piece.edges@ == rotated(rows@[i as int]@, rot as int));
        pieces.push(piece);
        proof {
            assert(gave_index(source, turned, 0, 6, rot));
            assert(turn_drawn(source, *rng, rows@[i as int]@, piece, cfg.back_id));
            lemma_turns_moved(last, source, rows@, past, 0, pieces@, 0, i as int, cfg.back_id);
            lemma_memo_grew(start, before, memo.cache@, *build);
            lemma_all_valid_kept(before, memo.cache@, *build, past);
            assert forall|k: int| 0 <= k < pieces.len() implies valid_in(memo.cache@, (#[trigger] pieces@[k]).edges@) by {
                if k < i {
                    assert(pieces@[k] == past[k]);
                }
            }
        }
    }
    proof {
        assert(is_false_cluster(cells@, rows@, plan) && cluster_pieces(
            pieces@,
            0,
            size as int,
            first_id as int,
            cluster_id as int,
            cells@,
            rows@,
            cfg.back_id,
        ));
    }
    Some(pieces)
}

pub(crate) proof fn lemma_all_valid_kept<G, B: Fn(&[i32; 6]) -> Option<G>>(
    before: Map<Seq<i32>, Option<G>>,
    after: Map<Seq<i32>, Option<G>>,
    build: B,
    pieces: Seq<Piece>,
)
    requires
        memo_grew(before, after, build),
        all_valid(before, pieces),
    ensures
        all_valid(after, pieces),
{
}

proof fn lemma_refused_kept<G, B: Fn(&[i32; 6]) -> Option<G>>(
    before: Map<Seq<i32>, Option<G>>,
    after: Map<Seq<i32>, Option<G>>,
    build: B,
    size: int,
    plan: ClusterPlan,
    cells: Seq<Axial>,
    rows: Seq<[i32; 6]>,
)
    requires
        memo_grew(before, after, build),
        refused_cluster(before, size, plan, cells, rows),
    ensures
        refused_cluster(after, size, plan, cells, rows),
{
    let i = choose|i: int| 0 <= i < rows.len() && judged(before, rows[i]@) && !valid_in(before, (#[trigger] rows[i])@);
    assert(judged(after, rows[i]@) && !valid_in(after, rows[i]@));
}

proof fn lemma_cluster_moved(
    part: Seq<Piece>,
    from: int,
    whole: Seq<Piece>,
    to: int,
    size: int,
    first_id: int,
    cluster: int,
    plan: ClusterPlan,
    back: bool,
)
    requires
        0 <= from,
        0 <= to,
        from + size <= part.len(),
        to + size <= whole.len(),
        forall|i: int| to <= i < to + size ==> #[trigger] whole[i] == part[i - to + from],
        holds_cluster(part, from, size, first_id, cluster, plan, back),
    ensures
        holds_cluster(whole, to, size, first_id, cluster, plan, back),
{
    let (cells, rows) = choose|cells: Seq<Axial>, rows: Seq<[i32; 6]>| #[trigger]
        is_false_cluster(cells, rows, plan) && cluster_pieces(part, from, size, first_id, cluster, cells, rows, back);
    assert(cluster_pieces(whole, to, size, first_id, cluster, cells, rows, back)) by {
        assert forall|i: int| to <= i < to + size implies is_false_piece(
            #[trigger] whole[i],
            first_id + (i - to),
            cluster,
            rows[i - to]@,
            back,
        ) by {
            let j = i - to + from;
            assert(is_false_piece(part[j], first_id + (j - from), cluster, rows[j - from]@, back));
        }
    }
}

/// The false pieces of a puzzle, with ids from `start_id` on: each cluster is
/// tried up to as many times as the settings allow.
pub fn generate_decoy_clusters<G, B: Fn(&[i32; 6]) -> Option<G>>(
    cfg: &GeneratorConfig,
    rng: &mut StdRng,
    memo: &mut GeomMemo<G>,
    build: &B,
    core_ids: &Vec<i32>,
    true_ids: &Vec<i32>,
    unused_ids: &Vec<i32>,
    start_id: usize,
) -> (made: Result<Vec<Piece>, GeneratorError>)
    requires
        old(memo).wf(),
        forall|canon: &[i32; 6]| #[trigger] build.requires((canon,)),
        fits_clusters(cfg.false_clusters@, start_id as int),
        core_ids.len() > 0,
        forall|i: int| 0 <= i < core_ids.len() ==> #[trigger] core_ids@[i] > 0,
        forall|i: int| 0 <= i < true_ids.len() ==> #[trigger] true_ids@[i] > 0,
        forall|i: int| 0 <= i < unused_ids.len() ==> #[trigger] unused_ids@[i] > 0,
    ensures
        final(memo).wf(),
        final(memo).edge_meta == old(memo).edge_meta,
        memo_grew(old(memo).cache@, final(memo).cache@, *build),
        match made {
            Ok(pieces) => {
                let sizes = sizes_of(cfg.false_clusters@, cfg.false_clusters@.len() as int);
                &&& false_pieces_of(
                    pieces@,
                    sizes,
                    sizes.len() as int,
                    start_id as int,
                    ClusterPlan {
                        core: core_ids@,
                        attach: true_ids@,
                        unused: unused_ids@,
                        flat_cut: cfg.flat_cut,
                        attach_cut: cfg.attach_cut,
                    },
                    cfg.back_id,
                )
                &&& all_valid(final(memo).cache@, pieces@)
                &&& clusters_drawn(
                    *old(rng),
                    *final(rng),
                    ClusterPlan {
                        core: core_ids@,
                        attach: true_ids@,
                        unused: unused_ids@,
                        flat_cut: cfg.flat_cut,
                        attach_cut: cfg.attach_cut,
                    },
                    sizes,
                    pieces@,
                    sizes.len() as int,
                    cfg.max_retries as int,
                    cfg.back_id,
                )
            },
            Err(e) => {
                let sizes = sizes_of(cfg.false_clusters@, cfg.false_clusters@.len() as int);
                let plan = ClusterPlan {
                    core: core_ids@,
                    attach: true_ids@,
                    unused: unused_ids@,
                    flat_cut: cfg.flat_cut,
                    attach_cut: cfg.attach_cut,
                };
                &&& e == GeneratorError::NoCluster
                &&& cfg.max_retries == 0 || !never_refuses(old(memo).cache@, *build)
                &&& exists|k: int, tries: Seq<(Seq<Axial>, Seq<[i32; 6]>)>| #[trigger]
                    gave_up(final(memo).cache@, sizes, plan, cfg.max_retries as int, k, tries)
            },
        },
        sizes_of(cfg.false_clusters@, cfg.false_clusters@.len() as int).len() == 0 ==> made is Ok,
        sizes_of(cfg.false_clusters@, cfg.false_clusters@.len() as int).len() > 0 && cfg.max_retries == 0 ==> made
            == Err::<Vec<Piece>, GeneratorError>(GeneratorError::NoCluster),
{
    let ghost plan = ClusterPlan {
        core: core_ids@,
        attach: true_ids@,
        unused: unused_ids@,
        flat_cut: cfg.flat_cut,
        attach_cut: cfg.attach_cut,
    };
    let sizes: Vec<usize> = list_sizes(&cfg.false_clusters);
    let ghost start = memo.cache@;
    let mut pieces: Vec<Piece> = Vec::new();
    for k in 0..sizes.len()
        invariant
            memo.wf(),
            memo.edge_meta == old(memo).edge_meta,
            start == old(memo).cache@,
            memo_grew(start, memo.cache@, *build),
            forall|canon: &[i32; 6]| #[trigger] build.requires((canon,)),
            sizes@ == sizes_of(cfg.false_clusters@, cfg.false_clusters@.len() as int),
            fits_clusters(cfg.false_clusters@, start_id as int),
            core_ids.len() > 0,
            forall|i: int| 0 <= i < core_ids.len() ==> #[trigger] core_ids@[i] > 0,
            forall|i: int| 0 <= i < true_ids.len() ==> #[trigger] true_ids@[i] > 0,
            forall|i: int| 0 <= i < unused_ids.len() ==> #[trigger] unused_ids@[i] > 0,
            plan == (ClusterPlan {
                core: core_ids@,
                attach: true_ids@,
                unused: unused_ids@,
                flat_cut: cfg.flat_cut,
                attach_cut: cfg.attach_cut,
            }),
            false_pieces_of(pieces@, sizes@, k as int, start_id as int, plan, cfg.back_id),
            all_valid(memo.cache@, pieces@),
            k > 0 ==> cfg.max_retries > 0,
            clusters_drawn(
                *old(rng),
                *rng,
                plan,
                sizes@,
                pieces@,
                k as int,
                cfg.max_retries as int,
                cfg.back_id,
            ),
    {
        let ghost mid = *rng;
        let size: usize = sizes[k];
        proof {
            assert(1 <= sizes@[k as int] < i32::MAX);
            lemma_size_sum_grows(sizes@, k + 1, sizes.len() as int);
        }
        let first_id: usize = start_id + pieces.len();
        let mut found: Option<Vec<Piece>> = None;
        let mut tries: usize = 0;
        let ghost mut refused: Seq<(Seq<Axial>, Seq<[i32; 6]>)> = Seq::empty();
        let ghost mut last = *rng;
        while found.is_none() && tries < cfg.max_retries
            invariant
                memo.wf(),
                memo.edge_meta == old(memo).edge_meta,
                start == old(memo).cache@,
                memo_grew(start, memo.cache@, *build),
                forall|canon: &[i32; 6]| #[trigger] build.requires((canon,)),
                1 <= size < i32::MAX,
                first_id + size <= usize::MAX,
                core_ids.len() > 0,
                forall|i: int| 0 <= i < core_ids.len() ==> #[trigger] core_ids@[i] > 0,
                forall|i: int| 0 <= i < true_ids.len() ==> #[trigger] true_ids@[i] > 0,
                forall|i: int| 0 <= i < unused_ids.len() ==> #[trigger] unused_ids@[i] > 0,
                plan == (ClusterPlan {
                    core: core_ids@,
                    attach: true_ids@,
                    unused: unused_ids@,
                    flat_cut: cfg.flat_cut,
                    attach_cut: cfg.attach_cut,
                }),
                k < sizes.len(),
                tries <= cfg.max_retries,
                found is Some ==> tries > 0,
                found is None && tries > 0 ==> !never_refuses(start, *build),
                found is None ==> refused.len() == tries,
                found is None ==> last == *rng,
                found is Some ==> refused.len() == tries - 1,
                refusals_drawn(mid, last, plan, size as int, cfg.back_id, refused),
                forall|t: int|
                    0 <= t < refused.len() ==> refused_cluster(
                        memo.cache@,
                        size as int,
                        plan,
                        (#[trigger] refused[t]).0,
                        refused[t].1,
                    ),
                size == sizes@[k as int],
                sizes@ == sizes_of(cfg.false_clusters@, cfg.false_clusters@.len() as int),
                all_valid(memo.cache@, pieces@),
                match found {
                    Some(cluster) => {
                        &&& cluster.len() == size
                        &&& holds_cluster(
                            cluster@,
                            0,
                            size as int,
                            first_id as int,
                            k as int,
                            plan,
                            cfg.back_id,
                        )
                        &&& all_valid(memo.cache@, cluster@)
                        &&& cluster_drawn(last, *rng, plan, size as int, cluster@, 0, cfg.back_id)
                    },
                    None => true,
                },
            decreases cfg.max_retries - tries,
        {
            tries = tries + 1;
            let ghost before = memo.cache@;
            found = try_cluster(
                size,
                k,
                first_id,
                cfg,
                rng,
                memo,
                build,
                core_ids,
                true_ids,
                unused_ids,
            );
            proof {
                lemma_memo_grew(start, before, memo.cache@, *build);
                lemma_all_valid_kept(before, memo.cache@, *build, pieces@);
                if never_refuses(start, *build) {
                    lemma_never_refuses(start, before, *build);
                }
                let past = refused;
                assert forall|t: int| 0 <= t < past.len() implies refused_cluster(
                    memo.cache@,
                    size as int,
                    plan,
                    (#[trigger] past[t]).0,
                    past[t].1,
                ) by {
                    lemma_refused_kept(before, memo.cache@, *build, size as int, plan, past[t].0, past[t].1);
                }
                if found is None {
                    let (cells, rows) = choose|cells: Seq<Axial>, rows: Seq<[i32; 6]>| #[trigger]
                        refused_cluster(memo.cache@, size as int, plan, cells, rows) && refusal_drawn(
                            last,
                            *rng,
                            plan,
                            size as int,
                            cfg.back_id,
                            cells,
                            rows,
                        );
                    refused = past.push((cells, rows));
                    assert(refused.drop_last() =~= past);
                    assert(refusal_drawn(
                        last,
                        *rng,
                        plan,
                        size as int,
                        cfg.back_id,
                        refused.last().0,
                        refused.last().1,
                    ));
                    last = *rng;
                }
            }
        }
        match found {
            Some(mut cluster) => {
                let ghost before = pieces@;
                let ghost added = cluster@;
                pieces.append(&mut cluster);
                proof {
                    assert(pieces@ =~= before + added);
                    lemma_size_sum_grows(sizes@, k as int, k as int);
                    lemma_clusters_kept(
                        *old(rng),
                        mid,
                        plan,
                        sizes@,
                        before,
                        pieces@,
                        k as int,
                        cfg.max_retries as int,
                        cfg.back_id,
                    );
                    lemma_cluster_drawn_moved(
                        last,
                        *rng,
                        plan,
                        size as int,
                        added,
                        0,
                        pieces@,
                        before.len() as int,
                        cfg.back_id,
                    );
                    assert(refusals_drawn(mid, last, plan, size as int, cfg.back_id, refused) && cluster_drawn(
                        last,
                        *rng,
                        plan,
                        size as int,
                        pieces@,
                        before.len() as int,
                        cfg.back_id,
                    ));
                    assert forall|j: int| 0 <= j < k + 1 implies #[trigger] holds_cluster(
                        pieces@,
                        size_sum(sizes@, j),
                        sizes@[j] as int,
                        start_id + size_sum(sizes@, j),
                        j,
                        plan,
                        cfg.back_id,
                    ) by {
                        lemma_size_sum_grows(sizes@, j, j);
                        if j < k {
                            lemma_size_sum_grows(sizes@, j + 1, k as int);
                            lemma_cluster_moved(
                                before,
                                size_sum(sizes@, j),
                                pieces@,
                                size_sum(sizes@, j),
                                sizes@[j] as int,
                                start_id + size_sum(sizes@, j),
                                j,
                                plan,
                                cfg.back_id,
                            );
                        } else {
                            lemma_cluster_moved(
                                added,
                                0,
                                pieces@,
                                size_sum(sizes@, j),
                                sizes@[j] as int,
                                start_id + size_sum(sizes@, j),
                                j,
                                plan,
                                cfg.back_id,
                            );
                        }
                    }
                    assert forall|i: int| 0 <= i < pieces.len() implies valid_in(
                        memo.cache@,
                        (#[trigger] pieces@[i]).edges@,
                    ) by {
                        if i < before.len() {
                            assert(pieces@[i] == before[i]);
                        } else {
                            assert(pieces@[i] == added[i - before.len()]);
                        }
                    }
                }
            },
            None => {
                assert(gave_up(memo.cache@, sizes@, plan, cfg.max_retries as int, k as int, refused));
                return Err(GeneratorError::NoCluster);
            },
        }
    }
    Ok(pieces)
}

/// Whether the pieces of the clusters asked for can be numbered.
pub open spec fn fits_clusters(clusters: Seq<(usize, usize)>, start_id: int) -> bool {
    let sizes = sizes_of(clusters, clusters.len() as int);
    &&& forall|i: int| 0 <= i < sizes.len() ==> 1 <= #[trigger] sizes[i] < i32::MAX
    &&& start_id + size_sum(sizes, sizes.len() as int) <= usize::MAX
}

/// Whether the pieces of the clusters asked for can be numbered from
/// `start_id` on.
pub fn clusters_fit(clusters: &Vec<(usize, usize)>, start_id: usize) -> (fits: bool)
    ensures
        fits == fits_clusters(clusters@, start_id as int),
{
    let sizes: Vec<usize> = list_sizes(clusters);
    let mut next: usize = start_id;
    for i in 0..sizes.len()
        invariant
            sizes@ == sizes_of(clusters@, clusters.len() as int),
            next == start_id + size_sum(sizes@, i as int),
            forall|k: int| 0 <= k < i ==> 1 <= #[trigger] sizes@[k] < i32::MAX,
    {
        let size: usize = sizes[i];
        if size < 1 || size >= 0x7fff_ffff {
            assert(!(1 <= sizes@[i as int] < i32::MAX));
            return false;
        }
        if size > usize::MAX - next {
            proof {
                lemma_size_sum_grows(sizes@, i + 1, sizes.len() as int);
            }
            return false;
        }
        next = next + size;
    }
    true
}

} // verus!
