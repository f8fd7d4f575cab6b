//! What the rules of generated puzzles come to: the lists of ids, the aims of
//! the pieces, the worth of changes, and the false clusters.

use crate::decoys::{
    inners_drawn, outer_drawn, outers_drawn, pool_or, rows_drawn, shows_values, sign_drawn, signed_drawn, sizes_of,
    ClusterPlan,
};
use crate::edges::{lists_edges, Edge};
use crate::generator::{unused_below, GeneratorConfig, GeneratorError};
use crate::geometry::EdgeMeta;
use crate::grid::{link_of, links_cells, rotated, steps_to, Axial};
use crate::id_plan::{anchor_target, list_fault, lists_from, lower, lowest_first, IdLists};
use crate::orient::{degree, notch_pairs, notches};
use crate::repair::{best_move, bonus_of, Move};
use crate::rng::{gave_coin, gave_item, gave_word};
use crate::trial_pieces::roll_drawn;
use rand::rngs::StdRng;
use vstd::prelude::*;

verus! {

/// As many edges are anchored as asked for, if that is at least one and at
/// most one for each edge of a spanning tree; otherwise the nearer of these.
pub proof fn law_anchor_target(asked: int, cells: int)
    requires
        0 <= asked,
    ensures
        cells <= 1 ==> anchor_target(asked, cells) == 0,
        cells > 1 ==> 1 <= anchor_target(asked, cells) <= cells - 1,
        1 <= asked <= cells - 1 ==> anchor_target(asked, cells) == asked,
        cells > 1 && asked >= cells ==> anchor_target(asked, cells) == cells - 1,
{
}

/// There are lists of ids if there is a core, it lies within the alphabet,
/// and the rest of the alphabet suffices for the anchors.
pub proof fn law_lists_there(cfg: GeneratorConfig, cells: int)
    ensures
        list_fault(cfg, cells) is None <==> 1 <= cfg.core_alphabet && cfg.core_alphabet + anchor_target(
            cfg.anchor_count as int,
            cells,
        ) <= cfg.total_alphabet,
        list_fault(cfg, cells) == Some(GeneratorError::CoreTooSmall) <==> cfg.core_alphabet <= 0,
        list_fault(cfg, cells) == Some(GeneratorError::AlphabetTooSmall) <==> 0 < cfg.core_alphabet
            && cfg.total_alphabet < cfg.core_alphabet,
{
}

/// The core has the lowest ids, the anchors the next ones, and up to two ids
/// behind them are chiral.
pub proof fn law_lists_ascend(lists: IdLists, sorted: Seq<i32>, meta: Seq<EdgeMeta>, total: int, core: int, target: int)
    requires
        lowest_first(sorted, meta, total),
        0 <= core,
        0 <= target,
        core + target <= total,
        lists_from(lists, sorted, core, target),
    ensures
        lists.core@.len() == core,
        lists.anchors@.len() == target,
        lists.chiral@.len() == (if total - core - target < 2 {
            total - core - target
        } else {
            2
        }),
        forall|i: int, j: int|
            0 <= i < core && 0 <= j < target ==> lower(meta, #[trigger] lists.core@[i], #[trigger] lists.anchors@[j]),
        forall|i: int, j: int|
            0 <= i < target && 0 <= j < lists.chiral@.len() ==> lower(
                meta,
                #[trigger] lists.anchors@[i],
                #[trigger] lists.chiral@[j],
            ),
        forall|i: int, id: int|
            0 <= i < core && core <= id < total ==> lower(meta, #[trigger] lists.core@[i], #[trigger] sorted[id]),
{
    assert forall|i: int, j: int| 0 <= i < core && 0 <= j < target implies lower(
        meta,
        #[trigger] lists.core@[i],
        #[trigger] lists.anchors@[j],
    ) by {
        assert(lists.core@[i] == sorted[i] && lists.anchors@[j] == sorted[core + j]);
    }
    assert forall|i: int, j: int| 0 <= i < target && 0 <= j < lists.chiral@.len() implies lower(
        meta,
        #[trigger] lists.anchors@[i],
        #[trigger] lists.chiral@[j],
    ) by {
        assert(lists.anchors@[i] == sorted[core + i] && lists.chiral@[j] == sorted[core + target + j]);
    }
    assert forall|i: int, id: int| 0 <= i < core && core <= id < total implies lower(
        meta,
        #[trigger] lists.core@[i],
        #[trigger] sorted[id],
    ) by {
        assert(lists.core@[i] == sorted[i]);
    }
}

/// One if it holds, and nothing if not.
pub open spec fn one_if(holds: bool) -> int {
    if holds {
        1
    } else {
        0
    }
}

/// The degree of a cell is the number of directions with a neighbour.
pub proof fn law_degree(row: Seq<Option<usize>>)
    ensures
        degree(row, 6) == one_if(row[0] is Some) + one_if(row[1] is Some) + one_if(row[2] is Some) + one_if(
            row[3] is Some,
        ) + one_if(row[4] is Some) + one_if(row[5] is Some),
{
    reveal_with_fuel(degree, 7);
}

/// A piece has as many notches, and as many notches side by side, however it
/// is turned.
pub proof fn law_notches_turned(edges: Seq<i32>, rot: int)
    requires
        edges.len() == 6,
        0 <= rot < 6,
    ensures
        notches(rotated(edges, rot), 6) == notches(edges, 6),
        notch_pairs(rotated(edges, rot), 6) == notch_pairs(edges, 6),
{
    reveal_with_fuel(notches, 7);
    reveal_with_fuel(notch_pairs, 7);
}

/// The notches of a piece are its sides with a negative value, and the pairs
/// are those of them that stand next to another, once around.
pub proof fn law_notches(edges: Seq<i32>)
    requires
        edges.len() == 6,
    ensures
        notches(edges, 6) == one_if(edges[0] < 0) + one_if(edges[1] < 0) + one_if(edges[2] < 0) + one_if(edges[3] < 0)
            + one_if(edges[4] < 0) + one_if(edges[5] < 0),
        notch_pairs(edges, 6) == one_if(edges[0] < 0 && edges[1] < 0) + one_if(edges[1] < 0 && edges[2] < 0) + one_if(
            edges[2] < 0 && edges[3] < 0,
        ) + one_if(edges[3] < 0 && edges[4] < 0) + one_if(edges[4] < 0 && edges[5] < 0) + one_if(
            edges[5] < 0 && edges[0] < 0,
        ),
{
    reveal_with_fuel(notches, 7);
    reveal_with_fuel(notch_pairs, 7);
}

/// A piece that a change makes valid, or leaves so, is worth the same
/// whatever becomes of the other: more for the piece under repair than for
/// its neighbour. A piece that was valid takes a million away.
pub proof fn law_bonus(was_cell: bool, was_nb: bool, now_cell: bool, now_nb: bool)
    ensures
        bonus_of(was_cell, was_nb, true, now_nb) == bonus_of(was_cell, was_nb, false, now_nb) + 1_200_000,
        bonus_of(was_cell, was_nb, now_cell, true) == bonus_of(was_cell, was_nb, now_cell, false) + 1_020_000,
        bonus_of(true, was_nb, now_cell, now_nb) == bonus_of(false, was_nb, now_cell, now_nb) - 1_000_000,
        bonus_of(was_cell, true, now_cell, now_nb) == bonus_of(was_cell, false, now_cell, now_nb) - 1_000_000,
        bonus_of(was_cell, was_nb, was_cell, was_nb) == 200_000 * one_if(was_cell) + 20_000 * one_if(was_nb),
{
}

/// The best move is the first of those with the highest rating: every move
/// before it is rated lower.
pub proof fn law_best_move(moves: Seq<Move>) -> (k: int)
    requires
        moves.len() > 0,
    ensures
        0 <= k < moves.len(),
        best_move(moves) == Some(moves[k]),
        forall|i: int| 0 <= i < k ==> (#[trigger] moves[i]).key < moves[k].key,
        forall|i: int| k <= i < moves.len() ==> (#[trigger] moves[i]).key <= moves[k].key,
    decreases moves.len(),
{
    let front = moves.drop_last();
    assert(moves[moves.len() - 1] == moves.last());
    if front.len() > 0 {
        let k = law_best_move(front);
        assert forall|i: int| 0 <= i < front.len() implies front[i] == #[trigger] moves[i] by {
        }
        if moves[k].key >= moves.last().key {
            k
        } else {
            moves.len() - 1
        }
    } else {
        0
    }
}

/// The unused ids are those from 1 to `total` that are not used, in ascending
/// order.
pub proof fn law_unused_below(used: Seq<i32>, total: int)
    requires
        0 <= total <= i32::MAX,
    ensures
        forall|id: i32| #[trigger]
            unused_below(used, total).contains(id) <==> 1 <= id <= total && !used.contains(id),
        forall|i: int, j: int|
            0 <= i < j < unused_below(used, total).len() ==> #[trigger] unused_below(used, total)[i]
                < #[trigger] unused_below(used, total)[j],
    decreases total,
{
    if total > 0 {
        law_unused_below(used, total - 1);
        let less = unused_below(used, total - 1);
        let list = unused_below(used, total);
        assert forall|id: i32| #[trigger] list.contains(id) <==> 1 <= id <= total && !used.contains(id) by {
            if list.contains(id) {
                let i = choose|i: int| 0 <= i < list.len() && list[i] == id;
                if i < less.len() {
                    assert(less[i] == id);
                    assert(less.contains(id));
                }
            }
            if 1 <= id <= total && !used.contains(id) {
                if id < total {
                    assert(less.contains(id));
                    let i = choose|i: int| 0 <= i < less.len() && less[i] == id;
                    assert(list[i] == id);
                } else {
                    assert(list[list.len() - 1] == id);
                }
            }
        }
        assert forall|i: int, j: int| 0 <= i < j < list.len() implies #[trigger] list[i] < #[trigger] list[j] by {
            if j < less.len() {
                assert(list[i] == less[i] && list[j] == less[j]);
            } else {
                assert(list[i] == less[i]);
                assert(less.contains(less[i]));
            }
        }
    }
}

/// Whether a value is an id of a pool with either sign, and not zero.
pub open spec fn from_pool(pool: Seq<i32>, value: i32) -> bool {
    value != 0 && (pool.contains(value) || pool.contains((-value) as i32))
}

/// Whether a value is that of an outer edge whose word came out of a
/// generator: by the roll that the word makes it is flat, or has an id of the
/// true pieces, or one that no true piece has. The core stands in for ids
/// that there are none of.
pub open spec fn rolled(plan: ClusterPlan, value: i32) -> bool {
    exists|before: StdRng, after: StdRng, word: u64| #[trigger]
        gave_word(before, after, word) && if word / 2048 < plan.flat_cut {
            value == 0
        } else if word / 2048 < plan.attach_cut {
            from_pool(
                if plan.attach.len() > 0 {
                    plan.attach
                } else {
                    plan.core
                },
                value,
            )
        } else {
            from_pool(
                if plan.unused.len() > 0 {
                    plan.unused
                } else {
                    plan.core
                },
                value,
            )
        }
}

/// Whether all ids are positive.
pub open spec fn all_positive(ids: Seq<i32>) -> bool {
    forall|i: int| 0 <= i < ids.len() ==> #[trigger] ids[i] > 0
}

proof fn lemma_signed_drawn(before: StdRng, after: StdRng, pool: Seq<i32>, value: i32)
    requires
        all_positive(pool),
        signed_drawn(before, after, pool, value),
    ensures
        from_pool(pool, value),
{
    let (mid, id) = choose|mid: StdRng, id: i32|
        #![trigger gave_item(before, mid, pool, Some(id)), sign_drawn(mid, after, id, value)]
        gave_item(before, mid, pool, Some(id)) && pool.contains(id) && sign_drawn(mid, after, id, value);
    let i = choose|i: int| 0 <= i < pool.len() && pool[i] == id;
    assert(pool[i] > 0);
    let heads = choose|heads: bool| #[trigger]
        gave_coin(mid, after, heads) && value == (if heads {
            id as int
        } else {
            -id
        });
    assert(value == id || (-value) as i32 == id);
}

proof fn lemma_outer_rolled(before: StdRng, after: StdRng, plan: ClusterPlan, value: i32)
    requires
        all_positive(plan.core),
        all_positive(plan.attach),
        all_positive(plan.unused),
        outer_drawn(before, after, plan, value),
    ensures
        rolled(plan, value),
{
    let (mid, roll) = choose|mid: StdRng, roll: u64| #[trigger]
        roll_drawn(before, mid, roll) && if roll < plan.flat_cut {
            value == 0 && after == mid
        } else if roll < plan.attach_cut {
            signed_drawn(mid, after, pool_or(plan.attach, plan.core), value)
        } else {
            signed_drawn(mid, after, pool_or(plan.unused, plan.core), value)
        };
    let word = choose|word: u64| #[trigger] gave_word(before, mid, word) && 2048 * roll <= word < 2048 * (roll + 1);
    assert(word / 2048 == roll);
    assert(gave_word(before, mid, word));
    if roll >= plan.flat_cut {
        if roll < plan.attach_cut {
            lemma_signed_drawn(mid, after, pool_or(plan.attach, plan.core), value);
        } else {
            lemma_signed_drawn(mid, after, pool_or(plan.unused, plan.core), value);
        }
    }
}

proof fn lemma_outers_rolled(
    before: StdRng,
    after: StdRng,
    plan: ClusterPlan,
    links: Seq<[Option<usize>; 6]>,
    rows: Seq<[i32; 6]>,
    n: int,
    c: int,
    dir: int,
)
    requires
        all_positive(plan.core),
        all_positive(plan.attach),
        all_positive(plan.unused),
        outers_drawn(before, after, plan, links, rows, n),
        0 <= c,
        0 <= dir < 6,
        6 * c + dir < n,
        links[c]@[dir] is None,
    ensures
        rolled(plan, rows[c]@[dir]),
    decreases n,
{
    let place = (n - 1) / 6;
    let side = (n - 1) % 6;
    if links[place]@[side] is Some {
        assert(6 * c + dir != n - 1);
        lemma_outers_rolled(before, after, plan, links, rows, n - 1, c, dir);
    } else {
        let (mid, value) = choose|mid: StdRng, value: i32| #[trigger]
            outer_drawn(mid, after, plan, value) && value == rows[place]@[side] && outers_drawn(
                before,
                mid,
                plan,
                links,
                rows,
                n - 1,
            );
        if 6 * c + dir == n - 1 {
            assert(place == c && side == dir);
            lemma_outer_rolled(mid, after, plan, value);
        } else {
            lemma_outers_rolled(before, mid, plan, links, rows, n - 1, c, dir);
        }
    }
}

/// Every outer edge of a drawn false cluster is flat exactly when the word
/// drawn for it makes a roll below the flat share, has an id of the true
/// pieces when the roll lies between the shares, and an id that no true piece
/// has otherwise.
pub proof fn law_cluster_outsides(
    before: StdRng,
    after: StdRng,
    plan: ClusterPlan,
    cells: Seq<Axial>,
    rows: Seq<[i32; 6]>,
    c: int,
    dir: int,
)
    requires
        all_positive(plan.core),
        all_positive(plan.attach),
        all_positive(plan.unused),
        rows_drawn(before, after, plan, cells, rows),
        0 <= c < cells.len(),
        0 <= dir < 6,
        forall|k: int| 0 <= k < cells.len() ==> !steps_to(cells[c], dir, #[trigger] cells[k]),
    ensures
        rolled(plan, rows[c]@[dir]),
{
    let (mid, links, edges, values) = choose|
        mid: StdRng,
        links: Seq<[Option<usize>; 6]>,
        edges: Seq<Edge>,
        values: Seq<i32>,
    |
        #![trigger inners_drawn(before, mid, plan.core, values), links_cells(cells, links), lists_edges(links, edges)]
        inners_drawn(before, mid, plan.core, values) && links_cells(cells, links) && lists_edges(links, edges)
            && rows.len() == links.len() && shows_values(rows, edges, values) && outers_drawn(
            mid,
            after,
            plan,
            links,
            rows,
            6 * links.len() as int,
        );
    assert(link_of(cells, c, dir, links[c]@[dir]));
    lemma_outers_rolled(mid, after, plan, links, rows, 6 * links.len() as int, c, dir);
}

/// The sum of the counts of the first `n` entries.
pub open spec fn count_sum(clusters: Seq<(usize, usize)>, n: int) -> int
    decreases n,
{
    if n <= 0 {
        0
    } else {
        count_sum(clusters, n - 1) + clusters[n - 1].1
    }
}

/// There are as many false clusters as the entries count, and each has the
/// size of an entry, but at least one cell.
pub proof fn law_cluster_sizes(clusters: Seq<(usize, usize)>, n: int)
    requires
        0 <= n <= clusters.len(),
    ensures
        sizes_of(clusters, n).len() == count_sum(clusters, n),
        forall|k: int|
            0 <= k < sizes_of(clusters, n).len() ==> exists|i: int|
                0 <= i < n && #[trigger] sizes_of(clusters, n)[k] == (if (#[trigger] clusters[i]).0 == 0 {
                    1
                } else {
                    clusters[i].0
                }),
    decreases n,
{
    if n > 0 {
        law_cluster_sizes(clusters, n - 1);
        let less = sizes_of(clusters, n - 1);
        let sizes = sizes_of(clusters, n);
        assert forall|k: int| 0 <= k < sizes.len() implies exists|i: int|
            0 <= i < n && #[trigger] sizes[k] == (if (#[trigger] clusters[i]).0 == 0 {
                1
            } else {
                clusters[i].0
            }) by {
            if k < less.len() {
                assert(sizes[k] == less[k]);
                let i = choose|i: int|
                    0 <= i < n - 1 && less[k] == (if (#[trigger] clusters[i]).0 == 0 {
                        1
                    } else {
                        clusters[i].0
                    });
                assert(0 <= i < n);
            } else {
                assert(clusters[n - 1].0 >= 0);
            }
        }
    }
}

} // verus!
