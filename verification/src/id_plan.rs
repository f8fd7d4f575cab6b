//! Which id each inner edge of a generated puzzle is given: a few edges of a
//! spanning tree are anchored with ids of their own, and the rest share a
//! core of ids whose outlines are low.

use crate::edges::{
    between, enumerate_edges, grows, is_forward, joins, lemma_edge_back, lemma_listed_apart, lemma_pairs_push,
    lists_edges, pairs_tree, random_spanning_tree, reached, spans, tree_joins, tree_walked, Edge,
};
use crate::generator::{GeneratorConfig, GeneratorError};
use crate::geometry::EdgeMeta;
use crate::grid::{links_in_range, links_mutual, opposite, opposite_dir, Links};
use crate::rng::{gave_item, gave_order, lemma_shuffled, next_item, reordered};
use crate::trial_pieces::{blank_rows, holds_partner};
use rand::rngs::StdRng;
use vstd::prelude::*;

verus! {

/// Whether id `a` comes before id `b`: by the height of the outline, then by
/// number.
pub open spec fn lower(meta: Seq<EdgeMeta>, a: i32, b: i32) -> bool {
    meta[a as int].max_height < meta[b as int].max_height || (meta[a as int].max_height
        == meta[b as int].max_height && a < b)
}

/// Whether `ids` lists the ids from 1 to `total`, the lowest first.
pub open spec fn lowest_first(ids: Seq<i32>, meta: Seq<EdgeMeta>, total: int) -> bool {
    &&& ids.len() == total
    &&& forall|i: int| 0 <= i < ids.len() ==> 1 <= #[trigger] ids[i] <= total
    &&& forall|i: int, j: int| 0 <= i < j < ids.len() ==> lower(meta, #[trigger] ids[i], #[trigger] ids[j])
}

/// The ids from 1 to `total_alphabet`, the lowest outline first.
pub fn sorted_ids_by_height(total_alphabet: i32, meta: &Vec<EdgeMeta>) -> (ids: Vec<i32>)
    requires
        0 <= total_alphabet < meta.len(),
        total_alphabet < i32::MAX,
    ensures
        lowest_first(ids@, meta@, total_alphabet as int),
{
    let mut ids: Vec<i32> = Vec::new();
    let mut id: i32 = 1;
    while id <= total_alphabet
        invariant
            0 <= total_alphabet < meta.len(),
            total_alphabet < i32::MAX,
            1 <= id <= total_alphabet + 1,
            ids.len() == id - 1,
            forall|i: int| 0 <= i < ids.len() ==> 1 <= #[trigger] ids@[i] < id,
            forall|i: int, j: int|
                0 <= i < j < ids.len() ==> lower(meta@, #[trigger] ids@[i], #[trigger] ids@[j]),
        decreases total_alphabet + 1 - id,
    {
        let height: u32 = meta[id as usize].max_height;
        let mut at: usize = 0;
        while at < ids.len() && meta[ids[at] as usize].max_height <= height
            invariant
                0 <= total_alphabet < meta.len(),
                1 <= id <= total_alphabet,
                height == meta@[id as int].max_height,
                at <= ids.len(),
                forall|i: int| 0 <= i < ids.len() ==> 1 <= #[trigger] ids@[i] < id,
                forall|i: int| 0 <= i < at ==> meta@[#[trigger] ids@[i] as int].max_height <= height,
            decreases ids.len() - at,
        {
            at = at + 1;
        }
        let ghost before = ids@;
        ids.insert(at, id);
        assert forall|i: int, j: int| 0 <= i < j < ids.len() implies lower(
            meta@,
            #[trigger] ids@[i],
            #[trigger] ids@[j],
        ) by {
            let a = if i < at {
                i
            } else {
                i - 1
            };
            let b = if j < at {
                j
            } else {
                j - 1
            };
            if i == at {
                assert(ids@[j] == before[b]);
                if at < b {
                    assert(lower(meta@, before[at as int], before[b]));
                }
            } else if j == at {
                assert(ids@[i] == before[a]);
            } else {
                assert(ids@[i] == before[a] && ids@[j] == before[b]);
                assert(lower(meta@, before[a], before[b]));
            }
        }
        assert forall|i: int| 0 <= i < ids.len() implies 1 <= #[trigger] ids@[i] < id + 1 by {
            if i < at {
                assert(ids@[i] == before[i]);
            } else if i > at {
                assert(ids@[i] == before[i - 1]);
            }
        }
        id = id + 1;
    }
    ids
}

/// A list of ids, the lowest first, is the only one: it holds every id once.
pub proof fn law_sorted_ids(ids: Seq<i32>, meta: Seq<EdgeMeta>, total: int)
    requires
        0 <= total <= i32::MAX,
        lowest_first(ids, meta, total),
    ensures
        ids.no_duplicates(),
        forall|id: i32| 1 <= id <= total ==> #[trigger] ids.contains(id),
{
    assert forall|i: int, j: int| 0 <= i < ids.len() && 0 <= j < ids.len() && i != j implies ids[i] != ids[j] by {
        if i < j {
            assert(lower(meta, ids[i], ids[j]));
        } else {
            assert(lower(meta, ids[j], ids[i]));
        }
    }
    let range = Set::new(|id: i32| 1 <= id <= total);
    lemma_id_range(total);
    ids.unique_seq_to_set();
    assert(ids.to_set().subset_of(range));
    vstd::set_lib::lemma_subset_equality(ids.to_set(), range);
    assert forall|id: i32| 1 <= id <= total implies #[trigger] ids.contains(id) by {
        assert(range.contains(id));
        assert(ids.to_set().contains(id));
    }
}

proof fn lemma_id_range(total: int)
    requires
        0 <= total <= i32::MAX,
    ensures
        Set::new(|id: i32| 1 <= id <= total).finite(),
        Set::new(|id: i32| 1 <= id <= total).len() == total,
    decreases total,
{
    let range = Set::new(|id: i32| 1 <= id <= total);
    if total == 0 {
        assert(range =~= Set::<i32>::empty());
    } else {
        lemma_id_range(total - 1);
        let less = Set::new(|id: i32| 1 <= id <= total - 1);
        assert(range =~= less.insert(total as i32));
    }
}

/// The ids of the core: those with the lowest outlines.
pub fn core_id_pool(cfg: &GeneratorConfig, meta: &Vec<EdgeMeta>) -> (pool: Option<Vec<i32>>)
    requires
        0 <= cfg.total_alphabet < meta.len(),
        cfg.total_alphabet < i32::MAX,
    ensures
        match pool {
            Some(ids) => {
                &&& 1 <= cfg.core_alphabet <= cfg.total_alphabet
                &&& is_core(ids@, meta@, cfg.total_alphabet as int, cfg.core_alphabet as int)
            },
            None => !(1 <= cfg.core_alphabet <= cfg.total_alphabet),
        },
{
    let sorted: Vec<i32> = sorted_ids_by_height(cfg.total_alphabet, meta);
    if cfg.core_alphabet < 1 || cfg.core_alphabet > cfg.total_alphabet {
        return None;
    }
    let pool: Vec<i32> = part(&sorted, 0, cfg.core_alphabet as usize);
    assert(pool@ == sorted@.take(cfg.core_alphabet as int));
    Some(pool)
}

/// Whether `ids` are the `core` lowest ids.
pub open spec fn is_core(ids: Seq<i32>, meta: Seq<EdgeMeta>, total: int, core: int) -> bool {
    exists|sorted: Seq<i32>| #[trigger] lowest_first(sorted, meta, total) && ids == sorted.take(core)
}

/// The items from `start` up to `end`.
pub(crate) fn part(items: &Vec<i32>, start: usize, end: usize) -> (out: Vec<i32>)
    requires
        start <= end <= items.len(),
    ensures
        out@ == items@.subrange(start as int, end as int),
        start == 0 ==> out@ == items@.take(end as int),
{
    let mut out: Vec<i32> = Vec::new();
    for i in start..end
        invariant
            start <= end <= items.len(),
            out@ == items@.subrange(start as int, i as int),
    {
        out.push(items[i]);
        assert(items@.subrange(start as int, i + 1) =~= items@.subrange(start as int, i as int).push(
            items@[i as int],
        ));
    }
    assert(items@.subrange(0, end as int) =~= items@.take(end as int));
    out
}

pub(crate) fn holds_id(ids: &Vec<i32>, id: i32) -> (held: bool)
    ensures
        held == ids@.contains(id),
{
    for i in 0..ids.len()
        invariant
            forall|j: int| 0 <= j < i ==> #[trigger] ids@[j] != id,
    {
        if ids[i] == id {
            return true;
        }
    }
    false
}

/// The number of edges to anchor: as many as asked for, but at least one and
/// at most one for each edge of a spanning tree.
pub open spec fn anchor_target(asked: int, cells: int) -> int {
    if cells <= 1 {
        0
    } else if asked < 1 {
        1
    } else if asked > cells - 1 {
        cells - 1
    } else {
        asked
    }
}

/// The lists that ids are taken from.
pub struct IdLists {
    pub core: Vec<i32>,
    pub anchors: Vec<i32>,
    pub chiral: Vec<i32>,
}

/// Whether the lists are taken from the sorted ids in turn: the core, the
/// anchors, and up to two more.
pub open spec fn lists_from(lists: IdLists, sorted: Seq<i32>, core: int, target: int) -> bool {
    &&& lists.core@ == sorted.take(core)
    &&& lists.anchors@ == sorted.subrange(core, core + target)
    &&& lists.chiral@ == sorted.subrange(core + target, if core + target + 2 < sorted.len() {
        core + target + 2
    } else {
        sorted.len() as int
    })
}

/// Whether the lists are those of the settings.
pub open spec fn lists_of(lists: IdLists, cfg: GeneratorConfig, meta: Seq<EdgeMeta>, cells: int) -> bool {
    exists|sorted: Seq<i32>| #[trigger]
        lowest_first(sorted, meta, cfg.total_alphabet as int) && lists_from(
            lists,
            sorted,
            cfg.core_alphabet as int,
            anchor_target(cfg.anchor_count as int, cells),
        )
}

/// Why there are no lists of ids, if so.
pub open spec fn list_fault(cfg: GeneratorConfig, cells: int) -> Option<GeneratorError> {
    let target = anchor_target(cfg.anchor_count as int, cells);
    if cfg.core_alphabet < 1 {
        Some(GeneratorError::CoreTooSmall)
    } else if cfg.total_alphabet < cfg.core_alphabet {
        Some(GeneratorError::AlphabetTooSmall)
    } else if target > cfg.total_alphabet - cfg.core_alphabet {
        Some(
            GeneratorError::TooManyAnchors {
                target: target as usize,
                capacity: (cfg.total_alphabet - cfg.core_alphabet) as usize,
            },
        )
    } else {
        None
    }
}

fn aim_anchors(asked: usize, cells: usize) -> (target: usize)
    ensures
        target == anchor_target(asked as int, cells as int),
{
    if cells <= 1 {
        0
    } else if asked < 1 {
        1
    } else if asked > cells - 1 {
        cells - 1
    } else {
        asked
    }
}

/// Why there are no lists of ids for so many cells, if so.
pub fn find_fault(cfg: &GeneratorConfig, cells: usize) -> (fault: Option<GeneratorError>)
    ensures
        fault == list_fault(*cfg, cells as int),
{
    if cfg.core_alphabet < 1 {
        return Some(GeneratorError::CoreTooSmall);
    }
    if cfg.total_alphabet < cfg.core_alphabet {
        return Some(GeneratorError::AlphabetTooSmall);
    }
    let target: usize = aim_anchors(cfg.anchor_count, cells);
    let capacity: usize = (cfg.total_alphabet - cfg.core_alphabet) as usize;
    if target > capacity {
        return Some(GeneratorError::TooManyAnchors { target, capacity });
    }
    None
}

/// The lists that ids are taken from.
pub fn plan_lists(cfg: &GeneratorConfig, meta: &Vec<EdgeMeta>, cells: usize) -> (lists: Result<IdLists, GeneratorError>)
    requires
        list_fault(*cfg, cells as int) is None ==> cfg.total_alphabet < meta.len() && cfg.total_alphabet < i32::MAX,
    ensures
        match lists {
            Ok(found) => list_fault(*cfg, cells as int) is None && lists_of(found, *cfg, meta@, cells as int),
            Err(e) => list_fault(*cfg, cells as int) == Some(e),
        },
{
    if let Some(fault) = find_fault(cfg, cells) {
        return Err(fault);
    }
    let target: usize = aim_anchors(cfg.anchor_count, cells);
    let sorted: Vec<i32> = sorted_ids_by_height(cfg.total_alphabet, meta);
    let core: usize = cfg.core_alphabet as usize;
    let end: usize = if sorted.len() - (core + target) > 2 { core + target + 2 } else { sorted.len() };
    let lists: IdLists = IdLists {
        core: part(&sorted, 0, core),
        anchors: part(&sorted, core, core + target),
        chiral: part(&sorted, core + target, end),
    };
    assert(lists_from(lists, sorted@, core as int, target as int));
    Ok(lists)
}

/// The same edge seen from its other cell.
pub open spec fn reversed(edge: Edge) -> Edge {
    let (a, b, dir) = edge;
    (b, a, opposite(dir as int) as usize)
}

/// Whether two edges are the same, from either side.
pub open spec fn same_edge(e: Edge, f: Edge) -> bool {
    e == f || e == reversed(f)
}

/// Whether `id` stands on both sides of an edge.
pub open spec fn on_both(rows: Seq<[i32; 6]>, edge: Edge, id: int) -> bool {
    let (a, b, dir) = edge;
    rows[a as int]@[dir as int] == id && rows[b as int]@[opposite(dir as int)] == id
}

/// Puts an id on both sides of an edge.
pub fn set_abs_edge(rows: &mut Vec<[i32; 6]>, a: usize, b: usize, dir: usize, id: i32)
    requires
        a < old(rows).len(),
        b < old(rows).len(),
        dir < 6,
    ensures
        final(rows).len() == old(rows).len(),
        on_both(final(rows)@, (a, b, dir), id as int),
        forall|c: int, d: int|
            0 <= c < old(rows).len() && 0 <= d < 6 && !(c == a && d == dir) && !(c == b && d == opposite(dir as int))
                ==> (#[trigger] final(rows)@[c]@[d]) == old(rows)@[c]@[d],
{
    rows[a][dir] = id;
    let opp: usize = opposite_dir(dir);
    rows[b][opp] = id;
}

/// Whether only the sides of one edge differ.
pub(crate) open spec fn differ_at(links: Seq<[Option<usize>; 6]>, before: Seq<[i32; 6]>, after: Seq<[i32; 6]>, edge: Edge) -> bool {
    &&& before.len() == links.len()
    &&& after.len() == links.len()
    &&& forall|c: int, d: int|
        0 <= c < links.len() && 0 <= d < 6 && !(c == edge.0 && d == edge.2) && !(c == edge.1 && d == opposite(
            edge.2 as int,
        )) ==> (#[trigger] after[c]@[d]) == before[c]@[d]
}

/// A change on one edge leaves the others alone.
pub(crate) proof fn lemma_other_edge(
    links: Seq<[Option<usize>; 6]>,
    before: Seq<[i32; 6]>,
    after: Seq<[i32; 6]>,
    e: Edge,
    f: Edge,
)
    requires
        links.len() <= usize::MAX,
        links_in_range(links),
        links_mutual(links),
        joins(links, e),
        joins(links, f),
        !same_edge(f, e),
        differ_at(links, before, after, e),
    ensures
        after[f.0 as int]@[f.2 as int] == before[f.0 as int]@[f.2 as int],
        after[f.1 as int]@[opposite(f.2 as int)] == before[f.1 as int]@[opposite(f.2 as int)],
{
    lemma_edge_back(links, e);
    lemma_edge_back(links, f);
    assert(opposite(opposite(f.2 as int)) == f.2);
    assert(opposite(opposite(e.2 as int)) == e.2);
}

/// The rim stays as it was.
pub(crate) proof fn lemma_rim_kept(links: Seq<[Option<usize>; 6]>, before: Seq<[i32; 6]>, after: Seq<[i32; 6]>, e: Edge)
    requires
        links.len() <= usize::MAX,
        links_in_range(links),
        links_mutual(links),
        joins(links, e),
        differ_at(links, before, after, e),
        rim_zero(links, before),
    ensures
        rim_zero(links, after),
{
    lemma_edge_back(links, e);
    assert forall|c: int, d: int|
        0 <= c < links.len() && 0 <= d < 6 && links[c]@[d] is None implies (#[trigger] after[c]@[d]) == 0 by {
        assert(after[c]@[d] == before[c]@[d]);
    }
}

/// Whether the rim is zero.
pub open spec fn rim_zero(links: Seq<[Option<usize>; 6]>, rows: Seq<[i32; 6]>) -> bool {
    forall|c: int, d: int|
        0 <= c < links.len() && 0 <= d < 6 && links[c]@[d] is None ==> (#[trigger] rows[c]@[d]) == 0
}

/// The chosen ones of the first `n` edges, in order.
pub open spec fn picked(tree: Seq<Edge>, chosen: Seq<bool>, n: int) -> Seq<Edge>
    decreases n,
{
    if n <= 0 {
        Seq::empty()
    } else if chosen[n - 1] {
        picked(tree, chosen, n - 1).push(tree[n - 1])
    } else {
        picked(tree, chosen, n - 1)
    }
}

/// The number of marks that are set among the first `n`.
pub open spec fn marked(marks: Seq<bool>, n: int) -> int
    decreases n,
{
    if n <= 0 {
        0
    } else {
        marked(marks, n - 1) + (if marks[n - 1] {
            1int
        } else {
            0
        })
    }
}

proof fn lemma_picked_len(tree: Seq<Edge>, chosen: Seq<bool>, n: int)
    ensures
        picked(tree, chosen, n).len() == marked(chosen, n),
    decreases n,
{
    if n > 0 {
        lemma_picked_len(tree, chosen, n - 1);
    }
}

proof fn lemma_marked_update(marks: Seq<bool>, i: int, n: int)
    requires
        0 <= i < marks.len(),
        n <= marks.len(),
        !marks[i],
    ensures
        marked(marks.update(i, true), n) == marked(marks, n) + (if i < n {
            1int
        } else {
            0
        }),
    decreases n,
{
    if n > 0 {
        lemma_marked_update(marks, i, n - 1);
    }
}

proof fn lemma_marked_none(marks: Seq<bool>, n: int)
    requires
        n <= marks.len(),
        forall|i: int| 0 <= i < marks.len() ==> !#[trigger] marks[i],
    ensures
        marked(marks, n) == 0,
    decreases n,
{
    if n > 0 {
        lemma_marked_none(marks, n - 1);
    }
}

proof fn lemma_marked_grows(marks: Seq<bool>, m: int, n: int)
    requires
        0 <= m <= n,
    ensures
        0 <= marked(marks, m) <= marked(marks, n),
    decreases n,
{
    if m < n {
        lemma_marked_grows(marks, m, n - 1);
    } else if n > 0 {
        lemma_marked_grows(marks, m - 1, n - 1);
    }
}

/// Every picked edge is one of the tree, and a later edge of the tree is
/// none of them from either side.
proof fn lemma_picked_apart(links: Seq<[Option<usize>; 6]>, tree: Seq<Edge>, chosen: Seq<bool>, n: int)
    requires
        links.len() > 0,
        links.len() <= usize::MAX,
        links_in_range(links),
        links_mutual(links),
        grows(links, tree),
        0 <= n <= tree.len(),
    ensures
        forall|i: int|
            0 <= i < picked(tree, chosen, n).len() ==> {
                let e = #[trigger] picked(tree, chosen, n)[i];
                &&& joins(links, e)
                &&& reached(tree.take(n)).contains(e.0 as int)
                &&& reached(tree.take(n)).contains(e.1 as int)
            },
        n < tree.len() ==> {
            let next = tree[n];
            &&& joins(links, next)
            &&& reached(tree.take(n)).contains(next.0 as int)
            &&& !reached(tree.take(n)).contains(next.1 as int)
        },
    decreases n,
{
    lemma_tree_step(links, tree, n);
    if n > 0 {
        lemma_picked_apart(links, tree, chosen, n - 1);
        let before = picked(tree, chosen, n - 1);
        let now = picked(tree, chosen, n);
        assert(tree.take(n).drop_last() =~= tree.take(n - 1));
        assert(tree.take(n).last() == tree[n - 1]);
        assert forall|i: int| 0 <= i < now.len() implies {
            let e = #[trigger] now[i];
            &&& joins(links, e)
            &&& reached(tree.take(n)).contains(e.0 as int)
            &&& reached(tree.take(n)).contains(e.1 as int)
        } by {
            if i < before.len() {
                assert(now[i] == before[i]);
            }
        }
    }
}

proof fn lemma_tree_step(links: Seq<[Option<usize>; 6]>, tree: Seq<Edge>, n: int)
    requires
        grows(links, tree),
        0 <= n <= tree.len(),
    ensures
        grows(links, tree.take(n)),
        n < tree.len() ==> {
            let next = tree[n];
            &&& joins(links, next)
            &&& reached(tree.take(n)).contains(next.0 as int)
            &&& !reached(tree.take(n)).contains(next.1 as int)
        },
    decreases tree.len(),
{
    if n == tree.len() {
        assert(tree.take(n) =~= tree);
    } else {
        let front = tree.drop_last();
        lemma_tree_step(links, front, n);
        assert(front.take(n) =~= tree.take(n));
        if n == front.len() {
            assert(front.take(n) =~= front);
        } else {
            assert(front[n] == tree[n]);
        }
    }
}

/// Whether the places chosen are the first `count` of `len` places in the order
/// into which generator `before` brings them, and the generator is `after`
/// then.
pub open spec fn places_drawn(before: StdRng, after: StdRng, len: int, count: int, chosen: Seq<bool>) -> bool {
    exists|order: Seq<usize>| #[trigger]
        gave_order(before, after, all_places(len), order) && chosen.len() == len && forall|
            i: int,
        |
            0 <= i < len ==> #[trigger] chosen[i] == among_first(order, count, i)
}

/// The numbers below `len`.
pub open spec fn all_places(len: int) -> Seq<usize> {
    Seq::new(len as nat, |i: int| i as usize)
}

/// Whether `place` is one of the first `count` of `order`.
pub open spec fn among_first(order: Seq<usize>, count: int, place: int) -> bool {
    exists|j: int| 0 <= j < count && j < order.len() && #[trigger] order[j] == place
}

/// Chooses `count` of `len` places, or all if there are not so many.
fn choose_places(len: usize, count: usize, rng: &mut StdRng) -> (chosen: Vec<bool>)
    ensures
        chosen.len() == len,
        marked(chosen@, len as int) == (if count < len {
            count
        } else {
            len
        }),
        places_drawn(*old(rng), *final(rng), len as int, count as int, chosen@),
{
    let mut places: Vec<usize> = Vec::new();
    let mut chosen: Vec<bool> = Vec::new();
    for i in 0..len
        invariant
            places.len() == i,
            chosen.len() == i,
            forall|k: int| 0 <= k < i ==> #[trigger] places@[k] == k,
            forall|k: int| 0 <= k < i ==> !#[trigger] chosen@[k],
    {
        places.push(i);
        chosen.push(false);
    }
    let ghost before = places@;
    let places: Vec<usize> = reordered(places, rng);
    proof {
        assert(before =~= all_places(len as int));
        assert(gave_order(*old(rng), *rng, all_places(len as int), places@));
        lemma_shuffled(before, places@);
        assert(before.no_duplicates());
        lemma_marked_none(chosen@, len as int);
        assert forall|k: int| 0 <= k < len implies (#[trigger] places@[k]) < len by {
            assert(places@.contains(places@[k]));
            assert(before.contains(places@[k]));
        }
    }
    let end: usize = if count < len { count } else { len };
    for i in 0..end
        invariant
            end <= len,
            places.len() == len,
            chosen.len() == len,
            places@.no_duplicates(),
            forall|k: int| 0 <= k < len ==> (#[trigger] places@[k]) < len,
            forall|k: int| i <= k < len ==> !chosen@[#[trigger] places@[k] as int],
            forall|p: int| 0 <= p < len ==> #[trigger] chosen@[p] == among_first(places@, i as int, p),
            marked(chosen@, len as int) == i,
    {
        let place: usize = places[i];
        proof {
            lemma_marked_update(chosen@, place as int, len as int);
        }
        let ghost past = chosen@;
        chosen[place] = true;
        assert forall|p: int| 0 <= p < len implies #[trigger] chosen@[p] == among_first(places@, i + 1, p) by {
            assert(past[p] == among_first(places@, i as int, p));
            if p == place {
                assert(places@[i as int] == p);
            } else if past[p] {
                let j = choose|j: int| 0 <= j < i && j < places@.len() && #[trigger] places@[j] == p;
                assert(places@[j] == p);
            }
        }
    }
    proof {
        assert forall|p: int| 0 <= p < len implies #[trigger] chosen@[p] == among_first(places@, count as int, p) by {
            assert(chosen@[p] == among_first(places@, end as int, p));
            if among_first(places@, count as int, p) {
                let j = choose|j: int| 0 <= j < count && j < places@.len() && #[trigger] places@[j] == p;
                assert(j < end && places@[j] == p);
            } else if among_first(places@, end as int, p) {
                let j = choose|j: int| 0 <= j < end && j < places@.len() && #[trigger] places@[j] == p;
                assert(j < count && places@[j] == p);
            }
        }
    }
    chosen
}

/// Whether an edge is one of `list`, from either side.
pub open spec fn listed_either(list: Seq<Edge>, e: Edge) -> bool {
    exists|i: int| 0 <= i < list.len() && same_edge(#[trigger] list[i], e)
}

/// Whether each edge of a list has the id at its place on both sides.
pub open spec fn given_ids(rows: Seq<[i32; 6]>, list: Seq<Edge>, ids: Seq<i32>) -> bool {
    &&& list.len() <= ids.len()
    &&& forall|i: int| 0 <= i < list.len() ==> on_both(rows, #[trigger] list[i], ids[i] as int)
}

/// Whether no inner edge but those of `list` has an id yet.
spec fn blank_but(links: Seq<[Option<usize>; 6]>, rows: Seq<[i32; 6]>, list: Seq<Edge>) -> bool {
    forall|e: Edge| #[trigger] joins(links, e) && !listed_either(list, e) ==> on_both(rows, e, 0)
}

/// One more edge of the tree is given an id of its own.
proof fn lemma_anchor_step(
    links: Seq<[Option<usize>; 6]>,
    before: Seq<[i32; 6]>,
    after: Seq<[i32; 6]>,
    list: Seq<Edge>,
    ids: Seq<i32>,
    edge: Edge,
)
    requires
        links.len() <= usize::MAX,
        links_in_range(links),
        links_mutual(links),
        joins(links, edge),
        forall|i: int| 0 <= i < list.len() ==> joins(links, #[trigger] list[i]) && !same_edge(list[i], edge),
        list.len() < ids.len(),
        given_ids(before, list, ids),
        blank_but(links, before, list),
        rim_zero(links, before),
        differ_at(links, before, after, edge),
        on_both(after, edge, ids[list.len() as int] as int),
    ensures
        given_ids(after, list.push(edge), ids),
        blank_but(links, after, list.push(edge)),
        rim_zero(links, after),
{
    let more = list.push(edge);
    lemma_rim_kept(links, before, after, edge);
    assert forall|i: int| 0 <= i < more.len() implies on_both(after, #[trigger] more[i], ids[i] as int) by {
        if i < list.len() {
            assert(more[i] == list[i]);
            assert(on_both(before, list[i], ids[i] as int));
            lemma_other_edge(links, before, after, edge, list[i]);
        }
    }
    assert forall|e: Edge| #[trigger] joins(links, e) && !listed_either(more, e) implies on_both(after, e, 0) by {
        assert(!listed_either(list, e)) by {
            if listed_either(list, e) {
                let i = choose|i: int| 0 <= i < list.len() && same_edge(#[trigger] list[i], e);
                assert(same_edge(more[i], e));
            }
        }
        assert(more[more.len() - 1] == edge);
        assert(!same_edge(edge, e));
        lemma_same_edge_symmetric(edge, e);
        lemma_other_edge(links, before, after, edge, e);
    }
}

proof fn lemma_same_edge_symmetric(e: Edge, f: Edge)
    requires
        e.2 < 6,
        f.2 < 6,
    ensures
        same_edge(e, f) == same_edge(f, e),
{
    assert(opposite(opposite(e.2 as int)) == e.2);
    assert(opposite(opposite(f.2 as int)) == f.2);
}

/// Gives the chosen edges of a tree the ids of `ids` in turn, and tells which
/// cells they join.
fn place_anchors(links: &Links, tree: &Vec<Edge>, chosen: &Vec<bool>, ids: &Vec<i32>) -> (placed: (
    Vec<[i32; 6]>,
    Vec<Vec<usize>>,
))
    requires
        links.len() > 0,
        links_in_range(links@),
        links_mutual(links@),
        grows(links@, tree@),
        chosen.len() == tree.len(),
        marked(chosen@, tree.len() as int) <= ids.len(),
    ensures
        ({
            let (rows, partners) = placed;
            let anchors = picked(tree@, chosen@, tree.len() as int);
            &&& rows.len() == links.len()
            &&& partners.len() == links.len()
            &&& pairs_tree(partners@, anchors)
            &&& given_ids(rows@, anchors, ids@)
            &&& blank_but(links@, rows@, anchors)
            &&& rim_zero(links@, rows@)
        }),
{
    let mut rows: Vec<[i32; 6]> = blank_rows(links.len());
    let mut partners: Vec<Vec<usize>> = Vec::new();
    for i in 0..links.len()
        invariant
            partners.len() == i,
            forall|c: int| 0 <= c < i ==> (#[trigger] partners@[c])@.len() == 0,
    {
        partners.push(Vec::new());
    }
    let mut next: usize = 0;
    assert(links@.len() == links.len());
    assert(blank_but(links@, rows@, Seq::empty())) by {
        assert forall|e: Edge| #[trigger] joins(links@, e) implies on_both(rows@, e, 0) by {
            lemma_edge_back(links@, e);
        }
    }
    for k in 0..tree.len()
        invariant
            links.len() > 0,
            links@.len() <= usize::MAX,
            links_in_range(links@),
            links_mutual(links@),
            grows(links@, tree@),
            chosen.len() == tree.len(),
            marked(chosen@, tree.len() as int) <= ids.len(),
            next == picked(tree@, chosen@, k as int).len(),
            rows.len() == links.len(),
            partners.len() == links.len(),
            pairs_tree(partners@, picked(tree@, chosen@, k as int)),
            given_ids(rows@, picked(tree@, chosen@, k as int), ids@),
            blank_but(links@, rows@, picked(tree@, chosen@, k as int)),
            rim_zero(links@, rows@),
    {
        let ghost list = picked(tree@, chosen@, k as int);
        let (a, b, dir) = tree[k];
        let ghost edge = tree@[k as int];
        proof {
            lemma_picked_apart(links@, tree@, chosen@, k as int);
            lemma_edge_back(links@, edge);
            lemma_picked_len(tree@, chosen@, k as int);
            lemma_picked_len(tree@, chosen@, k + 1);
            lemma_marked_grows(chosen@, k + 1, tree.len() as int);
        }
        if chosen[k] {
            let ghost before = rows@;
            set_abs_edge(&mut rows, a, b, dir, ids[next]);
            proof {
                lemma_anchor_step(links@, before, rows@, list, ids@, edge);
            }
            next = next + 1;
            let low: usize = if a < b { a } else { b };
            let high: usize = if a < b { b } else { a };
            let ghost old_partners = partners@;
            partners[low].push(high);
            proof {
                lemma_pairs_push(old_partners, partners@, list, edge, low as int, high);
            }
        }
    }
    (rows, partners)
}

/// Whether an edge has the same core id on both sides.
pub open spec fn has_core_id(rows: Seq<[i32; 6]>, e: Edge, core: Seq<i32>) -> bool {
    let id = rows[e.0 as int]@[e.2 as int];
    core.contains(id) && on_both(rows, e, id as int)
}

/// Whether every inner edge that is neither anchored nor special has a core
/// id.
pub open spec fn core_elsewhere(
    links: Seq<[Option<usize>; 6]>,
    rows: Seq<[i32; 6]>,
    core: Seq<i32>,
    anchors: Seq<Edge>,
    specials: Seq<Edge>,
) -> bool {
    forall|e: Edge|
        #[trigger] joins(links, e) && is_forward(e) && !listed_either(anchors, e) && !specials.contains(e)
            ==> has_core_id(rows, e, core)
}

proof fn lemma_anchor_nonzero(
    links: Seq<[Option<usize>; 6]>,
    rows: Seq<[i32; 6]>,
    anchors: Seq<Edge>,
    ids: Seq<i32>,
    e: Edge,
)
    requires
        joins(links, e),
        given_ids(rows, anchors, ids),
        forall|i: int| 0 <= i < ids.len() ==> #[trigger] ids[i] > 0,
        listed_either(anchors, e),
        forall|i: int| 0 <= i < anchors.len() ==> joins(links, #[trigger] anchors[i]),
    ensures
        rows[e.0 as int]@[e.2 as int] != 0,
{
    let i = choose|i: int| 0 <= i < anchors.len() && same_edge(#[trigger] anchors[i], e);
    assert(on_both(rows, anchors[i], ids[i] as int));
    assert(ids[i] > 0);
    assert(joins(links, anchors[i]));
    assert(opposite(opposite(e.2 as int)) == e.2);
}

/// Whether those of the first `k` edges that have no id of their own have the
/// core ids that generator `before` gives in turn, and the generator is
/// `after` then.
pub open spec fn core_drawn(
    before: StdRng,
    after: StdRng,
    edges: Seq<Edge>,
    rows: Seq<[i32; 6]>,
    core: Seq<i32>,
    anchors: Seq<Edge>,
    k: int,
) -> bool
    decreases k,
{
    if k <= 0 {
        before == after
    } else if listed_either(anchors, edges[k - 1]) {
        core_drawn(before, after, edges, rows, core, anchors, k - 1)
    } else {
        exists|mid: StdRng, id: i32| #[trigger]
            gave_item(mid, after, core, Some(id)) && on_both(rows, edges[k - 1], id as int) && core_drawn(
                before,
                mid,
                edges,
                rows,
                core,
                anchors,
                k - 1,
            )
    }
}

proof fn lemma_core_kept(
    before: StdRng,
    after: StdRng,
    edges: Seq<Edge>,
    rows: Seq<[i32; 6]>,
    other: Seq<[i32; 6]>,
    core: Seq<i32>,
    anchors: Seq<Edge>,
    k: int,
)
    requires
        core_drawn(before, after, edges, rows, core, anchors, k),
        forall|j: int, id: int|
            0 <= j < k && on_both(rows, #[trigger] edges[j], id) ==> #[trigger] on_both(other, edges[j], id),
    ensures
        core_drawn(before, after, edges, other, core, anchors, k),
    decreases k,
{
    if k > 0 {
        if listed_either(anchors, edges[k - 1]) {
            lemma_core_kept(before, after, edges, rows, other, core, anchors, k - 1);
        } else {
            let (mid, id) = choose|mid: StdRng, id: i32| #[trigger]
                gave_item(mid, after, core, Some(id)) && on_both(rows, edges[k - 1], id as int) && core_drawn(
                    before,
                    mid,
                    edges,
                    rows,
                    core,
                    anchors,
                    k - 1,
                );
            lemma_core_kept(before, mid, edges, rows, other, core, anchors, k - 1);
            assert(on_both(other, edges[k - 1], id as int));
            assert(gave_item(mid, after, core, Some(id)));
        }
    }
}

/// Gives every inner edge that has no id yet a random core id.
fn fill_core(
    links: &Links,
    edges: &Vec<Edge>,
    rows: &mut Vec<[i32; 6]>,
    core: &Vec<i32>,
    rng: &mut StdRng,
    Ghost(anchors): Ghost<Seq<Edge>>,
    Ghost(ids): Ghost<Seq<i32>>,
)
    requires
        links_in_range(links@),
        links_mutual(links@),
        lists_edges(links@, edges@),
        old(rows).len() == links.len(),
        core.len() > 0,
        forall|i: int| 0 <= i < core.len() ==> #[trigger] core@[i] > 0,
        forall|i: int| 0 <= i < ids.len() ==> #[trigger] ids[i] > 0,
        forall|i: int| 0 <= i < anchors.len() ==> joins(links@, #[trigger] anchors[i]),
        given_ids(old(rows)@, anchors, ids),
        blank_but(links@, old(rows)@, anchors),
        rim_zero(links@, old(rows)@),
    ensures
        final(rows).len() == links.len(),
        given_ids(final(rows)@, anchors, ids),
        core_elsewhere(links@, final(rows)@, core@, anchors, Seq::empty()),
        rim_zero(links@, final(rows)@),
        core_drawn(*old(rng), *final(rng), edges@, final(rows)@, core@, anchors, edges.len() as int),
{
    assert(links@.len() == links.len());
    for k in 0..edges.len()
        invariant
            links@.len() <= usize::MAX,
            links_in_range(links@),
            links_mutual(links@),
            lists_edges(links@, edges@),
            rows.len() == links.len(),
            core.len() > 0,
            forall|i: int| 0 <= i < core.len() ==> #[trigger] core@[i] > 0,
            forall|i: int| 0 <= i < ids.len() ==> #[trigger] ids[i] > 0,
            forall|i: int| 0 <= i < anchors.len() ==> joins(links@, #[trigger] anchors[i]),
            given_ids(rows@, anchors, ids),
            rim_zero(links@, rows@),
            core_drawn(*old(rng), *rng, edges@, rows@, core@, anchors, k as int),
            forall|j: int|
                0 <= j < k && !listed_either(anchors, #[trigger] edges@[j]) ==> has_core_id(rows@, edges@[j], core@),
            forall|j: int|
                k <= j < edges.len() && !listed_either(anchors, #[trigger] edges@[j]) ==> on_both(rows@, edges@[j], 0),
    {
        let (a, b, dir) = edges[k];
        let ghost edge = edges@[k as int];
        proof {
            assert(joins(links@, edge) && is_forward(edge));
            lemma_edge_back(links@, edge);
        }
        if rows[a][dir] == 0 {
            assert(!listed_either(anchors, edge)) by {
                if listed_either(anchors, edge) {
                    lemma_anchor_nonzero(links@, rows@, anchors, ids, edge);
                }
            }
            let ghost before = rows@;
            let ghost source = *rng;
            let id: i32 = match next_item(core.as_slice(), rng) {
                Some(id) => id,
                None => 1,
            };
            set_abs_edge(rows, a, b, dir, id);
            proof {
                lemma_rim_kept(links@, before, rows@, edge);
                lemma_anchors_kept(links@, before, rows@, anchors, ids, edge);
                assert forall|j: int, old_id: int|
                    0 <= j < k && on_both(before, #[trigger] edges@[j], old_id) implies #[trigger] on_both(
                    rows@,
                    edges@[j],
                    old_id,
                ) by {
                    lemma_listed_other(links@, before, rows@, edges@, j, k as int);
                }
                lemma_core_kept(*old(rng), source, edges@, before, rows@, core@, anchors, k as int);
                assert(gave_item(source, *rng, core@, Some(id)));
                assert(on_both(rows@, edges@[k as int], id as int));
                assert forall|j: int|
                    0 <= j < k + 1 && !listed_either(anchors, #[trigger] edges@[j]) implies has_core_id(
                    rows@,
                    edges@[j],
                    core@,
                ) by {
                    if j < k {
                        assert(has_core_id(before, edges@[j], core@));
                        lemma_listed_other(links@, before, rows@, edges@, j, k as int);
                    }
                }
                assert forall|j: int|
                    k + 1 <= j < edges.len() && !listed_either(anchors, #[trigger] edges@[j]) implies on_both(
                    rows@,
                    edges@[j],
                    0,
                ) by {
                    lemma_listed_other(links@, before, rows@, edges@, j, k as int);
                }
            }
        } else {
            assert(listed_either(anchors, edge));
        }
    }
    assert forall|e: Edge|
        #[trigger] joins(links@, e) && is_forward(e) && !listed_either(anchors, e) && !Seq::<Edge>::empty().contains(e) implies has_core_id(
        rows@,
        e,
        core@,
    ) by {
        let j = choose|j: int| 0 <= j < edges@.len() && edges@[j] == e;
        assert(!listed_either(anchors, edges@[j]));
    }
}

/// A change on one listed edge leaves another one alone.
pub(crate) proof fn lemma_listed_other(
    links: Seq<[Option<usize>; 6]>,
    before: Seq<[i32; 6]>,
    after: Seq<[i32; 6]>,
    edges: Seq<Edge>,
    j: int,
    k: int,
)
    requires
        links.len() <= usize::MAX,
        links_in_range(links),
        links_mutual(links),
        lists_edges(links, edges),
        0 <= j < edges.len(),
        0 <= k < edges.len(),
        j != k,
        differ_at(links, before, after, edges[k]),
    ensures
        after[edges[j].0 as int]@[edges[j].2 as int] == before[edges[j].0 as int]@[edges[j].2 as int],
        after[edges[j].1 as int]@[opposite(edges[j].2 as int)] == before[edges[j].1 as int]@[opposite(
            edges[j].2 as int,
        )],
{
    lemma_listed_apart(links, edges, j, k);
    assert(joins(links, edges[j]) && is_forward(edges[j]));
    assert(joins(links, edges[k]) && is_forward(edges[k]));
    lemma_other_edge(links, before, after, edges[k], edges[j]);
}

/// A change on an edge that is not anchored leaves the anchored ones alone.
proof fn lemma_anchors_kept(
    links: Seq<[Option<usize>; 6]>,
    before: Seq<[i32; 6]>,
    after: Seq<[i32; 6]>,
    anchors: Seq<Edge>,
    ids: Seq<i32>,
    edge: Edge,
)
    requires
        links.len() <= usize::MAX,
        links_in_range(links),
        links_mutual(links),
        joins(links, edge),
        forall|i: int| 0 <= i < anchors.len() ==> joins(links, #[trigger] anchors[i]),
        !listed_either(anchors, edge),
        given_ids(before, anchors, ids),
        differ_at(links, before, after, edge),
    ensures
        given_ids(after, anchors, ids),
{
    assert forall|i: int| 0 <= i < anchors.len() implies on_both(after, #[trigger] anchors[i], ids[i] as int) by {
        assert(on_both(before, anchors[i], ids[i] as int));
        assert(joins(links, anchors[i]));
        assert(!same_edge(anchors[i], edge));
        lemma_other_edge(links, before, after, edge, anchors[i]);
    }
}

/// Whether an edge can be special: it is seen from its lesser cell, and no
/// anchored edge joins the same cells.
pub open spec fn can_be_special(links: Seq<[Option<usize>; 6]>, anchors: Seq<Edge>, e: Edge) -> bool {
    joins(links, e) && is_forward(e) && !tree_joins(anchors, e.0 as int, e.1 as int)
}

/// Whether `specials` are different edges that can be special: `count` of
/// them, or all if there are not so many.
pub open spec fn are_special(links: Seq<[Option<usize>; 6]>, anchors: Seq<Edge>, specials: Seq<Edge>, count: int) -> bool {
    &&& specials.no_duplicates()
    &&& forall|i: int| 0 <= i < specials.len() ==> can_be_special(links, anchors, #[trigger] specials[i])
    &&& specials.len() <= count
    &&& specials.len() < count ==> forall|e: Edge| #[trigger]
        can_be_special(links, anchors, e) ==> specials.contains(e)
}

/// Whether the special edges are the first `count` of those that can be
/// special, in the order into which generator `before` brings them, and the
/// generator is `after` then.
pub open spec fn specials_drawn(
    before: StdRng,
    after: StdRng,
    links: Seq<[Option<usize>; 6]>,
    anchors: Seq<Edge>,
    count: int,
    specials: Seq<Edge>,
) -> bool {
    exists|listed: Seq<Edge>, order: Seq<Edge>| #[trigger]
        gave_order(before, after, listed, order) && listed.no_duplicates() && (forall|e: Edge| #[trigger]
            listed.contains(e) <==> can_be_special(links, anchors, e)) && specials == order.take(
            if count < order.len() {
                count
            } else {
                order.len() as int
            },
        )
}

/// Whether the inner edges but those of `specials` are the same in both
/// tables.
pub open spec fn same_but(
    links: Seq<[Option<usize>; 6]>,
    before: Seq<[i32; 6]>,
    after: Seq<[i32; 6]>,
    specials: Seq<Edge>,
) -> bool {
    forall|e: Edge| #[trigger]
        joins(links, e) && is_forward(e) && !specials.contains(e) ==> after[e.0 as int]@[e.2 as int]
            == before[e.0 as int]@[e.2 as int]
}

/// Gives random edges that can be special the ids of `ids`.
fn place_specials(
    links: &Links,
    edges: &Vec<Edge>,
    partners: &Vec<Vec<usize>>,
    rows: &mut Vec<[i32; 6]>,
    ids: &Vec<i32>,
    rng: &mut StdRng,
    Ghost(anchors): Ghost<Seq<Edge>>,
    Ghost(anchor_ids): Ghost<Seq<i32>>,
    Ghost(core): Ghost<Seq<i32>>,
) -> (specials: Ghost<Seq<Edge>>)
    requires
        links_in_range(links@),
        links_mutual(links@),
        lists_edges(links@, edges@),
        partners.len() == links.len(),
        pairs_tree(partners@, anchors),
        old(rows).len() == links.len(),
        forall|i: int| 0 <= i < anchors.len() ==> joins(links@, #[trigger] anchors[i]),
        given_ids(old(rows)@, anchors, anchor_ids),
        core_elsewhere(links@, old(rows)@, core, anchors, Seq::empty()),
        rim_zero(links@, old(rows)@),
    ensures
        final(rows).len() == links.len(),
        are_special(links@, anchors, specials@, ids.len() as int),
        given_ids(final(rows)@, anchors, anchor_ids),
        given_ids(final(rows)@, specials@, ids@),
        core_elsewhere(links@, final(rows)@, core, anchors, specials@),
        rim_zero(links@, final(rows)@),
        specials_drawn(*old(rng), *final(rng), links@, anchors, ids.len() as int, specials@),
        same_but(links@, old(rows)@, final(rows)@, specials@),
{
    assert(links@.len() == links.len());
    let mut free: Vec<Edge> = Vec::new();
    for k in 0..edges.len()
        invariant
            links@.len() <= usize::MAX,
            links_in_range(links@),
            links_mutual(links@),
            lists_edges(links@, edges@),
            partners.len() == links.len(),
            pairs_tree(partners@, anchors),
            free@.no_duplicates(),
            forall|i: int| 0 <= i < free.len() ==> can_be_special(links@, anchors, #[trigger] free@[i]),
            forall|i: int| 0 <= i < free.len() ==> edges@.take(k as int).contains(#[trigger] free@[i]),
            forall|j: int|
                0 <= j < k && can_be_special(links@, anchors, #[trigger] edges@[j]) ==> free@.contains(edges@[j]),
    {
        let (a, b, dir) = edges[k];
        let ghost edge = edges@[k as int];
        let ghost before = free@;
        proof {
            assert(joins(links@, edge) && is_forward(edge));
            lemma_edge_back(links@, edge);
            assert(partners@[a as int]@.contains(b as int as usize) == tree_joins(anchors, a as int, b as int));
        }
        if !holds_partner(partners, a, b) {
            free.push((a, b, dir));
        }
        proof {
            assert forall|i: int| 0 <= i < free.len() implies edges@.take(k + 1).contains(#[trigger] free@[i]) by {
                if i < before.len() {
                    let m = choose|m: int| 0 <= m < k && edges@.take(k as int)[m] == before[i];
                    assert(edges@.take(k + 1)[m] == before[i]);
                } else {
                    assert(edges@.take(k + 1)[k as int] == edge);
                }
            }
            if before.contains(edge) {
                let i = choose|i: int| 0 <= i < before.len() && before[i] == edge;
                assert(edges@.take(k as int).contains(before[i]));
                let m = choose|m: int| 0 <= m < k && edges@.take(k as int)[m] == before[i];
                lemma_listed_apart(links@, edges@, m, k as int);
            }
            assert forall|j: int| 0 <= j < k + 1 && can_be_special(links@, anchors, #[trigger] edges@[j]) implies free@.contains(
                edges@[j],
            ) by {
                if j < k {
                    let i = choose|i: int| 0 <= i < before.len() && before[i] == edges@[j];
                    assert(free@[i] == edges@[j]);
                } else {
                    assert(free@[free@.len() - 1] == edge);
                }
            }
        }
    }
    let ghost listed = free@;
    let free: Vec<Edge> = reordered(free, rng);
    proof {
        assert forall|e: Edge| #[trigger] listed.contains(e) <==> can_be_special(links@, anchors, e) by {
            if listed.contains(e) {
                let m = choose|m: int| 0 <= m < listed.len() && listed[m] == e;
                assert(can_be_special(links@, anchors, listed[m]));
            }
            if can_be_special(links@, anchors, e) {
                let j = choose|j: int| 0 <= j < edges@.len() && edges@[j] == e;
                assert(can_be_special(links@, anchors, edges@[j]));
            }
        }
        assert(gave_order(*old(rng), *rng, listed, free@));
        lemma_shuffled(listed, free@);
        assert forall|i: int| 0 <= i < free.len() implies can_be_special(links@, anchors, #[trigger] free@[i]) by {
            assert(free@.contains(free@[i]));
            let m = choose|m: int| 0 <= m < listed.len() && listed[m] == free@[i];
            assert(can_be_special(links@, anchors, listed[m]));
        }
    }
    let end: usize = if free.len() < ids.len() { free.len() } else { ids.len() };
    assert(free@.take(0) =~= Seq::<Edge>::empty());
    for k in 0..end
        invariant
            links@.len() <= usize::MAX,
            links_in_range(links@),
            links_mutual(links@),
            end <= free.len(),
            end <= ids.len(),
            free@.no_duplicates(),
            forall|i: int| 0 <= i < free.len() ==> can_be_special(links@, anchors, #[trigger] free@[i]),
            forall|i: int| 0 <= i < anchors.len() ==> joins(links@, #[trigger] anchors[i]),
            rows.len() == links.len(),
            given_ids(rows@, anchors, anchor_ids),
            given_ids(rows@, free@.take(k as int), ids@),
            core_elsewhere(links@, rows@, core, anchors, free@.take(k as int)),
            rim_zero(links@, rows@),
            same_but(links@, old(rows)@, rows@, free@.take(k as int)),
    {
        let (a, b, dir) = free[k];
        let ghost edge = free@[k as int];
        let ghost before = rows@;
        let ghost past = free@.take(k as int);
        let ghost now = free@.take(k + 1);
        proof {
            assert(can_be_special(links@, anchors, edge));
            lemma_edge_back(links@, edge);
        }
        set_abs_edge(rows, a, b, dir, ids[k]);
        proof {
            assert(now =~= past.push(edge));
            lemma_rim_kept(links@, before, rows@, edge);
            assert(!listed_either(anchors, edge)) by {
                if listed_either(anchors, edge) {
                    let i = choose|i: int| 0 <= i < anchors.len() && same_edge(#[trigger] anchors[i], edge);
                    assert(between(anchors[i], edge.0 as int, edge.1 as int));
                }
            }
            lemma_anchors_kept(links@, before, rows@, anchors, anchor_ids, edge);
            assert forall|i: int| 0 <= i < now.len() implies on_both(rows@, #[trigger] now[i], ids@[i] as int) by {
                if i < k {
                    assert(now[i] == past[i]);
                    assert(on_both(before, past[i], ids@[i] as int));
                    assert(free@[i] != free@[k as int]);
                    assert(can_be_special(links@, anchors, free@[i]));
                    lemma_other_edge(links@, before, rows@, edge, free@[i]);
                }
            }
            assert forall|e: Edge|
                #[trigger] joins(links@, e) && is_forward(e) && !now.contains(e) implies rows@[e.0 as int]@[e.2 as int]
                == old(rows)@[e.0 as int]@[e.2 as int] by {
                assert(now[k as int] == edge);
                assert(!past.contains(e)) by {
                    if past.contains(e) {
                        let i = choose|i: int| 0 <= i < past.len() && past[i] == e;
                        assert(now[i] == e);
                    }
                }
                lemma_other_edge(links@, before, rows@, edge, e);
            }
            assert forall|e: Edge|
                #[trigger] joins(links@, e) && is_forward(e) && !listed_either(anchors, e) && !now.contains(e) implies has_core_id(
                rows@,
                e,
                core,
            ) by {
                assert(now[k as int] == edge);
                assert(e != edge);
                assert(!past.contains(e)) by {
                    if past.contains(e) {
                        let i = choose|i: int| 0 <= i < past.len() && past[i] == e;
                        assert(now[i] == e);
                    }
                }
                assert(has_core_id(before, e, core));
                lemma_other_edge(links@, before, rows@, edge, e);
            }
        }
    }
    proof {
        let specials = free@.take(end as int);
        assert(specials.no_duplicates()) by {
            assert forall|i: int, j: int| 0 <= i < specials.len() && 0 <= j < specials.len() && i != j implies specials[i]
                != specials[j] by {
                assert(specials[i] == free@[i] && specials[j] == free@[j]);
            }
        }
        assert forall|i: int| 0 <= i < specials.len() implies can_be_special(links@, anchors, #[trigger] specials[i]) by {
            assert(specials[i] == free@[i]);
        }
        if specials.len() < ids.len() {
            assert(specials =~= free@);
            assert forall|e: Edge| #[trigger] can_be_special(links@, anchors, e) implies specials.contains(e) by {
                let j = choose|j: int| 0 <= j < edges@.len() && edges@[j] == e;
                assert(can_be_special(links@, anchors, edges@[j]));
                assert(listed.contains(e));
            }
        }
    }
    Ghost(free@.take(end as int))
}

/// Whether the ids of the inner edges are planned by the rules: `anchors` are
/// edges of a spanning tree that have ids of their own, `specials` are edges
/// that have the chiral ids, and every other inner edge has a core id.
pub open spec fn ids_planned(
    links: Seq<[Option<usize>; 6]>,
    lists: IdLists,
    chiral: bool,
    rows: Seq<[i32; 6]>,
    tree: Seq<Edge>,
    chosen: Seq<bool>,
    specials: Seq<Edge>,
) -> bool {
    let anchors = picked(tree, chosen, tree.len() as int);
    &&& rows.len() == links.len()
    &&& spans(links, tree)
    &&& chosen.len() == tree.len()
    &&& anchors.len() == (if lists.anchors@.len() < tree.len() {
        lists.anchors@.len()
    } else {
        tree.len()
    })
    &&& given_ids(rows, anchors, lists.anchors@)
    &&& are_special(
        links,
        anchors,
        specials,
        if chiral {
            lists.chiral@.len() as int
        } else {
            0
        },
    )
    &&& given_ids(rows, specials, lists.chiral@)
    &&& core_elsewhere(links, rows, lists.core@, anchors, specials)
    &&& rim_zero(links, rows)
}

/// Whether the ids of the inner edges are planned by the rules.
pub open spec fn is_id_plan(links: Seq<[Option<usize>; 6]>, lists: IdLists, chiral: bool, rows: Seq<[i32; 6]>) -> bool {
    exists|tree: Seq<Edge>, chosen: Seq<bool>, specials: Seq<Edge>| #[trigger]
        ids_planned(links, lists, chiral, rows, tree, chosen, specials)
}

/// Whether the ids of the inner edges are planned with what generator
/// `before` gives, and the generator is `after` then: a spanning tree, the
/// edges of it that have ids of their own, the core ids of the others, and
/// the special edges.
pub open spec fn id_plan_drawn(
    before: StdRng,
    after: StdRng,
    links: Seq<[Option<usize>; 6]>,
    lists: IdLists,
    chiral: bool,
    rows: Seq<[i32; 6]>,
) -> bool {
    exists|tree: Seq<Edge>, chosen: Seq<bool>, specials: Seq<Edge>, filled: Seq<[i32; 6]>, states: Seq<StdRng>|
        #![trigger ids_planned(links, lists, chiral, rows, tree, chosen, specials), ids_given(states, links, lists, chiral, tree, chosen, specials, filled)]
        ids_planned(links, lists, chiral, rows, tree, chosen, specials) && ids_given(
            states,
            links,
            lists,
            chiral,
            tree,
            chosen,
            specials,
            filled,
        ) && states[0] == before && states[4] == after && same_but(links, filled, rows, specials)
}

/// The same, with the core ids in `filled`, as the generator goes through
/// `states`.
pub open spec fn ids_given(
    states: Seq<StdRng>,
    links: Seq<[Option<usize>; 6]>,
    lists: IdLists,
    chiral: bool,
    tree: Seq<Edge>,
    chosen: Seq<bool>,
    specials: Seq<Edge>,
    filled: Seq<[i32; 6]>,
) -> bool {
    let anchors = picked(tree, chosen, tree.len() as int);
    &&& states.len() == 5
    &&& tree_walked(states[0], states[1], links, tree)
    &&& places_drawn(states[1], states[2], tree.len() as int, lists.anchors@.len() as int, chosen)
    &&& exists|edges: Seq<Edge>| #[trigger]
        lists_edges(links, edges) && core_drawn(
            states[2],
            states[3],
            edges,
            filled,
            lists.core@,
            anchors,
            edges.len() as int,
        )
    &&& if chiral && lists.chiral@.len() > 0 {
        specials_drawn(states[3], states[4], links, anchors, lists.chiral@.len() as int, specials)
    } else {
        specials.len() == 0 && states[4] == states[3]
    }
}

/// An id for each inner edge, on both sides of it.
pub fn plan_ids(links: &Links, lists: &IdLists, chiral: bool, rng: &mut StdRng) -> (rows: Vec<[i32; 6]>)
    requires
        links.len() > 0,
        links_in_range(links@),
        links_mutual(links@),
        lists.core.len() > 0,
        forall|i: int| 0 <= i < lists.core.len() ==> #[trigger] lists.core@[i] > 0,
        forall|i: int| 0 <= i < lists.anchors.len() ==> #[trigger] lists.anchors@[i] > 0,
    ensures
        is_id_plan(links@, *lists, chiral, rows@),
        id_plan_drawn(*old(rng), *final(rng), links@, *lists, chiral, rows@),
{
    let tree: Vec<Edge> = random_spanning_tree(links, rng);
    let ghost first = *rng;
    let chosen: Vec<bool> = choose_places(tree.len(), lists.anchors.len(), rng);
    let ghost second = *rng;
    let ghost anchors = picked(tree@, chosen@, tree.len() as int);
    let (mut rows, partners) = place_anchors(links, &tree, &chosen, &lists.anchors);
    proof {
        assert(links@.len() == links.len());
        lemma_picked_len(tree@, chosen@, tree.len() as int);
        lemma_picked_apart(links@, tree@, chosen@, tree.len() as int);
    }
    let edges: Vec<Edge> = enumerate_edges(links);
    fill_core(links, &edges, &mut rows, &lists.core, rng, Ghost(anchors), Ghost(lists.anchors@));
    let ghost third = *rng;
    let ghost filled = rows@;
    let ghost mut specials: Seq<Edge> = Seq::empty();
    if chiral && lists.chiral.len() > 0 {
        let Ghost(placed) = place_specials(
            links,
            &edges,
            &partners,
            &mut rows,
            &lists.chiral,
            rng,
            Ghost(anchors),
            Ghost(lists.anchors@),
            Ghost(lists.core@),
        );
        proof {
            specials = placed;
        }
    }
    proof {
        assert(ids_planned(links@, *lists, chiral, rows@, tree@, chosen@, specials));
        let states = seq![*old(rng), first, second, third, *rng];
        assert(lists_edges(links@, edges@));
        assert(ids_given(states, links@, *lists, chiral, tree@, chosen@, specials, filled));
    }
    rows
}

/// Every inner edge of a plan has an id, the same on both sides, and the rim
/// has none.
pub proof fn law_planned_ids(links: Seq<[Option<usize>; 6]>, lists: IdLists, chiral: bool, rows: Seq<[i32; 6]>)
    requires
        links.len() > 0,
        links.len() <= usize::MAX,
        links_in_range(links),
        links_mutual(links),
        is_id_plan(links, lists, chiral, rows),
        forall|i: int| 0 <= i < lists.core@.len() ==> #[trigger] lists.core@[i] > 0,
        forall|i: int| 0 <= i < lists.anchors@.len() ==> #[trigger] lists.anchors@[i] > 0,
        forall|i: int| 0 <= i < lists.chiral@.len() ==> #[trigger] lists.chiral@[i] > 0,
    ensures
        rows.len() == links.len(),
        rim_zero(links, rows),
        forall|e: Edge| #[trigger] joins(links, e) ==> rows[e.0 as int]@[e.2 as int] > 0 && on_both(
            rows,
            e,
            rows[e.0 as int]@[e.2 as int] as int,
        ),
{
    let (tree, chosen, specials) = choose|tree: Seq<Edge>, chosen: Seq<bool>, specials: Seq<Edge>| #[trigger]
        ids_planned(links, lists, chiral, rows, tree, chosen, specials);
    let anchors = picked(tree, chosen, tree.len() as int);
    assert forall|e: Edge| #[trigger] joins(links, e) implies rows[e.0 as int]@[e.2 as int] > 0 && on_both(
        rows,
        e,
        rows[e.0 as int]@[e.2 as int] as int,
    ) by {
        lemma_edge_back(links, e);
        assert(opposite(opposite(e.2 as int)) == e.2);
        let f = if is_forward(e) {
            e
        } else {
            reversed(e)
        };
        assert(joins(links, f) && is_forward(f));
        lemma_picked_apart(links, tree, chosen, tree.len() as int);
        if listed_either(anchors, f) {
            let i = choose|i: int| 0 <= i < anchors.len() && same_edge(#[trigger] anchors[i], f);
            assert(on_both(rows, anchors[i], lists.anchors@[i] as int));
            assert(lists.anchors@[i] > 0);
            assert(joins(links, anchors[i]));
        } else if specials.contains(f) {
            let i = choose|i: int| 0 <= i < specials.len() && specials[i] == f;
            assert(on_both(rows, specials[i], lists.chiral@[i] as int));
            assert(lists.chiral@[i] > 0);
        } else {
            assert(has_core_id(rows, f, lists.core@));
            let id = rows[f.0 as int]@[f.2 as int];
            let i = choose|i: int| 0 <= i < lists.core@.len() && lists.core@[i] == id;
            assert(lists.core@[i] > 0);
        }
    }
}

} // verus!
