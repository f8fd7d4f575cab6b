//! Which ids the true pieces of a trial have: those above the core are taken
//! in turn, each for one edge.

use crate::edges::{
    between, grows, is_forward, joins, law_spanning_tree, lemma_edge_back, lemma_listed_apart, lists_edges, reached,
    spans, tree_joins, tree_spread, Edge,
};
use crate::grid::{connected, links_differ, links_in_range, links_mutual, magnitude, opposite};
use crate::rng::{gave_i32, gave_word};
use crate::trial::Piece;
use crate::trial_pieces::{
    choice_drawn, choices_drawn, edge_drawn, edge_source, id_drawn, lemma_next_unused, lemma_next_unused_grows, made_true_pieces, marks_tree, next_unused, numbered,
    numbered_at, numbered_pieces, roll_drawn, shows_edge, true_pieces_drawn, EdgeChoice, IdSource, Numbering,
};
use rand::rngs::StdRng;
use vstd::prelude::*;

verus! {

/// Whether the pieces show `id` on an edge, negated on its other side, and
/// nowhere else.
pub open spec fn only_on(pieces: Seq<Piece>, id: int, edge: Edge) -> bool {
    let (a, b, dir) = edge;
    &&& pieces[a as int].edges@[dir as int] == id
    &&& pieces[b as int].edges@[opposite(dir as int)] == -id
    &&& forall|i: int, d: int|
        0 <= i < pieces.len() && 0 <= d < 6 && magnitude(#[trigger] pieces[i].edges@[d]) == id ==> (i == a && d == dir)
            || (i == b && d == opposite(dir as int))
}

/// Whether the pieces show `id` on one edge alone.
pub open spec fn on_one_edge(links: Seq<[Option<usize>; 6]>, pieces: Seq<Piece>, id: int) -> bool {
    exists|e: Edge| joins(links, e) && is_forward(e) && #[trigger] only_on(pieces, id, e)
}

/// Whether edge `k` takes an unused id.
spec fn takes_unused(plan: Numbering, is_tree: Seq<bool>, choices: Seq<EdgeChoice>, k: int) -> bool {
    edge_source(plan, is_tree, choices, k, next_unused(plan, is_tree, choices, k)) == IdSource::Unique
}

/// Every id that has been passed was taken by an edge.
proof fn lemma_taken(plan: Numbering, is_tree: Seq<bool>, choices: Seq<EdgeChoice>, n: int, id: int) -> (k: int)
    requires
        0 <= n,
        plan.core < id < next_unused(plan, is_tree, choices, n),
    ensures
        0 <= k < n,
        takes_unused(plan, is_tree, choices, k),
        next_unused(plan, is_tree, choices, k) == id,
    decreases n,
{
    if id < next_unused(plan, is_tree, choices, n - 1) {
        lemma_taken(plan, is_tree, choices, n - 1, id)
    } else {
        n - 1
    }
}

/// With a core, the ids above it are those of the edges that took unused
/// ids, each of another edge.
proof fn lemma_above_core(plan: Numbering, is_tree: Seq<bool>, choices: Seq<EdgeChoice>, ids: Seq<i32>, j: int, k: int)
    requires
        1 <= plan.core <= plan.alphabet,
        numbered(plan, is_tree, choices, ids),
        0 <= j < ids.len(),
        0 <= k < ids.len(),
        ids[j] > plan.core,
        ids[j] == ids[k],
    ensures
        j == k,
        ids[j] < next_unused(plan, is_tree, choices, ids.len() as int),
{
    assert(numbered_at(plan, is_tree, choices, ids, j));
    assert(numbered_at(plan, is_tree, choices, ids, k));
    if j < k {
        lemma_next_unused_grows(plan, is_tree, choices, j + 1, k);
    } else if k < j {
        lemma_next_unused_grows(plan, is_tree, choices, k + 1, j);
    }
    lemma_next_unused_grows(plan, is_tree, choices, j + 1, ids.len() as int);
}

/// The edge that a side of a piece belongs to, by its place in the list.
proof fn lemma_side_listed(links: Seq<[Option<usize>; 6]>, edges: Seq<Edge>, i: int, dir: int) -> (k: int)
    requires
        links.len() <= usize::MAX,
        links_in_range(links),
        links_mutual(links),
        lists_edges(links, edges),
        0 <= i < links.len(),
        0 <= dir < 6,
        links[i]@[dir] is Some,
    ensures
        0 <= k < edges.len(),
        joins(links, edges[k]),
        (edges[k].0 == i && edges[k].2 == dir) || (edges[k].1 == i && opposite(edges[k].2 as int) == dir),
{
    let nb = links[i]@[dir]->0;
    let here = (i as usize, nb, dir as usize);
    lemma_edge_back(links, here);
    let back = opposite(dir);
    let e = if i < nb {
        here
    } else {
        (nb, i as usize, back as usize)
    };
    assert(opposite(back) == dir);
    assert(joins(links, e) && is_forward(e));
    let k = choose|k: int| 0 <= k < edges.len() && edges[k] == e;
    k
}

/// With a core, the ids above it on the true pieces are the next ones after
/// it, as many as were taken, each on one edge alone.
pub proof fn law_unused_ids(links: Seq<[Option<usize>; 6]>, plan: Numbering, pieces: Seq<Piece>, used: int)
    requires
        links.len() <= usize::MAX,
        links_in_range(links),
        links_mutual(links),
        1 <= plan.core <= plan.alphabet <= i32::MAX,
        made_true_pieces(links, plan, pieces, used),
    ensures
        0 <= used <= plan.alphabet - plan.core,
        forall|i: int, dir: int|
            0 <= i < pieces.len() && 0 <= dir < 6 ==> magnitude(#[trigger] pieces[i].edges@[dir]) <= plan.core + used,
        forall|id: int| plan.core < id <= plan.core + used ==> #[trigger] on_one_edge(links, pieces, id),
{
    let (edges, tree, is_tree, choices, ids, rows) = choose|
        edges: Seq<Edge>,
        tree: Seq<Edge>,
        is_tree: Seq<bool>,
        choices: Seq<EdgeChoice>,
        ids: Seq<i32>,
        rows: Seq<[i32; 6]>,
    | #[trigger]
        numbered_pieces(links, plan, pieces, used, edges, tree, is_tree, choices, ids, rows);
    let n = edges.len() as int;
    lemma_next_unused(plan, is_tree, choices, n);
    assert forall|i: int, dir: int| 0 <= i < pieces.len() && 0 <= dir < 6 implies magnitude(
        #[trigger] pieces[i].edges@[dir],
    ) <= plan.core + used by {
        assert(pieces[i].edges == rows[i]);
        if links[i]@[dir] is Some {
            let k = lemma_side_listed(links, edges, i, dir);
            assert(shows_edge(rows, edges[k], ids[k]));
            assert(numbered_at(plan, is_tree, choices, ids, k));
            lemma_next_unused(plan, is_tree, choices, k);
            if ids[k] > plan.core {
                lemma_above_core(plan, is_tree, choices, ids, k, k);
            }
        }
    }
    assert forall|id: int| plan.core < id <= plan.core + used implies #[trigger] on_one_edge(links, pieces, id) by {
        let k = lemma_taken(plan, is_tree, choices, n, id);
        assert(numbered_at(plan, is_tree, choices, ids, k));
        let e = edges[k];
        assert(joins(links, e) && is_forward(e));
        lemma_edge_back(links, e);
        assert(shows_edge(rows, edges[k], ids[k]));
        assert forall|i: int, d: int|
            0 <= i < pieces.len() && 0 <= d < 6 && magnitude(#[trigger] pieces[i].edges@[d]) == id implies (i == e.0
            && d == e.2) || (i == e.1 && d == opposite(e.2 as int)) by {
            assert(pieces[i].edges == rows[i]);
            if links[i]@[d] is Some {
                let m = lemma_side_listed(links, edges, i, d);
                assert(shows_edge(rows, edges[m], ids[m]));
                assert(numbered_at(plan, is_tree, choices, ids, m));
                lemma_next_unused(plan, is_tree, choices, m);
                assert(ids[m] == id);
                lemma_above_core(plan, is_tree, choices, ids, m, k);
            }
        }
        assert(pieces[e.0 as int].edges == rows[e.0 as int] && pieces[e.1 as int].edges == rows[e.1 as int]);
        assert(only_on(pieces, id, e));
    }
}

/// The number of the first `n` marks that are set.
spec fn marked(marks: Seq<bool>, n: int) -> int
    decreases n,
{
    if n <= 0 {
        0
    } else {
        marked(marks, n - 1) + (if marks[n - 1] {
            1int
        } else {
            0
        })
    }
}

spec fn marked_below(marks: Seq<bool>, n: int) -> Set<int> {
    Set::new(|k: int| 0 <= k < n && marks[k])
}

proof fn lemma_marked(marks: Seq<bool>, n: int)
    requires
        0 <= n <= marks.len(),
    ensures
        marked_below(marks, n).finite(),
        marked_below(marks, n).len() == marked(marks, n),
    decreases n,
{
    if n == 0 {
        assert(marked_below(marks, n) =~= Set::empty());
    } else {
        lemma_marked(marks, n - 1);
        if marks[n - 1] {
            assert(marked_below(marks, n) =~= marked_below(marks, n - 1).insert(n - 1));
        } else {
            assert(marked_below(marks, n) =~= marked_below(marks, n - 1));
        }
    }
}

/// What an edge of a growing tree joins: cells that the tree reaches.
proof fn lemma_tree_edge(links: Seq<[Option<usize>; 6]>, tree: Seq<Edge>, s: int)
    requires
        grows(links, tree),
        0 <= s < tree.len(),
    ensures
        joins(links, tree[s]),
        reached(tree).contains(tree[s].0 as int),
        reached(tree).contains(tree[s].1 as int),
    decreases tree.len(),
{
    let front = tree.drop_last();
    if s < front.len() {
        lemma_tree_edge(links, front, s);
        assert(front[s] == tree[s]);
    }
}

/// Different edges of a growing tree do not join the same two cells.
proof fn lemma_tree_apart(links: Seq<[Option<usize>; 6]>, tree: Seq<Edge>, s: int, t: int)
    requires
        grows(links, tree),
        0 <= s < t < tree.len(),
    ensures
        !between(tree[s], tree[t].0 as int, tree[t].1 as int),
    decreases tree.len(),
{
    let front = tree.drop_last();
    if t < front.len() {
        lemma_tree_apart(links, front, s, t);
        assert(front[s] == tree[s] && front[t] == tree[t]);
    } else {
        lemma_tree_edge(links, front, s);
        assert(front[s] == tree[s]);
    }
}

/// As many edges are marked as the tree has.
proof fn lemma_tree_marked(links: Seq<[Option<usize>; 6]>, edges: Seq<Edge>, tree: Seq<Edge>, is_tree: Seq<bool>)
    requires
        links.len() <= usize::MAX,
        links_in_range(links),
        links_mutual(links),
        links_differ(links),
        lists_edges(links, edges),
        marks_tree(links, edges, tree, is_tree),
    ensures
        marked(is_tree, edges.len() as int) == tree.len(),
{
    let n = edges.len() as int;
    let numbers = vstd::set_lib::set_int_range(0, tree.len() as int);
    vstd::set_lib::lemma_int_range(0, tree.len() as int);
    let place = |t: int|
        choose|k: int| 0 <= k < n && between(tree[t], (#[trigger] edges[k]).0 as int, edges[k].1 as int);
    assert forall|t: int| #[trigger] numbers.contains(t) implies {
        let k = place(t);
        &&& 0 <= k < n
        &&& between(tree[t], edges[k].0 as int, edges[k].1 as int)
        &&& marked_below(is_tree, n).contains(k)
    } by {
        lemma_tree_edge(links, tree, t);
        let (a, _, dir) = tree[t];
        let k = lemma_side_listed(links, edges, a as int, dir as int);
        lemma_edge_back(links, edges[k]);
        lemma_edge_back(links, tree[t]);
        assert(opposite(opposite(edges[k].2 as int)) == edges[k].2);
        assert(between(tree[t], edges[k].0 as int, edges[k].1 as int));
        let m = place(t);
        assert(tree_joins(tree, edges[m].0 as int, edges[m].1 as int));
        assert(is_tree[m]);
    }
    assert(vstd::relations::injective_on(place, numbers)) by {
        assert forall|s: int, t: int| numbers.contains(s) && numbers.contains(t) && #[trigger] place(s)
            == #[trigger] place(t) implies s == t by {
            if s < t {
                lemma_tree_apart(links, tree, s, t);
            } else if t < s {
                lemma_tree_apart(links, tree, t, s);
            }
        }
    }
    assert(numbers.map(place) =~= marked_below(is_tree, n)) by {
        assert forall|k: int| marked_below(is_tree, n).contains(k) implies numbers.map(place).contains(k) by {
            assert(is_tree[k]);
            let t = choose|t: int|
                0 <= t < tree.len() && between(#[trigger] tree[t], edges[k].0 as int, edges[k].1 as int);
            assert(numbers.contains(t));
            let m = place(t);
            let e = edges[k];
            let f = edges[m];
            assert(joins(links, e) && is_forward(e));
            assert(joins(links, f) && is_forward(f));
            assert(e.0 == f.0 && e.1 == f.1);
            assert(links[e.0 as int]@[e.2 as int] == links[e.0 as int]@[f.2 as int]);
            assert(e == f);
            if m != k {
                lemma_listed_apart(links, edges, m, k);
            }
        }
    }
    vstd::set_lib::lemma_map_size(numbers, marked_below(is_tree, n), place);
    assert(is_tree.len() == n);
    lemma_marked(is_tree, n);
}

/// Without anchors and with a core, only tree edges take unused ids, while
/// there are any.
proof fn lemma_tree_takes(plan: Numbering, is_tree: Seq<bool>, choices: Seq<EdgeChoice>, k: int)
    requires
        1 <= plan.core <= plan.alphabet,
        plan.cut == 0,
        0 <= k,
    ensures
        next_unused(plan, is_tree, choices, k) == (if plan.core + 1 + marked(is_tree, k) < plan.alphabet + 1 {
            plan.core + 1 + marked(is_tree, k)
        } else {
            plan.alphabet + 1
        }),
        0 <= marked(is_tree, k),
    decreases k,
{
    if k > 0 {
        lemma_tree_takes(plan, is_tree, choices, k - 1);
    }
}

/// Without anchors and with a core, as many unused ids are taken as a
/// spanning tree has edges, or all of them if they are fewer.
pub proof fn law_unused_count(links: Seq<[Option<usize>; 6]>, plan: Numbering, pieces: Seq<Piece>, used: int)
    requires
        0 < links.len() <= usize::MAX,
        links_in_range(links),
        links_mutual(links),
        links_differ(links),
        connected(links),
        1 <= plan.core <= plan.alphabet,
        plan.cut == 0,
        made_true_pieces(links, plan, pieces, used),
    ensures
        used == (if links.len() - 1 < plan.alphabet - plan.core {
            links.len() - 1
        } else {
            plan.alphabet - plan.core
        }),
{
    let (edges, tree, is_tree, choices, ids, rows) = choose|
        edges: Seq<Edge>,
        tree: Seq<Edge>,
        is_tree: Seq<bool>,
        choices: Seq<EdgeChoice>,
        ids: Seq<i32>,
        rows: Seq<[i32; 6]>,
    | #[trigger]
        numbered_pieces(links, plan, pieces, used, edges, tree, is_tree, choices, ids, rows);
    law_spanning_tree(links, tree);
    lemma_tree_marked(links, edges, tree, is_tree);
    lemma_tree_takes(plan, is_tree, choices, edges.len() as int);
}

/// Whether every edge of the tree has an id above the core, or the greatest
/// core id if there are none left, or 1 if there is no core either.
pub open spec fn tree_values(
    links: Seq<[Option<usize>; 6]>,
    plan: Numbering,
    pieces: Seq<Piece>,
    used: int,
    tree: Seq<Edge>,
) -> bool {
    forall|e: Edge| #[trigger]
        joins(links, e) && is_forward(e) && tree_joins(tree, e.0 as int, e.1 as int) ==> {
            let value = pieces[e.0 as int].edges@[e.2 as int];
            ||| plan.core < value <= plan.core + used
            ||| used == plan.alphabet - plan.core && value == (if plan.core >= 1 {
                plan.core
            } else {
                1
            })
        }
}

/// The edges of some spanning tree have ids above the core as long as there
/// are any.
pub proof fn law_tree_values(links: Seq<[Option<usize>; 6]>, plan: Numbering, pieces: Seq<Piece>, used: int)
    requires
        0 <= plan.core <= plan.alphabet <= i32::MAX,
        1 <= plan.alphabet,
        made_true_pieces(links, plan, pieces, used),
    ensures
        exists|tree: Seq<Edge>| #[trigger] spans(links, tree) && tree_values(links, plan, pieces, used, tree),
{
    let (edges, tree, is_tree, choices, ids, rows) = choose|
        edges: Seq<Edge>,
        tree: Seq<Edge>,
        is_tree: Seq<bool>,
        choices: Seq<EdgeChoice>,
        ids: Seq<i32>,
        rows: Seq<[i32; 6]>,
    | #[trigger]
        numbered_pieces(links, plan, pieces, used, edges, tree, is_tree, choices, ids, rows);
    let n = edges.len() as int;
    lemma_next_unused(plan, is_tree, choices, n);
    assert forall|e: Edge| #[trigger]
        joins(links, e) && is_forward(e) && tree_joins(tree, e.0 as int, e.1 as int) implies {
        let value = pieces[e.0 as int].edges@[e.2 as int];
        ||| plan.core < value <= plan.core + used
        ||| used == plan.alphabet - plan.core && value == (if plan.core >= 1 {
            plan.core
        } else {
            1
        })
    } by {
        let k = choose|k: int| 0 <= k < edges.len() && edges[k] == e;
        assert(shows_edge(rows, edges[k], ids[k]));
        assert(pieces[e.0 as int].edges == rows[e.0 as int]);
        assert(is_tree[k]);
        assert(numbered_at(plan, is_tree, choices, ids, k));
        lemma_next_unused(plan, is_tree, choices, k);
        lemma_next_unused_grows(plan, is_tree, choices, k, n);
        if takes_unused(plan, is_tree, choices, k) {
            lemma_next_unused_grows(plan, is_tree, choices, k + 1, n);
        }
    }
    assert(tree_values(links, plan, pieces, used, tree));
}

/// Without a core, every edge takes an unused id as long as there are any.
pub proof fn law_count_without_core(links: Seq<[Option<usize>; 6]>, plan: Numbering, pieces: Seq<Piece>, used: int)
    requires
        plan.core == 0,
        1 <= plan.alphabet,
        made_true_pieces(links, plan, pieces, used),
    ensures
        exists|edges: Seq<Edge>| #[trigger]
            lists_edges(links, edges) && used == (if edges.len() < plan.alphabet {
                edges.len() as int
            } else {
                plan.alphabet
            }),
{
    let (edges, tree, is_tree, choices, ids, rows) = choose|
        edges: Seq<Edge>,
        tree: Seq<Edge>,
        is_tree: Seq<bool>,
        choices: Seq<EdgeChoice>,
        ids: Seq<i32>,
        rows: Seq<[i32; 6]>,
    | #[trigger]
        numbered_pieces(links, plan, pieces, used, edges, tree, is_tree, choices, ids, rows);
    lemma_all_take(plan, is_tree, choices, edges.len() as int);
    assert(lists_edges(links, edges));
}

proof fn lemma_all_take(plan: Numbering, is_tree: Seq<bool>, choices: Seq<EdgeChoice>, k: int)
    requires
        plan.core == 0,
        1 <= plan.alphabet,
        0 <= k,
    ensures
        next_unused(plan, is_tree, choices, k) == (if k < plan.alphabet {
            1 + k
        } else {
            1 + plan.alphabet
        }),
    decreases k,
{
    if k > 0 {
        lemma_all_take(plan, is_tree, choices, k - 1);
    }
}

/// Whether `value` is what a generator gives for an edge outside the tree
/// when there is a core: a number from 1 to the core, unless the word drawn
/// first makes a roll below the share of anchored edges and the id lies above
/// the core.
pub open spec fn outside_given(
    before: StdRng,
    mid: StdRng,
    after: StdRng,
    plan: Numbering,
    word: u64,
    value: i32,
) -> bool {
    &&& if plan.cut > 0 {
        gave_word(before, mid, word)
    } else {
        mid == before
    }
    &&& (plan.cut > 0 && word / 2048 < plan.cut && value > plan.core) || gave_i32(
        mid,
        after,
        1,
        plan.core as i32,
        value,
    )
}

/// Whether some generator gives `value` for an edge outside the tree.
pub open spec fn outside_value(plan: Numbering, value: i32) -> bool {
    exists|before: StdRng, mid: StdRng, after: StdRng, word: u64| #[trigger]
        outside_given(before, mid, after, plan, word, value)
}

/// Whether every edge outside the tree shows a value given for it.
pub open spec fn outside_values(
    links: Seq<[Option<usize>; 6]>,
    plan: Numbering,
    pieces: Seq<Piece>,
    tree: Seq<Edge>,
) -> bool {
    forall|e: Edge| #[trigger]
        joins(links, e) && is_forward(e) && !tree_joins(tree, e.0 as int, e.1 as int) ==> outside_value(
            plan,
            pieces[e.0 as int].edges@[e.2 as int],
        )
}

proof fn lemma_edge_drawn(
    before: StdRng,
    after: StdRng,
    plan: Numbering,
    is_tree: Seq<bool>,
    choices: Seq<EdgeChoice>,
    n: int,
    k: int,
)
    requires
        0 <= k < n,
        choices_drawn(before, after, plan, is_tree, choices, n),
    ensures
        exists|mid: StdRng, last: StdRng| #[trigger] edge_drawn(mid, last, plan, is_tree, choices, k),
    decreases n,
{
    let (mid, last) = choose|mid: StdRng, last: int| #[trigger]
        edge_drawn(mid, after, plan, is_tree, choices, last) && last == n - 1 && choices_drawn(
            before,
            mid,
            plan,
            is_tree,
            choices,
            n - 1,
        );
    if k < n - 1 {
        lemma_edge_drawn(before, mid, plan, is_tree, choices, n - 1, k);
    }
}

/// With a core, the edges outside the spanning tree that was drawn show what
/// the generator gave for them: a number drawn from 1 to the core, or the id
/// of an anchored edge.
pub proof fn law_outside_values_drawn(
    before: StdRng,
    after: StdRng,
    links: Seq<[Option<usize>; 6]>,
    plan: Numbering,
    pieces: Seq<Piece>,
    used: int,
)
    requires
        1 <= plan.core <= plan.alphabet <= i32::MAX,
        true_pieces_drawn(before, after, links, plan, pieces, used),
    ensures
        exists|mid: StdRng, tree: Seq<Edge>| #[trigger]
            tree_spread(before, mid, links, tree) && spans(links, tree) && outside_values(links, plan, pieces, tree),
{
    let (mid, edges, tree, is_tree, choices, ids, rows) = choose|
        mid: StdRng,
        edges: Seq<Edge>,
        tree: Seq<Edge>,
        is_tree: Seq<bool>,
        choices: Seq<EdgeChoice>,
        ids: Seq<i32>,
        rows: Seq<[i32; 6]>,
    |
        #![trigger tree_spread(before, mid, links, tree), numbered_pieces(links, plan, pieces, used, edges, tree, is_tree, choices, ids, rows)]
        tree_spread(before, mid, links, tree) && numbered_pieces(
            links,
            plan,
            pieces,
            used,
            edges,
            tree,
            is_tree,
            choices,
            ids,
            rows,
        ) && choices_drawn(mid, after, plan, is_tree, choices, edges.len() as int);
    assert forall|e: Edge| #[trigger] joins(links, e) && is_forward(e) && !tree_joins(tree, e.0 as int, e.1 as int) implies outside_value(
        plan,
        pieces[e.0 as int].edges@[e.2 as int],
    ) by {
        let k = choose|k: int| 0 <= k < edges.len() && edges[k] == e;
        assert(shows_edge(rows, edges[k], ids[k]));
        assert(pieces[e.0 as int].edges == rows[e.0 as int]);
        assert(!is_tree[k]);
        assert(numbered_at(plan, is_tree, choices, ids, k));
        lemma_next_unused(plan, is_tree, choices, k);
        lemma_edge_drawn(mid, after, plan, is_tree, choices, edges.len() as int, k);
        let (start, end) = choose|start: StdRng, end: StdRng| #[trigger]
            edge_drawn(start, end, plan, is_tree, choices, k);
        let source = edge_source(plan, is_tree, choices, k, next_unused(plan, is_tree, choices, k));
        assert(choice_drawn(start, end, plan, is_tree[k], source, choices[k]));
        let inner = choose|inner: StdRng|
            (if plan.cut > 0 {
                roll_drawn(start, inner, choices[k].roll)
            } else {
                inner == start
            }) && #[trigger] id_drawn(inner, end, plan, source, choices[k].id);
        let roll = choices[k].roll;
        let word = choose|word: u64| #[trigger]
            gave_word(start, inner, word) && 2048 * roll <= word < 2048 * (roll + 1);
        if plan.cut > 0 {
            assert(word / 2048 == roll);
        }
        assert(outside_given(start, inner, end, plan, word, ids[k]));
    }
    assert(outside_values(links, plan, pieces, tree));
}

} // verus!
