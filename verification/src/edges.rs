//! The inner edges of a board, and spanning trees made of them.

use crate::grid::{closed_under_links, connected, leads_back, links_in_range, links_mutual, opposite, Links};
use crate::rng::{gave_order, lemma_shuffled, reordered};
use rand::rngs::StdRng;
use vstd::prelude::*;

verus! {

/// An edge as a cell, its neighbour, and the direction from one to the other.
pub type Edge = (usize, usize, usize);

/// Whether `edge` joins two cells of the board.
pub open spec fn joins(links: Seq<[Option<usize>; 6]>, edge: Edge) -> bool {
    let (a, b, dir) = edge;
    a < links.len() && dir < 6 && links[a as int]@[dir as int] == Some(b)
}

/// The place of an edge in the listing order: by cell, then by direction.
pub open spec fn edge_rank(edge: Edge) -> int {
    let (a, _, dir) = edge;
    6 * a + dir
}

/// Whether the edge is seen from its lesser cell.
pub open spec fn is_forward(edge: Edge) -> bool {
    let (a, b, _) = edge;
    a < b
}

/// Whether `edges` lists every inner edge once, seen from its lesser cell, by
/// cell and then by direction.
pub open spec fn lists_edges(links: Seq<[Option<usize>; 6]>, edges: Seq<Edge>) -> bool {
    lists_edges_below(links, edges, 6 * links.len() as int)
}

/// The same for the edges with a rank below `rank`.
pub open spec fn lists_edges_below(links: Seq<[Option<usize>; 6]>, edges: Seq<Edge>, rank: int) -> bool {
    &&& forall|i: int|
        0 <= i < edges.len() ==> joins(links, #[trigger] edges[i]) && is_forward(edges[i]) && edge_rank(edges[i])
            < rank
    &&& forall|i: int, j: int| 0 <= i < j < edges.len() ==> edge_rank(#[trigger] edges[i]) < edge_rank(#[trigger] edges[j])
    &&& forall|e: Edge| #[trigger] joins(links, e) && is_forward(e) && edge_rank(e) < rank ==> edges.contains(e)
}

/// The inner edges of a board.
pub fn enumerate_edges(neighbors: &Links) -> (edges: Vec<Edge>)
    ensures
        lists_edges(neighbors@, edges@),
{
    let mut edges: Vec<Edge> = Vec::new();
    for idx in 0..neighbors.len()
        invariant
            lists_edges_below(neighbors@, edges@, 6 * idx as int),
    {
        for dir in 0..6usize
            invariant
                idx < neighbors.len(),
                lists_edges_below(neighbors@, edges@, 6 * idx + dir),
        {
            let ghost before = edges@;
            if let Some(n_idx) = neighbors[idx][dir] {
                if idx < n_idx {
                    edges.push((idx, n_idx, dir));
                    assert(edges@[edges@.len() - 1] == (idx, n_idx, dir));
                }
            }
            assert forall|e: Edge|
                #[trigger] joins(neighbors@, e) && is_forward(e) && edge_rank(e) < 6 * idx + dir + 1 implies edges@.contains(e) by {
                let (a, b, d) = e;
                if edge_rank(e) == 6 * idx + dir {
                    assert(a == idx && d == dir);
                    assert(edges@[edges@.len() - 1] == e);
                } else {
                    assert(before.contains(e));
                    let i = choose|i: int| 0 <= i < before.len() && before[i] == e;
                    assert(edges@[i] == e);
                }
            }
        }
    }
    edges
}

/// The cells that a list of tree edges reaches from cell 0.
pub open spec fn reached(tree: Seq<Edge>) -> Set<int>
    decreases tree.len(),
{
    if tree.len() == 0 {
        set![0int]
    } else {
        let (_, b, _) = tree.last();
        reached(tree.drop_last()).insert(b as int)
    }
}

/// Whether each edge of `tree` in turn leads from a cell that was reached to
/// one that was not.
pub open spec fn grows(links: Seq<[Option<usize>; 6]>, tree: Seq<Edge>) -> bool
    decreases tree.len(),
{
    tree.len() > 0 ==> {
        let (a, b, _) = tree.last();
        &&& grows(links, tree.drop_last())
        &&& joins(links, tree.last())
        &&& reached(tree.drop_last()).contains(a as int)
        &&& !reached(tree.drop_last()).contains(b as int)
    }
}

/// Whether `tree` grows from cell 0 and nothing more can be reached.
pub open spec fn spans(links: Seq<[Option<usize>; 6]>, tree: Seq<Edge>) -> bool {
    grows(links, tree) && closed_under_links(links, reached(tree))
}

/// A growing tree reaches one cell more than it has edges, all of the board.
pub proof fn lemma_reached(links: Seq<[Option<usize>; 6]>, tree: Seq<Edge>)
    requires
        links.len() > 0,
        links_in_range(links),
        grows(links, tree),
    ensures
        reached(tree).finite(),
        reached(tree).len() == tree.len() + 1,
        reached(tree).contains(0),
        forall|c: int| #[trigger] reached(tree).contains(c) ==> 0 <= c < links.len(),
    decreases tree.len(),
{
    if tree.len() > 0 {
        lemma_reached(links, tree.drop_last());
    }
}

/// On a connected board a spanning tree has one edge less than there are
/// cells, and reaches every cell.
pub proof fn law_spanning_tree(links: Seq<[Option<usize>; 6]>, tree: Seq<Edge>)
    requires
        links.len() > 0,
        links_in_range(links),
        connected(links),
        spans(links, tree),
    ensures
        tree.len() == links.len() - 1,
        forall|c: int| 0 <= c < links.len() ==> #[trigger] reached(tree).contains(c),
{
    lemma_reached(links, tree);
    assert forall|c: int| 0 <= c < links.len() implies #[trigger] reached(tree).contains(c) by {
        assert(closed_under_links(links, reached(tree)));
    }
    let all = vstd::set_lib::set_int_range(0, links.len() as int);
    vstd::set_lib::lemma_int_range(0, links.len() as int);
    assert(reached(tree) =~= all);
}

/// The number of marks that are not set.
pub open spec fn unset(marks: Seq<bool>) -> nat
    decreases marks.len(),
{
    if marks.len() == 0 {
        0
    } else {
        unset(marks.drop_last()) + (if marks.last() {
            0nat
        } else {
            1
        })
    }
}

pub(crate) proof fn lemma_unset_update(marks: Seq<bool>, i: int)
    requires
        0 <= i < marks.len(),
        !marks[i],
    ensures
        unset(marks.update(i, true)) == unset(marks) - 1,
    decreases marks.len(),
{
    let after = marks.update(i, true);
    if i == marks.len() - 1 {
        assert(after.drop_last() =~= marks.drop_last());
    } else {
        assert(after.drop_last() =~= marks.drop_last().update(i, true));
        lemma_unset_update(marks.drop_last(), i);
    }
}

/// Whether generator `before` brings the six directions into the order of
/// `dirs`, and is `after` then.
pub open spec fn dirs_drawn(before: StdRng, after: StdRng, dirs: Seq<usize>) -> bool {
    gave_order(before, after, seq![0usize, 1, 2, 3, 4, 5], dirs)
}

/// The six directions in random order.
pub(crate) fn shuffled_dirs(rng: &mut StdRng) -> (dirs: Vec<usize>)
    ensures
        dirs.len() == 6,
        forall|i: int| 0 <= i < 6 ==> #[trigger] dirs@[i] < 6,
        forall|d: usize| d < 6 ==> #[trigger] dirs@.contains(d),
        dirs_drawn(*old(rng), *final(rng), dirs@),
{
    let mut dirs: Vec<usize> = Vec::new();
    for dir in 0..6usize
        invariant
            dirs.len() == dir,
            forall|i: int| 0 <= i < dir ==> #[trigger] dirs@[i] == i,
    {
        dirs.push(dir);
    }
    let ghost before = dirs@;
    let dirs: Vec<usize> = reordered(dirs, rng);
    proof {
        assert(before =~= seq![0usize, 1, 2, 3, 4, 5]);
        lemma_shuffled(before, dirs@);
        assert forall|i: int| 0 <= i < 6 implies #[trigger] dirs@[i] < 6 by {
            assert(dirs@.contains(dirs@[i]));
            assert(before.contains(dirs@[i]));
        }
        assert forall|d: usize| d < 6 implies #[trigger] dirs@.contains(d) by {
            assert(before[d as int] == d);
        }
    }
    dirs
}

/// Whether the marks tell which cells of the board have been reached.
spec fn marks_reached(visited: Seq<bool>, tree: Seq<Edge>) -> bool {
    forall|c: int| 0 <= c < visited.len() ==> #[trigger] visited[c] == reached(tree).contains(c)
}

/// Whether every neighbour of `c` has been reached.
spec fn is_done(links: Seq<[Option<usize>; 6]>, visited: Seq<bool>, c: int) -> bool {
    forall|dir: int| 0 <= dir < 6 && (#[trigger] links[c]@[dir]) is Some ==> visited[links[c]@[dir]->0 as int]
}

/// Whether a cell waits in `stack`.
spec fn waits(stack: Seq<usize>, c: int) -> bool {
    exists|i: int| 0 <= i < stack.len() && #[trigger] stack[i] == c
}

/// Adds an edge to the tree.
proof fn lemma_grow(links: Seq<[Option<usize>; 6]>, visited: Seq<bool>, tree: Seq<Edge>, edge: Edge)
    requires
        links_in_range(links),
        visited.len() == links.len(),
        grows(links, tree),
        marks_reached(visited, tree),
        joins(links, edge),
        visited[edge.0 as int],
        !visited[edge.1 as int],
    ensures
        grows(links, tree.push(edge)),
        marks_reached(visited.update(edge.1 as int, true), tree.push(edge)),
{
    assert(tree.push(edge).drop_last() =~= tree);
    assert(links[edge.0 as int]@[edge.2 as int] is Some);
}

/// Whether direction `dir` leads from `node` to a cell that `tree` has not
/// reached.
pub open spec fn leads_on(links: Seq<[Option<usize>; 6]>, tree: Seq<Edge>, node: usize, dir: usize) -> bool {
    links[node as int]@[dir as int] is Some && !reached(tree).contains(links[node as int]@[dir as int]->0 as int)
}

/// Whether a walk that stands at the end of `path` goes on by the first of
/// `dirs` that leads to a new cell, or backs up if there is none.
pub open spec fn walks_on(
    links: Seq<[Option<usize>; 6]>,
    tree: Seq<Edge>,
    path: Seq<usize>,
    dirs: Seq<usize>,
    longer: Seq<Edge>,
    next: Seq<usize>,
) -> bool {
    let node = path.last();
    &&& path.len() > 0
    &&& if exists|k: int| 0 <= k < 6 && leads_on(links, tree, node, #[trigger] dirs[k]) {
        exists|k: int|
            0 <= k < 6 && leads_on(links, tree, node, #[trigger] dirs[k]) && (forall|j: int|
                0 <= j < k ==> !leads_on(links, tree, node, #[trigger] dirs[j])) && longer == tree.push(
                (node, links[node as int]@[dirs[k] as int]->0, dirs[k]),
            ) && next == path.push(links[node as int]@[dirs[k] as int]->0)
    } else {
        longer == tree && next == path.drop_last()
    }
}

/// Whether a walk from cell 0 has come to `tree` and `path` in `n` steps, with
/// the orders of directions that generator `before` gives in turn, and the
/// generator is `after` then.
pub open spec fn walked(
    before: StdRng,
    after: StdRng,
    links: Seq<[Option<usize>; 6]>,
    tree: Seq<Edge>,
    path: Seq<usize>,
    n: int,
) -> bool
    decreases n,
{
    if n <= 0 {
        before == after && tree.len() == 0 && path == seq![0usize]
    } else {
        exists|mid: StdRng, dirs: Seq<usize>, less: Seq<Edge>, last: Seq<usize>|
            #![trigger dirs_drawn(mid, after, dirs), walks_on(links, less, last, dirs, tree, path)]
            dirs_drawn(mid, after, dirs) && walks_on(links, less, last, dirs, tree, path) && walked(
                before,
                mid,
                links,
                less,
                last,
                n - 1,
            )
    }
}

/// Whether `tree` is the one that a walk with the draws of generator `before`
/// ends with, and the generator is `after` then.
pub open spec fn tree_walked(before: StdRng, after: StdRng, links: Seq<[Option<usize>; 6]>, tree: Seq<Edge>) -> bool {
    exists|n: int| 0 <= n && #[trigger] walked(before, after, links, tree, Seq::empty(), n)
}

/// A spanning tree found by going on from the last cell reached and backing
/// up where nothing is left to reach.
pub fn random_spanning_tree(neighbors: &Links, rng: &mut StdRng) -> (tree: Vec<Edge>)
    requires
        neighbors.len() > 0,
        links_in_range(neighbors@),
    ensures
        spans(neighbors@, tree@),
        tree_walked(*old(rng), *final(rng), neighbors@, tree@),
{
    let n: usize = neighbors.len();
    let mut visited: Vec<bool> = Vec::new();
    for i in 0..n
        invariant
            visited.len() == i,
            forall|c: int| 0 <= c < i ==> !#[trigger] visited@[c],
    {
        visited.push(false);
    }
    visited[0] = true;
    let mut stack: Vec<usize> = Vec::new();
    stack.push(0);
    let mut tree: Vec<Edge> = Vec::new();
    assert(stack@[0] == 0);
    let ghost mut steps: int = 0;
    assert(stack@ =~= seq![0usize]);
    while stack.len() > 0
        invariant
            0 <= steps,
            walked(*old(rng), *rng, neighbors@, tree@, stack@, steps),
            n == neighbors.len(),
            n == visited.len(),
            links_in_range(neighbors@),
            grows(neighbors@, tree@),
            marks_reached(visited@, tree@),
            forall|i: int| 0 <= i < stack.len() ==> (#[trigger] stack@[i]) < n && visited@[stack@[i] as int],
            forall|c: int|
                0 <= c < n && (#[trigger] visited@[c]) ==> waits(stack@, c) || is_done(neighbors@, visited@, c),
        decreases 2 * unset(visited@) + stack.len(),
    {
        let current: usize = stack[stack.len() - 1];
        let ghost mid = *rng;
        let ghost less = tree@;
        let ghost last = stack@;
        let dirs: Vec<usize> = shuffled_dirs(rng);
        let mut next_edge: Option<Edge> = None;
        let mut i: usize = 0;
        while i < dirs.len() && next_edge.is_none()
            invariant
                n == neighbors.len(),
                n == visited.len(),
                links_in_range(neighbors@),
                current < n,
                i <= dirs.len(),
                dirs.len() == 6,
                forall|k: int| 0 <= k < 6 ==> #[trigger] dirs@[k] < 6,
                match next_edge {
                    Some(edge) => {
                        &&& joins(neighbors@, edge)
                        &&& edge.0 == current
                        &&& !visited@[edge.1 as int]
                        &&& 0 < i
                        &&& edge.2 == dirs@[i - 1]
                        &&& forall|k: int|
                            0 <= k < i - 1 ==> {
                                let link = neighbors@[current as int]@[#[trigger] dirs@[k] as int];
                                link is Some ==> visited@[link->0 as int]
                            }
                    },
                    None => forall|k: int|
                        0 <= k < i ==> {
                            let link = neighbors@[current as int]@[#[trigger] dirs@[k] as int];
                            link is Some ==> visited@[link->0 as int]
                        },
                },
            decreases dirs.len() - i,
        {
            let dir: usize = dirs[i];
            if let Some(next) = neighbors[current][dir] {
                if !visited[next] {
                    next_edge = Some((current, next, dir));
                }
            }
            i = i + 1;
        }
        match next_edge {
            Some((a, b, dir)) => {
                let ghost marks = visited@;
                let ghost waiting = stack@;
                proof {
                    lemma_grow(neighbors@, visited@, tree@, (a, b, dir));
                    assert(neighbors@[a as int]@[dir as int] is Some);
                    lemma_unset_update(visited@, b as int);
                }
                proof {
                    assert forall|k: int| 0 <= k < i - 1 implies !leads_on(
                        neighbors@,
                        less,
                        current,
                        #[trigger] dirs@[k],
                    ) by {
                    }
                    assert(leads_on(neighbors@, less, current, dirs@[i - 1]));
                }
                visited[b] = true;
                tree.push((a, b, dir));
                stack.push(b);
                assert(walks_on(neighbors@, less, last, dirs@, tree@, stack@));
                assert(stack@[stack@.len() - 1] == b);
                assert forall|c: int| 0 <= c < n && (#[trigger] visited@[c]) implies waits(stack@, c) || is_done(
                    neighbors@,
                    visited@,
                    c,
                ) by {
                    if c != b {
                        assert(marks[c]);
                        if waits(waiting, c) {
                            let k = choose|k: int| 0 <= k < waiting.len() && #[trigger] waiting[k] == c;
                            assert(stack@[k] == c);
                        }
                    }
                }
            },
            None => {
                let ghost waiting = stack@;
                assert(is_done(neighbors@, visited@, current as int)) by {
                    assert forall|dir: int|
                        0 <= dir < 6 && (#[trigger] neighbors@[current as int]@[dir]) is Some implies visited@[neighbors@[current as int]@[dir]->0 as int] by {
                        assert(dirs@.contains(dir as usize));
                        let k = choose|k: int| 0 <= k < dirs@.len() && dirs@[k] == dir;
                        assert(dirs@[k] == dir);
                    }
                }
                stack.pop();
                proof {
                    assert forall|k: int| 0 <= k < 6 implies !leads_on(neighbors@, less, current, #[trigger] dirs@[k]) by {
                    }
                    assert(stack@ =~= last.drop_last());
                    assert(walks_on(neighbors@, less, last, dirs@, tree@, stack@));
                }
                assert forall|c: int| 0 <= c < n && (#[trigger] visited@[c]) implies waits(stack@, c) || is_done(
                    neighbors@,
                    visited@,
                    c,
                ) by {
                    if c != current && waits(waiting, c) {
                        let k = choose|k: int| 0 <= k < waiting.len() && #[trigger] waiting[k] == c;
                        assert(stack@[k] == c);
                    }
                }
            },
        }
        proof {
            assert(dirs_drawn(mid, *rng, dirs@));
            steps = steps + 1;
        }
    }
    proof {
        assert(stack@ =~= Seq::<usize>::empty());
        lemma_reached(neighbors@, tree@);
        assert forall|c: int, dir: int|
            0 <= c < neighbors@.len() && 0 <= dir < 6 && reached(tree@).contains(c) && (#[trigger] neighbors@[c]@[dir]) is Some implies reached(tree@).contains(neighbors@[c]@[dir]->0 as int) by {
            assert(visited@[c]);
            assert(!waits(stack@, c));
            assert(is_done(neighbors@, visited@, c));
            let nb = neighbors@[c]@[dir]->0;
            assert(visited@[nb as int]);
        }
    }
    tree
}

/// Whether the tree has an edge between the cells `low` and `high`.
pub open spec fn tree_joins(tree: Seq<Edge>, low: int, high: int) -> bool {
    exists|k: int| 0 <= k < tree.len() && between(#[trigger] tree[k], low, high)
}

/// Whether an edge runs between two cells, one way or the other.
pub open spec fn between(edge: Edge, low: int, high: int) -> bool {
    let (a, b, _) = edge;
    (a == low && b == high) || (a == high && b == low)
}

/// Whether `partners` holds for each cell the greater cells that the tree
/// joins to it.
pub open spec fn pairs_tree(partners: Seq<Vec<usize>>, tree: Seq<Edge>) -> bool {
    forall|low: int, high: int|
        0 <= low < high <= usize::MAX && low < partners.len() ==> #[trigger] partners[low]@.contains(high as usize)
            == tree_joins(tree, low, high)
}

pub(crate) proof fn lemma_pairs_push(
    before: Seq<Vec<usize>>,
    after: Seq<Vec<usize>>,
    tree: Seq<Edge>,
    edge: Edge,
    low: int,
    high: usize,
)
    requires
        pairs_tree(before, tree),
        0 <= low < before.len(),
        low < high,
        between(edge, low, high as int),
        after.len() == before.len(),
        after[low]@ == before[low]@.push(high),
        forall|c: int| 0 <= c < before.len() && c != low ==> #[trigger] after[c] == before[c],
    ensures
        pairs_tree(after, tree.push(edge)),
{
    let grown = tree.push(edge);
    assert forall|lo: int, hi: int| 0 <= lo < hi <= usize::MAX && lo < after.len() implies #[trigger] after[lo]@.contains(hi as usize)
        == tree_joins(grown, lo, hi) by {
        assert(before[lo]@.contains(hi as usize) == tree_joins(tree, lo, hi));
        if tree_joins(tree, lo, hi) {
            let k = choose|k: int| 0 <= k < tree.len() && between(#[trigger] tree[k], lo, hi);
            assert(between(grown[k], lo, hi));
            let i = choose|i: int| 0 <= i < before[lo]@.len() && before[lo]@[i] == hi as usize;
            assert(after[lo]@[i] == hi as usize);
        } else if tree_joins(grown, lo, hi) {
            let k = choose|k: int| 0 <= k < grown.len() && between(#[trigger] grown[k], lo, hi);
            assert(k < tree.len() ==> grown[k] == tree[k]);
            assert(after[lo]@[after[lo]@.len() - 1] == hi as usize);
        } else {
            assert(between(grown[grown.len() - 1], low, high as int));
            if after[lo]@.contains(hi as usize) {
                let i = choose|i: int| 0 <= i < after[lo]@.len() && after[lo]@[i] == hi as usize;
                if i < before[lo]@.len() {
                    assert(before[lo]@[i] == hi as usize);
                }
                assert(false);
            }
        }
    }
}

/// What holds while a spanning tree is being found by taking cells off
/// `stack`: the cell `open` is being looked at, if it is one.
spec fn spreading(
    links: Seq<[Option<usize>; 6]>,
    visited: Seq<bool>,
    stack: Seq<usize>,
    partners: Seq<Vec<usize>>,
    tree: Seq<Edge>,
    open: int,
) -> bool {
    &&& visited.len() == links.len()
    &&& partners.len() == links.len()
    &&& grows(links, tree)
    &&& marks_reached(visited, tree)
    &&& pairs_tree(partners, tree)
    &&& forall|i: int| 0 <= i < stack.len() ==> (#[trigger] stack[i]) < links.len() && visited[stack[i] as int]
    &&& forall|c: int|
        0 <= c < links.len() && (#[trigger] visited[c]) && open != c ==> waits(stack, c) || is_done(
            links,
            visited,
            c,
        )
}

proof fn lemma_spread_step(
    links: Seq<[Option<usize>; 6]>,
    visited: Seq<bool>,
    stack: Seq<usize>,
    partners: Seq<Vec<usize>>,
    tree: Seq<Edge>,
    edge: Edge,
    after: Seq<Vec<usize>>,
    low: int,
    high: usize,
)
    requires
        links_in_range(links),
        spreading(links, visited, stack, partners, tree, edge.0 as int),
        joins(links, edge),
        visited[edge.0 as int],
        !visited[edge.1 as int],
        0 <= low < high,
        low < partners.len(),
        between(edge, low, high as int),
        after.len() == partners.len(),
        after[low]@ == partners[low]@.push(high),
        forall|c: int| 0 <= c < partners.len() && c != low ==> #[trigger] after[c] == partners[c],
    ensures
        spreading(
            links,
            visited.update(edge.1 as int, true),
            stack.push(edge.1),
            after,
            tree.push(edge),
            edge.0 as int,
        ),
{
    lemma_grow(links, visited, tree, edge);
    lemma_pairs_push(partners, after, tree, edge, low, high);
    let marks = visited.update(edge.1 as int, true);
    let waiting = stack.push(edge.1);
    assert(links[edge.0 as int]@[edge.2 as int] is Some);
    assert(waiting[waiting.len() - 1] == edge.1);
    assert forall|c: int| 0 <= c < links.len() && (#[trigger] marks[c]) && edge.0 != c implies waits(waiting, c)
        || is_done(links, marks, c) by {
        if c != edge.1 {
            assert(visited[c]);
            if waits(stack, c) {
                let k = choose|k: int| 0 <= k < stack.len() && #[trigger] stack[k] == c;
                assert(waiting[k] == c);
            }
        }
    }
}

/// The tree and the stack once cell `node` has reached out in the first `k` of
/// the directions: every new cell is joined to it and put on the stack.
pub open spec fn reaching_out(
    links: Seq<[Option<usize>; 6]>,
    node: usize,
    dirs: Seq<usize>,
    k: int,
    tree: Seq<Edge>,
    stack: Seq<usize>,
) -> (Seq<Edge>, Seq<usize>)
    decreases k,
{
    if k <= 0 {
        (tree, stack)
    } else {
        let (less, fewer) = reaching_out(links, node, dirs, k - 1, tree, stack);
        let dir = dirs[k - 1];
        if leads_on(links, less, node, dir) {
            let next = links[node as int]@[dir as int]->0;
            (less.push((node, next, dir)), fewer.push(next))
        } else {
            (less, fewer)
        }
    }
}

/// Whether the last cell of `waiting` reaches out in the order of `dirs`.
pub open spec fn spreads_on(
    links: Seq<[Option<usize>; 6]>,
    less: Seq<Edge>,
    waiting: Seq<usize>,
    dirs: Seq<usize>,
    tree: Seq<Edge>,
    stack: Seq<usize>,
) -> bool {
    &&& waiting.len() > 0
    &&& (tree, stack) == reaching_out(links, waiting.last(), dirs, 6, less, waiting.drop_last())
}

/// Whether cells taken off a stack that holds cell 0 at first have come to
/// `tree` and `stack` after `n` of them have reached out, in the orders of
/// directions that generator `before` gives in turn, and the generator is
/// `after` then.
pub open spec fn spread(
    before: StdRng,
    after: StdRng,
    links: Seq<[Option<usize>; 6]>,
    tree: Seq<Edge>,
    stack: Seq<usize>,
    n: int,
) -> bool
    decreases n,
{
    if n <= 0 {
        before == after && tree.len() == 0 && stack == seq![0usize]
    } else {
        exists|mid: StdRng, dirs: Seq<usize>, less: Seq<Edge>, waiting: Seq<usize>|
            #![trigger dirs_drawn(mid, after, dirs), spreads_on(links, less, waiting, dirs, tree, stack)]
            dirs_drawn(mid, after, dirs) && spreads_on(links, less, waiting, dirs, tree, stack) && spread(
                before,
                mid,
                links,
                less,
                waiting,
                n - 1,
            )
    }
}

/// Whether `tree` is the one that is found with the draws of generator
/// `before` by taking cells off a stack until it is empty, and the generator
/// is `after` then.
pub open spec fn tree_spread(before: StdRng, after: StdRng, links: Seq<[Option<usize>; 6]>, tree: Seq<Edge>) -> bool {
    exists|n: int| 0 <= n && #[trigger] spread(before, after, links, tree, Seq::empty(), n)
}

/// A spanning tree found by taking cells off a stack and reaching out to
/// every neighbour at once: for each cell the greater cells joined to it.
pub fn spanning_tree_edges(neighbors: &Links, rng: &mut StdRng) -> (partners: Vec<Vec<usize>>)
    requires
        neighbors.len() > 0,
        links_in_range(neighbors@),
    ensures
        partners.len() == neighbors.len(),
        exists|tree: Seq<Edge>| #[trigger]
            spans(neighbors@, tree) && pairs_tree(partners@, tree) && tree_spread(
                *old(rng),
                *final(rng),
                neighbors@,
                tree,
            ),
{
    let n: usize = neighbors.len();
    let mut visited: Vec<bool> = Vec::new();
    let mut partners: Vec<Vec<usize>> = Vec::new();
    for i in 0..n
        invariant
            visited.len() == i,
            partners.len() == i,
            forall|c: int| 0 <= c < i ==> !#[trigger] visited@[c],
            forall|c: int| 0 <= c < i ==> (#[trigger] partners@[c])@.len() == 0,
    {
        visited.push(false);
        partners.push(Vec::new());
    }
    visited[0] = true;
    let mut stack: Vec<usize> = Vec::new();
    stack.push(0);
    let ghost mut tree: Seq<Edge> = Seq::empty();
    assert(stack@[0] == 0);
    assert(spreading(neighbors@, visited@, stack@, partners@, tree, -1));
    let ghost mut steps: int = 0;
    assert(stack@ =~= seq![0usize]);
    while stack.len() > 0
        invariant
            0 <= steps,
            spread(*old(rng), *rng, neighbors@, tree, stack@, steps),
            n == neighbors.len(),
            links_in_range(neighbors@),
            spreading(neighbors@, visited@, stack@, partners@, tree, -1),
        decreases 2 * unset(visited@) + stack.len(),
    {
        let ghost waiting = stack@;
        let ghost before = 2 * unset(visited@) + stack.len();
        let node: usize = stack[stack.len() - 1];
        stack.pop();
        let ghost mid = *rng;
        let ghost less = tree;
        let ghost left = stack@;
        assert(left =~= waiting.drop_last());
        assert(spreading(neighbors@, visited@, stack@, partners@, tree, node as int)) by {
            assert forall|c: int| 0 <= c < n && (#[trigger] visited@[c]) && node != c implies waits(stack@, c)
                || is_done(neighbors@, visited@, c) by {
                if waits(waiting, c) {
                    let k = choose|k: int| 0 <= k < waiting.len() && #[trigger] waiting[k] == c;
                    assert(stack@[k] == c);
                }
            }
        }
        assert(visited@[node as int]) by {
            assert(visited@[waiting[waiting.len() - 1] as int]);
        }
        let dirs: Vec<usize> = shuffled_dirs(rng);
        for i in 0..dirs.len()
            invariant
                (tree, stack@) == reaching_out(neighbors@, node, dirs@, i as int, less, left),
                n == neighbors.len(),
                links_in_range(neighbors@),
                node < n,
                dirs.len() == 6,
                forall|k: int| 0 <= k < 6 ==> #[trigger] dirs@[k] < 6,
                spreading(neighbors@, visited@, stack@, partners@, tree, node as int),
                visited@[node as int],
                2 * unset(visited@) + stack.len() < before,
                forall|k: int|
                    0 <= k < i ==> {
                        let link = neighbors@[node as int]@[#[trigger] dirs@[k] as int];
                        link is Some ==> visited@[link->0 as int]
                    },
        {
            let dir: usize = dirs[i];
            assert(leads_on(neighbors@, tree, node, dir) == (neighbors@[node as int]@[dir as int] is Some
                && !visited@[neighbors@[node as int]@[dir as int]->0 as int]));
            if let Some(next) = neighbors[node][dir] {
                assert(neighbors@[node as int]@[dir as int] is Some);
                if !visited[next] {
                    let low: usize = if node < next { node } else { next };
                    let high: usize = if node < next { next } else { node };
                    let ghost marks = visited@;
                    let ghost old_partners = partners@;
                    let ghost old_stack = stack@;
                    partners[low].push(high);
                    visited[next] = true;
                    stack.push(next);
                    proof {
                        lemma_unset_update(marks, next as int);
                        lemma_spread_step(
                            neighbors@,
                            marks,
                            old_stack,
                            old_partners,
                            tree,
                            (node, next, dir),
                            partners@,
                            low as int,
                            high,
                        );
                        tree = tree.push((node, next, dir));
                    }
                }
            }
        }
        proof {
            assert(dirs_drawn(mid, *rng, dirs@));
            assert(spreads_on(neighbors@, less, waiting, dirs@, tree, stack@));
            steps = steps + 1;
        }
        assert(is_done(neighbors@, visited@, node as int)) by {
            assert forall|dir: int|
                0 <= dir < 6 && (#[trigger] neighbors@[node as int]@[dir]) is Some implies visited@[neighbors@[node as int]@[dir]->0 as int] by {
                assert(dirs@.contains(dir as usize));
                let k = choose|k: int| 0 <= k < dirs@.len() && dirs@[k] == dir;
                assert(dirs@[k] == dir);
            }
        }
    }
    proof {
        lemma_reached(neighbors@, tree);
        assert forall|c: int, dir: int|
            0 <= c < neighbors@.len() && 0 <= dir < 6 && reached(tree).contains(c) && (#[trigger] neighbors@[c]@[dir]) is Some implies reached(tree).contains(neighbors@[c]@[dir]->0 as int) by {
            assert(visited@[c]);
            assert(!waits(stack@, c));
            assert(is_done(neighbors@, visited@, c));
            let nb = neighbors@[c]@[dir]->0;
            assert(visited@[nb as int]);
        }
        assert(stack@ =~= Seq::<usize>::empty());
        assert(spans(neighbors@, tree));
    }
    partners
}

/// Two different inner edges, seen from either side, lie at different places.
pub proof fn lemma_edges_apart(links: Seq<[Option<usize>; 6]>, e: Edge, f: Edge)
    requires
        links.len() <= usize::MAX,
        links_in_range(links),
        links_mutual(links),
        joins(links, e),
        joins(links, f),
        is_forward(e),
        is_forward(f),
        e != f,
    ensures
        !(e.0 == f.0 && e.2 == f.2),
        !(e.1 == f.1 && opposite(e.2 as int) == opposite(f.2 as int)),
        !(e.0 == f.1 && e.2 == opposite(f.2 as int)),
        !(e.1 == f.0 && opposite(e.2 as int) == f.2),
        e.1 < links.len(),
        links[e.1 as int]@[opposite(e.2 as int)] == Some(e.0),
{
    assert(leads_back(links, e.0 as int, e.2 as int));
    assert(leads_back(links, f.0 as int, f.2 as int));
    assert(links[e.0 as int]@[e.2 as int] is Some);
    assert(links[f.0 as int]@[f.2 as int] is Some);
}

/// What an inner edge finds on the far side.
pub proof fn lemma_edge_back(links: Seq<[Option<usize>; 6]>, e: Edge)
    requires
        links.len() <= usize::MAX,
        links_in_range(links),
        links_mutual(links),
        joins(links, e),
    ensures
        e.1 < links.len(),
        e.1 != e.0,
        links[e.1 as int]@[opposite(e.2 as int)] == Some(e.0),
{
    assert(leads_back(links, e.0 as int, e.2 as int));
    assert(links[e.0 as int]@[e.2 as int] is Some);
}

/// Different places of a list of edges hold different edges.
pub proof fn lemma_listed_apart(links: Seq<[Option<usize>; 6]>, edges: Seq<Edge>, i: int, j: int)
    requires
        lists_edges(links, edges),
        0 <= i < edges.len(),
        0 <= j < edges.len(),
        i != j,
    ensures
        edges[i] != edges[j],
{
    if i < j {
        assert(edge_rank(edges[i]) < edge_rank(edges[j]));
    } else {
        assert(edge_rank(edges[j]) < edge_rank(edges[i]));
    }
}

} // verus!
