//! Clusters of cells that grow from the origin, a neighbour at a time.

use crate::edges::{dirs_drawn, shuffled_dirs};
use crate::grid::{steps_to, Axial, DIRS};
use crate::rng::{gave_index, gave_item, next_index, next_item};
use crate::shapes::DRAW_LIMIT;
use rand::rngs::StdRng;
use vstd::prelude::*;

verus! {

/// Whether cell `k` is a neighbour of a cell listed before it.
pub open spec fn touches(cells: Seq<Axial>, k: int) -> bool {
    exists|j: int, dir: int| 0 <= j < k && 0 <= dir < 6 && #[trigger] steps_to(cells[j], dir, cells[k])
}

/// Whether `cells` is a cluster: different cells, the origin first, each
/// other one a neighbour of one before it.
pub open spec fn is_cluster(cells: Seq<Axial>) -> bool {
    &&& cells.len() >= 1
    &&& cells[0] == (Axial { q: 0, r: 0 })
    &&& cells.no_duplicates()
    &&& forall|k: int| 1 <= k < cells.len() ==> #[trigger] touches(cells, k)
}

/// Whether every cell is so near the origin as a cluster of this size allows.
pub open spec fn near_origin(cells: Seq<Axial>) -> bool {
    forall|k: int| #![trigger cells[k]]
        0 <= k < cells.len() ==> -k <= cells[k].q <= k && -k <= cells[k].r <= k
}

proof fn lemma_cluster_grows(cells: Seq<Axial>, j: int, dir: int, next: Axial)
    requires
        is_cluster(cells),
        near_origin(cells),
        0 <= j < cells.len(),
        0 <= dir < 6,
        steps_to(cells[j], dir, next),
        !cells.contains(next),
    ensures
        is_cluster(cells.push(next)),
        near_origin(cells.push(next)),
{
    let after = cells.push(next);
    assert forall|k: int| 1 <= k < after.len() implies #[trigger] touches(after, k) by {
        if k < cells.len() {
            assert(touches(cells, k));
            let (i, d) = choose|i: int, d: int| 0 <= i < k && 0 <= d < 6 && #[trigger] steps_to(cells[i], d, cells[k]);
            assert(steps_to(after[i], d, after[k]));
        } else {
            assert(steps_to(after[j], dir, after[k]));
        }
    }
}

fn holds_cell(cells: &Vec<Axial>, cell: &Axial) -> (held: bool)
    ensures
        held == cells@.contains(*cell),
{
    for i in 0..cells.len()
        invariant
            forall|j: int| 0 <= j < i ==> #[trigger] cells@[j] != *cell,
    {
        if cells[i].q == cell.q && cells[i].r == cell.r {
            assert(cells@[i as int] == *cell);
            return true;
        }
    }
    false
}

/// The neighbour of a cell of a cluster.
fn step_from(cells: &Vec<Axial>, i: usize, dir: usize) -> (next: Axial)
    requires
        near_origin(cells@),
        cells.len() < i32::MAX,
        i < cells.len(),
        dir < 6,
    ensures
        steps_to(cells@[i as int], dir as int, next),
{
    let base: Axial = cells[i];
    assert(-i <= cells@[i as int].q <= i);
    let (dq, dr) = DIRS[dir];
    base.add(Axial::new(dq, dr))
}

/// A cell that lies as far out as any in the first direction.
fn outermost(cells: &Vec<Axial>) -> (i: usize)
    requires
        cells.len() > 0,
    ensures
        i < cells.len(),
        forall|k: int| 0 <= k < cells.len() ==> (#[trigger] cells@[k]).q <= cells@[i as int].q,
{
    let mut i: usize = 0;
    for k in 1..cells.len()
        invariant
            i < cells.len(),
            forall|j: int| 0 <= j < k ==> (#[trigger] cells@[j]).q <= cells@[i as int].q,
    {
        if cells[k].q > cells[i].q {
            i = k;
        }
    }
    i
}

/// Adds a neighbour of an outermost cell to a cluster.
fn grow_outward(cells: &mut Vec<Axial>)
    requires
        is_cluster(old(cells)@),
        near_origin(old(cells)@),
        old(cells).len() < i32::MAX,
    ensures
        is_cluster(final(cells)@),
        near_origin(final(cells)@),
        final(cells).len() == old(cells).len() + 1,
        exists|i: int|
            0 <= i < old(cells).len() && #[trigger] steps_to(old(cells)@[i], 0, final(cells)@.last()) && (forall|k: int|
                0 <= k < old(cells).len() ==> (#[trigger] old(cells)@[k]).q <= old(cells)@[i].q),
        final(cells)@ == old(cells)@.push(final(cells)@.last()),
{
    let i: usize = outermost(cells);
    let next: Axial = step_from(cells, i, 0);
    assert(!cells@.contains(next)) by {
        assert(next.q == cells@[i as int].q + 1);
    }
    proof {
        lemma_cluster_grows(cells@, i as int, 0, next);
    }
    cells.push(next);
    assert(steps_to(old(cells)@[i as int], 0, cells@.last()));
}

/// Whether a cluster grows from a cell, in an order of directions, that
/// generator `before` gives, and the generator is `after` then.
pub open spec fn growth_drawn(before: StdRng, after: StdRng, less: Seq<Axial>, cells: Seq<Axial>) -> bool {
    exists|mid: StdRng, i: usize, dirs: Seq<usize>|
        #![trigger gave_index(before, mid, 0, less.len() as usize, i), dirs_drawn(mid, after, dirs)]
        gave_index(before, mid, 0, less.len() as usize, i) && dirs_drawn(mid, after, dirs) && grown_from(
            less,
            i as int,
            dirs,
            cells,
        )
}

/// Whether the cluster of the origin alone, as long as it is smaller than
/// `size`, has come to `cells` after growing `n` times with what generator
/// `before` gives in turn, and the generator is `after` then.
pub open spec fn cluster_grown(before: StdRng, after: StdRng, size: int, cells: Seq<Axial>, n: int) -> bool
    decreases n,
{
    if n <= 0 {
        before == after && cells == seq![Axial { q: 0, r: 0 }]
    } else {
        exists|mid: StdRng, less: Seq<Axial>| #[trigger]
            growth_drawn(mid, after, less, cells) && less.len() < size && cluster_grown(
                before,
                mid,
                size,
                less,
                n - 1,
            )
    }
}

/// Whether `cells` is the cluster that is grown to `size` with what generator
/// `before` gives, and the generator is `after` then. No more is said should
/// it not be grown after as many draws as can be counted.
pub open spec fn cluster_drawn(before: StdRng, after: StdRng, size: int, cells: Seq<Axial>) -> bool {
    exists|n: int, less: Seq<Axial>| #[trigger]
        cluster_grown(before, after, size, less, n) && 0 <= n <= usize::MAX && (n < usize::MAX ==> cells == less
            && less.len() >= size)
}

/// A random cluster: a cell of it is chosen, and its neighbours are tried in
/// random order until one is new. Should the draws run out, it grows outward.
pub fn build_cluster_positions(size: usize, rng: &mut StdRng) -> (cells: Vec<Axial>)
    requires
        size < i32::MAX,
    ensures
        is_cluster(cells@),
        near_origin(cells@),
        cells.len() == (if size > 1 {
            size
        } else {
            1
        }),
        cluster_drawn(*old(rng), *final(rng), size as int, cells@),
{
    let mut cells: Vec<Axial> = Vec::new();
    cells.push(Axial::new(0, 0));
    let mut draws: usize = 0;
    let ghost mut grown = cells@;
    assert(cells@ =~= seq![Axial { q: 0, r: 0 }]);
    while cells.len() < size
        invariant
            size < i32::MAX,
            is_cluster(cells@),
            near_origin(cells@),
            cells.len() <= (if size > 1 {
                size
            } else {
                1
            }),
            cluster_grown(*old(rng), *rng, size as int, grown, draws as int),
            draws < usize::MAX ==> cells@ == grown,
        decreases size - cells.len(), DRAW_LIMIT - draws,
    {
        if draws >= DRAW_LIMIT {
            grow_outward(&mut cells);
        } else {
            draws = draws + 1;
            let ghost start = *rng;
            let ghost less = cells@;
            let i: usize = next_index(rng, 0, cells.len());
            let ghost mid = *rng;
            let dirs: Vec<usize> = shuffled_dirs(rng);
            grow_from(&mut cells, i, &dirs);
            proof {
                grown = cells@;
                assert(gave_index(start, mid, 0, less.len() as usize, i));
                assert(dirs_drawn(mid, *rng, dirs@));
                assert(growth_drawn(start, *rng, less, grown));
            }
        }
    }
    assert(cluster_grown(*old(rng), *rng, size as int, grown, draws as int));
    cells
}

/// Adds the first neighbour of a cell, in the order of `dirs`, that is not
/// in the cluster, if there is one.
pub fn grow_from(cells: &mut Vec<Axial>, i: usize, dirs: &Vec<usize>)
    requires
        is_cluster(old(cells)@),
        near_origin(old(cells)@),
        old(cells).len() < i32::MAX,
        i < old(cells).len(),
        forall|k: int| 0 <= k < dirs.len() ==> #[trigger] dirs@[k] < 6,
    ensures
        is_cluster(final(cells)@),
        near_origin(final(cells)@),
        grown_from(old(cells)@, i as int, dirs@, final(cells)@),
{
    for k in 0..dirs.len()
        invariant
            cells@ == old(cells)@,
            is_cluster(cells@),
            near_origin(cells@),
            cells.len() < i32::MAX,
            i < cells.len(),
            forall|j: int| 0 <= j < dirs.len() ==> #[trigger] dirs@[j] < 6,
            forall|j: int, next: Axial|
                0 <= j < k && #[trigger] steps_to(cells@[i as int], dirs@[j] as int, next) ==> cells@.contains(next),
    {
        let next: Axial = step_from(cells, i, dirs[k]);
        if !holds_cell(cells, &next) {
            proof {
                lemma_cluster_grows(cells@, i as int, dirs@[k as int] as int, next);
                assert(grown_by(cells@, i as int, dirs@, cells@.push(next), k as int, next));
            }
            cells.push(next);
            return;
        }
        assert forall|j: int, other: Axial|
            0 <= j < k + 1 && #[trigger] steps_to(cells@[i as int], dirs@[j] as int, other) implies cells@.contains(other) by {
            if j == k {
                assert(other == next);
            }
        }
    }
}

/// Whether `after` is `before` with the neighbour of cell `i` in direction
/// `dirs[k]`, which is the first one that `before` lacks.
pub open spec fn grown_by(before: Seq<Axial>, i: int, dirs: Seq<usize>, after: Seq<Axial>, k: int, next: Axial) -> bool {
    &&& 0 <= k < dirs.len()
    &&& steps_to(before[i], dirs[k] as int, next)
    &&& !before.contains(next)
    &&& after == before.push(next)
    &&& forall|j: int, other: Axial|
        0 <= j < k && #[trigger] steps_to(before[i], dirs[j] as int, other) ==> before.contains(other)
}

/// Whether `after` is `before` with the first neighbour of cell `i` that it
/// lacks, or `before` itself if it lacks none.
pub open spec fn grown_from(before: Seq<Axial>, i: int, dirs: Seq<usize>, after: Seq<Axial>) -> bool {
    ||| exists|k: int, next: Axial| #[trigger] grown_by(before, i, dirs, after, k, next)
    ||| after == before && forall|j: int, other: Axial|
        0 <= j < dirs.len() && #[trigger] steps_to(before[i], dirs[j] as int, other) ==> before.contains(other)
}

/// Whether the neighbour of a cell of a cluster, both of which generator
/// `before` picks, is added if it is new, and the generator is `after` then.
pub open spec fn neighbour_drawn(before: StdRng, after: StdRng, less: Seq<Axial>, cells: Seq<Axial>) -> bool {
    exists|mid: StdRng, base: Axial, dir: usize|
        #![trigger gave_item(before, mid, less, Some(base)), gave_index(mid, after, 0, 6, dir)]
        gave_item(before, mid, less, Some(base)) && gave_index(mid, after, 0, 6, dir) && forall|next: Axial| #[trigger]
            steps_to(base, dir as int, next) ==> cells == (if less.contains(next) {
                less
            } else {
                less.push(next)
            })
}

/// Whether the cluster of the origin alone, as long as it is smaller than
/// `size`, has come to `cells` after `n` neighbours that generator `before`
/// gives in turn, and the generator is `after` then.
pub open spec fn neighbours_added(before: StdRng, after: StdRng, size: int, cells: Seq<Axial>, n: int) -> bool
    decreases n,
{
    if n <= 0 {
        before == after && cells == seq![Axial { q: 0, r: 0 }]
    } else {
        exists|mid: StdRng, less: Seq<Axial>| #[trigger]
            neighbour_drawn(mid, after, less, cells) && less.len() < size && neighbours_added(
                before,
                mid,
                size,
                less,
                n - 1,
            )
    }
}

/// Whether `cells` is the cluster that is brought to `size` with what
/// generator `before` gives, and the generator is `after` then. No more is
/// said should it not be that large after as many draws as can be counted.
pub open spec fn neighbours_drawn(before: StdRng, after: StdRng, size: int, cells: Seq<Axial>) -> bool {
    exists|n: int, less: Seq<Axial>| #[trigger]
        neighbours_added(before, after, size, less, n) && 0 <= n <= usize::MAX && (n < usize::MAX ==> cells == less
            && less.len() >= size)
}

/// A random cluster: a cell of it and a direction are chosen until that
/// leads to a new cell. Should the draws run out, it grows outward.
pub fn random_cluster(size: usize, rng: &mut StdRng) -> (cells: Vec<Axial>)
    requires
        size < i32::MAX,
    ensures
        is_cluster(cells@),
        near_origin(cells@),
        cells.len() == (if size > 1 {
            size
        } else {
            1
        }),
        neighbours_drawn(*old(rng), *final(rng), size as int, cells@),
{
    let mut cells: Vec<Axial> = Vec::new();
    cells.push(Axial::new(0, 0));
    let mut draws: usize = 0;
    let ghost mut grown = cells@;
    assert(cells@ =~= seq![Axial { q: 0, r: 0 }]);
    while cells.len() < size
        invariant
            size < i32::MAX,
            is_cluster(cells@),
            near_origin(cells@),
            cells.len() <= (if size > 1 {
                size
            } else {
                1
            }),
            neighbours_added(*old(rng), *rng, size as int, grown, draws as int),
            draws < usize::MAX ==> cells@ == grown,
        decreases size - cells.len(), DRAW_LIMIT - draws,
    {
        if draws >= DRAW_LIMIT {
            grow_outward(&mut cells);
        } else {
            draws = draws + 1;
            let ghost start = *rng;
            let ghost less = cells@;
            let base: Axial = match next_item(cells.as_slice(), rng) {
                Some(cell) => cell,
                None => Axial::new(0, 0),
            };
            let ghost mid = *rng;
            let dir: usize = next_index(rng, 0, 6);
            let (dq, dr) = DIRS[dir];
            let ghost j = choose|j: int| 0 <= j < cells@.len() && cells@[j] == base;
            assert(cells@[j] == base);
            let next: Axial = base.add(Axial::new(dq, dr));
            if !holds_cell(&cells, &next) {
                proof {
                    lemma_cluster_grows(cells@, j, dir as int, next);
                }
                cells.push(next);
            }
            proof {
                grown = cells@;
                assert(gave_item(start, mid, less, Some(base)));
                assert(gave_index(mid, *rng, 0, 6, dir));
                assert forall|other: Axial| #[trigger] steps_to(base, dir as int, other) implies other == next by {
                }
                assert(neighbour_drawn(start, *rng, less, grown));
            }
        }
    }
    assert(neighbours_added(*old(rng), *rng, size as int, grown, draws as int));
    cells
}

} // verus!
